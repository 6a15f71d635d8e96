//! Display settings: the aspect ratio and the fixed resolution it implies.

use vstd::prelude::*;

verus! {

/// Screen width for the 4:3 aspect ratio.
pub const WIDTH_STANDARD: u32 = 320;

/// Screen width for the 16:9 aspect ratio.
pub const WIDTH_WIDE: u32 = 427;

/// Screen width for the 21:9 aspect ratio.
pub const WIDTH_ULTRAWIDE: u32 = 573;

/// Screen height, the same for every aspect ratio.
pub const HEIGHT: u32 = 240;

#[derive(Clone, Copy, Debug, PartialEq, Eq, Structural)]
pub enum AspectRatio {
    Standard,
    Wide,
    Ultrawide,
}

/// A change of the settings.
#[derive(Clone, Copy, Debug, PartialEq, Eq, Structural)]
pub enum SaveEvent {
    /// Screen aspect ratio.
    AspectRatio(AspectRatio),
}

/// The resolution, in pixels, of an aspect ratio.
pub open spec fn resolution(ar: AspectRatio) -> (u32, u32) {
    match ar {
        AspectRatio::Standard => (WIDTH_STANDARD, HEIGHT),
        AspectRatio::Wide => (WIDTH_WIDE, HEIGHT),
        AspectRatio::Ultrawide => (WIDTH_ULTRAWIDE, HEIGHT),
    }
}

/// The aspect ratio after applying `events` in order: the last one wins.
pub open spec fn after_events(ar: AspectRatio, events: Seq<SaveEvent>) -> AspectRatio {
    if events.len() == 0 {
        ar
    } else {
        match events.last() {
            SaveEvent::AspectRatio(a) => a,
        }
    }
}

/// The display settings.
#[derive(Clone, Copy, Debug, PartialEq, Eq, Structural)]
pub struct ConfigState {
    pub ar: AspectRatio,
    pub fps: bool,
}

impl ConfigState {
    pub fn new(ar: AspectRatio, fps: bool) -> (c: ConfigState)
        ensures
            c.ar == ar,
            c.fps == fps,
    {
        ConfigState { ar, fps }
    }

    pub fn aspect_ratio(&self) -> (ar: AspectRatio)
        ensures
            ar == self.ar,
    {
        self.ar
    }

    /// The screen resolution, in pixels, of the current aspect ratio.
    pub fn screen_resolution(&self) -> (r: (u32, u32))
        ensures
            r == resolution(self.ar),
    {
        let width = match self.aspect_ratio() {
            AspectRatio::Standard => WIDTH_STANDARD,
            AspectRatio::Wide => WIDTH_WIDE,
            AspectRatio::Ultrawide => WIDTH_ULTRAWIDE,
        };
        (width, HEIGHT)
    }
}

/// Applies the settings changes in order.
pub fn save_config(state: &mut ConfigState, events: &Vec<SaveEvent>)
    ensures
        final(state).ar == after_events(old(state).ar, events@),
        final(state).fps == old(state).fps,
{
    let mut i: usize = 0;
    while i < events.len()
        invariant
            i <= events@.len(),
            state.ar == after_events(old(state).ar, events@.take(i as int)),
            state.fps == old(state).fps,
        decreases events@.len() - i,
    {
        match events[i] {
            SaveEvent::AspectRatio(ar) => {
                state.ar = ar;
            },
        }
        assert(events@.take(i as int + 1).last() == events@[i as int]);
        i = i + 1;
    }
    assert(events@.take(i as int) =~= events@);
}

} // verus!
