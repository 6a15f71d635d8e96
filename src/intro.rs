//! The decisions of the intro sequence: when to show the next logo piece,
//! when to start the closing fade, and when the intro is over.

use vstd::prelude::*;

verus! {

/// What the intro asks of the scene after a tick.
#[derive(Clone, Copy, Debug, PartialEq, Eq, Structural)]
pub enum IntroAction {
    /// Show the animation frame at this index of the list.
    Show(usize),
    /// Start fading the screen out.
    StartFade,
    /// The intro is over: move on to the title screen.
    Finish,
    /// Nothing to do this tick.
    Wait,
}

pub ghost struct IntroView {
    /// How long each frame stays, in milliseconds; frames are shown from
    /// the last to the first.
    pub durations: Seq<u64>,
    /// How many frames are still to be shown.
    pub remaining: nat,
    pub elapsed: nat,
    pub duration: nat,
    pub fading: bool,
}

/// One tick of `delta` milliseconds. The timer advances, never past its
/// duration. When it has run out, the next frame is shown and the timer
/// restarts with that frame's duration, or, with no frame left, the intro
/// finishes. Otherwise, once the last frame has been shown for half its
/// time, the fade starts, once.
pub open spec fn intro_step(s: IntroView, delta: nat) -> (IntroView, IntroAction) {
    let e: nat = if s.elapsed + delta < s.duration { s.elapsed + delta } else { s.duration };
    if e >= s.duration {
        if s.remaining > 0 {
            let next = (s.remaining - 1) as nat;
            (
                IntroView { remaining: next, elapsed: 0, duration: s.durations[next as int] as nat, ..s },
                IntroAction::Show(next as usize),
            )
        } else {
            (IntroView { elapsed: e, ..s }, IntroAction::Finish)
        }
    } else if !s.fading && s.remaining == 0 && 2 * e >= s.duration {
        (IntroView { elapsed: e, fading: true, ..s }, IntroAction::StartFade)
    } else {
        (IntroView { elapsed: e, ..s }, IntroAction::Wait)
    }
}

/// The state of the intro: the frames' durations, how many are still to
/// come, a one-shot timer and whether the fade has started.
pub struct IntroState {
    durations: Vec<u64>,
    remaining: usize,
    elapsed_ms: u64,
    duration_ms: u64,
    fading: bool,
}

impl View for IntroState {
    type V = IntroView;

    closed spec fn view(&self) -> IntroView {
        IntroView {
            durations: self.durations@,
            remaining: self.remaining as nat,
            elapsed: self.elapsed_ms as nat,
            duration: self.duration_ms as nat,
            fading: self.fading,
        }
    }
}

impl IntroState {
    pub open spec fn wf(&self) -> bool {
        &&& self@.remaining <= self@.durations.len()
        &&& self@.elapsed <= self@.duration
    }

    /// An intro over frames lasting `durations` milliseconds each, shown
    /// from the last to the first; its timer starts expired, so the first
    /// tick shows a frame.
    pub fn new(durations: Vec<u64>) -> (s: IntroState)
        ensures
            s.wf(),
            s@ == (IntroView {
                durations: durations@,
                remaining: durations@.len(),
                elapsed: 0,
                duration: 0,
                fading: false,
            }),
    {
        let remaining = durations.len();
        IntroState { durations, remaining, elapsed_ms: 0, duration_ms: 0, fading: false }
    }

    /// Advances the intro by `delta_ms` milliseconds.
    pub fn update(&mut self, delta_ms: u64) -> (a: IntroAction)
        requires
            old(self).wf(),
        ensures
            final(self).wf(),
            (final(self)@, a) == intro_step(old(self)@, delta_ms as nat),
    {
        let room: u64 = self.duration_ms - self.elapsed_ms;
        self.elapsed_ms = if delta_ms < room {
            self.elapsed_ms + delta_ms
        } else {
            self.duration_ms
        };
        if self.elapsed_ms >= self.duration_ms {
            if self.remaining > 0 {
                self.remaining = self.remaining - 1;
                self.elapsed_ms = 0;
                self.duration_ms = self.durations[self.remaining];
                IntroAction::Show(self.remaining)
            } else {
                IntroAction::Finish
            }
        } else if !self.fading && self.remaining == 0 && self.elapsed_ms as u128 * 2 >= self.duration_ms as u128 {
            self.fading = true;
            IntroAction::StartFade
        } else {
            IntroAction::Wait
        }
    }
}

/// Frames are shown one at a time from the last to the first, and the
/// fade starts at most once: a tick that shows a frame leaves one frame
/// fewer to come, and a state whose fade has started never asks for it again.
pub proof fn lemma_intro_progress(s: IntroView, d1: nat, d2: nat)
    requires
        s.remaining <= usize::MAX,
    ensures
        intro_step(s, d1).1 matches IntroAction::Show(i) ==> i == s.remaining - 1 && intro_step(s, d1).0.remaining
            == i,
        intro_step(s, d1).1 == IntroAction::StartFade ==> intro_step(s, d1).0.fading && intro_step(
            intro_step(s, d1).0,
            d2,
        ).1 != IntroAction::StartFade,
        s.fading ==> intro_step(s, d1).1 != IntroAction::StartFade && intro_step(s, d1).0.fading,
{
}

} // verus!
