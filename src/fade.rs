//! Timed full-viewport fades: an alpha ramp over a fixed duration.

use crate::bitmap::Bitmap;
use crate::raster::{solid, Rgba8p};
use vstd::prelude::*;

verus! {

/// How far a fade has progressed, in 255ths: `elapsed / duration` scaled to
/// `0..=255` and rounded down; 255 once `elapsed` reaches `duration`.
pub open spec fn fade_fraction(elapsed: nat, duration: nat) -> int {
    if elapsed >= duration {
        255
    } else {
        (elapsed as int * 255) / (duration as int)
    }
}

/// Linear interpolation from `from` to `to` at `t` 255ths, in 8-bit
/// fixed point, rounded towards `from`.
pub open spec fn lerp8(from: u8, to: u8, t: int) -> int {
    if to >= from {
        from + ((to - from) * t) / 255
    } else {
        from - ((from - to) * t) / 255
    }
}

/// An 8-bit channel scaled by an 8-bit alpha: `c * a / 255`, rounded down.
pub open spec fn scale8(c: u8, a: int) -> u8 {
    ((c * a) / 255) as u8
}

/// `base` with every channel, alpha included, scaled by `alpha`: the
/// premultiplied form of `base` at that opacity.
pub open spec fn faded(base: Rgba8p, alpha: int) -> Rgba8p {
    Rgba8p { r: scale8(base.r, alpha), g: scale8(base.g, alpha), b: scale8(base.b, alpha), a: scale8(base.a, alpha) }
}

fn scale_channel(c: u8, alpha: u128) -> (r: u8)
    requires
        alpha <= 255,
    ensures
        r == scale8(c, alpha as int),
{
    proof {
        assert((c as int) * (alpha as int) <= 255 * 255) by (nonlinear_arith)
            requires
                c <= 255,
                alpha <= 255,
        ;
    }
    ((c as u128 * alpha) / 255) as u8
}

/// What one tick of a fade asks of its owner.
#[derive(Clone, Copy, Debug, PartialEq, Eq, Structural)]
pub enum FadeStep {
    /// Replace the placement's raster with a solid raster of this color.
    Color(Rgba8p),
    /// The fade is over: remove its placement. Reported once.
    Remove,
    /// The removal was already reported; nothing to do.
    Done,
}

pub ghost struct FadeView {
    pub elapsed: nat,
    pub duration: nat,
    pub from: u8,
    pub to: u8,
    pub base_color: Rgba8p,
    pub removed: bool,
}

/// One tick of `delta` milliseconds. A running fade advances its clock
/// (never past its duration) and yields its base color at the interpolated
/// alpha; a fade whose clock has reached its duration reports removal, and
/// from then on does nothing.
pub open spec fn fade_step(f: FadeView, delta: nat) -> (FadeView, FadeStep) {
    if f.removed {
        (f, FadeStep::Done)
    } else if f.elapsed >= f.duration {
        (FadeView { removed: true, ..f }, FadeStep::Remove)
    } else {
        let e: nat = if f.elapsed + delta < f.duration { f.elapsed + delta } else { f.duration };
        (
            FadeView { elapsed: e, ..f },
            FadeStep::Color(faded(f.base_color, lerp8(f.from, f.to, fade_fraction(e, f.duration)))),
        )
    }
}

/// A timed alpha ramp from `from` to `to` (in 255ths) over a duration in
/// milliseconds, applied to a base color.
pub struct Fade {
    elapsed_ms: u64,
    duration_ms: u64,
    from: u8,
    to: u8,
    base_color: Rgba8p,
    removed: bool,
}

impl View for Fade {
    type V = FadeView;

    closed spec fn view(&self) -> FadeView {
        FadeView {
            elapsed: self.elapsed_ms as nat,
            duration: self.duration_ms as nat,
            from: self.from,
            to: self.to,
            base_color: self.base_color,
            removed: self.removed,
        }
    }
}

impl Fade {
    pub open spec fn spec_new(duration_ms: u64, from: u8, to: u8, base_color: Rgba8p) -> FadeView {
        FadeView { elapsed: 0, duration: duration_ms as nat, from, to, base_color, removed: false }
    }

    /// The clock never runs past the duration.
    pub open spec fn wf(&self) -> bool {
        self@.elapsed <= self@.duration
    }

    /// A fade that has not started.
    pub fn new(duration_ms: u64, from: u8, to: u8, base_color: Rgba8p) -> (f: Fade)
        ensures
            f.wf(),
            f@ == Fade::spec_new(duration_ms, from, to, base_color),
    {
        Fade { elapsed_ms: 0, duration_ms, from, to, base_color, removed: false }
    }

    /// Advances the fade by `delta_ms` milliseconds.
    pub fn tick(&mut self, delta_ms: u64) -> (s: FadeStep)
        requires
            old(self).wf(),
        ensures
            final(self).wf(),
            (final(self)@, s) == fade_step(old(self)@, delta_ms as nat),
    {
        if self.removed {
            return FadeStep::Done;
        }
        if self.elapsed_ms >= self.duration_ms {
            self.removed = true;
            return FadeStep::Remove;
        }
        let room: u64 = self.duration_ms - self.elapsed_ms;
        self.elapsed_ms = if delta_ms < room {
            self.elapsed_ms + delta_ms
        } else {
            self.duration_ms
        };
        let t: u128 = if self.elapsed_ms >= self.duration_ms {
            255
        } else {
            proof {
                assert(self.elapsed_ms as int * 255 < self.duration_ms as int * 255) by (nonlinear_arith)
                    requires
                        self.elapsed_ms < self.duration_ms,
                ;
                assert(self.elapsed_ms as int * 255 / self.duration_ms as int <= 255) by (nonlinear_arith)
                    requires
                        self.elapsed_ms < self.duration_ms,
                ;
            }
            (self.elapsed_ms as u128 * 255) / self.duration_ms as u128
        };
        let alpha: u128 = if self.to >= self.from {
            proof {
                assert((self.to - self.from) * t <= 255 * 255) by (nonlinear_arith)
                    requires
                        0 <= self.to - self.from <= 255,
                        t <= 255,
                ;
                assert((self.to - self.from) * t / 255 <= self.to - self.from) by (nonlinear_arith)
                    requires
                        0 <= self.to - self.from <= 255,
                        t <= 255,
                ;
            }
            self.from as u128 + ((self.to - self.from) as u128 * t) / 255
        } else {
            proof {
                assert((self.from - self.to) * t <= 255 * 255) by (nonlinear_arith)
                    requires
                        0 <= self.from - self.to <= 255,
                        t <= 255,
                ;
                assert((self.from - self.to) * t / 255 <= self.from - self.to) by (nonlinear_arith)
                    requires
                        0 <= self.from - self.to <= 255,
                        t <= 255,
                ;
            }
            self.from as u128 - ((self.from - self.to) as u128 * t) / 255
        };
        let c = self.base_color;
        let color = Rgba8p {
            r: scale_channel(c.r, alpha),
            g: scale_channel(c.g, alpha),
            b: scale_channel(c.b, alpha),
            a: scale_channel(c.a, alpha),
        };
        FadeStep::Color(color)
    }

    /// Advances the fade and applies it to the bitmap it drives: a running
    /// fade rebinds `bitmap` to a solid raster of the faded color (same
    /// size). Returns whether the fade's placement is to be removed now.
    pub fn update(&mut self, bitmap: &mut Bitmap, delta_ms: u64) -> (remove: bool)
        requires
            old(self).wf(),
            old(bitmap).wf(),
        ensures
            final(self).wf(),
            final(bitmap).wf(),
            final(self)@ == fade_step(old(self)@, delta_ms as nat).0,
            remove == (fade_step(old(self)@, delta_ms as nat).1 == FadeStep::Remove),
            match fade_step(old(self)@, delta_ms as nat).1 {
                FadeStep::Color(c) => final(bitmap)@ == solid(old(bitmap)@.width, old(bitmap)@.height, c),
                _ => final(bitmap)@ == old(bitmap)@,
            },
    {
        match self.tick(delta_ms) {
            FadeStep::Color(c) => {
                bitmap.clear(c);
                false
            },
            FadeStep::Remove => true,
            FadeStep::Done => false,
        }
    }
}

/// Halfway through a fade from opaque (255) to transparent (0) that lasts
/// at least 255 ms, the alpha is 128: within one 255th of one half.
pub proof fn lemma_fade_midpoint(duration: nat, base_color: Rgba8p)
    requires
        duration >= 255,
        base_color.a == 255,
    ensures
        ({
            let f = FadeView { elapsed: 0, duration, from: 255, to: 0, base_color, removed: false };
            let (g, s) = fade_step(f, duration / 2);
            &&& g.elapsed == duration / 2
            &&& lerp8(255, 0, fade_fraction(duration / 2, duration)) == 128
            &&& s == FadeStep::Color(faded(base_color, 128))
            &&& faded(base_color, 128).a == 128
        }),
{
    let d = duration as int;
    let e: int = (duration / 2) as int;
    let r: int = d % 2;
    vstd::arithmetic::div_mod::lemma_fundamental_div_mod(d, 2);
    assert(e * 255 / d == 127) by {
        assert(127 * d <= e * 255 < 128 * d) by (nonlinear_arith)
            requires
                d == 2 * e + r,
                0 <= r < 2,
                d >= 255,
        ;
        vstd::arithmetic::div_mod::lemma_fundamental_div_mod(e * 255, d);
        let q = e * 255 / d;
        let m = e * 255 % d;
        vstd::arithmetic::div_mod::lemma_mod_bound(e * 255, d);
        assert(q == 127) by (nonlinear_arith)
            requires
                e * 255 == d * q + m,
                0 <= m < d,
                127 * d <= e * 255 < 128 * d,
        ;
    }
}

/// Completion is reported exactly once: a tick that reports removal leaves
/// the fade in a state whose every later tick does nothing and changes
/// nothing, and a fade whose clock has run out reports removal on its next
/// tick unless it already has.
pub proof fn lemma_fade_removed_once(f: FadeView, d1: nat, d2: nat)
    ensures
        fade_step(f, d1).1 == FadeStep::Remove ==> fade_step(fade_step(f, d1).0, d2) == (
            fade_step(f, d1).0,
            FadeStep::Done,
        ),
        fade_step(f, d1).1 == FadeStep::Done ==> fade_step(f, d1).0 == f,
        !f.removed && f.elapsed >= f.duration ==> fade_step(f, d1).1 == FadeStep::Remove,
{
}

} // verus!
