//! The viewport: its world position, its fixed size and the output raster.

use crate::bitmap::Bitmap;
use crate::fade::Fade;
use crate::raster::{solid, transparent, Raster, RasterView, Rgba8p};
use vstd::prelude::*;

verus! {

/// Depth of a placement, in thousandths; only the order of depths matters
/// for drawing, and a finite depth is also the parallax factor of a
/// world-space placement.
#[derive(Clone, Copy, Debug, PartialEq, Eq, Structural)]
pub enum Depth {
    Finite(i32),
    Infinite,
}

/// A position: `x`, `y` in pixels and a depth.
#[derive(Clone, Copy, Debug, PartialEq, Eq, Structural)]
pub struct Transform {
    pub x: i32,
    pub y: i32,
    pub depth: Depth,
}

/// An axis-aligned box with inclusive bounds.
#[derive(Clone, Copy, Debug, PartialEq, Eq, Structural)]
pub struct BoundingBox {
    pub min_x: i64,
    pub min_y: i64,
    pub max_x: i64,
    pub max_y: i64,
}

/// Two boxes overlap when they share at least one point (touching edges count).
pub open spec fn boxes_overlap(a: BoundingBox, b: BoundingBox) -> bool {
    a.min_x <= b.max_x && a.max_x >= b.min_x && a.min_y <= b.max_y && a.max_y >= b.min_y
}

/// The box of an item of the given size whose top-left corner is at (`x`, `y`).
pub open spec fn box_at(x: int, y: int, width: int, height: int) -> BoundingBox {
    BoundingBox { min_x: x as i64, min_y: y as i64, max_x: (x + width) as i64, max_y: (y + height) as i64 }
}

pub ghost struct CameraView {
    pub transform: Transform,
    pub width: nat,
    pub height: nat,
    pub raster: RasterView,
}

/// The viewport: a world position, a logical size fixed at construction
/// and the raster that each frame is composited into.
pub struct Camera {
    transform: Transform,
    width: u32,
    height: u32,
    raster: Raster,
}

/// What a fade adds to a scene: the fade itself and the full-viewport
/// placement it drives, fixed to the screen at infinite depth.
pub struct FadeBundle {
    pub fade: Fade,
    pub bitmap: Bitmap,
    pub transform: Transform,
    pub screen_space: bool,
}

impl View for Camera {
    type V = CameraView;

    closed spec fn view(&self) -> CameraView {
        CameraView { transform: self.transform, width: self.width as nat, height: self.height as nat, raster: self.raster@ }
    }
}

/// A screen-space placement at the origin, drawn above everything else.
pub open spec fn fade_transform() -> Transform {
    Transform { x: 0, y: 0, depth: Depth::Infinite }
}

impl Camera {
    /// The raster is well formed and exactly the camera's size.
    pub open spec fn wf(&self) -> bool {
        &&& self@.raster.width == self@.width
        &&& self@.raster.height == self@.height
        &&& 1 <= self@.width <= i32::MAX
        &&& 1 <= self@.height <= i32::MAX
        &&& self@.raster.pixels.len() == self@.width * self@.height
        &&& self@.width * self@.height <= usize::MAX
    }

    /// A camera at the origin with a transparent raster of the given size.
    pub fn new(width: u32, height: u32) -> (c: Camera)
        requires
            1 <= width <= i32::MAX,
            1 <= height <= i32::MAX,
            width * height <= usize::MAX,
        ensures
            c.wf(),
            c@.transform == (Transform { x: 0, y: 0, depth: Depth::Finite(0) }),
            c@.width == width,
            c@.height == height,
            c@.raster == solid(width as nat, height as nat, transparent()),
    {
        Camera {
            transform: Transform { x: 0, y: 0, depth: Depth::Finite(0) },
            width,
            height,
            raster: Raster::with_clear(width, height),
        }
    }

    /// The viewport's world position.
    pub fn transform(&self) -> (t: Transform)
        ensures
            t == self@.transform,
    {
        self.transform
    }

    /// Mutable access to the viewport's world position.
    pub fn transform_mut(&mut self) -> (t: &mut Transform)
        ensures
            *t == old(self)@.transform,
            final(self)@ == (CameraView { transform: *final(t), ..old(self)@ }),
    {
        &mut self.transform
    }

    /// The viewport's size, fixed at construction.
    pub fn size(&self) -> (s: (u32, u32))
        ensures
            s.0 == self@.width,
            s.1 == self@.height,
    {
        (self.width, self.height)
    }

    /// The output raster.
    pub fn raster(&self) -> (r: &Raster)
        ensures
            r@ == self@.raster,
            self.wf() ==> r.wf(),
    {
        &self.raster
    }

    /// Exclusive access to the output raster for a frame's composite pass.
    pub fn raster_mut(&mut self) -> (r: &mut Raster)
        ensures
            r@ == old(self)@.raster,
            old(self).wf() ==> r.wf(),
            final(self)@ == (CameraView { raster: final(r)@, ..old(self)@ }),
    {
        &mut self.raster
    }

    /// The world-space box the viewport covers: from its position to its
    /// position plus its size.
    pub fn to_bounding_box(&self) -> (b: BoundingBox)
        ensures
            b == box_at(self@.transform.x as int, self@.transform.y as int, self@.width as int, self@.height as int),
    {
        BoundingBox {
            min_x: self.transform.x as i64,
            min_y: self.transform.y as i64,
            max_x: self.transform.x as i64 + self.width as i64,
            max_y: self.transform.y as i64 + self.height as i64,
        }
    }

    /// A fade that starts from `base_color` over the whole viewport and
    /// ramps to fully transparent over `duration_ms` milliseconds.
    pub fn fade_in(duration_ms: u64, width: u32, height: u32, base_color: Rgba8p) -> (f: FadeBundle)
        requires
            1 <= width <= i32::MAX,
            1 <= height <= i32::MAX,
            width * height <= usize::MAX,
        ensures
            f.fade@ == Fade::spec_new(duration_ms, 255, 0, base_color),
            f.bitmap.wf(),
            f.bitmap@ == solid(width as nat, height as nat, base_color),
            f.transform == fade_transform(),
            f.screen_space,
    {
        FadeBundle {
            fade: Fade::new(duration_ms, 255, 0, base_color),
            bitmap: Bitmap::with_color(width, height, base_color),
            transform: Transform { x: 0, y: 0, depth: Depth::Infinite },
            screen_space: true,
        }
    }

    /// A fade that starts fully transparent over the whole viewport and
    /// ramps to `base_color` over `duration_ms` milliseconds.
    pub fn fade_out(duration_ms: u64, width: u32, height: u32, base_color: Rgba8p) -> (f: FadeBundle)
        requires
            1 <= width <= i32::MAX,
            1 <= height <= i32::MAX,
            width * height <= usize::MAX,
        ensures
            f.fade@ == Fade::spec_new(duration_ms, 0, 255, base_color),
            f.bitmap.wf(),
            f.bitmap@ == solid(width as nat, height as nat, transparent()),
            f.transform == fade_transform(),
            f.screen_space,
    {
        FadeBundle {
            fade: Fade::new(duration_ms, 0, 255, base_color),
            bitmap: Bitmap::with_clear(width, height),
            transform: Transform { x: 0, y: 0, depth: Depth::Infinite },
            screen_space: true,
        }
    }
}

} // verus!
