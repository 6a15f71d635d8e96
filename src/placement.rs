//! Placements: what the compositor draws, and where.

use crate::bitmap::Bitmap;
use crate::camera::{box_at, BoundingBox, Depth, Transform};
use vstd::prelude::*;

verus! {

/// One drawable: an identifier, a shared bitmap, a position with depth, and
/// whether it is tiled over the whole viewport and whether its position is
/// relative to the screen rather than to the world.
pub struct Placement {
    pub id: u64,
    pub bitmap: Bitmap,
    pub transform: Transform,
    pub tiled: bool,
    pub screen_space: bool,
}

/// The key placements are drawn in ascending order of: the depth in
/// thousandths, with infinite depth above every finite one.
pub open spec fn depth_key(d: Depth) -> int {
    match d {
        Depth::Finite(m) => m as int,
        Depth::Infinite => i32::MAX + 1,
    }
}

/// The parallax factor of a world-space placement, in thousandths: its
/// depth, or exactly one for an infinite depth.
pub open spec fn parallax(d: Depth) -> int {
    match d {
        Depth::Finite(m) => m as int,
        Depth::Infinite => 1000,
    }
}

/// Division rounded towards zero.
pub open spec fn trunc_div(n: int, d: int) -> int {
    if n >= 0 {
        n / d
    } else {
        -((-n) / d)
    }
}

/// `v` saturated to the range of `i32`.
pub open spec fn clamp_i32(v: int) -> int {
    if v < i32::MIN {
        i32::MIN as int
    } else if v > i32::MAX {
        i32::MAX as int
    } else {
        v
    }
}

/// One screen coordinate of a world-space coordinate `p`: `p` minus the
/// camera coordinate `c` times the parallax factor, rounded towards zero.
pub open spec fn world_to_screen(p: int, c: int, d: Depth) -> int {
    clamp_i32(trunc_div(1000 * p - c * parallax(d), 1000))
}

/// Where a placement is drawn: screen-space placements at their own
/// position, world-space ones relative to the camera with parallax.
pub open spec fn screen_position(t: Transform, screen_space: bool, camera: Transform) -> (int, int) {
    if screen_space {
        (t.x as int, t.y as int)
    } else {
        (world_to_screen(t.x as int, camera.x as int, t.depth), world_to_screen(t.y as int, camera.y as int, t.depth))
    }
}

/// The world-space box a placement covers: its bitmap's size from its position.
pub open spec fn placement_box(p: Placement) -> BoundingBox {
    box_at(p.transform.x as int, p.transform.y as int, p.bitmap@.width as int, p.bitmap@.height as int)
}

/// Placements that the spatial index holds: neither tiled nor in screen
/// space, as those are always visible.
pub open spec fn indexed(p: Placement) -> bool {
    !p.tiled && !p.screen_space
}

fn world_coord(p: i32, c: i32, d: Depth) -> (r: i32)
    ensures
        r == world_to_screen(p as int, c as int, d),
{
    let f: i64 = match d {
        Depth::Finite(m) => m as i64,
        Depth::Infinite => 1000,
    };
    proof {
        let ci = c as int;
        let fi = f as int;
        assert(-0x4000_0000_0000_0000 <= ci * fi <= 0x4000_0000_0000_0000) by (nonlinear_arith)
            requires
                -0x8000_0000 <= ci <= 0x7fff_ffff,
                -0x8000_0000 <= fi <= 0x7fff_ffff,
        ;
    }
    let n: i64 = 1000 * (p as i64) - (c as i64) * f;
    let q: i64 = if n >= 0 {
        n / 1000
    } else {
        -((-n) / 1000)
    };
    if q < i32::MIN as i64 {
        i32::MIN
    } else if q > i32::MAX as i64 {
        i32::MAX
    } else {
        q as i32
    }
}

impl Placement {
    pub open spec fn wf(&self) -> bool {
        self.bitmap.wf()
    }

    /// Where this placement is drawn for a camera at `camera`.
    pub fn screen_position(&self, camera: Transform) -> (pos: (i32, i32))
        ensures
            pos.0 == screen_position(self.transform, self.screen_space, camera).0,
            pos.1 == screen_position(self.transform, self.screen_space, camera).1,
    {
        if self.screen_space {
            (self.transform.x, self.transform.y)
        } else {
            (
                world_coord(self.transform.x, camera.x, self.transform.depth),
                world_coord(self.transform.y, camera.y, self.transform.depth),
            )
        }
    }

    /// The world-space box this placement covers.
    pub fn to_bounding_box(&self) -> (b: BoundingBox)
        ensures
            b == placement_box(*self),
    {
        BoundingBox {
            min_x: self.transform.x as i64,
            min_y: self.transform.y as i64,
            max_x: self.transform.x as i64 + self.bitmap.width() as i64,
            max_y: self.transform.y as i64 + self.bitmap.height() as i64,
        }
    }

    /// The key placements are sorted by before drawing.
    pub fn depth_key(&self) -> (k: i64)
        ensures
            k == depth_key(self.transform.depth),
    {
        match self.transform.depth {
            Depth::Finite(m) => m as i64,
            Depth::Infinite => i32::MAX as i64 + 1,
        }
    }
}

/// A screen-space placement is drawn at the same place wherever the camera is.
pub proof fn lemma_screen_space_ignores_camera(t: Transform, c1: Transform, c2: Transform)
    ensures
        screen_position(t, true, c1) == screen_position(t, true, c2),
        screen_position(t, true, c1) == (t.x as int, t.y as int),
{
}

} // verus!
