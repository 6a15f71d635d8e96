//! Shared, immutable bitmaps and the offsets at which a tiled bitmap is drawn.

use crate::raster::{pixels_from, solid, transparent, Raster, RasterView, Rgba8p};
use std::sync::Arc;
use vstd::prelude::*;

verus! {

/// The first offset of a tiling with period `step` that is aligned with
/// `start`: the one value in `(-step, 0]` congruent to `start` modulo `step`.
pub open spec fn tile_first(start: int, step: int) -> int {
    let m = start % step;
    if m == 0 {
        0
    } else {
        m - step
    }
}

/// The offsets `current, current + step, ...` that lie below `end`.
pub open spec fn tile_offsets(current: int, step: int, end: int) -> Seq<int>
    decreases (if current < end { end - current } else { 0 }),
{
    if step <= 0 || current >= end {
        Seq::empty()
    } else {
        seq![current].add(tile_offsets(current + step, step, end))
    }
}

/// Some tile of `offsets`, each `step` wide, contains position `p`.
pub open spec fn tile_covers(offsets: Seq<int>, step: int, p: int) -> bool {
    exists|k: int| 0 <= k < offsets.len() && #[trigger] offsets[k] <= p < offsets[k] + step
}

proof fn lemma_tile_offsets_shape(current: int, step: int, end: int)
    requires
        step >= 1,
    ensures
        ({
            let s = tile_offsets(current, step, end);
            &&& forall|k: int| 0 <= k < s.len() ==> #[trigger] s[k] == current + k * step && s[k] < end
            &&& current + s.len() * step >= end
        }),
    decreases (if current < end { end - current } else { 0 }),
{
    let s = tile_offsets(current, step, end);
    if current < end {
        lemma_tile_offsets_shape(current + step, step, end);
        let t = tile_offsets(current + step, step, end);
        assert forall|k: int| 0 <= k < s.len() implies #[trigger] s[k] == current + k * step && s[k] < end by {
            if k > 0 {
                assert(s[k] == t[k - 1]);
                assert(current + step + (k - 1) * step == current + k * step) by (nonlinear_arith);
            }
        }
        assert(current + step + t.len() * step == current + s.len() * step) by (nonlinear_arith)
            requires
                s.len() == t.len() + 1,
        ;
    }
}

/// Tiling from `start` with period `step` over `0..end`: the offsets begin
/// at a value in `(-step, 0]` (at 0 exactly when `start` is a multiple of
/// `step`), follow one another with no gap, are all aligned with `start`,
/// all lie below `end`, and every position of `0..end` falls inside a tile;
/// tiles do not overlap, and a `start` inside `0..end` is itself an offset.
pub proof fn lemma_tiles_cover(start: int, step: int, end: int)
    requires
        step >= 1,
    ensures
        ({
            let s = tile_offsets(tile_first(start, step), step, end);
            &&& -step < tile_first(start, step) <= 0
            &&& (start % step == 0 <==> tile_first(start, step) == 0)
            &&& end > 0 ==> s.len() > 0 && s[0] == tile_first(start, step)
            &&& forall|k: int| 0 <= k < s.len() ==> #[trigger] s[k] < end && s[k] % step == start % step
            &&& forall|k: int| 0 <= k < s.len() - 1 ==> #[trigger] s[k + 1] == s[k] + step
            &&& forall|p: int| 0 <= p < end ==> #[trigger] tile_covers(s, step, p)
            &&& forall|k1: int, k2: int|
                0 <= k1 < k2 < s.len() ==> #[trigger] s[k1] + step <= #[trigger] s[k2]
            &&& 0 <= start < end ==> s.contains(start)
        }),
{
    let first = tile_first(start, step);
    let s = tile_offsets(first, step, end);
    vstd::arithmetic::div_mod::lemma_mod_bound(start, step);
    vstd::arithmetic::div_mod::lemma_fundamental_div_mod(start, step);
    lemma_tile_offsets_shape(first, step, end);
    assert(first % step == start % step) by {
        let q = start / step;
        let m = start % step;
        if m != 0 {
            assert(first == (-1) * step + m) by (nonlinear_arith)
                requires
                    first == m - step,
            ;
            vstd::arithmetic::div_mod::lemma_fundamental_div_mod_converse(first, step, -1, m);
        } else {
            vstd::arithmetic::div_mod::lemma_fundamental_div_mod_converse(first, step, 0, 0);
        }
    }
    assert forall|k: int| 0 <= k < s.len() implies #[trigger] s[k] < end && s[k] % step == start % step by {
        vstd::arithmetic::div_mod::lemma_mod_multiples_vanish(k, first, step);
        vstd::arithmetic::mul::lemma_mul_is_commutative(k, step);
    }
    assert forall|k: int| 0 <= k < s.len() - 1 implies #[trigger] s[k + 1] == s[k] + step by {
        assert(first + (k + 1) * step == first + k * step + step) by (nonlinear_arith);
    }
    assert forall|p: int| 0 <= p < end implies #[trigger] tile_covers(s, step, p) by {
        let k = (p - first) / step;
        let m = (p - first) % step;
        vstd::arithmetic::div_mod::lemma_fundamental_div_mod(p - first, step);
        vstd::arithmetic::div_mod::lemma_mod_bound(p - first, step);
        vstd::arithmetic::div_mod::lemma_div_pos_is_pos(p - first, step);
        assert(first + k * step <= p < first + k * step + step) by (nonlinear_arith)
            requires
                p - first == step * k + m,
                0 <= m < step,
        ;
        assert(k < s.len()) by (nonlinear_arith)
            requires
                first + s.len() * step >= end,
                first + k * step <= p,
                p < end,
                step >= 1,
        ;
        assert(s[k] <= p < s[k] + step);
    }
    assert forall|k1: int, k2: int| 0 <= k1 < k2 < s.len() implies #[trigger] s[k1] + step <= #[trigger] s[k2] by {
        assert(s[k1] == first + k1 * step);
        assert(s[k2] == first + k2 * step);
        assert(first + k1 * step + step <= first + k2 * step) by (nonlinear_arith)
            requires
                k1 < k2,
                step >= 1,
        ;
    }
    if end > 0 {
        assert(s.len() > 0);
    }
    if 0 <= start < end {
        assert(tile_covers(s, step, start));
        let k = choose|k: int| 0 <= k < s.len() && #[trigger] s[k] <= start < s[k] + step;
        let a = s[k];
        assert(a % step == start % step);
        vstd::arithmetic::div_mod::lemma_fundamental_div_mod(a, step);
        vstd::arithmetic::div_mod::lemma_fundamental_div_mod(start, step);
        let qa = a / step;
        let qs = start / step;
        let m = start % step;
        assert(a == start) by (nonlinear_arith)
            requires
                a == step * qa + m,
                start == step * qs + m,
                a <= start < a + step,
                step >= 1,
        ;
        assert(s[k] == start);
    }
}

/// A fresh, finite sequence of tile offsets, produced one at a time.
pub struct TileIter {
    current: i64,
    step: i64,
    end: i64,
}

impl TileIter {
    /// The offsets still to come.
    pub closed spec fn remaining(&self) -> Seq<int> {
        tile_offsets(self.current as int, self.step as int, self.end as int)
    }

    pub closed spec fn wf(&self) -> bool {
        &&& 1 <= self.step <= i32::MAX
        &&& self.end <= i32::MAX
        &&& i32::MIN <= self.current
        &&& self.current <= 2 * (i32::MAX as int)
    }

    /// The offsets from `tile_first(start, step)` up to, not including, `end`.
    pub fn new(start: i32, step: i32, end: i32) -> (it: TileIter)
        requires
            step >= 1,
        ensures
            it.wf(),
            it.remaining() == tile_offsets(tile_first(start as int, step as int), step as int, end as int),
    {
        let s: i64 = step as i64;
        let m: i64 = if start >= 0 {
            (start as i64) % s
        } else {
            let r: i64 = (-(start as i64)) % s;
            if r == 0 {
                0
            } else {
                s - r
            }
        };
        proof {
            let st = start as int;
            let sp = step as int;
            if start < 0 {
                let r = (-st) % sp;
                vstd::arithmetic::div_mod::lemma_fundamental_div_mod(-st, sp);
                vstd::arithmetic::div_mod::lemma_mod_bound(-st, sp);
                let q = (-st) / sp;
                if r == 0 {
                    assert(st == (-q) * sp) by (nonlinear_arith)
                        requires
                            -st == sp * q + r,
                            r == 0,
                    ;
                    vstd::arithmetic::div_mod::lemma_fundamental_div_mod_converse(st, sp, -q, 0);
                } else {
                    assert(st == (-q - 1) * sp + (sp - r)) by (nonlinear_arith)
                        requires
                            -st == sp * q + r,
                    ;
                    vstd::arithmetic::div_mod::lemma_fundamental_div_mod_converse(st, sp, -q - 1, sp - r);
                }
            }
        }
        let current: i64 = if m == 0 {
            0
        } else {
            m - s
        };
        TileIter { current, step: s, end: end as i64 }
    }

    /// Yields the next offset, or `None` once the sequence is done.
    pub fn next(&mut self) -> (r: Option<i32>)
        requires
            old(self).wf(),
        ensures
            final(self).wf(),
            old(self).remaining().len() == 0 ==> r.is_none() && final(self).remaining().len() == 0,
            old(self).remaining().len() > 0 ==> (r matches Some(v) && v as int == old(self).remaining()[0]),
            old(self).remaining().len() > 0 ==> final(self).remaining() == old(self).remaining().drop_first(),
    {
        if self.current < self.end {
            let last = self.current;
            self.current = self.current + self.step;
            proof {
                assert(old(self).remaining() == seq![last as int].add(self.remaining()));
                assert(old(self).remaining().drop_first() =~= self.remaining());
            }
            Some(last as i32)
        } else {
            None
        }
    }
}

/// The first frame that png's decoder yields for an encoded image: its
/// width, its height and its pixel bytes as the decoder outputs them.
pub uninterp spec fn png_frame(bytes: Seq<u8>) -> Option<(u32, u32, Seq<u8>)>;

/// Relies on `png::Decoder::read_info` and `png::Reader::next_frame`: the
/// first frame of the image, or `None` where either reports an error. The
/// result depends on the bytes alone.
#[verifier::external_body]
fn decode_png(bytes: &[u8]) -> (r: Option<(u32, u32, Vec<u8>)>)
    ensures
        match r {
            Some(f) => png_frame(bytes@) == Some((f.0, f.1, f.2@)),
            None => png_frame(bytes@) is None,
        },
{
    let mut reader = png::Decoder::new(std::io::Cursor::new(bytes)).read_info().ok()?;
    let mut buf = vec![0; reader.output_buffer_size()];
    let info = reader.next_frame(&mut buf).ok()?;
    buf.truncate(info.buffer_size());
    Some((info.width, info.height, buf))
}

/// A decoded frame can back a bitmap: both sides in `1..=i32::MAX` and
/// exactly four bytes (RGBA8) per pixel.
pub open spec fn frame_fits(width: u32, height: u32, data: Seq<u8>) -> bool {
    1 <= width <= i32::MAX && 1 <= height <= i32::MAX && data.len() == 4 * width * height
}

/// A shared, immutable raster. Changing a bitmap's pixels rebinds it to a
/// new raster; a raster that other bitmaps share is never written.
#[derive(Clone)]
pub struct Bitmap {
    raster: Arc<Raster>,
}

impl View for Bitmap {
    type V = RasterView;

    closed spec fn view(&self) -> RasterView {
        (*self.raster)@
    }
}

impl Bitmap {
    pub closed spec fn wf(&self) -> bool {
        (*self.raster).wf()
    }

    /// Wraps a raster.
    pub fn from_raster(raster: Raster) -> (b: Bitmap)
        requires
            raster.wf(),
        ensures
            b.wf(),
            b@ == raster@,
    {
        Bitmap { raster: Arc::new(raster) }
    }

    /// Decodes a PNG image whose pixels are RGBA8, taken as premultiplied.
    /// `None` where the image cannot be decoded or its frame does not hold
    /// four bytes per pixel.
    pub fn new(bytes: &[u8]) -> (b: Option<Bitmap>)
        ensures
            match png_frame(bytes@) {
                None => b is None,
                Some(f) => if frame_fits(f.0, f.1, f.2) {
                    b matches Some(x) && x.wf() && x@ == (RasterView {
                        width: f.0 as nat,
                        height: f.1 as nat,
                        pixels: pixels_from(f.2),
                    })
                } else {
                    b is None
                },
            },
    {
        match decode_png(bytes) {
            None => None,
            Some((width, height, data)) => match Raster::from_bytes(width, height, &data) {
                Some(raster) => Some(Bitmap::from_raster(raster)),
                None => None,
            },
        }
    }

    /// A fully transparent bitmap of the given size.
    pub fn with_clear(width: u32, height: u32) -> (b: Bitmap)
        requires
            1 <= width <= i32::MAX,
            1 <= height <= i32::MAX,
            width * height <= usize::MAX,
        ensures
            b.wf(),
            b@ == solid(width as nat, height as nat, transparent()),
    {
        Bitmap { raster: Arc::new(Raster::with_clear(width, height)) }
    }

    /// A bitmap of the given size filled with `color`.
    pub fn with_color(width: u32, height: u32, color: Rgba8p) -> (b: Bitmap)
        requires
            1 <= width <= i32::MAX,
            1 <= height <= i32::MAX,
            width * height <= usize::MAX,
        ensures
            b.wf(),
            b@ == solid(width as nat, height as nat, color),
    {
        Bitmap { raster: Arc::new(Raster::with_color(width, height, color)) }
    }

    /// Rebinds this bitmap to a new raster of the same size filled with
    /// `color`; rasters shared with other bitmaps are left as they are.
    pub fn clear(&mut self, color: Rgba8p)
        requires
            old(self).wf(),
        ensures
            final(self).wf(),
            final(self)@ == solid(old(self)@.width, old(self)@.height, color),
    {
        let w = self.width();
        let h = self.height();
        self.raster = Arc::new(Raster::with_color(w, h, color));
    }

    pub fn width(&self) -> (w: u32)
        ensures
            w == self@.width,
    {
        self.raster.width()
    }

    pub fn height(&self) -> (h: u32)
        ensures
            h == self@.height,
    {
        self.raster.height()
    }

    /// The raster this bitmap shares.
    pub fn raster(&self) -> (r: &Raster)
        ensures
            r@ == self@,
            self.wf() ==> r.wf(),
    {
        &self.raster
    }

    /// The row offsets at which this bitmap, tiled vertically from `start`,
    /// covers rows `0..height`.
    pub fn tile_rows(&self, start: i32, height: u32) -> (it: TileIter)
        requires
            self.wf(),
            height <= i32::MAX,
        ensures
            it.wf(),
            it.remaining() == tile_offsets(tile_first(start as int, self@.height as int), self@.height as int, height as int),
    {
        TileIter::new(start, self.height() as i32, height as i32)
    }

    /// The column offsets at which this bitmap, tiled horizontally from
    /// `start`, covers columns `0..width`.
    pub fn tile_cols(&self, start: i32, width: u32) -> (it: TileIter)
        requires
            self.wf(),
            width <= i32::MAX,
        ensures
            it.wf(),
            it.remaining() == tile_offsets(tile_first(start as int, self@.width as int), self@.width as int, width as int),
    {
        TileIter::new(start, self.width() as i32, width as i32)
    }
}

} // verus!
