//! Owned premultiplied RGBA8 pixel buffers and source-over compositing.

use vstd::prelude::*;

verus! {

/// One premultiplied RGBA8 pixel.
#[derive(Clone, Copy, Debug, PartialEq, Eq, Structural)]
pub struct Rgba8p {
    pub r: u8,
    pub g: u8,
    pub b: u8,
    pub a: u8,
}

/// A pixel is validly premultiplied when no color channel exceeds alpha.
pub open spec fn premultiplied(p: Rgba8p) -> bool {
    p.r <= p.a && p.g <= p.a && p.b <= p.a
}

/// Source-over on one channel: `src + dst * (255 - src_alpha) / 255`,
/// saturated at 255 (reached only by pixels that are not premultiplied).
pub open spec fn over_channel(s: u8, d: u8, sa: u8) -> u8 {
    let v = s + (d * (255 - sa)) / 255;
    if v > 255 { 255u8 } else { v as u8 }
}

/// Source-over of a premultiplied source pixel onto a destination pixel.
pub open spec fn over(src: Rgba8p, dst: Rgba8p) -> Rgba8p {
    Rgba8p {
        r: over_channel(src.r, dst.r, src.a),
        g: over_channel(src.g, dst.g, src.a),
        b: over_channel(src.b, dst.b, src.a),
        a: over_channel(src.a, dst.a, src.a),
    }
}

pub open spec fn transparent() -> Rgba8p {
    Rgba8p { r: 0, g: 0, b: 0, a: 0 }
}

fn blend_channel(s: u8, d: u8, sa: u8) -> (r: u8)
    ensures
        r == over_channel(s, d, sa),
{
    proof {
        assert((d as int) * (255 - sa as int) <= 255 * 255) by (nonlinear_arith)
            requires
                d <= 255,
                sa <= 255,
        ;
    }
    let scaled: u32 = (d as u32) * (255 - sa as u32);
    let v: u32 = s as u32 + scaled / 255;
    if v > 255 {
        255
    } else {
        v as u8
    }
}

/// Blends `src` over `dst`.
pub fn blend(src: Rgba8p, dst: Rgba8p) -> (r: Rgba8p)
    ensures
        r == over(src, dst),
{
    Rgba8p {
        r: blend_channel(src.r, dst.r, src.a),
        g: blend_channel(src.g, dst.g, src.a),
        b: blend_channel(src.b, dst.b, src.a),
        a: blend_channel(src.a, dst.a, src.a),
    }
}

/// What a raster holds: its dimensions and its pixels, row-major.
pub ghost struct RasterView {
    pub width: nat,
    pub height: nat,
    pub pixels: Seq<Rgba8p>,
}

/// The pixel at column `x`, row `y`.
pub open spec fn pixel_at(r: RasterView, x: int, y: int) -> Rgba8p {
    r.pixels[y * r.width + x]
}

pub open spec fn in_bounds(r: RasterView, x: int, y: int) -> bool {
    0 <= x < r.width && 0 <= y < r.height
}

/// The pixel at column `x`, row `y` of `dst` after compositing `src` with
/// its top-left corner at (`ox`, `oy`).
pub open spec fn composite_pixel(dst: RasterView, src: RasterView, ox: int, oy: int, x: int, y: int) -> Rgba8p {
    if in_bounds(src, x - ox, y - oy) {
        over(pixel_at(src, x - ox, y - oy), pixel_at(dst, x, y))
    } else {
        pixel_at(dst, x, y)
    }
}

/// `dst` after compositing `src` at (`ox`, `oy`); source pixels that fall
/// outside `dst` are clipped.
pub open spec fn composite(dst: RasterView, src: RasterView, ox: int, oy: int) -> RasterView {
    RasterView {
        width: dst.width,
        height: dst.height,
        pixels: Seq::new(
            dst.pixels.len(),
            |i: int| composite_pixel(dst, src, ox, oy, i % (dst.width as int), i / (dst.width as int)),
        ),
    }
}

/// A raster of the given size with every pixel `color`.
pub open spec fn solid(width: nat, height: nat, color: Rgba8p) -> RasterView {
    RasterView { width, height, pixels: Seq::new(width * height, |i: int| color) }
}

/// An owned, row-major buffer of premultiplied RGBA8 pixels whose size never changes.
pub struct Raster {
    width: u32,
    height: u32,
    pixels: Vec<Rgba8p>,
}

proof fn lemma_index_bounds(x: int, y: int, w: int, h: int)
    requires
        0 <= x < w,
        0 <= y < h,
    ensures
        0 <= y * w + x < w * h,
        (y * w + x) % w == x,
        (y * w + x) / w == y,
{
    assert(0 <= y * w + x < w * h) by (nonlinear_arith)
        requires
            0 <= x < w,
            0 <= y < h,
    ;
    vstd::arithmetic::div_mod::lemma_fundamental_div_mod_converse(y * w + x, w, y, x);
}

proof fn lemma_index_split(i: int, w: int, h: int)
    requires
        0 <= i < w * h,
        0 < w,
    ensures
        0 <= i % w < w,
        0 <= i / w < h,
        i == w * (i / w) + i % w,
        i == (i / w) * w + i % w,
{
    vstd::arithmetic::div_mod::lemma_fundamental_div_mod(i, w);
    vstd::arithmetic::mul::lemma_mul_is_commutative(w, i / w);
    vstd::arithmetic::div_mod::lemma_mod_bound(i, w);
    vstd::arithmetic::div_mod::lemma_div_pos_is_pos(i, w);
    let q = i / w;
    let m = i % w;
    assert(q < h) by (nonlinear_arith)
        requires
            i == w * q + m,
            0 <= m,
            i < w * h,
            0 < w,
    ;
}

/// Byte `j` of the row-major RGBA8 encoding of `pixels`.
pub open spec fn byte_of(pixels: Seq<Rgba8p>, j: int) -> u8 {
    let p = pixels[j / 4];
    if j % 4 == 0 {
        p.r
    } else if j % 4 == 1 {
        p.g
    } else if j % 4 == 2 {
        p.b
    } else {
        p.a
    }
}

/// The row-major RGBA8 encoding of `pixels`: four bytes per pixel.
pub open spec fn bytes_of(pixels: Seq<Rgba8p>) -> Seq<u8> {
    Seq::new(4 * pixels.len(), |j: int| byte_of(pixels, j))
}

/// Reads one pixel of a composite: inside the destination, the pixel at
/// (`x`, `y`) is the one `composite_pixel` gives.
pub proof fn lemma_composite_pixel(dst: RasterView, src: RasterView, ox: int, oy: int, x: int, y: int)
    requires
        dst.pixels.len() == dst.width * dst.height,
        in_bounds(dst, x, y),
    ensures
        pixel_at(composite(dst, src, ox, oy), x, y) == composite_pixel(dst, src, ox, oy, x, y),
{
    lemma_index_bounds(x, y, dst.width as int, dst.height as int);
}

/// Compositing a fully opaque source pixel replaces the destination pixel
/// it covers: the result is the source pixel, whatever was there before.
pub proof fn lemma_opaque_replaces(dst: RasterView, src: RasterView, ox: int, oy: int, x: int, y: int)
    requires
        dst.pixels.len() == dst.width * dst.height,
        in_bounds(dst, x, y),
        in_bounds(src, x - ox, y - oy),
        pixel_at(src, x - ox, y - oy).a == 255,
    ensures
        pixel_at(composite(dst, src, ox, oy), x, y) == pixel_at(src, x - ox, y - oy),
{
    lemma_composite_pixel(dst, src, ox, oy, x, y);
}

/// Compositing leaves every destination pixel that the source does not
/// cover unchanged.
pub proof fn lemma_uncovered_unchanged(dst: RasterView, src: RasterView, ox: int, oy: int, x: int, y: int)
    requires
        dst.pixels.len() == dst.width * dst.height,
        in_bounds(dst, x, y),
        !in_bounds(src, x - ox, y - oy),
    ensures
        pixel_at(composite(dst, src, ox, oy), x, y) == pixel_at(dst, x, y),
{
    lemma_composite_pixel(dst, src, ox, oy, x, y);
}

/// A premultiplied source pixel with alpha 0 leaves the destination pixel
/// it covers unchanged.
pub proof fn lemma_transparent_identity(dst: RasterView, src: RasterView, ox: int, oy: int, x: int, y: int)
    requires
        dst.pixels.len() == dst.width * dst.height,
        in_bounds(dst, x, y),
        premultiplied(pixel_at(src, x - ox, y - oy)),
        pixel_at(src, x - ox, y - oy).a == 0,
    ensures
        pixel_at(composite(dst, src, ox, oy), x, y) == pixel_at(dst, x, y),
{
    lemma_composite_pixel(dst, src, ox, oy, x, y);
    let d = pixel_at(dst, x, y);
    assert(d.r * 255 / 255 == d.r);
    assert(d.g * 255 / 255 == d.g);
    assert(d.b * 255 / 255 == d.b);
    assert(d.a * 255 / 255 == d.a);
}

/// A source whose pixels are all premultiplied with alpha 0 leaves the
/// whole destination unchanged.
pub proof fn lemma_transparent_source_identity(dst: RasterView, src: RasterView, ox: int, oy: int)
    requires
        dst.pixels.len() == dst.width * dst.height,
        forall|x: int, y: int|
            in_bounds(src, x, y) ==> premultiplied(#[trigger] pixel_at(src, x, y)) && pixel_at(src, x, y).a
                == 0,
    ensures
        composite(dst, src, ox, oy) == dst,
{
    if dst.width == 0 {
        assert(dst.width * dst.height == 0);
    }
    let c = composite(dst, src, ox, oy);
    assert forall|i: int| 0 <= i < dst.pixels.len() implies c.pixels[i] == dst.pixels[i] by {
        lemma_index_split(i, dst.width as int, dst.height as int);
        let x = i % (dst.width as int);
        let y = i / (dst.width as int);
        if in_bounds(src, x - ox, y - oy) {
            lemma_transparent_identity(dst, src, ox, oy, x, y);
        }
        lemma_composite_pixel(dst, src, ox, oy, x, y);
    }
    assert(c.pixels =~= dst.pixels);
}

/// Pixel `i` of a row-major RGBA8 byte buffer.
pub open spec fn pixel_from(bytes: Seq<u8>, i: int) -> Rgba8p {
    Rgba8p { r: bytes[4 * i], g: bytes[4 * i + 1], b: bytes[4 * i + 2], a: bytes[4 * i + 3] }
}

/// The pixels of a row-major RGBA8 byte buffer: four bytes each.
pub open spec fn pixels_from(bytes: Seq<u8>) -> Seq<Rgba8p> {
    Seq::new(bytes.len() / 4, |i: int| pixel_from(bytes, i))
}

/// Reading pixels from a byte buffer and writing them back gives the same
/// bytes, and writing pixels out and reading them back gives the same pixels.
pub proof fn lemma_bytes_round_trip(bytes: Seq<u8>, pixels: Seq<Rgba8p>)
    requires
        bytes.len() % 4 == 0,
    ensures
        bytes_of(pixels_from(bytes)) == bytes,
        pixels_from(bytes_of(pixels)) == pixels,
{
    let p = pixels_from(bytes);
    vstd::arithmetic::div_mod::lemma_fundamental_div_mod(bytes.len() as int, 4);
    assert forall|j: int| 0 <= j < bytes.len() implies #[trigger] bytes_of(p)[j] == bytes[j] by {
        vstd::arithmetic::div_mod::lemma_fundamental_div_mod(j, 4);
        vstd::arithmetic::div_mod::lemma_mod_bound(j, 4);
    }
    assert(bytes_of(p) =~= bytes);
    let b = bytes_of(pixels);
    assert forall|i: int| 0 <= i < pixels.len() implies #[trigger] pixels_from(b)[i] == pixels[i] by {
        assert((4 * i) / 4 == i && (4 * i) % 4 == 0);
        assert((4 * i + 1) / 4 == i && (4 * i + 1) % 4 == 1);
        assert((4 * i + 2) / 4 == i && (4 * i + 2) % 4 == 2);
        assert((4 * i + 3) / 4 == i && (4 * i + 3) % 4 == 3);
    }
    assert(pixels_from(b) =~= pixels);
}

impl View for Raster {
    type V = RasterView;

    closed spec fn view(&self) -> RasterView {
        RasterView { width: self.width as nat, height: self.height as nat, pixels: self.pixels@ }
    }
}

impl Raster {
    /// Both sides are at least one pixel and fit in `i32` (offsets are
    /// `i32`), and the buffer holds exactly `width * height` pixels.
    pub open spec fn wf(&self) -> bool {
        &&& 1 <= self@.width <= i32::MAX
        &&& 1 <= self@.height <= i32::MAX
        &&& self@.pixels.len() == self@.width * self@.height
        &&& self@.width * self@.height <= usize::MAX
    }

    /// A raster of the given size filled with `color`.
    pub fn with_color(width: u32, height: u32, color: Rgba8p) -> (r: Raster)
        requires
            1 <= width <= i32::MAX,
            1 <= height <= i32::MAX,
            width * height <= usize::MAX,
        ensures
            r.wf(),
            r@ == solid(width as nat, height as nat, color),
    {
        let n: usize = (width as usize) * (height as usize);
        let mut pixels: Vec<Rgba8p> = Vec::with_capacity(n);
        let mut i: usize = 0;
        while i < n
            invariant
                i <= n,
                pixels@ == Seq::new(i as nat, |k: int| color),
            decreases n - i,
        {
            pixels.push(color);
            i = i + 1;
            assert(pixels@ =~= Seq::new(i as nat, |k: int| color));
        }
        let r = Raster { width, height, pixels };
        assert(r@.pixels =~= solid(width as nat, height as nat, color).pixels);
        r
    }

    /// A raster over a row-major RGBA8 premultiplied byte buffer: `None`
    /// unless both sides are in `1..=i32::MAX` and the buffer holds exactly
    /// four bytes per pixel.
    pub fn from_bytes(width: u32, height: u32, bytes: &Vec<u8>) -> (r: Option<Raster>)
        ensures
            r is Some <==> (1 <= width <= i32::MAX && 1 <= height <= i32::MAX && bytes@.len() == 4 * width
                * height),
            r matches Some(x) ==> x.wf() && x@ == (RasterView {
                width: width as nat,
                height: height as nat,
                pixels: pixels_from(bytes@),
            }),
    {
        if width < 1 || width > i32::MAX as u32 || height < 1 || height > i32::MAX as u32 {
            return None;
        }
        proof {
            assert((width as int) * (height as int) <= 0x7fff_ffff * 0x7fff_ffff) by (nonlinear_arith)
                requires
                    width <= 0x7fff_ffff,
                    height <= 0x7fff_ffff,
            ;
        }
        let n: u128 = 4 * ((width as u128) * (height as u128));
        let len: usize = bytes.len();
        if len as u128 != n {
            proof {
                assert((4 * width * height) == 4 * (width * height)) by (nonlinear_arith);
            }
            return None;
        }
        proof {
            assert((4 * width * height) == 4 * (width * height)) by (nonlinear_arith);
            assert(bytes@.len() == 4 * (width * height));
        }
        let count: usize = (width as usize) * (height as usize);
        assert(bytes@.len() / 4 == count);
        let mut pixels: Vec<Rgba8p> = Vec::with_capacity(count);
        let mut i: usize = 0;
        while i < count
            invariant
                i <= count,
                4 * count == bytes@.len(),
                len == bytes@.len(),
                pixels@ =~= Seq::new(i as nat, |k: int| pixel_from(bytes@, k)),
            decreases count - i,
        {
            let p = Rgba8p { r: bytes[4 * i], g: bytes[4 * i + 1], b: bytes[4 * i + 2], a: bytes[4 * i + 3] };
            pixels.push(p);
            i = i + 1;
        }
        assert(pixels@ =~= pixels_from(bytes@));
        Some(Raster { width, height, pixels })
    }

    /// A fully transparent raster of the given size.
    pub fn with_clear(width: u32, height: u32) -> (r: Raster)
        requires
            1 <= width <= i32::MAX,
            1 <= height <= i32::MAX,
            width * height <= usize::MAX,
        ensures
            r.wf(),
            r@ == solid(width as nat, height as nat, transparent()),
    {
        Raster::with_color(width, height, Rgba8p { r: 0, g: 0, b: 0, a: 0 })
    }

    pub fn width(&self) -> (w: u32)
        ensures
            w == self@.width,
    {
        self.width
    }

    pub fn height(&self) -> (h: u32)
        ensures
            h == self@.height,
    {
        self.height
    }

    /// The pixel at column `x`, row `y`.
    pub fn pixel(&self, x: u32, y: u32) -> (p: Rgba8p)
        requires
            self.wf(),
            x < self@.width,
            y < self@.height,
        ensures
            p == pixel_at(self@, x as int, y as int),
    {
        proof {
            lemma_index_bounds(x as int, y as int, self.width as int, self.height as int);
        }
        self.pixels[(y as usize) * (self.width as usize) + (x as usize)]
    }

    /// Sets every pixel to `color`.
    pub fn fill(&mut self, color: Rgba8p)
        requires
            old(self).wf(),
        ensures
            final(self).wf(),
            final(self)@ == solid(old(self)@.width, old(self)@.height, color),
    {
        let n = self.pixels.len();
        let mut i: usize = 0;
        while i < n
            invariant
                i <= n,
                n == self.pixels@.len(),
                self.wf(),
                self@.width == old(self)@.width,
                self@.height == old(self)@.height,
                forall|k: int| 0 <= k < i ==> self.pixels@[k] == color,
            decreases n - i,
        {
            self.pixels.set(i, color);
            i = i + 1;
        }
        assert(self@.pixels =~= solid(old(self)@.width, old(self)@.height, color).pixels);
    }

    /// Sets every pixel to fully transparent black.
    pub fn clear(&mut self)
        requires
            old(self).wf(),
        ensures
            final(self).wf(),
            final(self)@ == solid(old(self)@.width, old(self)@.height, transparent()),
    {
        self.fill(Rgba8p { r: 0, g: 0, b: 0, a: 0 });
    }

    /// Composites `src` over this raster with its top-left corner at
    /// (`ox`, `oy`); what falls outside this raster is clipped.
    pub fn composite_at(&mut self, ox: i32, oy: i32, src: &Raster)
        requires
            old(self).wf(),
            src.wf(),
        ensures
            final(self).wf(),
            final(self)@ == composite(old(self)@, src@, ox as int, oy as int),
    {
        let ghost d0 = self@;
        let w: i64 = self.width as i64;
        let h: i64 = self.height as i64;
        let x0: i64 = if ox < 0 { 0 } else { ox as i64 };
        let y0: i64 = if oy < 0 { 0 } else { oy as i64 };
        let x_end: i64 = ox as i64 + src.width as i64;
        let y_end: i64 = oy as i64 + src.height as i64;
        let x1: i64 = if x_end < w { x_end } else { w };
        let y1: i64 = if y_end < h { y_end } else { h };
        if x0 < x1 && y0 < y1 {
            let mut y: i64 = y0;
            while y < y1
                invariant
                    0 <= y0 <= y <= y1 <= h,
                    0 <= x0 < x1 <= w,
                    x0 == if ox < 0 { 0 } else { ox as int },
                    y0 == if oy < 0 { 0 } else { oy as int },
                    x1 == if x_end < w { x_end as int } else { w as int },
                    y1 == if y_end < h { y_end as int } else { h as int },
                    x_end == ox + src@.width,
                    y_end == oy + src@.height,
                    w == d0.width,
                    h == d0.height,
                    src.wf(),
                    d0.pixels.len() == d0.width * d0.height,
                    self.wf(),
                    self@.width == d0.width,
                    self@.height == d0.height,
                    forall|r: int, c: int|
                        0 <= r < h && 0 <= c < w ==> pixel_at(self@, c, r) == if r < y {
                            composite_pixel(d0, src@, ox as int, oy as int, c, r)
                        } else {
                            pixel_at(d0, c, r)
                        },
                decreases y1 - y,
            {
                let mut x: i64 = x0;
                while x < x1
                    invariant
                        0 <= y0 <= y < y1 <= h,
                        0 <= x0 <= x <= x1 <= w,
                        x0 == if ox < 0 { 0 } else { ox as int },
                        x1 == if x_end < w { x_end as int } else { w as int },
                        y1 == if y_end < h { y_end as int } else { h as int },
                        y0 == if oy < 0 { 0 } else { oy as int },
                        x_end == ox + src@.width,
                        y_end == oy + src@.height,
                        w == d0.width,
                        h == d0.height,
                        src.wf(),
                        self.wf(),
                        self@.width == d0.width,
                        self@.height == d0.height,
                        forall|r: int, c: int|
                            0 <= r < h && 0 <= c < w ==> pixel_at(self@, c, r) == if r < y || (r == y
                                && c < x) {
                                composite_pixel(d0, src@, ox as int, oy as int, c, r)
                            } else {
                                pixel_at(d0, c, r)
                            },
                    decreases x1 - x,
                {
                    proof {
                        lemma_index_bounds(x as int, y as int, w as int, h as int);
                    }
                    let k: usize = (y as usize) * (self.width as usize) + (x as usize);
                    let s = src.pixel((x - ox as i64) as u32, (y - oy as i64) as u32);
                    let d = self.pixels[k];
                    assert(d == pixel_at(self@, x as int, y as int));
                    assert(d == pixel_at(d0, x as int, y as int));
                    let ghost before = self@;
                    self.pixels.set(k, blend(s, d));
                    proof {
                        assert forall|r: int, c: int| 0 <= r < h && 0 <= c < w implies pixel_at(
                            self@,
                            c,
                            r,
                        ) == if r < y || (r == y && c < x + 1) {
                            composite_pixel(d0, src@, ox as int, oy as int, c, r)
                        } else {
                            pixel_at(d0, c, r)
                        } by {
                            lemma_index_bounds(c, r, w as int, h as int);
                            if r != y || c != x {
                                assert(r * w + c != k);
                                assert(pixel_at(self@, c, r) == pixel_at(before, c, r));
                            } else {
                                assert(in_bounds(src@, c - ox, r - oy));
                                assert(d == pixel_at(d0, c, r));
                                assert(pixel_at(self@, c, r) == over(s, d));
                            }
                        }
                    }
                    x = x + 1;
                }
                proof {
                    assert forall|r: int, c: int| 0 <= r < h && 0 <= c < w implies pixel_at(
                        self@,
                        c,
                        r,
                    ) == if r < y + 1 {
                        composite_pixel(d0, src@, ox as int, oy as int, c, r)
                    } else {
                        pixel_at(d0, c, r)
                    } by {
                        if r == y && c >= x {
                            assert(!in_bounds(src@, c - ox, r - oy));
                        }
                    }
                }
                y = y + 1;
            }
        }
        proof {
            assert forall|i: int| 0 <= i < d0.pixels.len() implies self@.pixels[i] == composite(
                d0,
                src@,
                ox as int,
                oy as int,
            ).pixels[i] by {
                lemma_index_split(i, w as int, h as int);
                let c = i % (w as int);
                let r = i / (w as int);
                assert(self@.pixels[i] == pixel_at(self@, c, r));
                if !(x0 < x1 && y0 < y1) || r >= y1 || r < y0 {
                    assert(!in_bounds(src@, c - ox, r - oy));
                }
                assert(self@.pixels[i] == composite_pixel(d0, src@, ox as int, oy as int, c, r));
            }
            assert(self@.pixels =~= composite(d0, src@, ox as int, oy as int).pixels);
        }
    }

    /// The raw buffer: `width * height * 4` bytes, row-major, RGBA8 premultiplied.
    pub fn as_bytes(&self) -> (b: Vec<u8>)
        requires
            self.wf(),
        ensures
            b@ == bytes_of(self@.pixels),
    {
        let n = self.pixels.len();
        let mut b: Vec<u8> = Vec::new();
        let mut i: usize = 0;
        while i < n
            invariant
                i <= n,
                n == self@.pixels.len(),
                self.wf(),
                b@.len() == 4 * i,
                forall|j: int| 0 <= j < 4 * i ==> b@[j] == byte_of(self@.pixels, j),
            decreases n - i,
        {
            let p = self.pixels[i];
            b.push(p.r);
            b.push(p.g);
            b.push(p.b);
            b.push(p.a);
            i = i + 1;
        }
        assert(b@ =~= bytes_of(self@.pixels));
        b
    }
}

} // verus!
