use odonata::bitmap::Bitmap;
use odonata::raster::{blend, Raster, Rgba8p};

fn px(r: u8, g: u8, b: u8, a: u8) -> Rgba8p {
    Rgba8p { r, g, b, a }
}

const CLEAR: Rgba8p = Rgba8p { r: 0, g: 0, b: 0, a: 0 };

#[test]
fn blend_exact_value() {
    // 128 + 255 * (255 - 128) / 255 = 128 + 127
    let out = blend(px(128, 0, 0, 128), px(0, 0, 255, 255));
    assert_eq!(out, px(128, 0, 127, 255));
    let out = blend(px(10, 20, 30, 40), px(100, 100, 100, 100));
    // 100 * 215 / 255 = 84
    assert_eq!(out, px(94, 104, 114, 124));
}

#[test]
fn blend_saturates_on_non_premultiplied_source() {
    let out = blend(px(200, 0, 0, 10), px(255, 0, 0, 255));
    assert_eq!(out.r, 255);
}

#[test]
fn opaque_source_replaces_destination() {
    let mut dst = Raster::with_color(3, 3, px(1, 2, 3, 200));
    let src = Raster::with_color(2, 2, px(9, 8, 7, 255));
    dst.composite_at(1, 1, &src);
    assert_eq!(dst.pixel(1, 1), px(9, 8, 7, 255));
    assert_eq!(dst.pixel(2, 2), px(9, 8, 7, 255));
    assert_eq!(dst.pixel(0, 0), px(1, 2, 3, 200));
    assert_eq!(dst.pixel(2, 0), px(1, 2, 3, 200));
}

#[test]
fn transparent_source_is_identity() {
    let mut dst = Raster::with_color(2, 2, px(11, 22, 33, 44));
    let before = dst.as_bytes();
    let src = Raster::with_clear(2, 2);
    dst.composite_at(0, 0, &src);
    assert_eq!(dst.as_bytes(), before);
}

#[test]
fn composite_clips_outside_bounds() {
    let mut dst = Raster::with_clear(4, 4);
    let src = Raster::with_color(3, 3, px(0, 255, 0, 255));
    dst.composite_at(-2, 3, &src);
    assert_eq!(dst.pixel(0, 3), px(0, 255, 0, 255));
    assert_eq!(dst.pixel(1, 3), CLEAR);
    assert_eq!(dst.pixel(0, 2), CLEAR);
    let mut far = Raster::with_clear(2, 2);
    far.composite_at(100, -100, &src);
    assert_eq!(far.as_bytes(), vec![0u8; 16]);
}

#[test]
fn clear_and_fill() {
    let mut r = Raster::with_color(2, 1, px(5, 5, 5, 5));
    r.fill(px(1, 2, 3, 4));
    assert_eq!(r.as_bytes(), vec![1, 2, 3, 4, 1, 2, 3, 4]);
    r.clear();
    assert_eq!(r.as_bytes(), vec![0u8; 8]);
    assert_eq!((r.width(), r.height()), (2, 1));
}

#[test]
fn as_bytes_is_row_major_rgba() {
    let bytes: Vec<u8> = (0..24).collect();
    let r = Raster::from_bytes(3, 2, &bytes).unwrap();
    assert_eq!(r.pixel(2, 0), px(8, 9, 10, 11));
    assert_eq!(r.pixel(0, 1), px(12, 13, 14, 15));
    assert_eq!(r.as_bytes(), bytes);
}

#[test]
fn from_bytes_rejects_bad_sizes() {
    assert!(Raster::from_bytes(2, 2, &vec![0u8; 15]).is_none());
    assert!(Raster::from_bytes(0, 2, &vec![]).is_none());
    assert!(Raster::from_bytes(2, 0, &vec![]).is_none());
    assert!(Raster::from_bytes(1, 1, &vec![0u8; 4]).is_some());
}

fn encode_png(width: u32, height: u32, color: png::ColorType, data: &[u8]) -> Vec<u8> {
    let mut out = Vec::new();
    {
        let mut encoder = png::Encoder::new(&mut out, width, height);
        encoder.set_color(color);
        encoder.set_depth(png::BitDepth::Eight);
        let mut writer = encoder.write_header().unwrap();
        writer.write_image_data(data).unwrap();
    }
    out
}

#[test]
fn bitmap_decodes_rgba_png() {
    let data = [255u8, 0, 0, 255, 0, 0, 255, 128];
    let encoded = encode_png(2, 1, png::ColorType::Rgba, &data);
    let bitmap = Bitmap::new(&encoded).unwrap();
    assert_eq!((bitmap.width(), bitmap.height()), (2, 1));
    assert_eq!(bitmap.raster().as_bytes(), data.to_vec());
}

#[test]
fn bitmap_rejects_invalid_png() {
    assert!(Bitmap::new(&[1, 2, 3, 4]).is_none());
    let rgb = encode_png(1, 1, png::ColorType::Rgb, &[1, 2, 3]);
    assert!(Bitmap::new(&rgb).is_none());
}

#[test]
fn bitmap_clear_rebinds_without_touching_shared_raster() {
    let shared = Bitmap::with_color(2, 2, px(1, 1, 1, 1));
    let mut changed = shared.clone();
    changed.clear(px(9, 9, 9, 9));
    assert_eq!(changed.raster().pixel(1, 1), px(9, 9, 9, 9));
    assert_eq!(shared.raster().pixel(1, 1), px(1, 1, 1, 1));
    assert_eq!((changed.width(), changed.height()), (2, 2));
}
