use odonata::bitmap::{Bitmap, TileIter};
use odonata::raster::Rgba8p;

fn collect(mut it: TileIter) -> Vec<i32> {
    let mut out = Vec::new();
    while let Some(v) = it.next() {
        out.push(v);
    }
    out
}

#[test]
fn tiles_from_unaligned_start() {
    let offsets = collect(TileIter::new(10, 32, 320));
    let expected: Vec<i32> = (0..11).map(|k| -22 + 32 * k).collect();
    assert_eq!(offsets, expected);
    assert_eq!(offsets[0], -22);
    assert_eq!(*offsets.last().unwrap(), 298);
}

#[test]
fn tiles_from_aligned_start() {
    let from_zero = collect(TileIter::new(0, 32, 320));
    assert_eq!(&from_zero[..3], &[0, 32, 64]);
    assert_eq!(from_zero.len(), 10);
    let from_64 = collect(TileIter::new(64, 32, 320));
    assert_eq!(from_64[0], 0);
    assert!(from_64.contains(&64));
}

#[test]
fn tiles_from_negative_start() {
    assert_eq!(collect(TileIter::new(-10, 32, 64)), vec![-10, 22, 54]);
    assert_eq!(collect(TileIter::new(-64, 32, 64)), vec![0, 32]);
}

#[test]
fn tiles_with_empty_extent() {
    assert_eq!(collect(TileIter::new(4, 4, 0)), Vec::<i32>::new());
    assert_eq!(collect(TileIter::new(5, 4, 0)), vec![-3]);
    assert_eq!(collect(TileIter::new(5, 4, -3)), Vec::<i32>::new());
}

#[test]
fn bitmap_tiles_by_its_own_size() {
    let b = Bitmap::with_color(32, 16, Rgba8p { r: 0, g: 0, b: 0, a: 255 });
    assert_eq!(collect(b.tile_cols(10, 100)), vec![-22, 10, 42, 74]);
    assert_eq!(collect(b.tile_rows(10, 40)), vec![-6, 10, 26]);
}
