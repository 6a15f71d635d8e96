use odonata::bitmap::Bitmap;
use odonata::camera::{Camera, Depth};
use odonata::fade::{Fade, FadeStep};
use odonata::raster::Rgba8p;

const BLACK: Rgba8p = Rgba8p { r: 0, g: 0, b: 0, a: 255 };

#[test]
fn fade_in_is_half_way_at_half_time() {
    let mut fade = Fade::new(1000, 255, 0, BLACK);
    assert_eq!(fade.tick(500), FadeStep::Color(Rgba8p { r: 0, g: 0, b: 0, a: 128 }));
    let mut fade = Fade::new(1001, 255, 0, BLACK);
    match fade.tick(500) {
        FadeStep::Color(c) => assert!((c.a as i32 - 128).abs() <= 1),
        other => panic!("unexpected {:?}", other),
    }
}

#[test]
fn fade_out_ramps_up() {
    let mut fade = Fade::new(1000, 0, 255, Rgba8p { r: 200, g: 100, b: 50, a: 255 });
    // t = 250 * 255 / 1000 = 63; alpha 63
    assert_eq!(
        fade.tick(250),
        FadeStep::Color(Rgba8p { r: 49, g: 24, b: 12, a: 63 })
    );
}

#[test]
fn fade_reports_completion_once() {
    let mut fade = Fade::new(100, 255, 0, BLACK);
    assert_eq!(fade.tick(150), FadeStep::Color(Rgba8p { r: 0, g: 0, b: 0, a: 0 }));
    assert_eq!(fade.tick(10), FadeStep::Remove);
    assert_eq!(fade.tick(10), FadeStep::Done);
    assert_eq!(fade.tick(10), FadeStep::Done);
}

#[test]
fn zero_length_fade_ends_at_once() {
    let mut fade = Fade::new(0, 0, 255, BLACK);
    assert_eq!(fade.tick(0), FadeStep::Remove);
}

#[test]
fn fade_update_redraws_bitmap() {
    let mut bundle = Camera::fade_out(1000, 3, 2, BLACK);
    assert_eq!(bundle.bitmap.raster().as_bytes(), vec![0u8; 24]);
    assert!(bundle.screen_space);
    assert_eq!(bundle.transform.depth, Depth::Infinite);
    let remove = bundle.fade.update(&mut bundle.bitmap, 500);
    assert!(!remove);
    assert_eq!(bundle.bitmap.raster().pixel(2, 1), Rgba8p { r: 0, g: 0, b: 0, a: 127 });
    assert_eq!((bundle.bitmap.width(), bundle.bitmap.height()), (3, 2));
    assert!(!bundle.fade.update(&mut bundle.bitmap, 600));
    assert_eq!(bundle.bitmap.raster().pixel(0, 0), BLACK);
    assert!(bundle.fade.update(&mut bundle.bitmap, 1));
    assert!(!bundle.fade.update(&mut bundle.bitmap, 1));
}

#[test]
fn fade_in_starts_solid() {
    let bundle = Camera::fade_in(1000, 2, 2, BLACK);
    assert_eq!(bundle.bitmap.raster().pixel(1, 1), BLACK);
    let mut bitmap: Bitmap = bundle.bitmap.clone();
    let mut fade = bundle.fade;
    fade.update(&mut bitmap, 1000);
    assert_eq!(bitmap.raster().pixel(0, 0), Rgba8p { r: 0, g: 0, b: 0, a: 0 });
}
