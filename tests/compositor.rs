use odonata::bitmap::Bitmap;
use odonata::camera::{BoundingBox, Camera, Depth, Transform};
use odonata::compositor::{render, render_visible, sort_by_depth, visible_placements};
use odonata::placement::Placement;
use odonata::raster::Rgba8p;
use odonata::spatial::BvhResource;

const RED: Rgba8p = Rgba8p { r: 255, g: 0, b: 0, a: 255 };
const BLUE: Rgba8p = Rgba8p { r: 0, g: 0, b: 255, a: 255 };
const GREEN: Rgba8p = Rgba8p { r: 0, g: 255, b: 0, a: 255 };
const CLEAR: Rgba8p = Rgba8p { r: 0, g: 0, b: 0, a: 0 };

fn placement(id: u64, bitmap: Bitmap, x: i32, y: i32, depth: Depth) -> Placement {
    Placement {
        id,
        bitmap,
        transform: Transform { x, y, depth },
        tiled: false,
        screen_space: false,
    }
}

fn pixel_of(bytes: &[u8], width: usize, x: usize, y: usize) -> Rgba8p {
    let i = 4 * (y * width + x);
    Rgba8p { r: bytes[i], g: bytes[i + 1], b: bytes[i + 2], a: bytes[i + 3] }
}

#[test]
fn end_to_end_two_squares() {
    let mut camera = Camera::new(4, 4);
    let placements = vec![
        placement(1, Bitmap::with_color(2, 2, RED), 0, 0, Depth::Finite(0)),
        placement(2, Bitmap::with_color(2, 2, BLUE), 1, 0, Depth::Finite(1000)),
    ];
    let mut index = BvhResource::new();
    index.rebuild(&placements);
    let bytes = render(&mut camera, &placements, &index);
    assert_eq!(bytes.len(), 4 * 4 * 4);
    assert_eq!(pixel_of(&bytes, 4, 0, 0), RED);
    assert_eq!(pixel_of(&bytes, 4, 1, 0), BLUE);
    assert_eq!(pixel_of(&bytes, 4, 1, 1), BLUE);
    assert_eq!(pixel_of(&bytes, 4, 0, 1), RED);
    assert_eq!(pixel_of(&bytes, 4, 3, 3), CLEAR);
    assert_eq!(camera.raster().as_bytes(), bytes);
}

#[test]
fn depth_sort_is_stable() {
    let b = Bitmap::with_color(1, 1, RED);
    let placements = vec![
        placement(10, b.clone(), 0, 0, Depth::Finite(1000)),
        placement(11, b.clone(), 0, 0, Depth::Finite(1000)),
        placement(12, b.clone(), 0, 0, Depth::Finite(500)),
    ];
    assert_eq!(sort_by_depth(&placements, &vec![0, 1, 2]), vec![2, 0, 1]);
    let with_infinite = vec![
        placement(1, b.clone(), 0, 0, Depth::Infinite),
        placement(2, b.clone(), 0, 0, Depth::Finite(-5)),
        placement(3, b, 0, 0, Depth::Finite(i32::MAX)),
    ];
    assert_eq!(sort_by_depth(&with_infinite, &vec![0, 1, 2]), vec![1, 2, 0]);
}

#[test]
fn visibility_is_deduplicated() {
    let b = Bitmap::with_color(1, 1, RED);
    let mut both = placement(7, b.clone(), 0, 0, Depth::Finite(0));
    both.screen_space = true;
    let mut tiled = placement(8, b.clone(), 0, 0, Depth::Finite(0));
    tiled.tiled = true;
    let hidden = placement(9, b, 50, 50, Depth::Finite(0));
    let placements = vec![both, tiled, hidden];
    assert_eq!(visible_placements(&placements, &vec![7, 7, 8]), vec![0, 1]);
    assert_eq!(visible_placements(&placements, &vec![9]), vec![0, 1, 2]);
}

#[test]
fn overlapping_screen_space_placement_drawn_once() {
    // A half-transparent pixel drawn twice would come out darker.
    let half = Rgba8p { r: 128, g: 0, b: 0, a: 128 };
    let mut p = placement(3, Bitmap::with_color(1, 1, half), 0, 0, Depth::Finite(0));
    p.screen_space = true;
    let placements = vec![p];
    let mut camera = Camera::new(2, 2);
    let bytes = render_visible(&mut camera, &placements, &vec![3, 3]);
    assert_eq!(pixel_of(&bytes, 2, 0, 0), half);
}

#[test]
fn index_holds_only_world_space_untiled_placements() {
    let b = Bitmap::with_color(2, 2, RED);
    let mut screen = placement(1, b.clone(), 0, 0, Depth::Finite(0));
    screen.screen_space = true;
    let mut tiled = placement(2, b.clone(), 0, 0, Depth::Finite(0));
    tiled.tiled = true;
    let world = placement(3, b.clone(), 0, 0, Depth::Finite(0));
    let far = placement(4, b, 100, 100, Depth::Finite(0));
    let mut index = BvhResource::new();
    index.rebuild(&vec![screen, tiled, world, far]);
    let query = BoundingBox { min_x: 0, min_y: 0, max_x: 10, max_y: 10 };
    assert_eq!(index.overlapping(query), vec![3]);
    let touching = BoundingBox { min_x: 102, min_y: 102, max_x: 200, max_y: 200 };
    assert_eq!(index.overlapping(touching), vec![4]);
    let mut found = index.overlapping(BoundingBox { min_x: -5, min_y: -5, max_x: 500, max_y: 500 });
    found.sort();
    assert_eq!(found, vec![3, 4]);
    index.clear();
    assert!(index.overlapping(query).is_empty());
}

#[test]
fn screen_space_ignores_camera() {
    let mut p = placement(1, Bitmap::with_color(1, 1, RED), 5, 6, Depth::Finite(2000));
    p.screen_space = true;
    let c1 = Transform { x: 0, y: 0, depth: Depth::Finite(0) };
    let c2 = Transform { x: 100, y: -40, depth: Depth::Finite(0) };
    assert_eq!(p.screen_position(c1), (5, 6));
    assert_eq!(p.screen_position(c2), (5, 6));
}

#[test]
fn world_space_uses_parallax() {
    let cam = Transform { x: 10, y: 3, depth: Depth::Finite(0) };
    let half = placement(1, Bitmap::with_color(1, 1, RED), 100, 0, Depth::Finite(500));
    // 100 - 10 * 0.5 = 95; 0 - 3 * 0.5 = -1.5, rounded towards zero
    assert_eq!(half.screen_position(cam), (95, -1));
    let infinite = placement(2, Bitmap::with_color(1, 1, RED), 100, 0, Depth::Infinite);
    assert_eq!(infinite.screen_position(cam), (90, -3));
    let flat = placement(3, Bitmap::with_color(1, 1, RED), 100, 0, Depth::Finite(0));
    assert_eq!(flat.screen_position(cam), (100, 0));
}

#[test]
fn camera_moves_world_space_placements() {
    let placements = vec![placement(1, Bitmap::with_color(1, 1, GREEN), 2, 2, Depth::Finite(1000))];
    let mut camera = Camera::new(4, 4);
    camera.transform_mut().x = 1;
    assert_eq!(camera.transform().x, 1);
    let mut index = BvhResource::new();
    index.rebuild(&placements);
    let bytes = render(&mut camera, &placements, &index);
    assert_eq!(pixel_of(&bytes, 4, 1, 2), GREEN);
    assert_eq!(pixel_of(&bytes, 4, 2, 2), CLEAR);
}

#[test]
fn culled_placement_is_not_drawn() {
    let placements = vec![placement(1, Bitmap::with_color(1, 1, GREEN), 0, 0, Depth::Finite(0))];
    let mut camera = Camera::new(2, 2);
    let bytes = render_visible(&mut camera, &placements, &vec![]);
    assert_eq!(bytes, vec![0u8; 16]);
}

#[test]
fn tiled_placement_covers_viewport() {
    let mut background = placement(1, Bitmap::with_color(3, 2, BLUE), 1, 1, Depth::Finite(1000));
    background.tiled = true;
    let mut camera = Camera::new(5, 4);
    camera.transform_mut().x = 7;
    let index = BvhResource::new();
    let bytes = render(&mut camera, &vec![background], &index);
    for y in 0..4 {
        for x in 0..5 {
            assert_eq!(pixel_of(&bytes, 5, x, y), BLUE);
        }
    }
}

#[test]
fn fade_covers_whole_viewport() {
    let fade = Camera::fade_in(1000, 3, 3, RED);
    let overlay = Placement {
        id: 9,
        bitmap: fade.bitmap,
        transform: fade.transform,
        tiled: false,
        screen_space: fade.screen_space,
    };
    let below = placement(1, Bitmap::with_color(3, 3, GREEN), 0, 0, Depth::Finite(5000));
    let mut camera = Camera::new(3, 3);
    camera.transform_mut().y = 50;
    let bytes = render_visible(&mut camera, &vec![overlay, below], &vec![1]);
    for y in 0..3 {
        for x in 0..3 {
            assert_eq!(pixel_of(&bytes, 3, x, y), RED);
        }
    }
}

#[test]
fn camera_size_and_box() {
    let mut camera = Camera::new(320, 240);
    assert_eq!(camera.size(), (320, 240));
    camera.transform_mut().x = -5;
    camera.transform_mut().y = 7;
    assert_eq!(
        camera.to_bounding_box(),
        BoundingBox { min_x: -5, min_y: 7, max_x: 315, max_y: 247 }
    );
    camera.raster_mut().fill(RED);
    assert_eq!(camera.raster().pixel(319, 239), RED);
}
