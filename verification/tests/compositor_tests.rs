use image_packer::compositor::{composite, ImageBuffer};
use image_packer::definitions::{PackError, Rect};
use image_packer::placer::PlacementMap;

fn solid(w: u32, h: u32, rgba: [u8; 4]) -> ImageBuffer {
    let mut pixels = Vec::new();
    for _ in 0..(w * h) {
        pixels.extend_from_slice(&rgba);
    }
    ImageBuffer { width: w, height: h, pixels }
}

fn pixel(canvas: &ImageBuffer, x: u32, y: u32) -> [u8; 4] {
    let base = (4 * (y * canvas.width + x)) as usize;
    [
        canvas.pixels[base],
        canvas.pixels[base + 1],
        canvas.pixels[base + 2],
        canvas.pixels[base + 3],
    ]
}

#[test]
fn red_square_on_transparent_canvas() {
    // A 2x2 opaque red source at (0, 0) on a transparent 4x4 canvas: the
    // top-left quarter is red-opaque, every other pixel stays transparent.
    let images = vec![("red".to_string(), solid(2, 2, [255, 0, 0, 255]))];
    let placements = PlacementMap {
        entries: vec![("red".to_string(), Rect { x: 0, y: 0, w: 2, h: 2 })],
    };
    let canvas = composite(4, 4, &images, &placements).unwrap();
    assert_eq!(canvas.width, 4);
    assert_eq!(canvas.height, 4);
    assert_eq!(canvas.pixels.len(), 64);
    for y in 0..4 {
        for x in 0..4 {
            if x < 2 && y < 2 {
                assert_eq!(pixel(&canvas, x, y), [255, 0, 0, 255]);
            } else {
                assert_eq!(pixel(&canvas, x, y), [0, 0, 0, 0]);
            }
        }
    }
}

#[test]
fn two_images_at_their_rects() {
    let images = vec![
        ("red".to_string(), solid(1, 1, [255, 0, 0, 255])),
        ("half_green".to_string(), solid(2, 1, [0, 255, 0, 128])),
    ];
    let placements = PlacementMap {
        entries: vec![
            ("red".to_string(), Rect { x: 0, y: 0, w: 1, h: 1 }),
            ("half_green".to_string(), Rect { x: 1, y: 2, w: 2, h: 1 }),
        ],
    };
    let canvas = composite(3, 3, &images, &placements).unwrap();
    assert_eq!(pixel(&canvas, 0, 0), [255, 0, 0, 255]);
    // the alpha byte is copied unmodified, no blending
    assert_eq!(pixel(&canvas, 1, 2), [0, 255, 0, 128]);
    assert_eq!(pixel(&canvas, 2, 2), [0, 255, 0, 128]);
    assert_eq!(pixel(&canvas, 1, 0), [0, 0, 0, 0]);
    assert_eq!(pixel(&canvas, 2, 1), [0, 0, 0, 0]);
    assert_eq!(pixel(&canvas, 0, 2), [0, 0, 0, 0]);
}

#[test]
fn rect_outside_canvas_is_rejected() {
    let images = vec![("red".to_string(), solid(2, 2, [255, 0, 0, 255]))];
    let placements = PlacementMap {
        entries: vec![("red".to_string(), Rect { x: 3, y: 0, w: 2, h: 2 })],
    };
    assert_eq!(
        composite(4, 4, &images, &placements).unwrap_err(),
        PackError::BlitOutOfBounds
    );
}

#[test]
fn unknown_id_is_rejected() {
    let images = vec![("red".to_string(), solid(2, 2, [255, 0, 0, 255]))];
    let placements = PlacementMap {
        entries: vec![("blue".to_string(), Rect { x: 0, y: 0, w: 2, h: 2 })],
    };
    assert_eq!(
        composite(4, 4, &images, &placements).unwrap_err(),
        PackError::BlitOutOfBounds
    );
}

#[test]
fn mismatched_rect_size_is_rejected() {
    let images = vec![("red".to_string(), solid(2, 2, [255, 0, 0, 255]))];
    let placements = PlacementMap {
        entries: vec![("red".to_string(), Rect { x: 0, y: 0, w: 3, h: 2 })],
    };
    assert_eq!(
        composite(4, 4, &images, &placements).unwrap_err(),
        PackError::BlitOutOfBounds
    );
}

#[test]
fn empty_placements_leave_canvas_transparent() {
    let images: Vec<(String, ImageBuffer)> = Vec::new();
    let placements = PlacementMap { entries: Vec::new() };
    let canvas = composite(2, 2, &images, &placements).unwrap();
    assert_eq!(canvas.pixels, vec![0u8; 16]);
}
