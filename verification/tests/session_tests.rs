use image_packer::compositor::ImageBuffer;
use image_packer::definitions::{PackError, Rect};
use image_packer::placer::PackConfig;
use image_packer::session::run;
use image_packer::slicer::AnimationDescriptor;

fn solid(w: u32, h: u32, rgba: [u8; 4]) -> ImageBuffer {
    let mut pixels = Vec::new();
    for _ in 0..(w * h) {
        pixels.extend_from_slice(&rgba);
    }
    ImageBuffer { width: w, height: h, pixels }
}

fn cfg(border: u32, seed: u32) -> PackConfig {
    PackConfig { border, seed_size: seed, growth_num: 3, growth_den: 2, max_retries: 32 }
}

fn desc(owner: &str, speed: u32, columns: u32, rows: u32) -> AnimationDescriptor {
    AnimationDescriptor { owner_id: owner.to_string(), speed, columns, rows }
}

#[test]
fn full_run_with_animations() {
    let images = vec![
        ("A".to_string(), solid(10, 20, [10, 20, 30, 255])),
        ("B".to_string(), solid(30, 10, [40, 50, 60, 255])),
        ("C".to_string(), solid(10, 10, [70, 80, 90, 255])),
    ];
    let descriptors = vec![
        desc("A", 8, 2, 2),  // divides 10x20: kept, 4 frames of 5x10
        desc("B", 4, 7, 1),  // 7 does not divide 30: skipped
        desc("missing", 1, 2, 2),  // no such image: skipped
    ];
    let out = run(&images, &descriptors, &cfg(0, 32)).unwrap();
    assert_eq!(out.canvas_width, 48);
    assert_eq!(out.canvas_height, 30);
    assert_eq!(out.canvas.width, 48);
    assert_eq!(out.canvas.height, 30);
    assert_eq!(out.canvas.pixels.len(), 4 * 48 * 30);
    assert_eq!(out.placements.entries.len(), 3);
    let a = out.placements.get(&"A".to_string()).unwrap();
    assert_eq!(a, Rect { x: 0, y: 0, w: 10, h: 20 });

    assert_eq!(out.animations.len(), 1);
    let (owner, index, frames) = &out.animations[0];
    assert_eq!(owner, "A");
    assert_eq!(*index, 0);
    assert_eq!(frames.speed, 8);
    assert_eq!(frames.frames.len(), 4);
    assert_eq!(frames.frames[0], Rect { x: 0, y: 0, w: 5, h: 10 });
    assert_eq!(frames.frames[1], Rect { x: 5, y: 0, w: 5, h: 10 });
    assert_eq!(frames.frames[2], Rect { x: 0, y: 10, w: 5, h: 10 });
    assert_eq!(frames.frames[3], Rect { x: 5, y: 10, w: 5, h: 10 });

    // spot-check the composited pixels at each placement's corner
    let px = |x: u32, y: u32| {
        let base = (4 * (y * out.canvas.width + x)) as usize;
        [
            out.canvas.pixels[base],
            out.canvas.pixels[base + 1],
            out.canvas.pixels[base + 2],
            out.canvas.pixels[base + 3],
        ]
    };
    assert_eq!(px(0, 0), [10, 20, 30, 255]);
    assert_eq!(px(9, 19), [10, 20, 30, 255]);
    assert_eq!(px(10, 0), [40, 50, 60, 255]);
    assert_eq!(px(39, 9), [40, 50, 60, 255]);
    assert_eq!(px(0, 20), [70, 80, 90, 255]);
    assert_eq!(px(9, 29), [70, 80, 90, 255]);
    assert_eq!(px(40, 0), [0, 0, 0, 0]);
    assert_eq!(px(47, 29), [0, 0, 0, 0]);
}

#[test]
fn one_owner_many_descriptors() {
    let images = vec![("sheet".to_string(), solid(8, 8, [1, 2, 3, 4]))];
    let descriptors = vec![desc("sheet", 2, 2, 1), desc("sheet", 9, 4, 4)];
    let out = run(&images, &descriptors, &cfg(0, 16)).unwrap();
    assert_eq!(out.animations.len(), 2);
    assert_eq!(out.animations[0].1, 0);
    assert_eq!(out.animations[0].2.frames.len(), 2);
    assert_eq!(out.animations[1].1, 1);
    assert_eq!(out.animations[1].2.frames.len(), 16);
}

#[test]
fn run_propagates_degenerate_input() {
    let images: Vec<(String, ImageBuffer)> = Vec::new();
    let out = run(&images, &Vec::new(), &cfg(0, 32));
    assert_eq!(out.unwrap_err(), PackError::DegenerateInput);

    let images = vec![("empty".to_string(), solid(0, 5, [0, 0, 0, 0]))];
    let out = run(&images, &Vec::new(), &cfg(0, 32));
    assert_eq!(out.unwrap_err(), PackError::DegenerateInput);
}

#[test]
fn run_twice_yields_identical_results() {
    let images = vec![
        ("x".to_string(), solid(3, 3, [9, 9, 9, 9])),
        ("y".to_string(), solid(2, 5, [5, 5, 5, 5])),
    ];
    let descriptors = vec![desc("x", 1, 3, 1)];
    let c = cfg(1, 8);
    let out1 = run(&images, &descriptors, &c).unwrap();
    let out2 = run(&images, &descriptors, &c).unwrap();
    assert_eq!(out1.canvas_width, out2.canvas_width);
    assert_eq!(out1.canvas_height, out2.canvas_height);
    assert_eq!(out1.canvas.pixels, out2.canvas.pixels);
    assert_eq!(out1.placements.entries.len(), out2.placements.entries.len());
    for k in 0..out1.placements.entries.len() {
        assert_eq!(out1.placements.entries[k].0, out2.placements.entries[k].0);
        assert_eq!(out1.placements.entries[k].1, out2.placements.entries[k].1);
    }
}
