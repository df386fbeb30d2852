use image_packer::definitions::Rect;
use image_packer::slicer::{slice, AnimationDescriptor};

fn desc(owner: &str, speed: u32, columns: u32, rows: u32) -> AnimationDescriptor {
    AnimationDescriptor { owner_id: owner.to_string(), speed, columns, rows }
}

#[test]
fn four_by_one_grid() {
    // A 64x16 strip with 4 columns and 1 row: four 16x16 frames in order.
    let owner = Rect { x: 0, y: 0, w: 64, h: 16 };
    let frames = slice(&owner, &desc("strip", 12, 4, 1)).unwrap();
    assert_eq!(frames.speed, 12);
    assert_eq!(frames.frames.len(), 4);
    assert_eq!(frames.frames[0], Rect { x: 0, y: 0, w: 16, h: 16 });
    assert_eq!(frames.frames[1], Rect { x: 16, y: 0, w: 16, h: 16 });
    assert_eq!(frames.frames[2], Rect { x: 32, y: 0, w: 16, h: 16 });
    assert_eq!(frames.frames[3], Rect { x: 48, y: 0, w: 16, h: 16 });
}

#[test]
fn frames_offset_by_owner_origin() {
    let owner = Rect { x: 100, y: 30, w: 64, h: 16 };
    let frames = slice(&owner, &desc("strip", 5, 4, 1)).unwrap();
    assert_eq!(frames.frames[0], Rect { x: 100, y: 30, w: 16, h: 16 });
    assert_eq!(frames.frames[3], Rect { x: 148, y: 30, w: 16, h: 16 });
}

#[test]
fn row_major_order() {
    // 2 columns x 2 rows over a 20x10 rectangle: row 0 first, then row 1.
    let owner = Rect { x: 0, y: 0, w: 20, h: 10 };
    let frames = slice(&owner, &desc("grid", 1, 2, 2)).unwrap();
    assert_eq!(frames.frames.len(), 4);
    assert_eq!(frames.frames[0], Rect { x: 0, y: 0, w: 10, h: 5 });
    assert_eq!(frames.frames[1], Rect { x: 10, y: 0, w: 10, h: 5 });
    assert_eq!(frames.frames[2], Rect { x: 0, y: 5, w: 10, h: 5 });
    assert_eq!(frames.frames[3], Rect { x: 10, y: 5, w: 10, h: 5 });
}

#[test]
fn non_dividing_columns_yield_none() {
    // 4 does not divide 65 evenly.
    let owner = Rect { x: 0, y: 0, w: 65, h: 16 };
    assert!(slice(&owner, &desc("strip", 12, 4, 1)).is_none());
}

#[test]
fn non_dividing_rows_yield_none() {
    let owner = Rect { x: 0, y: 0, w: 64, h: 17 };
    assert!(slice(&owner, &desc("strip", 12, 4, 2)).is_none());
}

#[test]
fn zero_grid_yields_none() {
    let owner = Rect { x: 0, y: 0, w: 64, h: 16 };
    assert!(slice(&owner, &desc("strip", 12, 0, 1)).is_none());
    assert!(slice(&owner, &desc("strip", 12, 4, 0)).is_none());
}

#[test]
fn frames_stay_within_owner() {
    let owner = Rect { x: 8, y: 4, w: 60, h: 36 };
    let frames = slice(&owner, &desc("sheet", 3, 6, 3)).unwrap();
    assert_eq!(frames.frames.len(), 18);
    for f in &frames.frames {
        assert!(owner.x <= f.x && f.x + f.w <= owner.x + owner.w);
        assert!(owner.y <= f.y && f.y + f.h <= owner.y + owner.h);
        assert_eq!(f.w, 10);
        assert_eq!(f.h, 12);
    }
}
