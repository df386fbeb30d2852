//! Animation-frame subdivision of a placed rectangle.
//!
//! A descriptor names a uniform `columns x rows` grid over the owning
//! rectangle; slicing yields the frame rectangles in row-major order. A grid
//! that does not divide the owner evenly yields no frames — malformed
//! animation metadata degrades to "no animation data" and never aborts a
//! packing run.

use vstd::arithmetic::div_mod::{lemma_fundamental_div_mod, lemma_fundamental_div_mod_converse};
use vstd::arithmetic::mul::lemma_mul_inequality;
use vstd::prelude::*;

use crate::definitions::{Rect, RectModel};

verus! {

/// A frame-grid description for one placed image: the id of the image it
/// applies to, the playback speed, and the grid dimensions.
#[derive(Debug)]
pub struct AnimationDescriptor {
    pub owner_id: String,
    pub speed: u32,
    pub columns: u32,
    pub rows: u32,
}

/// Mathematical model of a descriptor.
pub ghost struct DescModel {
    pub owner_id: Seq<char>,
    pub speed: int,
    pub columns: int,
    pub rows: int,
}

impl View for AnimationDescriptor {
    type V = DescModel;

    open spec fn view(&self) -> DescModel {
        DescModel {
            owner_id: self.owner_id@,
            speed: self.speed as int,
            columns: self.columns as int,
            rows: self.rows as int,
        }
    }
}

impl Clone for AnimationDescriptor {
    fn clone(&self) -> (r: Self)
        ensures
            r == *self,
    {
        AnimationDescriptor {
            owner_id: self.owner_id.clone(),
            speed: self.speed,
            columns: self.columns,
            rows: self.rows,
        }
    }
}

/// The ordered frame rectangles of one animation, with its playback speed.
#[derive(Debug)]
pub struct AnimationFrames {
    pub frames: Vec<Rect>,
    pub speed: u32,
}

/// Mathematical model of an animation's frames.
pub ghost struct FramesModel {
    pub frames: Seq<RectModel>,
    pub speed: int,
}

impl View for AnimationFrames {
    type V = FramesModel;

    open spec fn view(&self) -> FramesModel {
        FramesModel { frames: self.frames@.map_values(|r: Rect| r@), speed: self.speed as int }
    }
}

/// The grid is usable: at least one column and row, and each divides the
/// owner's extent evenly.
pub open spec fn grid_divides(owner: RectModel, d: DescModel) -> bool {
    &&& d.columns >= 1
    &&& d.rows >= 1
    &&& owner.w % d.columns == 0
    &&& owner.h % d.rows == 0
}

/// Frame number `k` (row-major) of the grid over `owner`.
pub open spec fn frame_at(owner: RectModel, d: DescModel, k: int) -> RectModel {
    let fw = owner.w / d.columns;
    let fh = owner.h / d.rows;
    let row = k / d.columns;
    let col = k % d.columns;
    RectModel { x: owner.x + col * fw, y: owner.y + row * fh, w: fw, h: fh }
}

/// What slicing returns: `rows * columns` frames in row-major order when the
/// grid divides the owner evenly, nothing otherwise.
pub open spec fn slice_model(owner: RectModel, d: DescModel) -> Option<FramesModel> {
    if grid_divides(owner, d) {
        Some(
            FramesModel {
                frames: Seq::new((d.rows * d.columns) as nat, |k: int| frame_at(owner, d, k)),
                speed: d.speed,
            },
        )
    } else {
        None
    }
}

/// Subdivides `owner_rect` by the descriptor's grid: exactly the value of
/// `slice_model`, so `rows * columns` frames of `w/columns x h/rows` pixels
/// each, row-major, offset from the owner's origin — or `None` when the grid
/// does not divide the owner evenly.
pub fn slice(owner_rect: &Rect, descriptor: &AnimationDescriptor) -> (res: Option<AnimationFrames>)
    requires
        owner_rect.w >= 1,
        owner_rect.h >= 1,
        owner_rect.x + owner_rect.w <= u32::MAX,
        owner_rect.y + owner_rect.h <= u32::MAX,
    ensures
        match res {
            Some(f) => slice_model(owner_rect@, descriptor@) == Some(f@),
            None => slice_model(owner_rect@, descriptor@) is None,
        },
{
    let ghost owner = owner_rect@;
    let ghost d = descriptor@;
    let cols = descriptor.columns;
    let rows = descriptor.rows;
    if cols == 0 || rows == 0 || owner_rect.w % cols != 0 || owner_rect.h % rows != 0 {
        return None;
    }
    let fw = owner_rect.w / cols;
    let fh = owner_rect.h / rows;
    proof {
        lemma_fundamental_div_mod(owner.w, d.columns);
        lemma_fundamental_div_mod(owner.h, d.rows);
        assert(d.columns * (fw as int) == owner.w);
        assert(d.rows * (fh as int) == owner.h);
    }
    let ghost target = slice_model(owner, d)->Some_0.frames;
    let mut frames: Vec<Rect> = Vec::new();
    let mut row: u32 = 0;
    while row < rows
        invariant
            0 <= row <= rows,
            owner == owner_rect@,
            d == descriptor@,
            grid_divides(owner, d),
            cols == descriptor.columns && rows == descriptor.rows,
            fw as int == owner.w / d.columns && fh as int == owner.h / d.rows,
            d.columns * (fw as int) == owner.w && d.rows * (fh as int) == owner.h,
            owner.w >= 1 && owner.h >= 1,
            owner.x + owner.w <= u32::MAX && owner.y + owner.h <= u32::MAX,
            target == slice_model(owner, d)->Some_0.frames,
            frames@.len() == row as int * d.columns,
            frames@.map_values(|q: Rect| q@) == target.take(row as int * d.columns),
        decreases rows - row,
    {
        let mut col: u32 = 0;
        proof {
            assert((row + 1) as int * d.columns == row as int * d.columns + d.columns)
                by (nonlinear_arith);
        }
        while col < cols
            invariant
                0 <= col <= cols,
                0 <= row < rows,
                owner == owner_rect@,
                d == descriptor@,
                grid_divides(owner, d),
                cols == descriptor.columns && rows == descriptor.rows,
                fw as int == owner.w / d.columns && fh as int == owner.h / d.rows,
                d.columns * (fw as int) == owner.w && d.rows * (fh as int) == owner.h,
                owner.w >= 1 && owner.h >= 1,
                owner.x + owner.w <= u32::MAX && owner.y + owner.h <= u32::MAX,
                target == slice_model(owner, d)->Some_0.frames,
                frames@.len() == row as int * d.columns + col as int,
                frames@.map_values(|q: Rect| q@) == target.take(
                    row as int * d.columns + col as int,
                ),
            decreases cols - col,
        {
            let ghost k = row as int * d.columns + col as int;
            proof {
                // the running index is row-major: recover row and column
                lemma_fundamental_div_mod_converse(k, d.columns, row as int, col as int);
                // the frame lies inside the owner, so the coordinate sums fit
                lemma_mul_inequality(col as int + 1, d.columns, fw as int);
                lemma_mul_inequality(row as int + 1, d.rows, fh as int);
                assert((col as int + 1) * (fw as int) == col as int * (fw as int) + fw as int)
                    by (nonlinear_arith);
                assert((row as int + 1) * (fh as int) == row as int * (fh as int) + fh as int)
                    by (nonlinear_arith);
                assert(d.columns * (fw as int) == (fw as int) * d.columns) by (nonlinear_arith);
                assert(d.rows * (fh as int) == (fh as int) * d.rows) by (nonlinear_arith);
                assert(col as int * (fw as int) + fw as int <= owner.w);
                assert(row as int * (fh as int) + fh as int <= owner.h);
                assert(col as int * (fw as int) >= 0) by (nonlinear_arith)
                    requires col >= 0 && fw >= 0,
                {}
                assert(row as int * (fh as int) >= 0) by (nonlinear_arith)
                    requires row >= 0 && fh >= 0,
                {}
                // the target frame has not been emitted yet
                lemma_mul_inequality(row as int + 1, d.rows, d.columns);
                assert((row as int + 1) * d.columns == row as int * d.columns + d.columns)
                    by (nonlinear_arith);
                assert(d.rows * d.columns == d.columns * d.rows) by (nonlinear_arith);
                assert(k < d.rows * d.columns);
            }
            let r = Rect {
                x: owner_rect.x + col * fw,
                y: owner_rect.y + row * fh,
                w: fw,
                h: fh,
            };
            proof {
                assert(r@ == frame_at(owner, d, k));
                assert(target[k] == frame_at(owner, d, k));
            }
            let ghost before = frames@.map_values(|q: Rect| q@);
            frames.push(r);
            proof {
                assert(frames@.map_values(|q: Rect| q@) =~= before.push(r@));
                assert(target.take(k + 1) =~= target.take(k).push(target[k]));
            }
            col = col + 1;
        }
        row = row + 1;
    }
    proof {
        assert(rows as int * d.columns == d.rows * d.columns) by (nonlinear_arith)
            requires rows as int == d.rows,
        {}
        assert(target.take(d.rows * d.columns) =~= target);
    }
    Some(AnimationFrames { frames, speed: descriptor.speed })
}

/// Every frame of a sliced animation lies fully within the owning rectangle.
pub proof fn lemma_frames_within_owner(owner: RectModel, d: DescModel)
    requires
        owner.w >= 1,
        owner.h >= 1,
        slice_model(owner, d) is Some,
    ensures
        ({
            let frames = slice_model(owner, d)->Some_0.frames;
            forall|k: int|
                0 <= k < frames.len() ==> (#[trigger] frames[k]).within_rect(owner)
        }),
{
    let frames = slice_model(owner, d)->Some_0.frames;
    let fw = owner.w / d.columns;
    let fh = owner.h / d.rows;
    lemma_fundamental_div_mod(owner.w, d.columns);
    lemma_fundamental_div_mod(owner.h, d.rows);
    assert forall|k: int| 0 <= k < frames.len() implies (#[trigger] frames[k]).within_rect(
        owner,
    ) by {
        let col = k % d.columns;
        let row = k / d.columns;
        assert(0 <= col < d.columns) by {
            vstd::arithmetic::div_mod::lemma_mod_bound(k, d.columns);
        }
        assert(0 <= row < d.rows) by (nonlinear_arith)
            requires
                k >= 0,
                d.columns >= 1,
                d.rows >= 1,
                k < d.rows * d.columns,
                row == k / d.columns,
        {}
        lemma_mul_inequality(col + 1, d.columns, fw);
        lemma_mul_inequality(row + 1, d.rows, fh);
        assert((col + 1) * fw == col * fw + fw) by (nonlinear_arith);
        assert((row + 1) * fh == row * fh + fh) by (nonlinear_arith);
        assert(d.columns * fw == fw * d.columns) by (nonlinear_arith);
        assert(d.rows * fh == fh * d.rows) by (nonlinear_arith);
        assert(col * fw >= 0) by (nonlinear_arith)
            requires col >= 0 && fw >= 0,
        {}
        assert(row * fh >= 0) by (nonlinear_arith)
            requires row >= 0 && fh >= 0,
        {}
    }
}

} // verus!
