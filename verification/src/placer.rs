//! Shelf-based rectangle placement with boundary-growth retry.
//!
//! Items are sorted tallest-first (stable, so equal heights keep their input
//! order) and then walked left to right across a square canvas: each item is
//! placed at the cursor, and when it would cross the right edge the cursor
//! wraps to a new row below the tallest item of the current row. If an item
//! would cross the bottom edge, the whole attempt is discarded, the canvas is
//! grown by the configured factor, and the walk restarts from the first item.
//!
//! The exec functions return exactly the value of the spec-level model
//! (`place_model`), so the result is a pure function of the input: same items
//! and configuration, same placement.

use vstd::prelude::*;

use crate::definitions::{PackError, Rect, RectModel};

verus! {

/// One source image's identity and dimensions, before placement.
#[derive(Debug)]
pub struct SourceItem {
    pub id: String,
    pub width: u32,
    pub height: u32,
}

/// Mathematical model of a source item.
pub ghost struct ItemModel {
    pub id: Seq<char>,
    pub w: int,
    pub h: int,
}

impl View for SourceItem {
    type V = ItemModel;

    open spec fn view(&self) -> ItemModel {
        ItemModel { id: self.id@, w: self.width as int, h: self.height as int }
    }
}

impl Clone for SourceItem {
    fn clone(&self) -> (r: Self)
        ensures
            r == *self,
    {
        SourceItem { id: self.id.clone(), width: self.width, height: self.height }
    }
}

/// The view of a sequence of source items.
pub open spec fn items_model(s: Seq<SourceItem>) -> Seq<ItemModel> {
    s.map_values(|it: SourceItem| it@)
}

/// Packing configuration: inter-item border, the seed edge length of the
/// square canvas, the growth factor as an exact rational `num / den`, and the
/// retry ceiling for boundary growth.
#[derive(Debug)]
pub struct PackConfig {
    pub border: u32,
    pub seed_size: u32,
    pub growth_num: u32,
    pub growth_den: u32,
    pub max_retries: u32,
}

/// Mathematical model of a configuration.
pub ghost struct ConfigModel {
    pub border: int,
    pub seed_size: int,
    pub growth_num: int,
    pub growth_den: int,
    pub max_retries: int,
}

impl View for PackConfig {
    type V = ConfigModel;

    open spec fn view(&self) -> ConfigModel {
        ConfigModel {
            border: self.border as int,
            seed_size: self.seed_size as int,
            growth_num: self.growth_num as int,
            growth_den: self.growth_den as int,
            max_retries: self.max_retries as int,
        }
    }
}

impl ConfigModel {
    /// All components are machine-representable (nonnegative), and the growth
    /// factor is a rational number of at least one: retrying must never
    /// shrink the canvas.
    pub open spec fn wf(self) -> bool {
        &&& self.border >= 0
        &&& self.seed_size >= 0
        &&& self.max_retries >= 0
        &&& self.growth_den >= 1
        &&& self.growth_num >= self.growth_den
    }
}

impl PackConfig {
    pub open spec fn wf(&self) -> bool {
        self@.wf()
    }
}

impl Default for PackConfig {
    /// The default configuration: no border, a 512-pixel seed canvas, growth
    /// by 3/2 per retry, and at most 32 retries.
    fn default() -> (c: PackConfig)
        ensures
            c@ == (ConfigModel {
                border: 0int,
                seed_size: 512int,
                growth_num: 3int,
                growth_den: 2int,
                max_retries: 32int,
            }),
            c.wf(),
    {
        PackConfig { border: 0, seed_size: 512, growth_num: 3, growth_den: 2, max_retries: 32 }
    }
}

/// Every item is present (nothing to place is a degenerate run) and has
/// strictly positive width and height.
pub open spec fn valid_items(items: Seq<ItemModel>) -> bool {
    &&& items.len() > 0
    &&& forall|i: int| 0 <= i < items.len() ==> (#[trigger] items[i]).w >= 1 && items[i].h >= 1
}

/// Inserts `item` into `s` behind every element whose height is at least
/// `item.h`: descending insertion that keeps equal heights in arrival order.
pub open spec fn insert_by_height(item: ItemModel, s: Seq<ItemModel>) -> Seq<ItemModel>
    decreases s.len(),
{
    if s.len() == 0 {
        seq![item]
    } else if item.h > s[0].h {
        seq![item] + s
    } else {
        seq![s[0]] + insert_by_height(item, s.drop_first())
    }
}

/// Stable sort, tallest first; ties keep their input order.
pub open spec fn sort_by_height(s: Seq<ItemModel>) -> Seq<ItemModel>
    decreases s.len(),
{
    if s.len() == 0 {
        Seq::<ItemModel>::empty()
    } else {
        insert_by_height(s.last(), sort_by_height(s.drop_last()))
    }
}

/// Heights never increase along the sequence: tallest first.
pub open spec fn sorted_by_height_desc(s: Seq<ItemModel>) -> bool {
    forall|i: int, j: int|
        #![trigger s[i], s[j]]
        0 <= i < j < s.len() ==> s[i].h >= s[j].h
}

/// Inserting into a height-descending sequence keeps it height-descending.
proof fn lemma_insert_by_height_sorted(item: ItemModel, s: Seq<ItemModel>)
    requires
        sorted_by_height_desc(s),
    ensures
        sorted_by_height_desc(insert_by_height(item, s)),
    decreases s.len(),
{
    let r = insert_by_height(item, s);
    if s.len() == 0 {
    } else if item.h > s[0].h {
        assert(r == seq![item] + s);
        assert(r[0] == item);
        assert(forall|i: int| 1 <= i < r.len() ==> r[i] == s[i - 1]);
        assert forall|i: int, j: int|
            #![trigger r[i], r[j]]
            0 <= i < j < r.len() implies r[i].h >= r[j].h by {
            if i >= 1 {
                assert(s[i - 1].h >= s[j - 1].h);
            } else {
                assert(item.h > s[0].h >= s[j - 1].h);
            }
        }
    } else {
        let rest = s.drop_first();
        let inner = insert_by_height(item, rest);
        assert(forall|i: int| 0 <= i < rest.len() ==> rest[i] == s[i + 1]);
        assert(sorted_by_height_desc(rest));
        lemma_insert_by_height_sorted(item, rest);
        lemma_insert_by_height_elems(item, rest);
        assert(r == seq![s[0]] + inner);
        assert(r[0] == s[0]);
        assert(forall|i: int| 1 <= i < r.len() ==> r[i] == inner[i - 1]);
        assert forall|i: int, j: int|
            #![trigger r[i], r[j]]
            0 <= i < j < r.len() implies r[i].h >= r[j].h by {
            if i >= 1 {
                assert(inner[i - 1].h >= inner[j - 1].h);
            } else {
                // the head is at least as tall as the inserted item and as
                // every element of the rest
                assert(inner.contains(inner[j - 1]));
                if inner[j - 1] == item {
                } else {
                    let m = choose|m: int| 0 <= m < rest.len() && rest[m] == inner[j - 1];
                    assert(s[0].h >= s[m + 1].h);
                }
            }
        }
    }
}

/// The sort really sorts: its result is height-descending.
pub proof fn lemma_sort_by_height_sorted(s: Seq<ItemModel>)
    ensures
        sorted_by_height_desc(sort_by_height(s)),
    decreases s.len(),
{
    if s.len() > 0 {
        lemma_sort_by_height_sorted(s.drop_last());
        lemma_insert_by_height_sorted(s.last(), sort_by_height(s.drop_last()));
    }
}

/// Insertion is one splice: the item lands at the first position whose
/// element is shorter, and everything else keeps its order.
proof fn lemma_insert_position(item: ItemModel, s: Seq<ItemModel>)
    ensures
        exists|p: int|
            {
                &&& 0 <= p <= s.len()
                &&& insert_by_height(item, s) == #[trigger] s.insert(p, item)
                &&& (forall|i: int| 0 <= i < p ==> (#[trigger] s[i]).h >= item.h)
                &&& (p < s.len() ==> s[p].h < item.h)
            },
    decreases s.len(),
{
    if s.len() == 0 {
        assert(insert_by_height(item, s) =~= s.insert(0, item));
    } else if item.h > s[0].h {
        assert(insert_by_height(item, s) =~= s.insert(0, item));
    } else {
        let rest = s.drop_first();
        lemma_insert_position(item, rest);
        let q = choose|q: int|
            {
                &&& 0 <= q <= rest.len()
                &&& insert_by_height(item, rest) == #[trigger] rest.insert(q, item)
                &&& (forall|i: int| 0 <= i < q ==> (#[trigger] rest[i]).h >= item.h)
                &&& (q < rest.len() ==> rest[q].h < item.h)
            };
        let p = q + 1;
        assert(seq![s[0]] + rest.insert(q, item) =~= s.insert(p, item));
        assert forall|i: int| 0 <= i < p implies (#[trigger] s[i]).h >= item.h by {
            if i >= 1 {
                assert(rest[i - 1].h >= item.h);
            }
        }
        assert(p < s.len() ==> s[p].h < item.h) by {
            if p < s.len() {
                assert(s[p] == rest[q]);
            }
        }
    }
}

/// The sort is stable: two items of equal height appear in the sorted
/// sequence in their original order.
pub proof fn lemma_sort_stable(items: Seq<ItemModel>, a: int, b: int)
    requires
        0 <= a < b < items.len(),
        items[a].h == items[b].h,
    ensures
        exists|pa: int, pb: int|
            {
                &&& 0 <= pa < pb < sort_by_height(items).len()
                &&& #[trigger] sort_by_height(items)[pa] == items[a]
                &&& #[trigger] sort_by_height(items)[pb] == items[b]
            },
    decreases items.len(),
{
    let front = items.drop_last();
    let t = sort_by_height(front);
    let x = items.last();
    let r = sort_by_height(items);
    lemma_sort_by_height_elems(front);
    lemma_insert_position(x, t);
    let p = choose|p: int|
        {
            &&& 0 <= p <= t.len()
            &&& insert_by_height(x, t) == #[trigger] t.insert(p, x)
            &&& (forall|i: int| 0 <= i < p ==> (#[trigger] t[i]).h >= x.h)
            &&& (p < t.len() ==> t[p].h < x.h)
        };
    t.insert_ensures(p, x);
    assert(r == t.insert(p, x));
    if b < items.len() - 1 {
        assert(front[a] == items[a] && front[b] == items[b]);
        lemma_sort_stable(front, a, b);
        let (qa, qb): (int, int) = choose|qa: int, qb: int|
            {
                &&& 0 <= qa < qb < t.len()
                &&& #[trigger] t[qa] == front[a]
                &&& #[trigger] t[qb] == front[b]
            };
        let pa = if qa < p {
            qa
        } else {
            qa + 1
        };
        let pb = if qb < p {
            qb
        } else {
            qb + 1
        };
        assert(r[pa] == items[a] && r[pb] == items[b]);
    } else {
        // the later item is the last of the input: it is inserted behind
        // every element of equal height, in particular behind the earlier one
        assert(front[a] == items[a]);
        assert(front.contains(items[a])) by {
            assert(front[a] == items[a]);
        }
        assert(t.contains(items[a]));
        let qa = choose|qa: int| 0 <= qa < t.len() && t[qa] == items[a];
        lemma_sort_by_height_sorted(front);
        assert(qa < p) by {
            if qa >= p {
                assert(p < t.len());
                assert(t[p].h < x.h);
                if qa > p {
                    assert(t[p].h >= t[qa].h);
                }
            }
        }
        assert(r[qa] == items[a]);
        assert(r[p] == x && x == items[b]);
    }
}

/// Appending an item and sorting is the same as inserting it into the sorted
/// rest: the unfolding step behind the insertion-sort loop.
proof fn lemma_sort_push(s: Seq<ItemModel>, x: ItemModel)
    ensures
        sort_by_height(s.push(x)) == insert_by_height(x, sort_by_height(s)),
{
    assert(s.push(x).drop_last() =~= s);
    assert(s.push(x).last() == x);
}

/// `insert_by_height` puts the item exactly at the first position whose
/// element is shorter than the item.
proof fn lemma_insert_at_pos(item: ItemModel, s: Seq<ItemModel>, pos: int)
    requires
        0 <= pos <= s.len(),
        forall|j: int| 0 <= j < pos ==> (#[trigger] s[j]).h >= item.h,
        pos < s.len() ==> s[pos].h < item.h,
    ensures
        insert_by_height(item, s) == s.insert(pos, item),
    decreases pos,
{
    if pos == 0 {
        if s.len() == 0 {
            assert(insert_by_height(item, s) =~= s.insert(0, item));
        } else {
            assert(item.h > s[0].h);
            assert(insert_by_height(item, s) =~= s.insert(0, item));
        }
    } else {
        assert(s[0].h >= item.h);
        let rest = s.drop_first();
        assert(forall|j: int| 0 <= j < pos - 1 ==> (#[trigger] rest[j]).h >= item.h);
        lemma_insert_at_pos(item, rest, pos - 1);
        assert(insert_by_height(item, s) == seq![s[0]] + rest.insert(pos - 1, item));
        assert(seq![s[0]] + rest.insert(pos - 1, item) =~= s.insert(pos, item));
    }
}

/// Sorts the items tallest-first; stable, so equal heights keep their input
/// order. The result is exactly the spec-level `sort_by_height`.
fn sort_items(items: &Vec<SourceItem>) -> (res: Vec<SourceItem>)
    ensures
        items_model(res@) == sort_by_height(items_model(items@)),
{
    let mut res: Vec<SourceItem> = Vec::new();
    let mut i: usize = 0;
    while i < items.len()
        invariant
            0 <= i <= items.len(),
            items_model(res@) == sort_by_height(items_model(items@).take(i as int)),
        decreases items.len() - i,
    {
        let item = items[i].clone();
        let mut pos: usize = 0;
        while pos < res.len() && res[pos].height >= item.height
            invariant
                0 <= pos <= res.len(),
                forall|j: int| 0 <= j < pos ==> (#[trigger] res@[j]).height >= item.height,
            decreases res.len() - pos,
        {
            pos = pos + 1;
        }
        proof {
            let s_model = items_model(res@);
            assert(forall|j: int|
                0 <= j < pos ==> (#[trigger] s_model[j]).h >= item@.h) by {
                assert(forall|j: int|
                    0 <= j < pos ==> (#[trigger] s_model[j]) == res@[j]@);
            }
            lemma_insert_at_pos(item@, s_model, pos as int);
            let all = items_model(items@);
            assert(all.take(i as int).push(all[i as int]) =~= all.take(i + 1));
            lemma_sort_push(all.take(i as int), all[i as int]);
            assert(all[i as int] == item@);
        }
        let ghost old_res = res@;
        res.insert(pos, item);
        proof {
            assert(items_model(res@) =~= items_model(old_res).insert(
                pos as int,
                items_model(items@)[i as int],
            ));
        }
        i = i + 1;
    }
    proof {
        assert(items_model(items@).take(items@.len() as int) =~= items_model(items@));
    }
    res
}

/// The walk cursor: position of the next placement, the tallest item of the
/// current row, and the canvas height accumulated so far.
pub ghost struct ShelfState {
    pub x: int,
    pub y: int,
    pub row_height: int,
    pub canvas_height: int,
}

/// The cursor at the start of an attempt.
pub open spec fn initial_state() -> ShelfState {
    ShelfState { x: 0, y: 0, row_height: 0, canvas_height: 0 }
}

/// One full walk over `dims` starting from cursor `st` on a `bound x bound`
/// canvas: `Some` holds the placed rectangles (aligned with `dims`) and the
/// accumulated canvas height; `None` means some item crossed the canvas edge
/// and the attempt must be retried on a larger canvas.
pub open spec fn attempt_from(
    dims: Seq<ItemModel>,
    border: int,
    bound: int,
    st: ShelfState,
) -> Option<(Seq<RectModel>, int)>
    decreases dims.len(),
{
    if dims.len() == 0 {
        Some((Seq::<RectModel>::empty(), st.canvas_height))
    } else {
        let w = dims[0].w;
        let h = dims[0].h;
        let cur = if st.x + w > bound {
            ShelfState {
                x: 0,
                y: st.y + st.row_height + border,
                row_height: 0,
                canvas_height: st.canvas_height,
            }
        } else {
            st
        };
        if w > bound || cur.y + h > bound {
            None
        } else {
            let placed = RectModel { x: cur.x, y: cur.y, w, h };
            let next = if h > cur.row_height {
                ShelfState {
                    x: cur.x + w + border,
                    y: cur.y,
                    row_height: h,
                    canvas_height: cur.y + h + border,
                }
            } else {
                ShelfState {
                    x: cur.x + w + border,
                    y: cur.y,
                    row_height: cur.row_height,
                    canvas_height: cur.canvas_height,
                }
            };
            match attempt_from(dims.drop_first(), border, bound, next) {
                None => None,
                Some((rest, ch)) => Some((seq![placed] + rest, ch)),
            }
        }
    }
}

/// A full attempt from the initial cursor.
pub open spec fn attempt(dims: Seq<ItemModel>, border: int, bound: int) -> Option<
    (Seq<RectModel>, int),
> {
    attempt_from(dims, border, bound, initial_state())
}

/// One placement attempt on a `bound x bound` canvas, mirroring
/// `attempt_from` step for step. `Some` pairs the placed rectangles (aligned
/// with `items`) with the accumulated canvas height, which can exceed `bound`
/// by at most one border and is therefore returned as a `u64`.
fn try_attempt(items: &Vec<SourceItem>, border: u32, bound: u32) -> (res: Option<(Vec<Rect>, u64)>)
    ensures
        match res {
            Some(p) => attempt(items_model(items@), border as int, bound as int) == Some(
                (p.0@.map_values(|r: Rect| r@), p.1 as int),
            ),
            None => attempt(items_model(items@), border as int, bound as int) is None,
        },
{
    let ghost dims = items_model(items@);
    let ghost border_i = border as int;
    let ghost bound_i = bound as int;
    let bound64: u64 = bound as u64;
    let border64: u64 = border as u64;
    let mut rects: Vec<Rect> = Vec::new();
    let mut x: u64 = 0;
    let mut y: u64 = 0;
    let mut row_h: u64 = 0;
    let mut canvas_h: u64 = 0;
    let mut i: usize = 0;
    proof {
        assert(dims.skip(0) =~= dims);
        match attempt_from(dims, border_i, bound_i, initial_state()) {
            None => {},
            Some(p) => {
                assert(rects@.map_values(|r: Rect| r@) =~= Seq::<RectModel>::empty());
                assert(Seq::<RectModel>::empty() + p.0 =~= p.0);
            },
        }
    }
    while i < items.len()
        invariant
            0 <= i <= items.len(),
            dims == items_model(items@),
            dims.len() == items.len(),
            rects@.len() == i,
            x <= bound64 + border64,
            y <= bound64,
            row_h <= bound64,
            canvas_h <= bound64 + border64,
            bound64 == bound as u64 && border64 == border as u64,
            border_i == border as int && bound_i == bound as int,
            ({
                let st = ShelfState {
                    x: x as int,
                    y: y as int,
                    row_height: row_h as int,
                    canvas_height: canvas_h as int,
                };
                match attempt_from(dims.skip(i as int), border_i, bound_i, st) {
                    None => attempt(dims, border_i, bound_i) is None,
                    Some(p) => attempt(dims, border_i, bound_i) == Some(
                        (rects@.map_values(|r: Rect| r@) + p.0, p.1),
                    ),
                }
            }),
        decreases items.len() - i,
    {
        let ghost st0 = ShelfState {
            x: x as int,
            y: y as int,
            row_height: row_h as int,
            canvas_height: canvas_h as int,
        };
        proof {
            assert(dims.skip(i as int).len() > 0);
            assert(dims.skip(i as int)[0] == dims[i as int]);
            assert(dims.skip(i as int).drop_first() =~= dims.skip(i as int + 1));
            assert(dims[i as int] == items@[i as int]@);
        }
        let w64: u64 = items[i].width as u64;
        let h64: u64 = items[i].height as u64;
        if x + w64 > bound64 {
            y = y + row_h + border64;
            x = 0;
            row_h = 0;
        }
        let ghost cur = ShelfState {
            x: x as int,
            y: y as int,
            row_height: row_h as int,
            canvas_height: canvas_h as int,
        };
        if w64 > bound64 || y + h64 > bound64 {
            proof {
                let s = dims.skip(i as int);
                let cur_model = if st0.x + s[0].w > bound_i {
                    ShelfState {
                        x: 0,
                        y: st0.y + st0.row_height + border_i,
                        row_height: 0,
                        canvas_height: st0.canvas_height,
                    }
                } else {
                    st0
                };
                assert(cur_model == cur);
                assert(s[0].w > bound_i || cur_model.y + s[0].h > bound_i);
                assert(attempt_from(s, border_i, bound_i, st0) is None);
            }
            return None;
        }
        let r = Rect {
            x: x as u32,
            y: y as u32,
            w: items[i].width,
            h: items[i].height,
        };
        let ghost placed_before = rects@.map_values(|q: Rect| q@);
        rects.push(r);
        if h64 > row_h {
            row_h = h64;
            canvas_h = y + h64 + border64;
        }
        x = x + w64 + border64;
        i = i + 1;
        proof {
            let s = dims.skip(i - 1);
            let cur_model = if st0.x + s[0].w > bound_i {
                ShelfState {
                    x: 0,
                    y: st0.y + st0.row_height + border_i,
                    row_height: 0,
                    canvas_height: st0.canvas_height,
                }
            } else {
                st0
            };
            assert(cur_model == cur);
            let placed = RectModel { x: cur.x, y: cur.y, w: s[0].w, h: s[0].h };
            assert(r@ == placed);
            assert(rects@.map_values(|q: Rect| q@) =~= placed_before.push(placed));
            let st1 = ShelfState {
                x: x as int,
                y: y as int,
                row_height: row_h as int,
                canvas_height: canvas_h as int,
            };
            let next_model = if s[0].h > cur_model.row_height {
                ShelfState {
                    x: cur_model.x + s[0].w + border_i,
                    y: cur_model.y,
                    row_height: s[0].h,
                    canvas_height: cur_model.y + s[0].h + border_i,
                }
            } else {
                ShelfState {
                    x: cur_model.x + s[0].w + border_i,
                    y: cur_model.y,
                    row_height: cur_model.row_height,
                    canvas_height: cur_model.canvas_height,
                }
            };
            assert(next_model == st1);
            match attempt_from(dims.skip(i as int), border_i, bound_i, st1) {
                None => {
                    assert(attempt_from(s, border_i, bound_i, st0) is None);
                },
                Some(p) => {
                    assert(attempt_from(s, border_i, bound_i, st0) == Some(
                        (seq![placed] + p.0, p.1),
                    ));
                    assert(placed_before + (seq![placed] + p.0) =~= placed_before.push(placed)
                        + p.0);
                },
            }
        }
    }
    proof {
        assert(dims.skip(items@.len() as int) =~= Seq::<ItemModel>::empty());
        let st = ShelfState {
            x: x as int,
            y: y as int,
            row_height: row_h as int,
            canvas_height: canvas_h as int,
        };
        assert(attempt_from(Seq::<ItemModel>::empty(), border_i, bound_i, st) == Some(
            (Seq::<RectModel>::empty(), canvas_h as int),
        ));
        assert(rects@.map_values(|r: Rect| r@) + Seq::<RectModel>::empty() =~= rects@.map_values(
            |r: Rect| r@,
        ));
    }
    Some((rects, canvas_h))
}

/// The next canvas edge length: the old one multiplied by the growth factor,
/// rounded down.
pub open spec fn grow_dim(bound: int, num: int, den: int) -> int {
    bound * num / den
}

/// The result of a successful placement run: one entry per item (sorted
/// order), pairing the item's id with its rectangle, plus the final canvas
/// dimensions.
pub ghost struct PlacementModel {
    pub entries: Seq<(Seq<char>, RectModel)>,
    pub canvas_width: int,
    pub canvas_height: int,
}

/// The growth-retry loop: attempt on the current square bound; on success the
/// canvas is `bound` wide and as tall as the walk accumulated, provided that
/// height and the total byte count are representable; on failure grow the
/// bound and retry until the retry ceiling or the maximum canvas dimension is
/// exceeded.
pub open spec fn place_rounds(
    sorted: Seq<ItemModel>,
    border: int,
    bound: int,
    num: int,
    den: int,
    retries: nat,
) -> Result<PlacementModel, PackError>
    decreases retries,
{
    match attempt(sorted, border, bound) {
        Some((rects, ch)) => {
            if ch <= u32::MAX && 4 * bound * ch <= usize::MAX {
                Ok(
                    PlacementModel {
                        entries: Seq::new(rects.len(), |i: int| (sorted[i].id, rects[i])),
                        canvas_width: bound,
                        canvas_height: ch,
                    },
                )
            } else {
                Err(PackError::Unplaceable)
            }
        },
        None => {
            if retries == 0 {
                Err(PackError::Unplaceable)
            } else {
                let grown = grow_dim(bound, num, den);
                if grown > u32::MAX {
                    Err(PackError::Unplaceable)
                } else {
                    place_rounds(sorted, border, grown, num, den, (retries - 1) as nat)
                }
            }
        },
    }
}

/// The full placement function: reject degenerate input, sort tallest-first,
/// then run the growth-retry loop from the seed canvas.
pub open spec fn place_model(items: Seq<ItemModel>, cfg: ConfigModel) -> Result<
    PlacementModel,
    PackError,
> {
    if !valid_items(items) {
        Err(PackError::DegenerateInput)
    } else {
        place_rounds(
            sort_by_height(items),
            cfg.border,
            cfg.seed_size,
            cfg.growth_num,
            cfg.growth_den,
            cfg.max_retries as nat,
        )
    }
}

/// The walk-state invariant: either the current row is untouched (the cursor
/// sits at the left edge and the accumulated height already accounts for all
/// previous rows), or the row holds at least one item and the accumulated
/// height covers this row plus one border.
pub open spec fn state_wf(st: ShelfState, border: int) -> bool {
    &&& 0 <= st.x
    &&& 0 <= st.y
    &&& 0 <= st.row_height
    &&& 0 <= st.canvas_height
    &&& ((st.x == 0 && st.row_height == 0 && st.canvas_height == st.y) || (st.x >= 1
        && st.row_height >= 1 && st.canvas_height == st.y + st.row_height + border))
}

/// The inductive facts of a successful walk: one rectangle per item with the
/// item's dimensions, every rectangle inside the `bound`-wide,
/// `canvas-height`-tall canvas, every rectangle below or right of the cursor,
/// and all rectangles pairwise disjoint.
proof fn lemma_attempt_from_props(dims: Seq<ItemModel>, border: int, bound: int, st: ShelfState)
    requires
        border >= 0,
        bound >= 0,
        state_wf(st, border),
        forall|i: int| 0 <= i < dims.len() ==> (#[trigger] dims[i]).w >= 1 && dims[i].h >= 1,
        attempt_from(dims, border, bound, st) is Some,
    ensures
        ({
            let r = attempt_from(dims, border, bound, st)->Some_0;
            let rects = r.0;
            let ch = r.1;
            &&& rects.len() == dims.len()
            &&& ch >= st.canvas_height
            &&& forall|i: int|
                0 <= i < rects.len() ==> (#[trigger] rects[i]).w == dims[i].w && rects[i].h
                    == dims[i].h
            &&& forall|i: int|
                0 <= i < rects.len() ==> (#[trigger] rects[i]).within_canvas(bound, ch)
            &&& forall|i: int| 0 <= i < rects.len() ==> (#[trigger] rects[i]).y >= st.y
            &&& forall|i: int|
                0 <= i < rects.len() ==> ((#[trigger] rects[i]).y == st.y ==> rects[i].x >= st.x)
            &&& forall|i: int|
                0 <= i < rects.len() ==> ((#[trigger] rects[i]).y > st.y ==> rects[i].y >= st.y
                    + st.row_height + border)
            &&& forall|i: int, j: int|
                #![trigger rects[i].disjoint_from(rects[j])]
                0 <= i < j < rects.len() ==> rects[i].disjoint_from(rects[j])
        }),
    decreases dims.len(),
{
    if dims.len() == 0 {
        return ;
    }
    let w = dims[0].w;
    let h = dims[0].h;
    let cur = if st.x + w > bound {
        ShelfState {
            x: 0,
            y: st.y + st.row_height + border,
            row_height: 0,
            canvas_height: st.canvas_height,
        }
    } else {
        st
    };
    assert(!(w > bound || cur.y + h > bound));
    let placed = RectModel { x: cur.x, y: cur.y, w, h };
    let next = if h > cur.row_height {
        ShelfState {
            x: cur.x + w + border,
            y: cur.y,
            row_height: h,
            canvas_height: cur.y + h + border,
        }
    } else {
        ShelfState {
            x: cur.x + w + border,
            y: cur.y,
            row_height: cur.row_height,
            canvas_height: cur.canvas_height,
        }
    };
    let tail = dims.drop_first();
    if st.x + w > bound {
        // a wrap from an untouched row would mean the item is wider than the
        // canvas, which the width check already excluded
        assert(st.x >= 1);
        assert(st.row_height >= 1 && st.canvas_height == st.y + st.row_height + border);
        assert(cur.y > st.y);
    }
    assert(state_wf(cur, border));
    assert(state_wf(next, border));
    assert(next.canvas_height >= placed.y + placed.h);
    assert(next.canvas_height >= cur.canvas_height);
    assert(forall|i: int| 0 <= i < tail.len() ==> (#[trigger] tail[i]).w >= 1 && tail[i].h >= 1);
    assert(attempt_from(tail, border, bound, next) is Some);
    lemma_attempt_from_props(tail, border, bound, next);
    let rr = attempt_from(tail, border, bound, next)->Some_0;
    let rest = rr.0;
    let ch = rr.1;
    let result = attempt_from(dims, border, bound, st)->Some_0;
    assert(result.0 == seq![placed] + rest && result.1 == ch);
    let rects = result.0;
    assert(rects[0] == placed);
    assert(forall|i: int| 1 <= i < rects.len() ==> rects[i] == rest[i - 1]);
    assert(forall|i: int| 1 <= i < dims.len() ==> dims[i] == tail[i - 1]);
    assert(rects.len() == dims.len());
    assert(ch >= next.canvas_height >= st.canvas_height);
    assert(placed.within_canvas(bound, ch));
    // the head rectangle relates to the original cursor
    assert(placed.y >= st.y);
    assert(placed.y == st.y ==> placed.x >= st.x);
    assert(placed.y > st.y ==> placed.y >= st.y + st.row_height + border);
    // the tail rectangles relate to the original cursor as well
    assert forall|i: int| 1 <= i < rects.len() implies (#[trigger] rects[i]).y >= st.y && (
    rects[i].y == st.y ==> rects[i].x >= st.x) && (rects[i].y > st.y ==> rects[i].y >= st.y
        + st.row_height + border) by {
        let r = rects[i];
        assert(r == rest[i - 1]);
        assert(r.y >= next.y);
        if r.y == st.y {
            assert(next.y == cur.y >= st.y);
            assert(r.y >= next.y >= st.y);
            assert(cur.y == st.y);
            assert(cur == st);
            assert(r.x >= next.x == st.x + w + border);
        }
        if r.y > st.y {
            if cur.y > st.y {
                assert(cur.y == st.y + st.row_height + border);
                assert(r.y >= cur.y);
            } else {
                assert(cur == st);
                if r.y > next.y {
                    assert(r.y >= next.y + next.row_height + border);
                    assert(next.row_height >= st.row_height);
                } else {
                    assert(r.y == next.y == st.y);
                    assert(false);
                }
            }
        }
    }
    // the head rectangle is disjoint from every tail rectangle
    assert forall|i: int| 1 <= i < rects.len() implies placed.disjoint_from(
        #[trigger] rects[i],
    ) by {
        let r = rects[i];
        assert(r == rest[i - 1]);
        assert(r.y >= next.y == placed.y);
        if r.y == placed.y {
            assert(r.x >= next.x == placed.x + placed.w + border);
        } else {
            assert(r.y > next.y);
            assert(r.y >= next.y + next.row_height + border);
            assert(next.row_height >= h);
        }
    }
    assert forall|i: int, j: int|
        #![trigger rects[i].disjoint_from(rects[j])]
        0 <= i < j < rects.len() implies rects[i].disjoint_from(rects[j]) by {
        if i == 0 {
            assert(placed.disjoint_from(rects[j]));
        } else {
            assert(rest[i - 1].disjoint_from(rest[j - 1]));
        }
    }
}

/// A successful walk places exactly one rectangle per item.
proof fn lemma_attempt_from_len(dims: Seq<ItemModel>, border: int, bound: int, st: ShelfState)
    requires
        attempt_from(dims, border, bound, st) is Some,
    ensures
        attempt_from(dims, border, bound, st)->Some_0.0.len() == dims.len(),
    decreases dims.len(),
{
    if dims.len() == 0 {
    } else {
        let w = dims[0].w;
        let h = dims[0].h;
        let cur = if st.x + w > bound {
            ShelfState {
                x: 0,
                y: st.y + st.row_height + border,
                row_height: 0,
                canvas_height: st.canvas_height,
            }
        } else {
            st
        };
        let next = if h > cur.row_height {
            ShelfState {
                x: cur.x + w + border,
                y: cur.y,
                row_height: h,
                canvas_height: cur.y + h + border,
            }
        } else {
            ShelfState {
                x: cur.x + w + border,
                y: cur.y,
                row_height: cur.row_height,
                canvas_height: cur.canvas_height,
            }
        };
        lemma_attempt_from_len(dims.drop_first(), border, bound, next);
    }
}

/// Insertion keeps exactly the elements of `s` plus the new item.
proof fn lemma_insert_by_height_elems(item: ItemModel, s: Seq<ItemModel>)
    ensures
        insert_by_height(item, s).len() == s.len() + 1,
        forall|x: ItemModel|
            #[trigger] insert_by_height(item, s).contains(x) <==> (x == item || s.contains(x)),
    decreases s.len(),
{
    broadcast use vstd::seq_lib::lemma_seq_concat_contains_all_elements;

    let r = insert_by_height(item, s);
    if s.len() == 0 {
        assert(r[0] == item);
        assert(forall|x: ItemModel| s.contains(x) ==> false);
        assert forall|x: ItemModel| #[trigger] r.contains(x) implies (x == item || s.contains(
            x,
        )) by {
            let i = choose|i: int| 0 <= i < r.len() && r[i] == x;
            assert(r[i] == item);
        }
        assert(r.contains(item)) by {
            assert(r[0] == item);
        }
    } else if item.h > s[0].h {
        assert(r == seq![item] + s);
        assert forall|x: ItemModel| #[trigger] seq![item].contains(x) implies x == item by {
            let i = choose|i: int| 0 <= i < seq![item].len() && seq![item][i] == x;
        }
        assert(seq![item].contains(item)) by {
            assert(seq![item][0] == item);
        }
    } else {
        let rest = s.drop_first();
        lemma_insert_by_height_elems(item, rest);
        assert(r == seq![s[0]] + insert_by_height(item, rest));
        assert forall|x: ItemModel| #[trigger] seq![s[0]].contains(x) implies x == s[0] by {
            let i = choose|i: int| 0 <= i < seq![s[0]].len() && seq![s[0]][i] == x;
        }
        assert(seq![s[0]].contains(s[0])) by {
            assert(seq![s[0]][0] == s[0]);
        }
        assert forall|x: ItemModel| #[trigger] s.contains(x) implies (x == s[0] || rest.contains(
            x,
        )) by {
            let i = choose|i: int| 0 <= i < s.len() && s[i] == x;
            if i > 0 {
                assert(rest[i - 1] == x);
            }
        }
        assert forall|x: ItemModel| x == s[0] || rest.contains(x) implies #[trigger] s.contains(
            x,
        ) by {
            if x == s[0] {
                assert(s[0] == x);
            } else {
                let i = choose|i: int| 0 <= i < rest.len() && rest[i] == x;
                assert(s[i + 1] == x);
            }
        }
    }
}

/// Sorting keeps exactly the elements of the input.
pub proof fn lemma_sort_by_height_elems(s: Seq<ItemModel>)
    ensures
        sort_by_height(s).len() == s.len(),
        forall|x: ItemModel| #[trigger] sort_by_height(s).contains(x) <==> s.contains(x),
    decreases s.len(),
{
    let r = sort_by_height(s);
    if s.len() == 0 {
        assert forall|x: ItemModel| !(#[trigger] r.contains(x)) && !s.contains(x) by {}
    } else {
        let front = s.drop_last();
        lemma_sort_by_height_elems(front);
        lemma_insert_by_height_elems(s.last(), sort_by_height(front));
        assert forall|x: ItemModel| #[trigger] s.contains(x) implies (x == s.last()
            || front.contains(x)) by {
            let i = choose|i: int| 0 <= i < s.len() && s[i] == x;
            if i < s.len() - 1 {
                assert(front[i] == x);
            }
        }
        assert forall|x: ItemModel| x == s.last() || front.contains(x) implies #[trigger] s.contains(
            x,
        ) by {
            if x == s.last() {
                assert(s[s.len() - 1] == x);
            } else {
                let i = choose|i: int| 0 <= i < front.len() && front[i] == x;
                assert(s[i] == x);
            }
        }
    }
}

/// Every element of the sorted sequence satisfies what every element of the
/// input satisfies; in particular dimensions stay strictly positive.
pub proof fn lemma_sort_by_height_valid(s: Seq<ItemModel>)
    requires
        forall|i: int| 0 <= i < s.len() ==> (#[trigger] s[i]).w >= 1 && s[i].h >= 1,
    ensures
        forall|i: int|
            0 <= i < sort_by_height(s).len() ==> (#[trigger] sort_by_height(s)[i]).w >= 1
                && sort_by_height(s)[i].h >= 1,
{
    lemma_sort_by_height_elems(s);
    let r = sort_by_height(s);
    assert forall|i: int| 0 <= i < r.len() implies (#[trigger] r[i]).w >= 1 && r[i].h >= 1 by {
        assert(r.contains(r[i]));
        let j = choose|j: int| 0 <= j < s.len() && s[j] == r[i];
    }
}

/// Some item carries this id.
pub open spec fn contains_id(s: Seq<ItemModel>, id: Seq<char>) -> bool {
    exists|i: int| 0 <= i < s.len() && (#[trigger] s[i]).id == id
}

/// No two items share an id.
pub open spec fn distinct_ids(s: Seq<ItemModel>) -> bool {
    forall|i: int, j: int|
        #![trigger s[i], s[j]]
        0 <= i < j < s.len() ==> s[i].id != s[j].id
}

/// Inserting an item with a fresh id keeps the ids distinct, and the result
/// carries exactly the old ids plus the new one.
proof fn lemma_insert_ids(item: ItemModel, s: Seq<ItemModel>)
    requires
        distinct_ids(s),
        !contains_id(s, item.id),
    ensures
        distinct_ids(insert_by_height(item, s)),
        forall|id: Seq<char>|
            #[trigger] contains_id(insert_by_height(item, s), id) <==> (id == item.id
                || contains_id(s, id)),
    decreases s.len(),
{
    let r = insert_by_height(item, s);
    if s.len() == 0 {
        assert(r[0] == item);
        assert forall|id: Seq<char>| #[trigger] contains_id(r, id) implies (id == item.id
            || contains_id(s, id)) by {
            let i = choose|i: int| 0 <= i < r.len() && r[i].id == id;
            assert(r[i] == item);
        }
    } else if item.h > s[0].h {
        assert(r == seq![item] + s);
        assert(r[0] == item);
        assert(forall|i: int| 1 <= i < r.len() ==> r[i] == s[i - 1]);
        assert forall|i: int, j: int|
            #![trigger r[i], r[j]]
            0 <= i < j < r.len() implies r[i].id != r[j].id by {
            if i == 0 {
                assert(s[j - 1].id == r[j].id);
                if r[0].id == r[j].id {
                    assert(contains_id(s, item.id));
                }
            } else {
                assert(s[i - 1].id == r[i].id && s[j - 1].id == r[j].id);
            }
        }
        assert forall|id: Seq<char>| #[trigger] contains_id(r, id) implies (id == item.id
            || contains_id(s, id)) by {
            let i = choose|i: int| 0 <= i < r.len() && r[i].id == id;
            if i >= 1 {
                assert(s[i - 1].id == id);
            }
        }
        assert forall|id: Seq<char>| id == item.id || contains_id(s, id) implies
            #[trigger] contains_id(r, id) by {
            if id == item.id {
                assert(r[0].id == id);
            } else {
                let i = choose|i: int| 0 <= i < s.len() && s[i].id == id;
                assert(r[i + 1].id == id);
            }
        }
    } else {
        let rest = s.drop_first();
        let inner = insert_by_height(item, rest);
        assert(r == seq![s[0]] + inner);
        assert(forall|i: int| 1 <= i < r.len() ==> r[i] == inner[i - 1]);
        assert(forall|i: int| 0 <= i < rest.len() ==> rest[i] == s[i + 1]);
        assert(distinct_ids(rest));
        assert(!contains_id(rest, item.id)) by {
            if contains_id(rest, item.id) {
                let i = choose|i: int| 0 <= i < rest.len() && rest[i].id == item.id;
                assert(s[i + 1].id == item.id);
                assert(contains_id(s, item.id));
            }
        }
        lemma_insert_ids(item, rest);
        assert forall|id: Seq<char>| #[trigger] contains_id(r, id) implies (id == item.id
            || contains_id(s, id)) by {
            let i = choose|i: int| 0 <= i < r.len() && r[i].id == id;
            if i == 0 {
                assert(s[0].id == id);
            } else {
                assert(inner[i - 1].id == id);
                assert(contains_id(inner, id));
                if id != item.id {
                    let m = choose|m: int| 0 <= m < rest.len() && rest[m].id == id;
                    assert(s[m + 1].id == id);
                }
            }
        }
        assert forall|id: Seq<char>| id == item.id || contains_id(s, id) implies
            #[trigger] contains_id(r, id) by {
            if id == item.id {
                assert(contains_id(inner, id));
                let m = choose|m: int| 0 <= m < inner.len() && inner[m].id == id;
                assert(r[m + 1].id == id);
            } else {
                let i = choose|i: int| 0 <= i < s.len() && s[i].id == id;
                if i == 0 {
                    assert(r[0].id == id);
                } else {
                    assert(rest[i - 1].id == id);
                    assert(contains_id(rest, id));
                    assert(contains_id(inner, id));
                    let m = choose|m: int| 0 <= m < inner.len() && inner[m].id == id;
                    assert(r[m + 1].id == id);
                }
            }
        }
        assert forall|i: int, j: int|
            #![trigger r[i], r[j]]
            0 <= i < j < r.len() implies r[i].id != r[j].id by {
            if i == 0 {
                assert(inner[j - 1].id == r[j].id);
                assert(contains_id(inner, r[j].id));
                if r[0].id == r[j].id {
                    // the head's id would have to be the inserted id or an id
                    // of the rest, and both are excluded
                    if r[j].id == item.id {
                        assert(contains_id(s, item.id));
                    } else {
                        let m = choose|m: int| 0 <= m < rest.len() && rest[m].id == r[j].id;
                        assert(s[m + 1].id == r[j].id);
                        assert(s[0].id != s[m + 1].id);
                    }
                }
            } else {
                assert(r[i] == inner[i - 1] && r[j] == inner[j - 1]);
            }
        }
    }
}

/// Sorting keeps the ids distinct and carries exactly the input's ids.
pub proof fn lemma_sort_distinct_ids(s: Seq<ItemModel>)
    requires
        distinct_ids(s),
    ensures
        distinct_ids(sort_by_height(s)),
        forall|id: Seq<char>|
            #[trigger] contains_id(sort_by_height(s), id) <==> contains_id(s, id),
    decreases s.len(),
{
    let r = sort_by_height(s);
    if s.len() == 0 {
        assert forall|id: Seq<char>| !(#[trigger] contains_id(r, id)) && !contains_id(s, id) by {}
    } else {
        let front = s.drop_last();
        let inner = sort_by_height(front);
        assert(forall|i: int| 0 <= i < front.len() ==> front[i] == s[i]);
        assert(distinct_ids(front));
        lemma_sort_distinct_ids(front);
        assert(!contains_id(inner, s.last().id)) by {
            if contains_id(inner, s.last().id) {
                assert(contains_id(front, s.last().id));
                let i = choose|i: int| 0 <= i < front.len() && front[i].id == s.last().id;
                assert(s[i].id == s[s.len() - 1].id);
            }
        }
        lemma_insert_ids(s.last(), inner);
        assert forall|id: Seq<char>| #[trigger] contains_id(r, id) implies contains_id(s, id) by {
            if id == s.last().id {
                assert(s[s.len() - 1].id == id);
            } else {
                assert(contains_id(inner, id));
                assert(contains_id(front, id));
                let i = choose|i: int| 0 <= i < front.len() && front[i].id == id;
                assert(s[i].id == id);
            }
        }
        assert forall|id: Seq<char>| #[trigger] contains_id(s, id) implies contains_id(r, id) by {
            let i = choose|i: int| 0 <= i < s.len() && s[i].id == id;
            if i < s.len() - 1 {
                assert(front[i].id == id);
                assert(contains_id(front, id));
            } else {
                assert(id == s.last().id);
            }
        }
    }
}

/// The keys of a successful placement are unique whenever the input ids are:
/// every item receives exactly one rectangle under its own id.
pub proof fn lemma_placement_keys_unique(items: Seq<ItemModel>, cfg: ConfigModel)
    requires
        cfg.wf(),
        distinct_ids(items),
        place_model(items, cfg) is Ok,
    ensures
        ({
            let out = place_model(items, cfg)->Ok_0;
            forall|i: int, j: int|
                #![trigger out.entries[i], out.entries[j]]
                0 <= i < j < out.entries.len() ==> out.entries[i].0 != out.entries[j].0
        }),
{
    let out = place_model(items, cfg)->Ok_0;
    let sorted = sort_by_height(items);
    lemma_sort_by_height_elems(items);
    lemma_sort_distinct_ids(items);
    lemma_place_model_ok(items, cfg);
    assert forall|i: int, j: int|
        #![trigger out.entries[i], out.entries[j]]
        0 <= i < j < out.entries.len() implies out.entries[i].0 != out.entries[j].0 by {
        assert(out.entries[i].0 == sorted[i].id && out.entries[j].0 == sorted[j].id);
        assert(sorted[i].id != sorted[j].id);
    }
}

/// A walk fails outright when some item is wider or taller than the canvas.
proof fn lemma_attempt_oversized_fails(dims: Seq<ItemModel>, border: int, bound: int, st: ShelfState)
    requires
        border >= 0,
        st.x >= 0,
        st.y >= 0,
        st.row_height >= 0,
        forall|i: int| 0 <= i < dims.len() ==> (#[trigger] dims[i]).w >= 0 && dims[i].h >= 0,
        exists|i: int|
            0 <= i < dims.len() && ((#[trigger] dims[i]).w > bound || dims[i].h > bound),
    ensures
        attempt_from(dims, border, bound, st) is None,
    decreases dims.len(),
{
    let k = choose|i: int|
        0 <= i < dims.len() && ((#[trigger] dims[i]).w > bound || dims[i].h > bound);
    let w = dims[0].w;
    let h = dims[0].h;
    let cur = if st.x + w > bound {
        ShelfState {
            x: 0,
            y: st.y + st.row_height + border,
            row_height: 0,
            canvas_height: st.canvas_height,
        }
    } else {
        st
    };
    if w > bound || cur.y + h > bound {
    } else {
        assert(k >= 1) by {
            if k == 0 {
                assert(dims[0].w > bound || dims[0].h > bound);
            }
        }
        let next = if h > cur.row_height {
            ShelfState {
                x: cur.x + w + border,
                y: cur.y,
                row_height: h,
                canvas_height: cur.y + h + border,
            }
        } else {
            ShelfState {
                x: cur.x + w + border,
                y: cur.y,
                row_height: cur.row_height,
                canvas_height: cur.canvas_height,
            }
        };
        let tail = dims.drop_first();
        assert(tail[k - 1] == dims[k]);
        assert(forall|i: int|
            0 <= i < tail.len() ==> (#[trigger] tail[i]).w >= 0 && tail[i].h >= 0) by {
            assert(forall|i: int| 0 <= i < tail.len() ==> tail[i] == dims[i + 1]);
        }
        lemma_attempt_oversized_fails(tail, border, bound, next);
    }
}

/// What a successful retry loop says of its result: the final canvas is at
/// least as wide as the starting bound, the recorded walk succeeded on it,
/// entries pair the sorted ids with the walk's rectangles, and the canvas
/// fits the machine limits.
proof fn lemma_place_rounds_ok(
    sorted: Seq<ItemModel>,
    border: int,
    bound: int,
    num: int,
    den: int,
    retries: nat,
)
    requires
        bound >= 0,
        den >= 1,
        num >= den,
        place_rounds(sorted, border, bound, num, den, retries) is Ok,
    ensures
        ({
            let out = place_rounds(sorted, border, bound, num, den, retries)->Ok_0;
            let rects = Seq::new(out.entries.len(), |i: int| out.entries[i].1);
            &&& out.canvas_width >= bound
            &&& attempt(sorted, border, out.canvas_width) == Some((rects, out.canvas_height))
            &&& out.entries.len() == sorted.len()
            &&& forall|i: int|
                0 <= i < out.entries.len() ==> (#[trigger] out.entries[i]).0 == sorted[i].id
            &&& out.canvas_height <= u32::MAX
            &&& 4 * out.canvas_width * out.canvas_height <= usize::MAX
        }),
    decreases retries,
{
    let out = place_rounds(sorted, border, bound, num, den, retries)->Ok_0;
    match attempt(sorted, border, bound) {
        Some(p) => {
            let rects = p.0;
            let ch = p.1;
            lemma_attempt_from_len(sorted, border, bound, initial_state());
            assert(Seq::new(out.entries.len(), |i: int| out.entries[i].1) =~= rects);
        },
        None => {
            let grown = grow_dim(bound, num, den);
            assert(grown >= bound) by {
                vstd::arithmetic::mul::lemma_mul_inequality(den, num, bound);
                vstd::arithmetic::div_mod::lemma_div_is_ordered(bound * den, bound * num, den);
                vstd::arithmetic::div_mod::lemma_div_multiples_vanish(bound, den);
            }
            lemma_place_rounds_ok(sorted, border, grown, num, den, (retries - 1) as nat);
        },
    }
}

/// No two placed rectangles overlap: for any two distinct entries of a
/// successful placement, their rectangles are disjoint.
pub proof fn lemma_placement_disjoint(items: Seq<ItemModel>, cfg: ConfigModel)
    requires
        cfg.wf(),
        place_model(items, cfg) is Ok,
    ensures
        ({
            let out = place_model(items, cfg)->Ok_0;
            forall|i: int, j: int|
                #![trigger out.entries[i], out.entries[j]]
                0 <= i < out.entries.len() && 0 <= j < out.entries.len() && i != j
                    ==> out.entries[i].1.disjoint_from(out.entries[j].1)
        }),
{
    let out = place_model(items, cfg)->Ok_0;
    let sorted = sort_by_height(items);
    lemma_sort_by_height_valid(items);
    lemma_place_rounds_ok(
        sorted,
        cfg.border,
        cfg.seed_size,
        cfg.growth_num,
        cfg.growth_den,
        cfg.max_retries as nat,
    );
    lemma_attempt_from_props(sorted, cfg.border, out.canvas_width, initial_state());
    let rects = Seq::new(out.entries.len(), |i: int| out.entries[i].1);
    assert forall|i: int, j: int|
        #![trigger out.entries[i], out.entries[j]]
        0 <= i < out.entries.len() && 0 <= j < out.entries.len() && i != j implies out.entries[i].1.disjoint_from(
        out.entries[j].1,
    ) by {
        if i < j {
            assert(rects[i].disjoint_from(rects[j]));
        } else {
            assert(rects[j].disjoint_from(rects[i]));
        }
    }
}

/// Every placed rectangle lies within the finalized canvas and keeps its
/// item's strictly positive dimensions.
pub proof fn lemma_placement_in_bounds(items: Seq<ItemModel>, cfg: ConfigModel)
    requires
        cfg.wf(),
        place_model(items, cfg) is Ok,
    ensures
        ({
            let out = place_model(items, cfg)->Ok_0;
            forall|i: int|
                0 <= i < out.entries.len() ==> (#[trigger] out.entries[i]).1.within_canvas(
                    out.canvas_width,
                    out.canvas_height,
                ) && out.entries[i].1.w >= 1 && out.entries[i].1.h >= 1
        }),
{
    let out = place_model(items, cfg)->Ok_0;
    let sorted = sort_by_height(items);
    lemma_sort_by_height_valid(items);
    lemma_place_rounds_ok(
        sorted,
        cfg.border,
        cfg.seed_size,
        cfg.growth_num,
        cfg.growth_den,
        cfg.max_retries as nat,
    );
    lemma_attempt_from_props(sorted, cfg.border, out.canvas_width, initial_state());
    let rects = Seq::new(out.entries.len(), |i: int| out.entries[i].1);
    assert forall|i: int| 0 <= i < out.entries.len() implies (#[trigger] out.entries[i]).1.within_canvas(
        out.canvas_width,
        out.canvas_height,
    ) && out.entries[i].1.w >= 1 && out.entries[i].1.h >= 1 by {
        assert(rects[i].within_canvas(out.canvas_width, out.canvas_height));
        assert(rects[i].w == sorted[i].w && rects[i].h == sorted[i].h);
    }
}

/// What every successful placement guarantees about its shape: one entry per
/// item carrying the sorted ids, and canvas dimensions within the machine
/// limits (the height fits a `u32`, the byte count fits a `usize`).
pub proof fn lemma_place_model_ok(items: Seq<ItemModel>, cfg: ConfigModel)
    requires
        cfg.wf(),
        place_model(items, cfg) is Ok,
    ensures
        ({
            let out = place_model(items, cfg)->Ok_0;
            &&& out.entries.len() == items.len()
            &&& out.canvas_width >= cfg.seed_size >= 0
            &&& 0 <= out.canvas_height <= u32::MAX
            &&& 4 * out.canvas_width * out.canvas_height <= usize::MAX
            &&& forall|i: int|
                0 <= i < out.entries.len() ==> (#[trigger] out.entries[i]).0 == sort_by_height(
                    items,
                )[i].id
            &&& forall|i: int|
                0 <= i < out.entries.len() ==> (#[trigger] out.entries[i]).1.w == sort_by_height(
                    items,
                )[i].w && out.entries[i].1.h == sort_by_height(items)[i].h
        }),
{
    let out = place_model(items, cfg)->Ok_0;
    let sorted = sort_by_height(items);
    lemma_sort_by_height_elems(items);
    lemma_sort_by_height_valid(items);
    lemma_place_rounds_ok(
        sorted,
        cfg.border,
        cfg.seed_size,
        cfg.growth_num,
        cfg.growth_den,
        cfg.max_retries as nat,
    );
    lemma_attempt_from_props(sorted, cfg.border, out.canvas_width, initial_state());
    let rects = Seq::new(out.entries.len(), |i: int| out.entries[i].1);
    assert(attempt(sorted, cfg.border, out.canvas_width) == Some((rects, out.canvas_height)));
    assert forall|i: int| 0 <= i < out.entries.len() implies (#[trigger] out.entries[i]).1.w
        == sorted[i].w && out.entries[i].1.h == sorted[i].h by {
        assert(rects[i].w == sorted[i].w && rects[i].h == sorted[i].h);
    }
}

/// Placement is a pure function of items and configuration: any two results
/// that meet `place`'s contract on the same input are identical, so running
/// the placer twice yields byte-identical placements and canvas dimensions.
pub proof fn lemma_place_deterministic(
    items: Seq<ItemModel>,
    cfg: ConfigModel,
    first: Result<PlacementModel, PackError>,
    second: Result<PlacementModel, PackError>,
)
    requires
        first == place_model(items, cfg),
        second == place_model(items, cfg),
    ensures
        first == second,
{
}

/// An item wider or taller than the seed canvas forces at least one retry:
/// the first walk fails, and any successful run ends on a canvas at least as
/// wide as the grown seed — strictly wider than the seed itself whenever
/// growing the seed is strict.
pub proof fn lemma_oversized_item_grows(items: Seq<ItemModel>, cfg: ConfigModel)
    requires
        cfg.wf(),
        valid_items(items),
        exists|i: int|
            0 <= i < items.len() && ((#[trigger] items[i]).w > cfg.seed_size || items[i].h
                > cfg.seed_size),
        grow_dim(cfg.seed_size, cfg.growth_num, cfg.growth_den) > cfg.seed_size,
    ensures
        attempt(sort_by_height(items), cfg.border, cfg.seed_size) is None,
        place_model(items, cfg) is Ok ==> place_model(items, cfg)->Ok_0.canvas_width >= grow_dim(
            cfg.seed_size,
            cfg.growth_num,
            cfg.growth_den,
        ) > cfg.seed_size,
{
    let sorted = sort_by_height(items);
    let k = choose|i: int|
        0 <= i < items.len() && ((#[trigger] items[i]).w > cfg.seed_size || items[i].h
            > cfg.seed_size);
    lemma_sort_by_height_elems(items);
    assert(items.contains(items[k])) by {
        assert(items[k] == items[k]);
    }
    assert(sorted.contains(items[k]));
    let m = choose|i: int| 0 <= i < sorted.len() && sorted[i] == items[k];
    assert(sorted[m].w > cfg.seed_size || sorted[m].h > cfg.seed_size);
    lemma_sort_by_height_valid(items);
    lemma_attempt_oversized_fails(sorted, cfg.border, cfg.seed_size, initial_state());
    if place_model(items, cfg) is Ok {
        let retries = cfg.max_retries as nat;
        assert(place_rounds(
            sorted,
            cfg.border,
            cfg.seed_size,
            cfg.growth_num,
            cfg.growth_den,
            retries,
        ) is Ok);
        let grown = grow_dim(cfg.seed_size, cfg.growth_num, cfg.growth_den);
        assert(retries != 0 && grown <= u32::MAX);
        lemma_place_rounds_ok(
            sorted,
            cfg.border,
            grown,
            cfg.growth_num,
            cfg.growth_den,
            (retries - 1) as nat,
        );
    }
}

/// The entries of a successful placement are in tallest-first order: the
/// heights of the placed rectangles never increase along the placement.
pub proof fn lemma_placement_tallest_first(items: Seq<ItemModel>, cfg: ConfigModel)
    requires
        cfg.wf(),
        place_model(items, cfg) is Ok,
    ensures
        ({
            let out = place_model(items, cfg)->Ok_0;
            forall|i: int, j: int|
                #![trigger out.entries[i], out.entries[j]]
                0 <= i < j < out.entries.len() ==> out.entries[i].1.h >= out.entries[j].1.h
        }),
{
    let out = place_model(items, cfg)->Ok_0;
    let sorted = sort_by_height(items);
    lemma_place_model_ok(items, cfg);
    lemma_sort_by_height_elems(items);
    lemma_sort_by_height_sorted(items);
    assert forall|i: int, j: int|
        #![trigger out.entries[i], out.entries[j]]
        0 <= i < j < out.entries.len() implies out.entries[i].1.h >= out.entries[j].1.h by {
        assert(out.entries[i].1.h == sorted[i].h && out.entries[j].1.h == sorted[j].h);
        assert(sorted[i].h >= sorted[j].h);
    }
}

/// The computed placements: one entry per placed item, keyed by the item's
/// id, together with the finalized canvas dimensions.
#[derive(Debug)]
pub struct PlacementMap {
    pub entries: Vec<(String, Rect)>,
}

impl View for PlacementMap {
    type V = Seq<(Seq<char>, RectModel)>;

    open spec fn view(&self) -> Seq<(Seq<char>, RectModel)> {
        self.entries@.map_values(|p: (String, Rect)| (p.0@, p.1@))
    }
}

/// The first placement entry whose id equals `id`, if any.
pub open spec fn find_entry(entries: Seq<(Seq<char>, RectModel)>, id: Seq<char>) -> Option<int>
    decreases entries.len(),
{
    if entries.len() == 0 {
        None
    } else if entries[0].0 == id {
        Some(0)
    } else {
        match find_entry(entries.drop_first(), id) {
            None => None,
            Some(j) => Some(j + 1),
        }
    }
}

/// `find_entry` returns the first match: a hit names a matching entry with
/// no earlier match, a miss means no entry matches at all.
pub proof fn lemma_find_entry_spec(entries: Seq<(Seq<char>, RectModel)>, id: Seq<char>)
    ensures
        match find_entry(entries, id) {
            Some(j) => 0 <= j < entries.len() && entries[j].0 == id && forall|i: int|
                0 <= i < j ==> (#[trigger] entries[i]).0 != id,
            None => forall|i: int| 0 <= i < entries.len() ==> (#[trigger] entries[i]).0 != id,
        },
    decreases entries.len(),
{
    if entries.len() == 0 {
    } else if entries[0].0 == id {
    } else {
        let rest = entries.drop_first();
        lemma_find_entry_spec(rest, id);
        match find_entry(rest, id) {
            Some(j) => {
                assert(entries[j + 1] == rest[j]);
                assert forall|i: int| 0 <= i < j + 1 implies (#[trigger] entries[i]).0 != id by {
                    if i >= 1 {
                        assert(entries[i] == rest[i - 1]);
                    }
                }
            },
            None => {
                assert forall|i: int| 0 <= i < entries.len() implies (#[trigger] entries[i]).0
                    != id by {
                    if i >= 1 {
                        assert(entries[i] == rest[i - 1]);
                    }
                }
            },
        }
    }
}

impl PlacementMap {
    /// Number of placed items.
    pub fn len(&self) -> (n: usize)
        ensures
            n == self@.len(),
    {
        self.entries.len()
    }

    /// The rectangle of the first entry whose id equals `id`, if any.
    pub fn get(&self, id: &String) -> (r: Option<Rect>)
        ensures
            match find_entry(self@, id@) {
                Some(k) => r is Some && r->Some_0@ == self@[k].1,
                None => r is None,
            },
    {
        proof {
            lemma_find_entry_spec(self@, id@);
        }
        let mut i: usize = 0;
        while i < self.entries.len()
            invariant
                0 <= i <= self.entries.len(),
                self@.len() == self.entries.len(),
                forall|j: int| 0 <= j < i ==> (#[trigger] self@[j]).0 != id@,
            decreases self.entries.len() - i,
        {
            proof {
                assert(self@[i as int] == (self.entries@[i as int].0@, self.entries@[i as int].1@));
            }
            if self.entries[i].0 == *id {
                proof {
                    lemma_find_entry_spec(self@, id@);
                    match find_entry(self@, id@) {
                        Some(k) => {
                            if k < i as int {
                                assert(self@[k].0 != id@);
                            }
                            if k > i as int {
                                assert(self@[i as int].0 != id@);
                            }
                        },
                        None => {
                            assert(self@[i as int].0 != id@);
                        },
                    }
                }
                return Some(self.entries[i].1);
            }
            i = i + 1;
        }
        proof {
            lemma_find_entry_spec(self@, id@);
            match find_entry(self@, id@) {
                Some(k) => {
                    assert(self@[k].0 != id@);
                },
                None => {},
            }
        }
        None
    }
}

/// Computes a placement for every item: sorts tallest-first, walks the shelf
/// layout, and grows the canvas on overflow up to the retry ceiling. Returns
/// the placements together with the final canvas width and height — exactly
/// the value of `place_model` on the same input, so placement is
/// deterministic. Fails with `DegenerateInput` on an empty item set or a
/// zero-sized item, and with `Unplaceable` when the retry ceiling or the
/// maximum canvas dimension is exceeded.
pub fn place(items: &Vec<SourceItem>, cfg: &PackConfig) -> (res: Result<
    (PlacementMap, u32, u32),
    PackError,
>)
    requires
        cfg.wf(),
    ensures
        ({
            let m = place_model(items_model(items@), cfg@);
            match res {
                Ok(p) => m == Ok::<PlacementModel, PackError>(
                    PlacementModel {
                        entries: p.0@,
                        canvas_width: p.1 as int,
                        canvas_height: p.2 as int,
                    },
                ),
                Err(e) => m == Err::<PlacementModel, PackError>(e),
            }
        }),
{
    let ghost dims = items_model(items@);
    let ghost cfg_m = cfg@;
    if items.len() == 0 {
        return Err(PackError::DegenerateInput);
    }
    let mut v: usize = 0;
    while v < items.len()
        invariant
            0 <= v <= items.len(),
            dims == items_model(items@),
            dims.len() == items.len(),
            forall|j: int| 0 <= j < v ==> (#[trigger] dims[j]).w >= 1 && dims[j].h >= 1,
        decreases items.len() - v,
    {
        proof {
            assert(dims[v as int] == items@[v as int]@);
        }
        if items[v].width == 0 || items[v].height == 0 {
            return Err(PackError::DegenerateInput);
        }
        v = v + 1;
    }
    assert(valid_items(dims));
    let sorted = sort_items(items);
    let ghost sorted_m = sort_by_height(dims);
    let mut bound: u32 = cfg.seed_size;
    let mut retries: u32 = cfg.max_retries;
    loop
        invariant
            cfg_m == cfg@,
            cfg_m.wf(),
            dims == items_model(items@),
            sorted_m == items_model(sorted@),
            place_rounds(
                sorted_m,
                cfg_m.border,
                bound as int,
                cfg_m.growth_num,
                cfg_m.growth_den,
                retries as nat,
            ) == place_model(dims, cfg_m),
        decreases retries,
    {
        match try_attempt(&sorted, cfg.border, bound) {
            Some(p) => {
                let (rects, tall) = p;
                let ghost rects_m = rects@.map_values(|r: Rect| r@);
                proof {
                    assert(4u128 * (bound as u128) * (tall as u128) <= u128::MAX) by (nonlinear_arith)
                        requires
                            bound <= u32::MAX,
                            tall <= u64::MAX,
                    {}
                    assert(place_rounds(
                        sorted_m,
                        cfg_m.border,
                        bound as int,
                        cfg_m.growth_num,
                        cfg_m.growth_den,
                        retries as nat,
                    ) == if tall as int <= u32::MAX && 4 * (bound as int) * (tall as int)
                        <= usize::MAX as int {
                        Ok::<PlacementModel, PackError>(
                            PlacementModel {
                                entries: Seq::new(
                                    rects_m.len(),
                                    |i: int| (sorted_m[i].id, rects_m[i]),
                                ),
                                canvas_width: bound as int,
                                canvas_height: tall as int,
                            },
                        )
                    } else {
                        Err(PackError::Unplaceable)
                    });
                }
                let area_ok: bool = 4u128 * (bound as u128) * (tall as u128) <= (usize::MAX
                    as u128);
                if tall > u32::MAX as u64 || !area_ok {
                    return Err(PackError::Unplaceable);
                }
                proof {
                    lemma_attempt_from_len(
                        sorted_m,
                        cfg_m.border,
                        bound as int,
                        initial_state(),
                    );
                }
                let mut entries: Vec<(String, Rect)> = Vec::new();
                let mut k: usize = 0;
                while k < rects.len()
                    invariant
                        0 <= k <= rects.len(),
                        rects@.map_values(|r: Rect| r@) == rects_m,
                        sorted_m == items_model(sorted@),
                        sorted@.len() == rects@.len(),
                        entries@.len() == k,
                        forall|j: int|
                            0 <= j < k ==> (#[trigger] entries@[j]).0@ == sorted_m[j].id
                                && entries@[j].1@ == rects_m[j],
                    decreases rects.len() - k,
                {
                    proof {
                        assert(sorted_m[k as int] == sorted@[k as int]@);
                        assert(rects_m[k as int] == rects@[k as int]@);
                    }
                    entries.push((sorted[k].id.clone(), rects[k]));
                    k = k + 1;
                }
                let pm = PlacementMap { entries };
                proof {
                    assert(pm@ =~= Seq::new(
                        rects_m.len(),
                        |i: int| (sorted_m[i].id, rects_m[i]),
                    ));
                }
                return Ok((pm, bound, tall as u32));
            },
            None => {
                proof {
                    assert(attempt(sorted_m, cfg_m.border, bound as int) is None);
                    assert(place_rounds(
                        sorted_m,
                        cfg_m.border,
                        bound as int,
                        cfg_m.growth_num,
                        cfg_m.growth_den,
                        retries as nat,
                    ) == if retries == 0 {
                        Err::<PlacementModel, PackError>(PackError::Unplaceable)
                    } else {
                        let grown = grow_dim(bound as int, cfg_m.growth_num, cfg_m.growth_den);
                        if grown > u32::MAX {
                            Err::<PlacementModel, PackError>(PackError::Unplaceable)
                        } else {
                            place_rounds(
                                sorted_m,
                                cfg_m.border,
                                grown,
                                cfg_m.growth_num,
                                cfg_m.growth_den,
                                (retries - 1) as nat,
                            )
                        }
                    });
                }
                if retries == 0 {
                    return Err(PackError::Unplaceable);
                }
                proof {
                    assert((bound as u64) * (cfg.growth_num as u64) <= u64::MAX) by (nonlinear_arith)
                        requires
                            bound <= u32::MAX,
                            cfg.growth_num <= u32::MAX,
                    {}
                }
                let grown64: u64 = (bound as u64) * (cfg.growth_num as u64) / (cfg.growth_den
                    as u64);
                proof {
                    assert(grown64 as int == grow_dim(
                        bound as int,
                        cfg_m.growth_num,
                        cfg_m.growth_den,
                    ));
                }
                if grown64 > u32::MAX as u64 {
                    return Err(PackError::Unplaceable);
                }
                bound = grown64 as u32;
                retries = retries - 1;
            },
        }
    }
}

} // verus!
