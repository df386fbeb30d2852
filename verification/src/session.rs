//! One packing run end to end: derive the items from the decoded images,
//! place them, slice the animations of every matched descriptor, composite
//! the canvas, and hand back the whole bundle as one immutable value.

use vstd::prelude::*;

use crate::compositor::{
    composite, composite_model, entry_ok, find_image, images_model, lemma_find_image_spec,
    ImageBuffer, ImageModel,
};
use crate::definitions::PackError;
use crate::placer::{
    find_entry, items_model, lemma_find_entry_spec, lemma_place_model_ok,
    lemma_placement_in_bounds, lemma_sort_by_height_elems, place, place_model, sort_by_height,
    ConfigModel, ItemModel, PackConfig, PlacementMap, SourceItem,
};
use crate::slicer::{
    slice, slice_model, AnimationDescriptor, AnimationFrames, DescModel, FramesModel,
};

verus! {

/// The result of a successful run, as mathematics.
pub ghost struct RunModel {
    pub placements: Seq<(Seq<char>, crate::definitions::RectModel)>,
    pub canvas_width: int,
    pub canvas_height: int,
    pub animations: Seq<(Seq<char>, int, FramesModel)>,
    pub canvas: ImageModel,
}

/// The items a set of named images induces: same ids, same dimensions.
pub open spec fn items_of(images: Seq<(Seq<char>, ImageModel)>) -> Seq<ItemModel> {
    Seq::new(
        images.len(),
        |i: int| ItemModel { id: images[i].0, w: images[i].1.width, h: images[i].1.height },
    )
}

/// The view of a sequence of descriptors.
pub open spec fn descs_model(s: Seq<AnimationDescriptor>) -> Seq<DescModel> {
    s.map_values(|d: AnimationDescriptor| d@)
}

/// The animations a run records: one entry per descriptor, in descriptor
/// order, keyed by the owner id and the descriptor's position (one owner may
/// carry several descriptors). A descriptor whose owner has no placement, or
/// whose grid does not divide its rectangle, is skipped silently.
pub open spec fn animations_model(
    entries: Seq<(Seq<char>, crate::definitions::RectModel)>,
    descs: Seq<DescModel>,
) -> Seq<(Seq<char>, int, FramesModel)>
    decreases descs.len(),
{
    if descs.len() == 0 {
        Seq::<(Seq<char>, int, FramesModel)>::empty()
    } else {
        let prefix = animations_model(entries, descs.drop_last());
        let d = descs.last();
        match find_entry(entries, d.owner_id) {
            None => prefix,
            Some(k) => match slice_model(entries[k].1, d) {
                None => prefix,
                Some(f) => prefix.push((d.owner_id, descs.len() - 1, f)),
            },
        }
    }
}

/// What a whole run returns: the placement's entries and canvas dimensions,
/// the composited canvas bytes, and the recorded animations — or the first
/// error the placement or compositing step reports.
pub open spec fn run_model(
    images: Seq<(Seq<char>, ImageModel)>,
    descs: Seq<DescModel>,
    cfg: ConfigModel,
) -> Result<RunModel, PackError> {
    match place_model(items_of(images), cfg) {
        Err(e) => Err(e),
        Ok(pm) => match composite_model(pm.canvas_width, pm.canvas_height, images, pm.entries) {
            Err(e) => Err(e),
            Ok(bytes) => Ok(
                RunModel {
                    placements: pm.entries,
                    canvas_width: pm.canvas_width,
                    canvas_height: pm.canvas_height,
                    animations: animations_model(pm.entries, descs),
                    canvas: ImageModel {
                        width: pm.canvas_width,
                        height: pm.canvas_height,
                        bytes,
                    },
                },
            ),
        },
    }
}

/// With uniquely named, well-formed images, compositing a successful
/// placement never fails: the compositor's defensive bounds error is
/// unreachable when the placer and the compositor are driven together, so a
/// whole run succeeds exactly when placement does.
pub proof fn lemma_run_composite_ok(
    images: Seq<(Seq<char>, ImageModel)>,
    descs: Seq<DescModel>,
    cfg: ConfigModel,
)
    requires
        cfg.wf(),
        forall|i: int| 0 <= i < images.len() ==> (#[trigger] images[i]).1.wf(),
        forall|i: int, j: int|
            #![trigger images[i], images[j]]
            0 <= i < j < images.len() ==> images[i].0 != images[j].0,
        place_model(items_of(images), cfg) is Ok,
    ensures
        ({
            let pm = place_model(items_of(images), cfg)->Ok_0;
            composite_model(pm.canvas_width, pm.canvas_height, images, pm.entries) is Ok
        }),
        run_model(images, descs, cfg) is Ok,
{
    let items = items_of(images);
    let pm = place_model(items, cfg)->Ok_0;
    let sorted = sort_by_height(items);
    lemma_place_model_ok(items, cfg);
    lemma_placement_in_bounds(items, cfg);
    lemma_sort_by_height_elems(items);
    assert(forall|i: int|
        0 <= i < items.len() ==> (#[trigger] items[i]).id == images[i].0 && items[i].w
            == images[i].1.width && items[i].h == images[i].1.height);
    assert forall|k: int| 0 <= k < pm.entries.len() implies entry_ok(
        pm.canvas_width,
        pm.canvas_height,
        images,
        #[trigger] pm.entries[k],
    ) by {
        assert(pm.entries[k].0 == sorted[k].id);
        assert(sorted.contains(sorted[k]));
        assert(items.contains(sorted[k]));
        let j = choose|j: int| 0 <= j < items.len() && items[j] == sorted[k];
        assert(images[j].0 == sorted[k].id);
        lemma_find_image_spec(images, pm.entries[k].0);
        match find_image(images, pm.entries[k].0) {
            None => {
                assert(images[j].0 != pm.entries[k].0);
                assert(false);
            },
            Some(m) => {
                assert(images[m].0 == pm.entries[k].0);
                if m != j {
                    if m < j {
                        assert(images[m].0 != images[j].0);
                    } else {
                        assert(images[j].0 != images[m].0);
                    }
                    assert(false);
                }
                assert(images[m].1.wf());
                assert(pm.entries[k].1.w == sorted[k].w == images[m].1.width);
                assert(pm.entries[k].1.h == sorted[k].h == images[m].1.height);
                assert(pm.entries[k].1.within_canvas(pm.canvas_width, pm.canvas_height));
            },
        }
    }
}

/// Pixel accuracy of a whole run: inside the region of any placement, the
/// final canvas holds exactly that placement's source bytes — placements
/// never overlap, so no later copy disturbs an earlier one.
pub proof fn lemma_run_canvas_exact(
    images: Seq<(Seq<char>, ImageModel)>,
    descs: Seq<DescModel>,
    cfg: ConfigModel,
    k: int,
    i: int,
)
    requires
        cfg.wf(),
        run_model(images, descs, cfg) is Ok,
        ({
            let out = run_model(images, descs, cfg)->Ok_0;
            let img = crate::compositor::layers_of(images, out.placements)[k].0;
            &&& 0 <= k < out.placements.len()
            &&& crate::compositor::in_blit_region(
                out.canvas_width,
                img,
                out.placements[k].1.x,
                out.placements[k].1.y,
                i,
            )
            &&& 0 <= i < out.canvas.bytes.len()
        }),
    ensures
        ({
            let out = run_model(images, descs, cfg)->Ok_0;
            let img = crate::compositor::layers_of(images, out.placements)[k].0;
            out.canvas.bytes[i] == img.bytes[crate::compositor::source_index(
                out.canvas_width,
                img,
                out.placements[k].1.x,
                out.placements[k].1.y,
                i,
            )]
        }),
{
    let items = items_of(images);
    let pm = place_model(items, cfg)->Ok_0;
    let out = run_model(images, descs, cfg)->Ok_0;
    assert(out.placements == pm.entries);
    assert(out.canvas_width == pm.canvas_width && out.canvas_height == pm.canvas_height);
    assert(composite_model(pm.canvas_width, pm.canvas_height, images, pm.entries) == Ok::<
        Seq<u8>,
        PackError,
    >(out.canvas.bytes));
    crate::placer::lemma_placement_disjoint(items, cfg);
    lemma_placement_in_bounds(items, cfg);
    // some rectangle exists, and it has positive extent inside the canvas,
    // so the canvas has positive dimensions
    assert(pm.entries[k].1.within_canvas(pm.canvas_width, pm.canvas_height));
    assert(pm.canvas_width >= 1 && pm.canvas_height >= 1);
    crate::compositor::lemma_composite_prefix_len(
        pm.canvas_width,
        pm.canvas_height,
        crate::compositor::layers_of(images, pm.entries),
        pm.entries.len() as int,
    );
    crate::compositor::lemma_composite_order_irrelevant(
        pm.canvas_width,
        pm.canvas_height,
        images,
        pm.entries,
        k,
        i,
    );
}

/// Everything one packing run produces: the composited canvas, the placement
/// of every item, the final canvas dimensions, and the animation frames of
/// every matched descriptor, keyed by owner id and descriptor position.
#[derive(Debug)]
pub struct PackingResult {
    pub canvas: ImageBuffer,
    pub placements: PlacementMap,
    pub canvas_width: u32,
    pub canvas_height: u32,
    pub animations: Vec<(String, usize, AnimationFrames)>,
}

/// The view of the recorded animations.
pub open spec fn animations_view(v: Seq<(String, usize, AnimationFrames)>) -> Seq<
    (Seq<char>, int, FramesModel),
> {
    v.map_values(|t: (String, usize, AnimationFrames)| (t.0@, t.1 as int, t.2@))
}

/// Runs one packing session over the decoded images and the animation
/// descriptors: the result is exactly the value of `run_model`, so a run is
/// deterministic and never partially applied — on any error nothing of the
/// run is observable.
pub fn run(
    images: &Vec<(String, ImageBuffer)>,
    descriptors: &Vec<AnimationDescriptor>,
    cfg: &PackConfig,
) -> (res: Result<PackingResult, PackError>)
    requires
        cfg.wf(),
    ensures
        ({
            let m = run_model(images_model(images@), descs_model(descriptors@), cfg@);
            match res {
                Ok(out) => {
                    &&& m == Ok::<RunModel, PackError>(
                        RunModel {
                            placements: out.placements@,
                            canvas_width: out.canvas_width as int,
                            canvas_height: out.canvas_height as int,
                            animations: animations_view(out.animations@),
                            canvas: out.canvas@,
                        },
                    )
                    &&& out.canvas.wf()
                    &&& out.canvas.width == out.canvas_width
                    &&& out.canvas.height == out.canvas_height
                },
                Err(e) => m == Err::<RunModel, PackError>(e),
            }
        }),
{
    let ghost imgs = images_model(images@);
    let ghost descs = descs_model(descriptors@);
    let ghost cfg_m = cfg@;
    let mut items: Vec<SourceItem> = Vec::new();
    let mut i: usize = 0;
    while i < images.len()
        invariant
            0 <= i <= images.len(),
            imgs == images_model(images@),
            imgs.len() == images.len(),
            items_model(items@) == items_of(imgs).take(i as int),
            items@.len() == i,
        decreases images.len() - i,
    {
        proof {
            assert(imgs[i as int] == (images@[i as int].0@, images@[i as int].1@));
        }
        let entry = &images[i];
        items.push(SourceItem { id: entry.0.clone(), width: entry.1.width, height: entry.1.height });
        proof {
            assert(items_model(items@) =~= items_of(imgs).take(i as int + 1));
        }
        i = i + 1;
    }
    proof {
        assert(items_of(imgs).take(images@.len() as int) =~= items_of(imgs));
    }
    let placed = place(&items, cfg);
    let (pm, cw, chh) = match placed {
        Err(e) => {
            return Err(e);
        },
        Ok(p) => p,
    };
    let ghost pm_model = place_model(items_of(imgs), cfg_m)->Ok_0;
    proof {
        assert(pm@ == pm_model.entries);
        assert(cw as int == pm_model.canvas_width && chh as int == pm_model.canvas_height);
        lemma_place_model_ok(items_of(imgs), cfg_m);
    }
    let canvas = match composite(cw, chh, images, &pm) {
        Err(e) => {
            return Err(e);
        },
        Ok(c) => c,
    };
    let mut animations: Vec<(String, usize, AnimationFrames)> = Vec::new();
    let mut di: usize = 0;
    while di < descriptors.len()
        invariant
            0 <= di <= descriptors.len(),
            imgs == images_model(images@),
            cfg_m == cfg@,
            cfg_m.wf(),
            descs == descs_model(descriptors@),
            descs.len() == descriptors.len(),
            place_model(items_of(imgs), cfg_m) is Ok,
            pm_model == place_model(items_of(imgs), cfg_m)->Ok_0,
            pm@ == pm_model.entries,
            cw as int == pm_model.canvas_width && chh as int == pm_model.canvas_height,
            animations_view(animations@) == animations_model(pm_model.entries, descs.take(
                di as int,
            )),
        decreases descriptors.len() - di,
    {
        proof {
            assert(descs[di as int] == descriptors@[di as int]@);
            lemma_placement_in_bounds(items_of(imgs), cfg_m);
        }
        let d = &descriptors[di];
        let ghost before = animations_view(animations@);
        let found = pm.get(&d.owner_id);
        match found {
            None => {},
            Some(rect) => {
                proof {
                    lemma_find_entry_spec(pm@, d.owner_id@);
                }
                match slice(&rect, d) {
                    None => {},
                    Some(frames) => {
                        animations.push((d.owner_id.clone(), di, frames));
                        proof {
                            let k = find_entry(pm_model.entries, descs[di as int].owner_id)
                                ->Some_0;
                            assert(slice_model(pm_model.entries[k].1, descs[di as int]) == Some(
                                frames@,
                            ));
                            assert(animations_view(animations@) =~= before.push(
                                (d.owner_id@, di as int, frames@),
                            ));
                        }
                    },
                }
            },
        }
        proof {
            let dtake = descs.take(di as int + 1);
            assert(dtake.drop_last() =~= descs.take(di as int));
            assert(dtake.last() == descs[di as int]);
        }
        di = di + 1;
    }
    proof {
        assert(descs.take(descriptors@.len() as int) =~= descs);
    }
    let result = PackingResult {
        canvas,
        placements: pm,
        canvas_width: cw,
        canvas_height: chh,
        animations,
    };
    Ok(result)
}

} // verus!
