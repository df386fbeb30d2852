use image_packer::definitions::{PackError, Rect};
use image_packer::placer::{place, PackConfig, SourceItem};

fn item(id: &str, w: u32, h: u32) -> SourceItem {
    SourceItem { id: id.to_string(), width: w, height: h }
}

fn cfg(border: u32, seed: u32, retries: u32) -> PackConfig {
    PackConfig { border, seed_size: seed, growth_num: 3, growth_den: 2, max_retries: retries }
}

fn rects_disjoint(a: &Rect, b: &Rect) -> bool {
    a.x + a.w <= b.x || b.x + b.w <= a.x || a.y + a.h <= b.y || b.y + b.h <= a.y
}

#[test]
fn three_items_grow_once() {
    // A is taller than B and C; on the 32-pixel seed canvas the third item
    // falls off the bottom, so the canvas grows once to 48 and everything
    // fits in two rows.
    let items = vec![item("A", 10, 20), item("B", 30, 10), item("C", 10, 10)];
    let c = cfg(0, 32, 32);
    let (pm, cw, ch) = place(&items, &c).unwrap();
    assert_eq!(cw, 48);
    assert_eq!(ch, 30);
    assert_eq!(pm.entries.len(), 3);
    let a = pm.get(&"A".to_string()).unwrap();
    let b = pm.get(&"B".to_string()).unwrap();
    let cc = pm.get(&"C".to_string()).unwrap();
    assert_eq!(a, Rect { x: 0, y: 0, w: 10, h: 20 });
    assert_eq!(b, Rect { x: 10, y: 0, w: 30, h: 10 });
    assert_eq!(cc, Rect { x: 0, y: 20, w: 10, h: 10 });
    let all = [a, b, cc];
    for i in 0..all.len() {
        for j in 0..all.len() {
            if i != j {
                assert!(rects_disjoint(&all[i], &all[j]));
            }
            assert!(all[i].x + all[i].w <= cw);
            assert!(all[i].y + all[i].h <= ch);
        }
    }
}

#[test]
fn placement_is_deterministic() {
    let items = vec![
        item("one", 100, 40),
        item("two", 300, 120),
        item("three", 17, 95),
        item("four", 511, 1),
        item("five", 64, 64),
    ];
    let c = cfg(3, 512, 32);
    let (pm1, w1, h1) = place(&items, &c).unwrap();
    let (pm2, w2, h2) = place(&items, &c).unwrap();
    assert_eq!(w1, w2);
    assert_eq!(h1, h2);
    assert_eq!(pm1.entries.len(), pm2.entries.len());
    for k in 0..pm1.entries.len() {
        assert_eq!(pm1.entries[k].0, pm2.entries[k].0);
        assert_eq!(pm1.entries[k].1, pm2.entries[k].1);
    }
}

#[test]
fn oversized_item_grows_canvas() {
    // 600 pixels does not fit the 512 seed, so the first attempt fails and
    // the canvas is grown to floor(512 * 3/2) = 768.
    let items = vec![item("wide", 600, 10)];
    let c = cfg(0, 512, 32);
    let (_, cw, ch) = place(&items, &c).unwrap();
    assert_eq!(cw, 768);
    assert_eq!(ch, 10);

    let items = vec![item("tall", 10, 600)];
    let (_, cw, ch) = place(&items, &c).unwrap();
    assert_eq!(cw, 768);
    assert_eq!(ch, 600);
}

#[test]
fn empty_input_is_degenerate() {
    let items: Vec<SourceItem> = Vec::new();
    let c = cfg(0, 512, 32);
    assert_eq!(place(&items, &c).unwrap_err(), PackError::DegenerateInput);
}

#[test]
fn zero_sized_item_is_degenerate() {
    let c = cfg(0, 512, 32);
    let items = vec![item("ok", 5, 5), item("flat", 5, 0)];
    assert_eq!(place(&items, &c).unwrap_err(), PackError::DegenerateInput);
    let items = vec![item("thin", 0, 5)];
    assert_eq!(place(&items, &c).unwrap_err(), PackError::DegenerateInput);
}

#[test]
fn retry_ceiling_is_unplaceable() {
    // With no retries allowed, an item wider than the seed is a hard failure.
    let items = vec![item("wide", 600, 10)];
    let c = cfg(0, 512, 0);
    assert_eq!(place(&items, &c).unwrap_err(), PackError::Unplaceable);
}

#[test]
fn sort_is_stable_for_equal_heights() {
    // Equal heights keep their input order after the tallest-first sort.
    let items = vec![item("first", 10, 10), item("second", 20, 10), item("third", 5, 10)];
    let c = cfg(0, 64, 32);
    let (pm, _, _) = place(&items, &c).unwrap();
    assert_eq!(pm.entries[0].0, "first");
    assert_eq!(pm.entries[1].0, "second");
    assert_eq!(pm.entries[2].0, "third");
}

#[test]
fn border_separates_items() {
    let items = vec![item("a", 10, 10), item("b", 10, 10)];
    let c = cfg(4, 64, 32);
    let (pm, cw, ch) = place(&items, &c).unwrap();
    let a = pm.get(&"a".to_string()).unwrap();
    let b = pm.get(&"b".to_string()).unwrap();
    assert_eq!(a, Rect { x: 0, y: 0, w: 10, h: 10 });
    assert_eq!(b, Rect { x: 14, y: 0, w: 10, h: 10 });
    assert_eq!(cw, 64);
    assert_eq!(ch, 14);
}

#[test]
fn many_items_disjoint_and_in_bounds() {
    let mut items = Vec::new();
    for k in 0..40u32 {
        items.push(item(&format!("img{}", k), 7 + (k * 13) % 90, 5 + (k * 7) % 60));
    }
    let c = cfg(2, 128, 32);
    let (pm, cw, ch) = place(&items, &c).unwrap();
    assert_eq!(pm.entries.len(), 40);
    for i in 0..pm.entries.len() {
        let r = &pm.entries[i].1;
        assert!(r.x + r.w <= cw);
        assert!(r.y + r.h <= ch);
        for j in 0..i {
            assert!(rects_disjoint(r, &pm.entries[j].1));
        }
    }
}

#[test]
fn default_config_matches_documentation() {
    let c = PackConfig::default();
    assert_eq!(c.border, 0);
    assert_eq!(c.seed_size, 512);
    assert_eq!(c.growth_num, 3);
    assert_eq!(c.growth_den, 2);
    assert_eq!(c.max_retries, 32);
}
