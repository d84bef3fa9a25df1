use treemap::{Frac, MapItem, Mappable, Rect, TreemapLayout};

fn items_with_sizes(sizes: &[i64]) -> Vec<MapItem> {
    let mut items: Vec<MapItem> = Vec::new();
    for s in sizes {
        items.push(MapItem::with_size(Frac::from_int(*s)));
    }
    items
}

fn rect(x: (i64, i64), y: (i64, i64), w: (i64, i64), h: (i64, i64)) -> Rect {
    Rect::from_points(
        Frac::new(x.0, x.1),
        Frac::new(y.0, y.1),
        Frac::new(w.0, w.1),
        Frac::new(h.0, h.1),
    )
}

#[test]
fn layout_items() {
    let bounds = rect((0, 1), (0, 1), (6, 1), (4, 1));
    let mut items = items_with_sizes(&[6, 6, 4, 3, 2, 2, 1]);

    // The exact rationals of the expected tiling: 72/23 = 3.1304...,
    // 66/23 = 2.8695..., 396/161 = 2.4596..., 900/161 = 5.5900..., and so on.
    let expected_output = vec![
        rect((0, 1), (0, 1), (72, 23), (2, 1)),
        rect((0, 1), (2, 1), (72, 23), (2, 1)),
        rect((72, 23), (0, 1), (66, 23), (16, 11)),
        rect((72, 23), (16, 11), (396, 161), (84, 55)),
        rect((72, 23), (164, 55), (396, 161), (56, 55)),
        rect((900, 161), (16, 11), (66, 161), (56, 33)),
        rect((900, 161), (104, 33), (66, 161), (28, 33)),
    ];

    let layout = TreemapLayout::new();
    layout.layout_items(&mut items, bounds);

    for i in 0..items.len() {
        let item_bounds = items[i].bounds();
        assert!(expected_output[i].x.eq_frac(&item_bounds.x));
        assert!(expected_output[i].y.eq_frac(&item_bounds.y));
        assert!(expected_output[i].w.eq_frac(&item_bounds.w));
        assert!(expected_output[i].h.eq_frac(&item_bounds.h));
    }
}

#[test]
fn test_sort_descending() {
    let input = [24, 2, 45, 20, 56, 75, 2, 56, 99, 53, 12];
    let output = [99, 75, 56, 56, 53, 45, 24, 20, 12, 2, 2];
    let mut items = items_with_sizes(&input);
    treemap::sort_descending(&mut items);
    for i in 0..items.len() {
        assert!(items[i].size().eq_frac(&Frac::from_int(output[i])));
    }
}

#[test]
fn single_item_fills_bounds() {
    // One item of any positive size receives exactly the bounds.
    let bounds = rect((3, 1), (5, 1), (7, 1), (2, 1));
    let mut items = items_with_sizes(&[13]);
    TreemapLayout::new().layout_items(&mut items, bounds.clone_rect());
    assert!(items[0].bounds().eq_rect(&bounds));
}

#[test]
fn two_items_split_proportionally() {
    // Bounds 6 x 4 (wider than tall): one row, distributed horizontally,
    // widths proportional to the sizes 6 and 2.
    let bounds = rect((0, 1), (0, 1), (6, 1), (4, 1));
    let mut items = items_with_sizes(&[6, 2]);
    TreemapLayout::new().layout_items(&mut items, bounds);
    assert!(items[0].bounds().eq_rect(&rect((0, 1), (0, 1), (9, 2), (4, 1))));
    assert!(items[1].bounds().eq_rect(&rect((9, 2), (0, 1), (3, 2), (4, 1))));
}

#[test]
fn two_items_tall_bounds_split_vertically() {
    // Bounds 4 x 6 (taller than wide): heights proportional to 6 and 2.
    let bounds = rect((0, 1), (0, 1), (4, 1), (6, 1));
    let mut items = items_with_sizes(&[6, 2]);
    TreemapLayout::new().layout_items(&mut items, bounds);
    assert!(items[0].bounds().eq_rect(&rect((0, 1), (0, 1), (4, 1), (9, 2))));
    assert!(items[1].bounds().eq_rect(&rect((0, 1), (9, 2), (4, 1), (3, 2))));
}

#[test]
fn empty_input_is_noop() {
    let bounds = rect((0, 1), (0, 1), (6, 1), (4, 1));
    let mut items: Vec<MapItem> = Vec::new();
    TreemapLayout::new().layout_items(&mut items, bounds);
    assert!(items.is_empty());
}

#[test]
fn areas_proportional_to_sizes_tile_bounds() {
    // The areas of the seven fixture rectangles sum exactly to the area of
    // the bounds: 24.
    let bounds = rect((0, 1), (0, 1), (6, 1), (4, 1));
    let mut items = items_with_sizes(&[6, 6, 4, 3, 2, 2, 1]);
    TreemapLayout::new().layout_items(&mut items, bounds);
    let mut area_sum = Frac::from_int(0);
    for item in &items {
        let b = item.bounds();
        area_sum = area_sum.add(&b.w.mul(&b.h));
    }
    assert!(area_sum.eq_frac(&Frac::from_int(24)));
}

#[test]
fn determinism_with_ties() {
    // Identical input, including size ties, gives identical output bounds.
    let sizes = [5, 3, 3, 3, 2, 2, 1, 1];
    let bounds1 = rect((0, 1), (0, 1), (16, 1), (9, 1));
    let bounds2 = rect((0, 1), (0, 1), (16, 1), (9, 1));
    let mut items1 = items_with_sizes(&sizes);
    let mut items2 = items_with_sizes(&sizes);
    TreemapLayout::new().layout_items(&mut items1, bounds1);
    TreemapLayout::new().layout_items(&mut items2, bounds2);
    for i in 0..items1.len() {
        assert!(items1[i].size().eq_frac(&items2[i].size()));
        assert!(items1[i].bounds().eq_rect(items2[i].bounds()));
    }
}

#[test]
fn zero_total_size_gives_zero_areas() {
    // All-zero sizes: the guard assigns zero-area rectangles instead of
    // dividing by zero.
    let bounds = rect((0, 1), (0, 1), (6, 1), (4, 1));
    let mut items = items_with_sizes(&[0, 0, 0]);
    TreemapLayout::new().layout_items(&mut items, bounds);
    for item in &items {
        let b = item.bounds();
        assert!(b.w.mul(&b.h).is_zero());
    }
}

#[test]
fn zero_area_bounds_give_zero_areas() {
    let bounds = rect((1, 1), (1, 1), (0, 1), (4, 1));
    let mut items = items_with_sizes(&[3, 2, 1, 1]);
    TreemapLayout::new().layout_items(&mut items, bounds);
    for item in &items {
        let b = item.bounds();
        assert!(b.w.mul(&b.h).is_zero());
    }
}

#[test]
fn zero_size_item_gets_zero_area() {
    let bounds = rect((0, 1), (0, 1), (6, 1), (4, 1));
    let mut items = items_with_sizes(&[5, 3, 0]);
    TreemapLayout::new().layout_items(&mut items, bounds);
    // Sorted descending, the zero-size item is last and receives no area.
    assert!(items[2].size().is_zero());
    let b = items[2].bounds();
    assert!(b.w.mul(&b.h).is_zero());
    // The non-zero items still tile the whole bounds.
    let mut area_sum = Frac::from_int(0);
    for item in &items {
        let b = item.bounds();
        area_sum = area_sum.add(&b.w.mul(&b.h));
    }
    assert!(area_sum.eq_frac(&Frac::from_int(24)));
}

#[test]
fn fractional_sizes() {
    // Two items with sizes 1/2 and 1/4 in a unit-square bounds: one row,
    // shares 2/3 and 1/3.
    let bounds = rect((0, 1), (0, 1), (1, 1), (1, 1));
    let mut items: Vec<MapItem> = vec![
        MapItem::with_size(Frac::new(1, 4)),
        MapItem::with_size(Frac::new(1, 2)),
    ];
    TreemapLayout::new().layout_items(&mut items, bounds);
    // Sorted: 1/2 first. Unit square: w > h is false, so the row is
    // distributed vertically.
    assert!(items[0].size().eq_frac(&Frac::new(1, 2)));
    assert!(items[0].bounds().eq_rect(&rect((0, 1), (0, 1), (1, 1), (2, 3))));
    assert!(items[1].bounds().eq_rect(&rect((0, 1), (2, 3), (1, 1), (1, 3))));
}

#[test]
fn map_item_defaults() {
    let item = MapItem::new();
    assert!(item.size().eq_frac(&Frac::from_int(1)));
    assert!(item.bounds().eq_rect(&Rect::new()));
}
