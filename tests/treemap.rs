use spaceinsight::treemap::{LayoutRect, Rect, SquarifiedTreemap, TreemapItem, MIN_VISIBLE_SIZE};

fn total_area(layout: &[LayoutRect]) -> u64 {
    layout.iter().map(|r| r.rect.area()).sum()
}

fn assert_no_overlap(layout: &[LayoutRect]) {
    for i in 0..layout.len() {
        for j in (i + 1)..layout.len() {
            let a = layout[i].rect;
            let b = layout[j].rect;
            let overlap_w = (a.x as i64 + a.width as i64).min(b.x as i64 + b.width as i64) - (a.x as i64).max(b.x as i64);
            let overlap_h = (a.y as i64 + a.height as i64).min(b.y as i64 + b.height as i64) - (a.y as i64).max(b.y as i64);
            assert!(!(overlap_w > 0 && overlap_h > 0), "Rects {} and {} overlap", i, j);
        }
    }
}

fn assert_inside(layout: &[LayoutRect], container: Rect) {
    for lr in layout {
        assert!(lr.rect.x >= container.x);
        assert!(lr.rect.y >= container.y);
        assert!(lr.rect.x as u32 + lr.rect.width as u32 <= container.x as u32 + container.width as u32);
        assert!(lr.rect.y as u32 + lr.rect.height as u32 <= container.y as u32 + container.height as u32);
    }
}

#[test]
fn test_treemap_basic() {
    let items = vec![
        TreemapItem { size: 100, index: 0 },
        TreemapItem { size: 200, index: 1 },
        TreemapItem { size: 300, index: 2 },
    ];

    let container = Rect::new(0, 0, 800, 600);
    let layout = SquarifiedTreemap::layout(&items, container);

    assert_eq!(layout.len(), 3);
    let ratio = total_area(&layout) as f64 / container.area() as f64;
    assert!(ratio > 0.99 && ratio < 1.01, "Total area ratio {} should be close to 1.0", ratio);
}

#[test]
fn test_dominant_item_no_thin_strip() {
    let items = vec![
        TreemapItem { size: 6476, index: 0 },
        TreemapItem { size: 641, index: 1 },
        TreemapItem { size: 50, index: 2 },
        TreemapItem { size: 30, index: 3 },
    ];

    let container = Rect::new(0, 0, 1200, 780);
    let layout = SquarifiedTreemap::layout(&items, container);

    assert_eq!(layout.len(), 4);
    for lr in &layout {
        assert!(lr.rect.area() > 0);
    }

    let dcim = layout.iter().find(|lr| lr.index == 1).unwrap();
    let w = dcim.rect.width as f64;
    let h = dcim.rect.height as f64;
    let dcim_aspect = w.max(h) / w.min(h);
    assert!(dcim_aspect < 8.0, "DCIM aspect ratio {} is too elongated", dcim_aspect);

    let ratio = total_area(&layout) as f64 / container.area() as f64;
    assert!(ratio > 0.99 && ratio < 1.01, "Total area ratio {} should be close to 1.0", ratio);
}

#[test]
fn test_many_small_items_do_not_overlap() {
    let mut items = vec![TreemapItem { size: 5_000, index: 0 }];
    for index in 1..50 {
        items.push(TreemapItem { size: 8 + index as u64, index });
    }

    let container = Rect::new(0, 0, 1200, 780);
    let layout = SquarifiedTreemap::layout(&items, container);

    assert_eq!(layout.len(), items.len());
    assert_inside(&layout, container);
    assert_no_overlap(&layout);
}

#[test]
fn layout_tiles_container_exactly() {
    let items: Vec<TreemapItem> = [7u64, 1, 13, 2, 2, 40, 5, 9]
        .iter()
        .enumerate()
        .map(|(index, &size)| TreemapItem { size, index })
        .collect();
    let container = Rect::new(10, 20, 333, 217);
    let layout = SquarifiedTreemap::layout(&items, container);
    assert_eq!(layout.len(), items.len());
    assert_eq!(total_area(&layout), container.area());
    assert_inside(&layout, container);
    assert_no_overlap(&layout);
    let mut indices: Vec<usize> = layout.iter().map(|lr| lr.index).collect();
    indices.sort();
    assert_eq!(indices, (0..items.len()).collect::<Vec<_>>());
}

#[test]
fn layout_places_largest_first() {
    let items = vec![
        TreemapItem { size: 1, index: 10 },
        TreemapItem { size: 5, index: 11 },
        TreemapItem { size: 3, index: 12 },
    ];
    let layout = SquarifiedTreemap::layout(&items, Rect::new(0, 0, 100, 100));
    assert_eq!(layout[0].index, 11);
}

#[test]
fn layout_of_degenerate_input_is_empty() {
    let container = Rect::new(0, 0, 100, 100);
    assert!(SquarifiedTreemap::layout(&[].to_vec(), container).is_empty());
    let zeros = vec![TreemapItem { size: 0, index: 0 }, TreemapItem { size: 0, index: 1 }];
    assert!(SquarifiedTreemap::layout(&zeros, container).is_empty());
    let one = vec![TreemapItem { size: 4, index: 0 }];
    assert!(SquarifiedTreemap::layout(&one, Rect::new(5, 5, 0, 40)).is_empty());
}

#[test]
fn single_item_fills_container() {
    let one = vec![TreemapItem { size: 4, index: 7 }];
    let container = Rect::new(3, 4, 50, 20);
    let layout = SquarifiedTreemap::layout(&one, container);
    assert_eq!(layout.len(), 1);
    assert_eq!(layout[0].index, 7);
    let r = layout[0].rect;
    assert_eq!((r.x, r.y, r.width, r.height), (3, 4, 50, 20));
    assert!(!layout[0].is_tiny);
}

#[test]
fn tiny_flag_marks_small_tiles() {
    let items = vec![TreemapItem { size: 1000, index: 0 }, TreemapItem { size: 1, index: 1 }];
    let layout = SquarifiedTreemap::layout(&items, Rect::new(0, 0, 200, 100));
    for lr in &layout {
        assert_eq!(lr.is_tiny, lr.rect.width < MIN_VISIBLE_SIZE || lr.rect.height < MIN_VISIBLE_SIZE);
    }
    let small = layout.iter().find(|lr| lr.index == 1).unwrap();
    assert!(small.is_tiny);
}

#[test]
fn rect_helpers() {
    let r = Rect::new(1, 2, 30, 10);
    assert_eq!(r.area(), 300);
    assert_eq!(r.short_side(), 10);
    assert_eq!(r.aspect_ratio(), 3 * 65536);
    assert_eq!(Rect::new(0, 0, 0, 5).aspect_ratio(), spaceinsight::treemap::RATIO_INF);
}
