use spaceinsight::expand_state::ExpansionState;
use spaceinsight::render_tree::{aggregate_name, aggregate_path, build_render_tree, path_hash, RenderNode, AGGREGATE_SALT};
use spaceinsight::tree::FileTree;
use spaceinsight::treemap::Rect;

fn same_tree(a: &[RenderNode], b: &[RenderNode]) -> bool {
    a.len() == b.len()
        && a.iter().zip(b.iter()).all(|(x, y)| {
            x.path == y.path
                && x.name == y.name
                && x.size == y.size
                && x.is_dir == y.is_dir
                && (x.outer_rect.x, x.outer_rect.y, x.outer_rect.width, x.outer_rect.height)
                    == (y.outer_rect.x, y.outer_rect.y, y.outer_rect.width, y.outer_rect.height)
                && x.content_rect.map(|r| (r.x, r.y, r.width, r.height)) == y.content_rect.map(|r| (r.x, r.y, r.width, r.height))
                && x.stable_id == y.stable_id
                && x.is_aggregate == y.is_aggregate
                && x.aggregate_count == y.aggregate_count
                && same_tree(&x.children, &y.children)
        })
}

fn overlaps(a: Rect, b: Rect) -> bool {
    let w = (a.x as i64 + a.width as i64).min(b.x as i64 + b.width as i64) - (a.x as i64).max(b.x as i64);
    let h = (a.y as i64 + a.height as i64).min(b.y as i64 + b.height as i64) - (a.y as i64).max(b.y as i64);
    w > 0 && h > 0
}

fn sample_tree() -> FileTree {
    let mut tree = FileTree::new("/r");
    tree.upsert_node("/r/big/a", 4000, false);
    tree.upsert_node("/r/big/b", 3000, false);
    tree.upsert_node("/r/big/sub/c", 2000, false);
    tree.upsert_node("/r/mid", 1500, false);
    tree.upsert_node("/r/small", 500, false);
    tree.calculate_sizes();
    tree
}

#[test]
fn build_twice_gives_identical_trees() {
    let tree = sample_tree();
    let mut expansion = ExpansionState::new();
    expansion.expand("/r/big");
    expansion.expand("/r/big/sub");
    let rect = Rect::new(0, 0, 1200, 780);
    let first = build_render_tree(&tree, tree.get_root(), rect, &expansion, 4);
    let second = build_render_tree(&tree, tree.get_root(), rect, &expansion, 4);
    assert!(!first.is_empty());
    assert!(same_tree(&first, &second));
}

#[test]
fn expanded_directory_recurses_into_content() {
    let tree = sample_tree();
    let mut expansion = ExpansionState::new();
    expansion.expand("/r/big");
    let rect = Rect::new(0, 0, 1200, 780);
    let nodes = build_render_tree(&tree, tree.get_root(), rect, &expansion, 4);
    let big = nodes.iter().find(|n| n.path == "/r/big").unwrap();
    assert_eq!(big.size, 9000);
    assert!(big.is_dir);
    let content = big.content_rect.expect("expanded");
    assert_eq!(content.x, big.outer_rect.x + 2);
    assert_eq!(content.y, big.outer_rect.y + 16);
    assert_eq!(content.width, big.outer_rect.width - 4);
    assert_eq!(content.height, big.outer_rect.height - 18);
    assert_eq!(big.children.len(), 3);
    for c in &big.children {
        assert!(c.outer_rect.x >= content.x && c.outer_rect.y >= content.y);
        assert!(c.outer_rect.x + c.outer_rect.width <= content.x + content.width);
        assert!(c.outer_rect.y + c.outer_rect.height <= content.y + content.height);
    }
    let mid = nodes.iter().find(|n| n.path == "/r/mid").unwrap();
    assert!(mid.content_rect.is_none() && mid.children.is_empty());
    assert_eq!(mid.stable_id, path_hash("/r/mid"));
}

#[test]
fn depth_zero_keeps_nodes_collapsed() {
    let tree = sample_tree();
    let mut expansion = ExpansionState::new();
    expansion.expand("/r/big");
    let nodes = build_render_tree(&tree, tree.get_root(), Rect::new(0, 0, 1200, 780), &expansion, 0);
    assert!(nodes.iter().all(|n| n.children.is_empty() && n.content_rect.is_none()));
}

#[test]
fn fifty_equal_children_aggregate() {
    let mut tree = FileTree::new("/r");
    for i in 0..50 {
        tree.upsert_node(&format!("/r/f{:02}", i), 100, false);
    }
    tree.calculate_sizes();
    let rect = Rect::new(0, 0, 1200, 780);
    let nodes = build_render_tree(&tree, tree.get_root(), rect, &ExpansionState::new(), 4);
    let aggregates: Vec<&RenderNode> = nodes.iter().filter(|n| n.is_aggregate).collect();
    assert_eq!(aggregates.len(), 1);
    let agg = aggregates[0];
    assert!(agg.aggregate_count > 0);
    assert_eq!(agg.name, format!("{} small items", agg.aggregate_count));
    assert_eq!(agg.path, "/r/__aggregate__");
    assert_eq!(agg.stable_id, path_hash("/r/__aggregate__") ^ AGGREGATE_SALT);
    assert_eq!(nodes.len() - 1 + agg.aggregate_count, 50);
    // The count cap keeps twelve; the budget rescue then brings items back
    // until the block holds at most 8% of the total: four of the fifty.
    assert_eq!(agg.aggregate_count, 4);
    assert_eq!(nodes.len(), 47);
    let area: u64 = nodes.iter().map(|n| n.outer_rect.area()).sum();
    assert_eq!(area, rect.area());
    for i in 0..nodes.len() {
        for j in (i + 1)..nodes.len() {
            assert!(!overlaps(nodes[i].outer_rect, nodes[j].outer_rect));
        }
    }
}

#[test]
fn tiny_children_collapse_into_one_block() {
    // Next to one huge child, fifty one-byte children get far less than the
    // minimum useful area and fit the budget: they become a single block.
    let mut tree = FileTree::new("/r");
    tree.upsert_node("/r/huge", 1_000_000, false);
    for i in 0..50 {
        tree.upsert_node(&format!("/r/t{:02}", i), 1, false);
    }
    tree.calculate_sizes();
    let rect = Rect::new(0, 0, 1200, 780);
    let nodes = build_render_tree(&tree, tree.get_root(), rect, &ExpansionState::new(), 4);
    assert_eq!(nodes.len(), 2);
    let agg = nodes.iter().find(|n| n.is_aggregate).unwrap();
    assert_eq!(agg.aggregate_count, 50);
    assert_eq!(agg.size, 50);
    assert_eq!(agg.name, "50 small items");
}

#[test]
fn empty_directory_has_no_nodes() {
    let tree = FileTree::new("/r");
    let nodes = build_render_tree(&tree, tree.get_root(), Rect::new(0, 0, 10, 10), &ExpansionState::new(), 4);
    assert!(nodes.is_empty());
}

#[test]
fn labels_and_paths() {
    assert_eq!(aggregate_name(1), "1 small item");
    assert_eq!(aggregate_name(37), "37 small items");
    assert_eq!(aggregate_path("/r"), "/r/__aggregate__");
    assert_eq!(aggregate_path("/"), "/__aggregate__");
    assert_ne!(path_hash("/a"), path_hash("/b"));
    assert_eq!(path_hash("/a"), path_hash("/a"));
}

#[test]
fn expanded_folder_too_small_stays_collapsed() {
    let mut tree = FileTree::new("/r");
    tree.upsert_node("/r/big/a", 3000, false);
    tree.upsert_node("/r/tiny/b", 1000, false);
    tree.calculate_sizes();
    let mut expansion = ExpansionState::new();
    expansion.expand("/r/big");
    expansion.expand("/r/tiny");
    let nodes = build_render_tree(&tree, tree.get_root(), Rect::new(0, 0, 40, 40), &expansion, 4);
    let tiny = nodes.iter().find(|n| n.path == "/r/tiny").unwrap();
    assert!(tiny.outer_rect.width <= 9 || tiny.outer_rect.height <= 23);
    assert!(tiny.content_rect.is_none());
    assert!(tiny.children.is_empty());
}
