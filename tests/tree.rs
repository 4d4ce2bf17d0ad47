use spaceinsight::tree::FileTree;

#[test]
fn test_tree_basic() {
    let mut tree = FileTree::new("/test");
    tree.upsert_node("/test/file1.txt", 100, false);
    tree.upsert_node("/test/dir1", 0, true);
    tree.upsert_node("/test/dir1/file2.txt", 200, false);

    tree.calculate_sizes();

    assert_eq!(tree.total_size(), 300);
}

#[test]
fn upsert_creates_implicit_ancestors() {
    let mut tree = FileTree::new("/root");
    tree.upsert_node("/root/a/b/file.txt", 200, false);
    let a = tree.get_node("/root/a").expect("implicit /root/a");
    let b = tree.get_node("/root/a/b").expect("implicit /root/a/b");
    let f = tree.get_node("/root/a/b/file.txt").expect("the file");
    assert!(tree.node(a).is_dir);
    assert!(tree.node(b).is_dir);
    assert!(!tree.node(f).is_dir);
    assert_eq!(tree.node(f).name, "file.txt");
    assert_eq!(tree.node(b).name, "b");
    assert_eq!(tree.children_of(tree.get_root()), vec![a]);
    assert_eq!(tree.children_of(a), vec![b]);
    assert_eq!(tree.children_of(b), vec![f]);
    tree.calculate_sizes();
    assert_eq!(tree.total_size(), 200);
    assert_eq!(tree.node(a).cumulative_size, 200);
}

#[test]
fn upsert_outside_root_or_root_is_ignored() {
    let mut tree = FileTree::new("/root");
    tree.upsert_node("/other/file", 10, false);
    tree.upsert_node("/rootx/file", 10, false);
    tree.upsert_node("/root", 10, false);
    assert!(tree.get_node("/other/file").is_none());
    assert!(tree.get_node("/rootx/file").is_none());
    assert!(tree.children_of(tree.get_root()).is_empty());
    tree.calculate_sizes();
    assert_eq!(tree.total_size(), 0);
}

#[test]
fn upsert_again_keeps_id_and_updates_size() {
    let mut tree = FileTree::new("/r");
    tree.upsert_node("/r/f", 10, false);
    let id = tree.get_node("/r/f").unwrap();
    tree.upsert_node("/r/f", 25, false);
    assert_eq!(tree.get_node("/r/f"), Some(id));
    assert_eq!(tree.children_of(tree.get_root()).len(), 1);
    tree.calculate_sizes();
    assert_eq!(tree.total_size(), 25);
}

#[test]
fn cumulative_sizes_sum_children() {
    let mut tree = FileTree::new("/r");
    tree.upsert_node("/r/a/x", 5, false);
    tree.upsert_node("/r/a/y", 7, false);
    tree.upsert_node("/r/b/z", 11, false);
    tree.upsert_node("/r/c", 0, true);
    tree.calculate_sizes();
    let a = tree.get_node("/r/a").unwrap();
    let b = tree.get_node("/r/b").unwrap();
    let c = tree.get_node("/r/c").unwrap();
    assert_eq!(tree.node(a).cumulative_size, 12);
    assert_eq!(tree.node(b).cumulative_size, 11);
    assert_eq!(tree.node(c).cumulative_size, 0);
    assert_eq!(tree.total_size(), 23);
}

#[test]
fn remove_subtree_round_trip() {
    let mut tree = FileTree::new("/r");
    tree.upsert_node("/r/a/b/f1", 100, false);
    tree.upsert_node("/r/a/b/f2", 50, false);
    tree.upsert_node("/r/a/g", 7, false);
    tree.upsert_node("/r/h", 3, false);
    tree.calculate_sizes();
    let a = tree.get_node("/r/a").unwrap();
    let b = tree.get_node("/r/a/b").unwrap();
    let removed = tree.node(b).cumulative_size;
    let before_a = tree.node(a).cumulative_size;
    let before_root = tree.total_size();
    assert!(tree.remove_path_recursive("/r/a/b"));
    tree.calculate_sizes();
    assert_eq!(tree.node(a).cumulative_size, before_a - removed);
    assert_eq!(tree.total_size(), before_root - removed);
    assert!(tree.get_node("/r/a/b").is_none());
    assert!(tree.get_node("/r/a/b/f1").is_none());
    assert!(tree.get_node("/r/a/b/f2").is_none());
    assert!(tree.get_node("/r/a/g").is_some());
}

#[test]
fn remove_root_or_unknown_is_noop() {
    let mut tree = FileTree::new("/r");
    tree.upsert_node("/r/f", 1, false);
    assert!(!tree.remove_path_recursive("/r"));
    assert!(!tree.remove_path_recursive("/r/missing"));
    assert!(tree.get_node("/r/f").is_some());
    tree.calculate_sizes();
    assert_eq!(tree.total_size(), 1);
}

#[test]
fn root_of_slash_accepts_children() {
    let mut tree = FileTree::new("/");
    tree.upsert_node("/etc/hosts", 4, false);
    assert!(tree.get_node("/etc").is_some());
    assert_eq!(tree.root_path(), "/");
    tree.calculate_sizes();
    assert_eq!(tree.total_size(), 4);
}

#[test]
fn remove_purges_every_path_below() {
    let mut tree = FileTree::new("/r");
    tree.upsert_node("/r/a/b/c", 1, false);
    tree.upsert_node("/r/ab", 2, false);
    assert!(tree.remove_path_recursive("/r/a"));
    assert!(tree.get_node("/r/a").is_none());
    assert!(tree.get_node("/r/a/b").is_none());
    assert!(tree.get_node("/r/a/b/c").is_none());
    assert!(tree.get_node("/r/ab").is_some());
    assert!(!tree.remove_path_recursive("/r/a"));
    tree.calculate_sizes();
    assert_eq!(tree.total_size(), 2);
}

#[test]
fn second_size_pass_changes_nothing() {
    let mut tree = FileTree::new("/r");
    tree.upsert_node("/r/x/y", 5, false);
    tree.upsert_node("/r/z", 6, false);
    tree.calculate_sizes();
    let first = tree.total_size();
    tree.calculate_sizes();
    assert_eq!(tree.total_size(), first);
    assert_eq!(first, 11);
}
