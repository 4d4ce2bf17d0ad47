use spaceinsight::expand_state::ExpansionState;

#[test]
fn test_expand_collapse() {
    let mut state = ExpansionState::default();
    let path = "/test/dir";

    assert!(!state.is_expanded(path));
    assert_eq!(state.depth(path), 0);

    state.expand(path);
    assert!(state.is_expanded(path));
    assert_eq!(state.depth(path), 1);

    state.collapse_recursive(path);
    assert!(!state.is_expanded(path));
}

#[test]
fn test_deepen() {
    let mut state = ExpansionState::default();
    let path = "/test/dir";

    state.deepen(path);
    assert_eq!(state.depth(path), 1);

    state.deepen(path);
    assert_eq!(state.depth(path), 2);

    for _ in 0..10 {
        state.deepen(path);
    }
    assert_eq!(state.depth(path), 12);
}

#[test]
fn test_collapse_recursive_removes_descendants() {
    let mut state = ExpansionState::default();
    let parent = "/test/dir";
    let child = "/test/dir/sub";
    let grandchild = "/test/dir/sub/deep";
    let sibling = "/test/other";

    state.expand(parent);
    state.expand(child);
    state.expand(grandchild);
    state.expand(sibling);

    state.collapse_recursive(parent);

    assert!(!state.is_expanded(parent));
    assert!(!state.is_expanded(child));
    assert!(!state.is_expanded(grandchild));
    assert!(state.is_expanded(sibling));
}

#[test]
fn test_collapse_all() {
    let mut state = ExpansionState::default();
    state.expand("/a");
    state.expand("/b");
    state.expand("/c");

    state.collapse_all();
    assert!(!state.is_expanded("/a"));
    assert!(!state.is_expanded("/b"));
    assert!(!state.is_expanded("/c"));
}

#[test]
fn deepen_saturates_at_max() {
    let mut state = ExpansionState::new();
    for _ in 0..300 {
        state.deepen("/x");
    }
    assert_eq!(state.depth("/x"), 255);
}

#[test]
fn collapse_keeps_name_prefix_siblings() {
    let mut state = ExpansionState::new();
    state.expand("/test/dir");
    state.expand("/test/dirt");
    state.collapse_recursive("/test/dir");
    assert!(!state.is_expanded("/test/dir"));
    assert!(state.is_expanded("/test/dirt"));
}

#[test]
fn expand_resets_depth_to_one() {
    let mut state = ExpansionState::new();
    state.deepen("/a");
    state.deepen("/a");
    state.deepen("/a");
    state.expand("/a");
    assert_eq!(state.depth("/a"), 1);
    assert_eq!(state.depth("/b"), 0);
}
