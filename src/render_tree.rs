//! Builds the render tree of one directory level, recursing into expanded
//! subdirectories: children are partitioned, laid out, and turned into
//! presentation-ready nodes.

use vstd::prelude::*;
use std::collections::hash_map::DefaultHasher;
use std::hash::Hasher;
use indextree::NodeId;
use vstd::std_specs::hash::DefaultHasherAdditionalSpecFns;
use vstd::utf8::encode_utf8;
use crate::expand_state::ExpansionState;
use crate::partition::{partition_children, tail_sum, kept_count};
use crate::tree::{FileTree, TreeNode};
use crate::treemap::{
    Rect, SquarifiedTreemap, TreemapItem, rect_wf, inside, overlaps, row_sum, sort_by_area_desc, tile_of_item,
    lemma_row_sum_split, lemma_row_sum_nonneg, LayoutRect, area_of, layout_spec, sort_desc,
};

verus! {

/// Height of the header bar on expanded folders (label and collapse zone).
pub const HEADER_HEIGHT: u16 = 16;

/// Inset on the left, right and bottom of expanded folders.
pub const SIDE_INSET: u16 = 2;

/// Maximum expansion depth.
pub const MAX_EXPAND_DEPTH: u8 = 4;

/// Salt mixed into the stable id of an aggregate block.
pub const AGGREGATE_SALT: u64 = 0xA66E;

/// A node in the render tree.
pub struct RenderNode {
    pub path: String,
    pub name: String,
    pub size: u64,
    pub is_dir: bool,
    pub outer_rect: Rect,
    /// Inner area of an expanded folder; `None` if collapsed or a file.
    pub content_rect: Option<Rect>,
    /// Sub-nodes (only populated for expanded folders).
    pub children: Vec<RenderNode>,
    /// Hash of the path, stable across rebuilds.
    pub stable_id: u64,
    /// True if this node stands for aggregated small items.
    pub is_aggregate: bool,
    /// Number of items aggregated (only meaningful if `is_aggregate`).
    pub aggregate_count: usize,
}

/// What a render node holds, as plain values.
pub struct NodeView {
    pub path: Seq<char>,
    pub name: Seq<char>,
    pub size: u64,
    pub is_dir: bool,
    pub outer_rect: Rect,
    pub content_rect: Option<Rect>,
    pub children: Seq<NodeView>,
    pub stable_id: u64,
    pub is_aggregate: bool,
    pub aggregate_count: usize,
}

/// The view of a render node and, recursively, of its children.
pub open spec fn node_view(n: RenderNode) -> NodeView
    decreases n,
{
    NodeView {
        path: n.path@,
        name: n.name@,
        size: n.size,
        is_dir: n.is_dir,
        outer_rect: n.outer_rect,
        content_rect: n.content_rect,
        children: Seq::new(n.children@.len(), |i: int| {
            if 0 <= i < n.children@.len() { node_view(n.children@[i]) } else { arbitrary() }
        }),
        stable_id: n.stable_id,
        is_aggregate: n.is_aggregate,
        aggregate_count: n.aggregate_count,
    }
}

/// The views of a list of render nodes.
pub open spec fn views(s: Seq<RenderNode>) -> Seq<NodeView> {
    Seq::new(s.len(), |i: int| node_view(s[i]))
}

/// The stable id of a path: the default hasher fed with its UTF-8 bytes.
pub open spec fn path_hash_of(p: Seq<char>) -> u64 {
    DefaultHasher::spec_finish(seq![encode_utf8(p)])
}

/// Stable id of a path.
pub fn path_hash(path: &str) -> (r: u64)
    ensures
        r == path_hash_of(path@),
{
    let mut hasher = DefaultHasher::new();
    hasher.write(path.as_bytes());
    let r = hasher.finish();
    assert(hasher@ =~= seq![encode_utf8(path@)]);
    r
}

pub open spec fn digit_char(d: nat) -> char {
    if d == 0 { '0' } else if d == 1 { '1' } else if d == 2 { '2' } else if d == 3 { '3' }
    else if d == 4 { '4' } else if d == 5 { '5' } else if d == 6 { '6' } else if d == 7 { '7' }
    else if d == 8 { '8' } else { '9' }
}

/// Decimal digits of `n`, most significant first.
pub open spec fn decimal(n: nat) -> Seq<char>
    decreases n,
{
    if n < 10 { seq![digit_char(n)] } else { decimal(n / 10).push(digit_char(n % 10)) }
}

/// Relies on `ToString` for `usize` (its `Display`): the decimal digits, with
/// no sign, separator or padding.
#[verifier::external_body]
fn usize_decimal(n: usize) -> (r: String)
    ensures
        r@ == decimal(n as nat),
{
    n.to_string()
}

/// Label of an aggregate block of `count` items.
pub open spec fn aggregate_label(count: nat) -> Seq<char> {
    if count == 1 { "1 small item"@ } else { decimal(count) + " small items"@ }
}

/// Label of an aggregate block of `count` items.
pub fn aggregate_name(count: usize) -> (r: String)
    ensures
        r@ == aggregate_label(count as nat),
{
    if count == 1 {
        String::from_str("1 small item")
    } else {
        let mut s = usize_decimal(count);
        s.append(" small items");
        s
    }
}

/// Synthetic path of the aggregate block under a directory.
pub open spec fn aggregate_path_of(dir: Seq<char>) -> Seq<char> {
    if dir.len() > 0 && dir.last() == '/' { dir + "__aggregate__"@ } else { dir + "/__aggregate__"@ }
}

pub fn aggregate_path(dir: &str) -> (r: String)
    ensures
        r@ == aggregate_path_of(dir@),
{
    let mut p = dir.to_owned();
    let n = dir.unicode_len();
    if n > 0 && dir.get_char(n - 1) == '/' {
        p.append("__aggregate__");
    } else {
        p.append("/__aggregate__");
    }
    p
}

/// The inner area of an expanded folder: below the header, inside the side
/// insets, at least one unit each way.
pub open spec fn content_of(r: Rect) -> Rect {
    Rect {
        x: if r.x + SIDE_INSET <= u16::MAX { (r.x + SIDE_INSET) as u16 } else { u16::MAX },
        y: if r.y + HEADER_HEIGHT <= u16::MAX { (r.y + HEADER_HEIGHT) as u16 } else { u16::MAX },
        width: if r.width > 2 * SIDE_INSET + 1 { (r.width - 2 * SIDE_INSET) as u16 } else { 1 },
        height: if r.height > HEADER_HEIGHT + SIDE_INSET + 1 { (r.height - HEADER_HEIGHT - SIDE_INSET) as u16 } else { 1 },
    }
}

/// Whether the inner area is large enough to draw children in.
pub open spec fn roomy(c: Rect) -> bool {
    c.width > 4 && c.height > 4
}

pub fn content_rect(r: Rect) -> (c: Rect)
    ensures
        c == content_of(r),
        rect_wf(r) && roomy(c) ==> rect_wf(c) && inside(c, r),
{
    Rect {
        x: r.x.saturating_add(SIDE_INSET),
        y: r.y.saturating_add(HEADER_HEIGHT),
        width: if r.width > 2 * SIDE_INSET + 1 { r.width - 2 * SIDE_INSET } else { 1 },
        height: if r.height > HEADER_HEIGHT + SIDE_INSET + 1 { r.height - HEADER_HEIGHT - SIDE_INSET } else { 1 },
    }
}


/// A child collected before layout.
struct ChildInfo {
    node_id: NodeId,
    path: String,
    name: String,
    size: u64,
    is_dir: bool,
}

/// The children of `root_id`, with their cumulative sizes.
fn gather_children(tree: &FileTree, root_id: NodeId) -> (r: Vec<ChildInfo>)
    requires
        tree.wf(),
        tree.nodes().contains_key(root_id),
    ensures
        r@.len() == tree.kids()[root_id].len(),
        forall|k: int| #![trigger r@[k]] 0 <= k < r@.len() ==> {
            let id = tree.kids()[root_id][k];
            &&& r@[k].node_id == id
            &&& tree.nodes().contains_key(id)
            &&& r@[k].path == tree.nodes()[id].path
            &&& r@[k].name == tree.nodes()[id].name
            &&& r@[k].size == tree.nodes()[id].cumulative_size
            &&& r@[k].is_dir == tree.nodes()[id].is_dir
        },
{
    let ids = tree.children_of(root_id);
    let mut r: Vec<ChildInfo> = Vec::new();
    let mut i: usize = 0;
    while i < ids.len()
        invariant
            tree.wf(),
            ids@ == tree.kids()[root_id],
            forall|k: int| 0 <= k < ids@.len() ==> tree.nodes().contains_key(#[trigger] ids@[k]),
            i <= ids@.len(),
            r@.len() == i,
            forall|k: int| #![trigger r@[k]] 0 <= k < i ==> {
                let id = tree.kids()[root_id][k];
                &&& r@[k].node_id == id
                &&& tree.nodes().contains_key(id)
                &&& r@[k].path == tree.nodes()[id].path
                &&& r@[k].name == tree.nodes()[id].name
                &&& r@[k].size == tree.nodes()[id].cumulative_size
                &&& r@[k].is_dir == tree.nodes()[id].is_dir
            },
        decreases ids@.len() - i,
    {
        let id = ids[i];
        let node: &TreeNode = tree.node(id);
        r.push(ChildInfo {
            node_id: id,
            path: node.path.clone(),
            name: node.name.clone(),
            size: node.cumulative_size,
            is_dir: node.is_dir,
        });
        proof {
            assert forall|k: int| #![trigger r@[k]] 0 <= k < i + 1 implies {
                let id = tree.kids()[root_id][k];
                &&& r@[k].node_id == id
                &&& tree.nodes().contains_key(id)
                &&& r@[k].path == tree.nodes()[id].path
                &&& r@[k].name == tree.nodes()[id].name
                &&& r@[k].size == tree.nodes()[id].cumulative_size
                &&& r@[k].is_dir == tree.nodes()[id].is_dir
            } by {
                assert(ids@[k] == tree.kids()[root_id][k]);
            }
        }
        i = i + 1;
    }
    r
}

proof fn lemma_tail_is_row(sz: Seq<u64>, o: Seq<(usize, u64)>, k: int)
    requires
        sz.len() == o.len(),
        forall|i: int| 0 <= i < sz.len() ==> sz[i] == o[i].1,
        0 <= k <= sz.len(),
    ensures
        tail_sum(sz, k) == row_sum(o, k, o.len() as int),
    decreases sz.len() - k,
{
    if k < sz.len() {
        lemma_tail_is_row(sz, o, k + 1);
        lemma_row_sum_split(o, k, k + 1, o.len() as int);
        assert(row_sum(o, k, k) == 0);
    } else {
        assert(row_sum(o, k, k) == 0);
    }
}

/// What a node of the render tree of the children of `root_id` holds:
/// an aggregate block, or one child of `root_id` drawn collapsed or expanded.
pub open spec fn node_ok(n: &RenderNode, tree: &FileTree, root_id: NodeId, expansion: &ExpansionState, max_depth: u8) -> bool {
    if n.is_aggregate {
        &&& n.children@.len() == 0
        &&& n.content_rect is None
        &&& !n.is_dir
        &&& n.aggregate_count > 0
        &&& n.name@ == aggregate_label(n.aggregate_count as nat)
        &&& n.path@ == aggregate_path_of(tree.nodes()[root_id].path@)
        &&& n.stable_id == path_hash_of(n.path@) ^ AGGREGATE_SALT
    } else {
        &&& exists|k: int| 0 <= k < tree.kids()[root_id].len() && {
            let id = #[trigger] tree.kids()[root_id][k];
            &&& n.path == tree.nodes()[id].path
            &&& n.name == tree.nodes()[id].name
            &&& n.size == tree.nodes()[id].cumulative_size
            &&& n.is_dir == tree.nodes()[id].is_dir
        }
        &&& n.aggregate_count == 0
        &&& n.stable_id == path_hash_of(n.path@)
        &&& (n.content_rect is Some) == (n.is_dir && expansion.depth_of(n.path@) > 0 && max_depth > 0
            && roomy(content_of(n.outer_rect)))
        &&& n.content_rect matches Some(c) ==> c == content_of(n.outer_rect)
        &&& n.content_rect is None ==> n.children@.len() == 0
        &&& forall|i: int| 0 <= i < n.children@.len() ==> inside(#[trigger] n.children@[i].outer_rect, content_of(n.outer_rect))
        &&& forall|i: int, j: int| 0 <= i < n.children@.len() && 0 <= j < n.children@.len() && i != j
            ==> !overlaps(#[trigger] n.children@[i].outer_rect, #[trigger] n.children@[j].outer_rect)
    }
}

/// The children of `root_id` as (position, cumulative size) pairs.
pub open spec fn child_pairs(tree: &FileTree, root_id: NodeId) -> Seq<(usize, u64)> {
    Seq::new(tree.kids()[root_id].len(), |k: int| (k as usize, tree.nodes()[tree.kids()[root_id][k]].cumulative_size))
}

/// The sizes of a list of pairs.
pub open spec fn sizes_of(o: Seq<(usize, u64)>) -> Seq<u64> {
    Seq::new(o.len(), |k: int| o[k].1)
}

/// The items laid out for one level: the `kc` kept children, numbered from 0,
/// and the aggregate block of size `agg` after them if it holds anything.
pub open spec fn level_items(o: Seq<(usize, u64)>, kc: int, agg: int) -> Seq<TreemapItem> {
    let kept = Seq::new(kc as nat, |i: int| TreemapItem { size: o[i].1, index: i as usize });
    if kc < o.len() && agg > 0 {
        kept.push(TreemapItem { size: agg as u64, index: kc as usize })
    } else {
        kept
    }
}

/// The node for one tile of a level: the aggregate block, or the child that
/// the tile stands for, expanded into its content area when the user asked,
/// depth remains and the area is roomy enough; otherwise drawn collapsed.
pub open spec fn tile_node(
    tree: &FileTree,
    root_id: NodeId,
    expansion: &ExpansionState,
    max_depth: u8,
    o: Seq<(usize, u64)>,
    kc: int,
    agg: int,
    lr: LayoutRect,
) -> NodeView
    decreases max_depth, 0int,
{
    if kc < o.len() && agg > 0 && lr.index == kc {
        let path = aggregate_path_of(tree.nodes()[root_id].path@);
        NodeView {
            path,
            name: aggregate_label((o.len() - kc) as nat),
            size: agg as u64,
            is_dir: false,
            outer_rect: lr.rect,
            content_rect: None,
            children: Seq::empty(),
            stable_id: path_hash_of(path) ^ AGGREGATE_SALT,
            is_aggregate: true,
            aggregate_count: (o.len() - kc) as usize,
        }
    } else {
        let id = tree.kids()[root_id][o[lr.index as int].0 as int];
        let data = tree.nodes()[id];
        let cr = content_of(lr.rect);
        let expanded = data.is_dir && expansion.depth_of(data.path@) > 0 && max_depth > 0 && roomy(cr);
        NodeView {
            path: data.path@,
            name: data.name@,
            size: data.cumulative_size,
            is_dir: data.is_dir,
            outer_rect: lr.rect,
            content_rect: if expanded { Some(cr) } else { None },
            children: if expanded {
                build_spec(tree, id, cr, expansion, (max_depth - 1) as u8)
            } else {
                Seq::empty()
            },
            stable_id: path_hash_of(data.path@),
            is_aggregate: false,
            aggregate_count: 0,
        }
    }
}

/// The render tree of the children of `root_id` in `container`.
pub open spec fn build_spec(tree: &FileTree, root_id: NodeId, container: Rect, expansion: &ExpansionState, max_depth: u8) -> Seq<NodeView>
    decreases max_depth, 1int,
{
    let n = tree.kids()[root_id].len() as int;
    let o = sort_desc(child_pairs(tree, root_id));
    let total = row_sum(o, 0, n);
    if n == 0 || total > u64::MAX {
        Seq::empty()
    } else {
        let kc = kept_count(sizes_of(o), total, area_of(container));
        let agg = row_sum(o, kc, n);
        let tiles = layout_spec(level_items(o, kc, agg), container);
        Seq::new(tiles.len(), |j: int| tile_node(tree, root_id, expansion, max_depth, o, kc, agg, tiles[j]))
    }
}

/// Two builds from the same tree, root, container, expansion state and depth
/// give the same render tree: the same rectangles, names, sizes, stable ids
/// and nesting.
pub proof fn lemma_build_deterministic(
    tree: &FileTree,
    root_id: NodeId,
    container: Rect,
    expansion: &ExpansionState,
    max_depth: u8,
    first: Seq<RenderNode>,
    second: Seq<RenderNode>,
)
    requires
        views(first) == build_spec(tree, root_id, container, expansion, max_depth),
        views(second) == build_spec(tree, root_id, container, expansion, max_depth),
    ensures
        views(first) == views(second),
{
}

/// Build the render tree of the children of `root_id` in `container`.
///
/// Children are sorted by cumulative size, partitioned into those drawn on
/// their own and one aggregate block, and laid out; expanded directories
/// recurse into their inner area while `max_depth` lasts. The nodes lie in
/// the container and do not overlap.
pub fn build_render_tree(
    tree: &FileTree,
    root_id: NodeId,
    container: Rect,
    expansion: &ExpansionState,
    max_depth: u8,
) -> (r: Vec<RenderNode>)
    requires
        tree.wf(),
        tree.nodes().contains_key(root_id),
        expansion.wf(),
        rect_wf(container),
    ensures
        tree.kids()[root_id].len() == 0 ==> r@.len() == 0,
        forall|k: int| 0 <= k < r@.len() ==> inside(#[trigger] r@[k].outer_rect, container),
        forall|j: int, k: int| 0 <= j < r@.len() && 0 <= k < r@.len() && j != k
            ==> !overlaps(#[trigger] r@[j].outer_rect, #[trigger] r@[k].outer_rect),
        forall|k: int| 0 <= k < r@.len() ==> node_ok(#[trigger] &r@[k], tree, root_id, expansion, max_depth),
        views(r@) == build_spec(tree, root_id, container, expansion, max_depth),
    decreases max_depth,
{
    let children = gather_children(tree, root_id);
    let n = children.len();
    if n == 0 {
        let r: Vec<RenderNode> = Vec::new();
        assert(views(r@) =~= build_spec(tree, root_id, container, expansion, max_depth));
        return r;
    }
    let mut pairs: Vec<(usize, u64)> = Vec::new();
    let mut i: usize = 0;
    while i < n
        invariant
            n == children@.len(),
            i <= n,
            pairs@.len() == i,
            forall|k: int| 0 <= k < i ==> #[trigger] pairs@[k] == (k as usize, children@[k].size),
        decreases n - i,
    {
        pairs.push((i, children[i].size));
        i = i + 1;
    }
    assert(pairs@ =~= child_pairs(tree, root_id)) by {
        assert forall|k: int| 0 <= k < n implies pairs@[k] == child_pairs(tree, root_id)[k] by {
            assert(children@[k].size == tree.nodes()[tree.kids()[root_id][k]].cumulative_size);
        }
    }
    let order = sort_by_area_desc(pairs);
    let mut sizes: Vec<u64> = Vec::new();
    let mut total: u128 = 0;
    let mut i: usize = 0;
    while i < n
        invariant
            n == order@.len(),
            i <= n,
            sizes@.len() == i,
            forall|k: int| 0 <= k < i ==> #[trigger] sizes@[k] == order@[k].1,
            total == row_sum(order@, 0, i as int),
            total <= i * (u64::MAX as int),
        decreases n - i,
    {
        proof {
            assert(usize::MAX <= u64::MAX);
            assert(i * (u64::MAX as int) + u64::MAX <= u64::MAX * u64::MAX) by (nonlinear_arith)
                requires i < n, n <= u64::MAX, i >= 0;
        }
        sizes.push(order[i].1);
        total = total + order[i].1 as u128;
        i = i + 1;
    }
    if total > u64::MAX as u128 {
        let r: Vec<RenderNode> = Vec::new();
        assert(views(r@) =~= build_spec(tree, root_id, container, expansion, max_depth));
        return r;
    }
    assert(sizes@ =~= sizes_of(order@));
    proof {
        lemma_tail_is_row(sizes@, order@, 0);
    }
    let (kept, agg) = partition_children(&sizes, total as u64, container.area());
    let kcount = kept.len();
    assert(kcount as int == kept_count(sizes_of(order@), total as int, area_of(container)));
    let mut agg_size: u64 = 0;
    let mut k: usize = kcount;
    while k < n
        invariant
            n == order@.len(),
            kcount <= k <= n,
            agg_size == row_sum(order@, kcount as int, k as int),
            sizes@.len() == n,
            forall|x: int| 0 <= x < n ==> #[trigger] sizes@[x] == order@[x].1,
            row_sum(order@, 0, n as int) == total,
            total <= u64::MAX,
        decreases n - k,
    {
        proof {
            lemma_row_sum_split(order@, kcount as int, k + 1, n as int);
            lemma_row_sum_split(order@, 0, kcount as int, n as int);
            lemma_row_sum_nonneg(order@, 0, kcount as int);
            lemma_row_sum_nonneg(order@, k + 1, n as int);
        }
        agg_size = agg_size + sizes[k];
        k = k + 1;
    }
    proof {
        assert forall|k: int| 0 <= k < n implies (#[trigger] order@[k]).0 < n by {
            assert(order@.contains(order@[k]));
            vstd::seq_lib::to_multiset_contains(order@, order@[k]);
            vstd::seq_lib::to_multiset_contains(pairs@, order@[k]);
            let x = choose|x: int| 0 <= x < pairs@.len() && pairs@[x] == order@[k];
            assert(pairs@[x] == (x as usize, children@[x].size));
        }
    }
    let agg_count = agg.len();
    let has_aggregate = agg_count > 0 && agg_size > 0;
    let mut items: Vec<TreemapItem> = Vec::new();
    let mut i: usize = 0;
    while i < kcount
        invariant
            kcount <= n,
            n == sizes@.len(),
            i <= kcount,
            items@.len() == i,
            forall|k: int| 0 <= k < i ==> (#[trigger] items@[k]).index == k,
            forall|k: int| 0 <= k < i ==> #[trigger] items@[k] == (TreemapItem { size: order@[k].1, index: k as usize }),
            forall|x: int| 0 <= x < n ==> #[trigger] sizes@[x] == order@[x].1,
        decreases kcount - i,
    {
        items.push(TreemapItem { size: sizes[i], index: i });
        i = i + 1;
    }
    if has_aggregate {
        items.push(TreemapItem { size: agg_size, index: kcount });
    }
    assert(items@ =~= level_items(order@, kcount as int, agg_size as int));
    let layout = SquarifiedTreemap::layout(&items, container);
    let root_path = tree.node(root_id).path.as_str();
    let agg_path = aggregate_path(root_path);
    let mut out: Vec<RenderNode> = Vec::new();
    let mut j: usize = 0;
    while j < layout.len()
        invariant
            tree.wf(),
            tree.nodes().contains_key(root_id),
            expansion.wf(),
            rect_wf(container),
            n == children@.len(),
            n == order@.len(),
            j <= layout@.len(),
            out@.len() == j,
            agg_path@ == aggregate_path_of(tree.nodes()[root_id].path@),
            forall|k: int| 0 <= k < items@.len() ==> (#[trigger] items@[k]).index == k,
            items@.len() == kcount + if has_aggregate { 1int } else { 0 },
            kcount <= n,
            has_aggregate ==> agg_count > 0,
            forall|k: int| 0 <= k < n ==> (#[trigger] order@[k]).0 < n,
            forall|k: int| #![trigger children@[k]] 0 <= k < n ==> {
                let id = tree.kids()[root_id][k];
                &&& children@[k].node_id == id
                &&& tree.nodes().contains_key(id)
                &&& children@[k].path == tree.nodes()[id].path
                &&& children@[k].name == tree.nodes()[id].name
                &&& children@[k].size == tree.nodes()[id].cumulative_size
                &&& children@[k].is_dir == tree.nodes()[id].is_dir
            },
            tree.kids()[root_id].len() == n,
            forall|k: int| 0 <= k < layout@.len() ==> inside(#[trigger] layout@[k].rect, container),
            forall|a: int| 0 <= a < layout@.len() ==> #[trigger] tile_of_item(items@, layout@, a),
            forall|k: int| 0 <= k < j ==> (#[trigger] out@[k]).outer_rect == layout@[k].rect,
            forall|k: int| 0 <= k < j ==> node_ok(#[trigger] &out@[k], tree, root_id, expansion, max_depth),
            has_aggregate == (kcount < n && agg_size > 0),
            agg_count == n - kcount,
            forall|k: int| 0 <= k < j ==> #[trigger] node_view(out@[k])
                == tile_node(tree, root_id, expansion, max_depth, order@, kcount as int, agg_size as int, layout@[k]),
        decreases layout@.len() - j,
    {
        let lr = layout[j];
        let idx = lr.index;
        proof {
            assert(tile_of_item(items@, layout@, j as int));
            let k = choose|k: int| 0 <= k < items@.len() && layout@[j as int].index == #[trigger] items@[k].index;
            assert(items@[k].index == k);
        }
        if has_aggregate && idx == kcount {
            let name = aggregate_name(agg_count);
            let stable_id = path_hash(agg_path.as_str()) ^ AGGREGATE_SALT;
            out.push(RenderNode {
                path: agg_path.clone(),
                name,
                size: agg_size,
                is_dir: false,
                outer_rect: lr.rect,
                content_rect: None,
                children: Vec::new(),
                stable_id,
                is_aggregate: true,
                aggregate_count: agg_count,
            });
            proof {
                assert(node_view(out@[j as int]).children =~= Seq::<NodeView>::empty());
                assert(node_view(out@[j as int]) == tile_node(tree, root_id, expansion, max_depth, order@, kcount as int, agg_size as int, layout@[j as int]));
            }
        } else {
            let ci = order[idx].0;
            let child = &children[ci];
            let depth = expansion.depth(child.path.as_str());
            let expanded = child.is_dir && depth > 0 && max_depth > 0;
            let outer_rect = lr.rect;
            let stable_id = path_hash(child.path.as_str());
            let cr = content_rect(outer_rect);
            proof {
                assert(rect_wf(outer_rect));
            }
            if expanded && cr.width > 4 && cr.height > 4 {
                let sub = build_render_tree(tree, child.node_id, cr, expansion, max_depth - 1);
                let ghost sub_views = views(sub@);
                out.push(RenderNode {
                    path: child.path.clone(),
                    name: child.name.clone(),
                    size: child.size,
                    is_dir: child.is_dir,
                    outer_rect,
                    content_rect: Some(cr),
                    children: sub,
                    stable_id,
                    is_aggregate: false,
                    aggregate_count: 0,
                });
                proof {
                    assert(node_view(out@[j as int]).children =~= sub_views);
                }
            } else {
                out.push(RenderNode {
                    path: child.path.clone(),
                    name: child.name.clone(),
                    size: child.size,
                    is_dir: child.is_dir,
                    outer_rect,
                    content_rect: None,
                    children: Vec::new(),
                    stable_id,
                    is_aggregate: false,
                    aggregate_count: 0,
                });
                proof {
                    assert(node_view(out@[j as int]).children =~= Seq::<NodeView>::empty());
                }
            }
            proof {
                assert(tree.kids()[root_id][ci as int] == children@[ci as int].node_id);
                assert(node_view(out@[j as int]) == tile_node(tree, root_id, expansion, max_depth, order@, kcount as int, agg_size as int, layout@[j as int]));
            }
        }
        proof {
            assert forall|k: int| 0 <= k < j + 1 implies node_ok(#[trigger] &out@[k], tree, root_id, expansion, max_depth) by {}
        }
        j = j + 1;
    }
    proof {
        assert(views(out@) =~= build_spec(tree, root_id, container, expansion, max_depth));
    }
    out
}

} // verus!
