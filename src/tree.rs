//! The hierarchical size model: an arena of entries keyed by path, with
//! cumulative sizes recomputed bottom-up on request.

use vstd::prelude::*;
use indextree::{Arena, NodeId};
use crate::paths::{
    is_within, path_is_within, same_path, file_name, path_parent, parent_path, file_name_of, clean_root,
    lemma_parent_within, lemma_within_trans, lemma_root_parent, lemma_within_antisym, lemma_parent_shorter,
};

verus! {

#[verifier::external_type_specification]
#[verifier::external_body]
#[verifier::reject_recursive_types(T)]
pub struct ExArena<T>(Arena<T>);

#[verifier::external_type_specification]
#[verifier::external_body]
pub struct ExNodeId(NodeId);

/// An entry of the tree.
pub struct TreeNode {
    pub path: String,
    pub name: String,
    pub size: u64,
    pub is_dir: bool,
    /// Cumulative size including all children.
    pub cumulative_size: u64,
}

/// The data of each live node of an arena.
pub uninterp spec fn arena_nodes(a: Arena<TreeNode>) -> Map<NodeId, TreeNode>;

/// The children of each live node of an arena, in order.
pub uninterp spec fn arena_children(a: Arena<TreeNode>) -> Map<NodeId, Seq<NodeId>>;

/// Relies on indextree's `Arena::new`: a new arena holds no nodes.
#[verifier::external_body]
fn arena_new() -> (r: Arena<TreeNode>)
    ensures
        forall|n: NodeId| !(#[trigger] arena_nodes(r).contains_key(n)),
        forall|n: NodeId| !(#[trigger] arena_children(r).contains_key(n)),
{
    Arena::new()
}

/// Relies on indextree's `Arena::new_node`: the data is stored under an id
/// that no live node has, as a node without parent or children. (It panics
/// only when the arena cannot grow, as `Vec::push` does.)
#[verifier::external_body]
fn arena_add(a: &mut Arena<TreeNode>, data: TreeNode) -> (id: NodeId)
    ensures
        !arena_nodes(*old(a)).contains_key(id),
        arena_nodes(*final(a)) == arena_nodes(*old(a)).insert(id, data),
        arena_children(*final(a)) == arena_children(*old(a)).insert(id, Seq::<NodeId>::empty()),
{
    a.new_node(data)
}

/// Relies on indextree's `NodeId::append`: a node that has neither parent nor
/// children becomes the last child of another live node.
#[verifier::external_body]
fn arena_append(a: &mut Arena<TreeNode>, parent: NodeId, child: NodeId)
    requires
        arena_nodes(*old(a)).contains_key(parent),
        arena_nodes(*old(a)).contains_key(child),
        arena_children(*old(a)).contains_key(parent),
        parent != child,
        arena_children(*old(a))[child].len() == 0,
        forall|n: NodeId| #[trigger] arena_children(*old(a)).contains_key(n) ==> !arena_children(*old(a))[n].contains(child),
    ensures
        arena_nodes(*final(a)) == arena_nodes(*old(a)),
        arena_children(*final(a)) == arena_children(*old(a)).insert(parent, arena_children(*old(a))[parent].push(child)),
{
    parent.append(child, a)
}

/// Relies on indextree's `NodeId::detach`: the node leaves its parent's list
/// of children and keeps its own subtree.
#[verifier::external_body]
fn arena_detach(a: &mut Arena<TreeNode>, id: NodeId)
    requires
        arena_nodes(*old(a)).contains_key(id),
    ensures
        arena_nodes(*final(a)) == arena_nodes(*old(a)),
        arena_children(*final(a)) == Map::new(
            |n: NodeId| arena_children(*old(a)).contains_key(n),
            |n: NodeId| arena_children(*old(a))[n].filter(other_than(id)),
        ),
{
    id.detach(a)
}

/// Relies on indextree's `NodeId::children`: the children of a node, in order.
#[verifier::external_body]
fn arena_children_of(a: &Arena<TreeNode>, id: NodeId) -> (r: Vec<NodeId>)
    requires
        arena_children(*a).contains_key(id),
    ensures
        r@ == arena_children(*a)[id],
{
    id.children(a).collect()
}

/// Relies on indextree's `Node::get`: the data of a live node.
#[verifier::external_body]
fn arena_get(a: &Arena<TreeNode>, id: NodeId) -> (r: &TreeNode)
    requires
        arena_nodes(*a).contains_key(id),
    ensures
        *r == arena_nodes(*a)[id],
{
    a[id].get()
}

/// Relies on indextree's `Node::get_mut`: the data of a live node, to change
/// in place; the tree's shape stays as it is.
#[verifier::external_body]
fn arena_get_mut(a: &mut Arena<TreeNode>, id: NodeId) -> (r: &mut TreeNode)
    requires
        arena_nodes(*old(a)).contains_key(id),
    ensures
        *r == arena_nodes(*old(a))[id],
        arena_nodes(*final(a)) == arena_nodes(*old(a)).insert(id, *final(r)),
        arena_children(*final(a)) == arena_children(*old(a)),
{
    a[id].get_mut()
}


/// The id that a path index gives for a path; the last entry for a path wins.
pub open spec fn index_lookup(s: Seq<(String, NodeId)>, k: Seq<char>) -> Option<NodeId>
    decreases s.len(),
{
    if s.len() == 0 {
        None
    } else if s.last().0@ == k {
        Some(s.last().1)
    } else {
        index_lookup(s.drop_last(), k)
    }
}

pub open spec fn index_distinct(s: Seq<(String, NodeId)>) -> bool {
    forall|i: int, j: int| 0 <= i < s.len() && 0 <= j < s.len() && i != j ==> s[i].0@ != s[j].0@
}

proof fn lemma_index_absent(s: Seq<(String, NodeId)>, k: Seq<char>)
    requires
        forall|j: int| 0 <= j < s.len() ==> s[j].0@ != k,
    ensures
        index_lookup(s, k) is None,
    decreases s.len(),
{
    if s.len() > 0 {
        lemma_index_absent(s.drop_last(), k);
    }
}

proof fn lemma_index_at(s: Seq<(String, NodeId)>, i: int)
    requires
        index_distinct(s),
        0 <= i < s.len(),
    ensures
        index_lookup(s, s[i].0@) == Some(s[i].1),
    decreases s.len(),
{
    if i < s.len() - 1 {
        assert(s.drop_last()[i] == s[i]);
        lemma_index_at(s.drop_last(), i);
    }
}

proof fn lemma_index_none(s: Seq<(String, NodeId)>, k: Seq<char>)
    requires
        index_lookup(s, k) is None,
    ensures
        forall|j: int| 0 <= j < s.len() ==> s[j].0@ != k,
    decreases s.len(),
{
    if s.len() > 0 {
        lemma_index_none(s.drop_last(), k);
        assert forall|j: int| 0 <= j < s.len() implies s[j].0@ != k by {
            if j < s.len() - 1 {
                assert(s[j] == s.drop_last()[j]);
            }
        }
    }
}

proof fn lemma_index_push(s: Seq<(String, NodeId)>, e: (String, NodeId), k: Seq<char>)
    ensures
        index_lookup(s.push(e), k) == if e.0@ == k { Some(e.1) } else { index_lookup(s, k) },
{
    assert(s.push(e).drop_last() =~= s);
}

proof fn lemma_index_found(s: Seq<(String, NodeId)>, k: Seq<char>)
    requires
        index_lookup(s, k) is Some,
    ensures
        exists|i: int| 0 <= i < s.len() && s[i].0@ == k && s[i].1 == index_lookup(s, k)->0,
    decreases s.len(),
{
    if s.last().0@ != k {
        lemma_index_found(s.drop_last(), k);
        let i = choose|i: int| 0 <= i < s.drop_last().len() && s.drop_last()[i].0@ == k && s.drop_last()[i].1 == index_lookup(s.drop_last(), k)->0;
        assert(s[i] == s.drop_last()[i]);
    } else {
        assert(s[s.len() - 1] == s.last());
    }
}

/// Every id but `d`.
pub open spec fn other_than(d: NodeId) -> spec_fn(NodeId) -> bool {
    |c: NodeId| c != d
}

/// The lists of children with `d` left out.
pub open spec fn without_child(kids: Map<NodeId, Seq<NodeId>>, d: NodeId) -> Map<NodeId, Seq<NodeId>> {
    Map::new(|n: NodeId| kids.contains_key(n), |n: NodeId| kids[n].filter(other_than(d)))
}

pub open spec fn distinct_ids(s: Seq<NodeId>) -> bool {
    forall|i: int, j: int| 0 <= i < j < s.len() ==> s[i] != s[j]
}

/// Leaving out one id keeps a list of distinct ids distinct.
proof fn lemma_filter_distinct(s: Seq<NodeId>, d: NodeId)
    requires
        distinct_ids(s),
    ensures
        distinct_ids(s.filter(other_than(d))),
    decreases s.len(),
{
    reveal(Seq::filter);
    if s.len() > 0 {
        let t = s.drop_last();
        assert(distinct_ids(t)) by {
            assert forall|i: int, j: int| 0 <= i < j < t.len() implies t[i] != t[j] by {
                assert(t[i] == s[i] && t[j] == s[j]);
            }
        }
        lemma_filter_distinct(t, d);
        let f = t.filter(other_than(d));
        if s.last() != d {
            assert forall|i: int| 0 <= i < f.len() implies f[i] != s.last() by {
                t.lemma_filter_contains_rev(other_than(d), f[i]);
                if f[i] == s.last() {
                    let k = choose|k: int| 0 <= k < t.len() && t[k] == f[i];
                    assert(s[k] == s[s.len() - 1]);
                }
            }
            let g = f.push(s.last());
            assert forall|i: int, j: int| 0 <= i < j < g.len() implies g[i] != g[j] by {
                if j == g.len() - 1 {
                    assert(g[i] == f[i]);
                } else {
                    assert(g[i] == f[i] && g[j] == f[j]);
                }
            }
        }
    }
}

/// Sum of the cumulative sizes of the given nodes.
pub open spec fn kids_total(nodes: Map<NodeId, TreeNode>, ks: Seq<NodeId>) -> int
    decreases ks.len(),
{
    if ks.len() == 0 {
        0
    } else {
        kids_total(nodes, ks.drop_last()) + nodes[ks.last()].cumulative_size
    }
}

/// `x` clamped to what a `u64` holds.
pub open spec fn saturate(x: int) -> u64 {
    if x > u64::MAX { u64::MAX } else if x < 0 { 0 } else { x as u64 }
}

/// A directory holds the sum of its children's cumulative sizes (saturating at
/// `u64::MAX`); a file holds its own size.
pub open spec fn size_consistent(nodes: Map<NodeId, TreeNode>, kids: Map<NodeId, Seq<NodeId>>, n: NodeId) -> bool {
    nodes[n].cumulative_size == if nodes[n].is_dir {
        saturate(kids_total(nodes, kids[n]))
    } else {
        nodes[n].size
    }
}

proof fn lemma_kids_total_nonneg(nodes: Map<NodeId, TreeNode>, ks: Seq<NodeId>)
    ensures
        kids_total(nodes, ks) >= 0,
    decreases ks.len(),
{
    if ks.len() > 0 {
        lemma_kids_total_nonneg(nodes, ks.drop_last());
    }
}

proof fn lemma_kids_total_frame(a: Map<NodeId, TreeNode>, b: Map<NodeId, TreeNode>, ks: Seq<NodeId>)
    requires
        forall|i: int| 0 <= i < ks.len() ==> a[ks[i]].cumulative_size == b[ks[i]].cumulative_size,
    ensures
        kids_total(a, ks) == kids_total(b, ks),
    decreases ks.len(),
{
    if ks.len() > 0 {
        assert(ks.last() == ks[ks.len() - 1]);
        lemma_kids_total_frame(a, b, ks.drop_last());
    }
}

/// A directory entry of size 0, as created for a missing ancestor.
pub open spec fn empty_dir(n: TreeNode) -> bool {
    n.is_dir && n.size == 0 && n.cumulative_size == 0
}

/// `q`, which `before` did not index, is indexed in `after` by a fresh node
/// with path `q` and its file name, appended as the last child of the node
/// indexed at `q`'s parent path.
pub open spec fn fresh_entry(before: &FileTree, after: &FileTree, q: Seq<char>) -> bool {
    let id = after.lookup(q)->0;
    let pq = parent_path(q)->0;
    let pid = after.lookup(pq)->0;
    &&& before.lookup(q) is None
    &&& after.lookup(q) is Some
    &&& !before.nodes().contains_key(id)
    &&& after.nodes().contains_key(id)
    &&& after.nodes()[id].path@ == q
    &&& after.nodes()[id].name@ == file_name_of(q)
    &&& parent_path(q) is Some
    &&& after.lookup(pq) is Some
    &&& after.kids()[pid] == (if before.nodes().contains_key(pid) { before.kids()[pid] } else { Seq::empty() }).push(id)
}

/// `after` is `before` with entries added for `p` and some of its ancestors,
/// and nothing else changed: old nodes keep their data and ids, each new
/// path lies between the root and `p` and is a fresh node appended to its
/// parent's children, new ancestors of `p` are empty directories, and an old
/// node's children change only by such an appended node.
pub open spec fn grown(before: &FileTree, after: &FileTree, p: Seq<char>) -> bool {
    &&& after.root_id() == before.root_id()
    &&& forall|n: NodeId| #[trigger] before.nodes().contains_key(n) ==> after.nodes().contains_key(n) && after.nodes()[n] == before.nodes()[n]
    &&& forall|q: Seq<char>| #[trigger] before.lookup(q) is Some ==> after.lookup(q) == before.lookup(q)
    &&& forall|q: Seq<char>| #[trigger] after.lookup(q) is Some && before.lookup(q) is None ==> {
        &&& is_within(before.root_path_of(), q)
        &&& is_within(q, p)
        &&& fresh_entry(before, after, q)
        &&& q != p ==> empty_dir(after.nodes()[after.lookup(q)->0])
    }
    &&& forall|n: NodeId| #[trigger] before.nodes().contains_key(n) ==> after.kids()[n] == before.kids()[n] || exists|q: Seq<char>|
        #[trigger] after.lookup(q) is Some && before.lookup(q) is None && after.lookup(parent_path(q)->0) == Some(n)
    &&& forall|n: NodeId| #[trigger] after.nodes().contains_key(n) && !before.nodes().contains_key(n) ==> exists|q: Seq<char>|
        #[trigger] after.lookup(q) == Some(n) && before.lookup(q) is None
    &&& after.lookup(p) is Some && before.lookup(p) is None ==> after.kids()[after.lookup(p)->0].len() == 0
}

/// High-performance hierarchical tree structure using an arena allocator.
pub struct FileTree {
    arena: Arena<TreeNode>,
    root: NodeId,
    path_to_node: Vec<(String, NodeId)>,
    /// Every node ever created, in order of creation: parents come before children.
    order: Vec<NodeId>,
    pos: Ghost<Map<NodeId, int>>,
    /// The parent of each node that is some node's child.
    up: Ghost<Map<NodeId, NodeId>>,
}

impl FileTree {
    /// The data of each node.
    pub closed spec fn nodes(&self) -> Map<NodeId, TreeNode> {
        arena_nodes(self.arena)
    }

    /// The children of each node.
    pub closed spec fn kids(&self) -> Map<NodeId, Seq<NodeId>> {
        arena_children(self.arena)
    }

    /// The node that the path index gives for a path.
    pub closed spec fn lookup(&self, p: Seq<char>) -> Option<NodeId> {
        index_lookup(self.path_to_node@, p)
    }

    pub closed spec fn root_id(&self) -> NodeId {
        self.root
    }

    pub open spec fn root_path_of(&self) -> Seq<char> {
        self.nodes()[self.root_id()].path@
    }

    pub closed spec fn wf(&self) -> bool {
        let nodes = self.nodes();
        let kids = self.kids();
        let order = self.order@;
        let pos = self.pos@;
        let index = self.path_to_node@;
        let up = self.up@;
        &&& forall|n: NodeId| #[trigger] nodes.contains_key(n) <==> kids.contains_key(n)
        &&& order.len() > 0
        &&& order[0] == self.root
        &&& forall|i: int| 0 <= i < order.len() ==> nodes.contains_key(#[trigger] order[i]) && pos.contains_key(order[i]) && pos[order[i]] == i
        &&& forall|n: NodeId| #[trigger] nodes.contains_key(n) ==> pos.contains_key(n) && 0 <= pos[n] < order.len() && order[pos[n]] == n
        &&& forall|n: NodeId, k: int| #![trigger kids[n][k]] nodes.contains_key(n) && 0 <= k < kids[n].len() ==> {
            let c = kids[n][k];
            &&& nodes.contains_key(c)
            &&& pos[c] > pos[n]
            &&& is_within(nodes[n].path@, nodes[c].path@)
            &&& up.contains_key(c)
            &&& up[c] == n
        }
        &&& forall|c: NodeId| #[trigger] up.contains_key(c) ==> nodes.contains_key(up[c]) && kids[up[c]].contains(c)
        &&& forall|n: NodeId, i: int, j: int| #![trigger kids[n][i], kids[n][j]]
            nodes.contains_key(n) && 0 <= i < j < kids[n].len() ==> kids[n][i] != kids[n][j]
        &&& nodes.contains_key(self.root)
        &&& nodes[self.root].is_dir
        &&& index_distinct(index)
        &&& forall|i: int| 0 <= i < index.len() ==> nodes.contains_key(#[trigger] index[i].1) && nodes[index[i].1].path@ == index[i].0@
        &&& index_lookup(index, nodes[self.root].path@) == Some(self.root)
        &&& forall|i: int| #![trigger index[i]] 0 <= i < index.len() ==> is_within(nodes[self.root].path@, index[i].0@)
        &&& forall|i: int| #![trigger index[i]] 0 <= i < index.len() && index[i].0@ != nodes[self.root].path@
            ==> self.entry_linked(index[i])
    }

    /// The node of an indexed path is a child of the node indexed at the
    /// path's parent.
    closed spec fn entry_linked(&self, e: (String, NodeId)) -> bool {
        &&& parent_path(e.0@) is Some
        &&& index_lookup(self.path_to_node@, parent_path(e.0@)->0) is Some
        &&& self.nodes().contains_key(index_lookup(self.path_to_node@, parent_path(e.0@)->0)->0)
        &&& self.up@.contains_key(e.1)
        &&& self.up@[e.1] == index_lookup(self.path_to_node@, parent_path(e.0@)->0)->0
    }

    /// Every indexed path lies within the root's path.
    pub proof fn lemma_indexed_within_root(&self, q: Seq<char>)
        requires
            self.wf(),
            self.lookup(q) is Some,
        ensures
            is_within(self.root_path_of(), q),
    {
        lemma_index_found(self.path_to_node@, q);
    }

    /// Every indexed path but the root's has its parent path indexed, and its
    /// node is a child of that parent's node.
    pub proof fn lemma_indexed_linked(&self, q: Seq<char>)
        requires
            self.wf(),
            self.lookup(q) is Some,
            q != self.root_path_of(),
        ensures
            parent_path(q) is Some,
            self.lookup(parent_path(q)->0) is Some,
            self.nodes().contains_key(self.lookup(parent_path(q)->0)->0),
            self.kids()[self.lookup(parent_path(q)->0)->0].contains(self.lookup(q)->0),
            self.nodes()[self.lookup(q)->0].path@ == q,
    {
        lemma_index_found(self.path_to_node@, q);
        let i = choose|i: int| 0 <= i < self.path_to_node@.len() && self.path_to_node@[i].0@ == q
            && self.path_to_node@[i].1 == index_lookup(self.path_to_node@, q)->0;
        assert(self.entry_linked(self.path_to_node@[i]));
        let c = self.lookup(q)->0;
        assert(self.up@.contains_key(c));
    }

    /// A fresh node `id`, appended under `pid` and indexed by `entry`, keeps
    /// the tree well formed.
    proof fn lemma_attached(before: FileTree, after: FileTree, pid: NodeId, id: NodeId, entry: (String, NodeId))
        requires
            before.wf(),
            before.nodes().contains_key(pid),
            !before.nodes().contains_key(id),
            entry.1 == id,
            after.nodes() == before.nodes().insert(id, after.nodes()[id]),
            after.nodes()[id].path@ == entry.0@,
            is_within(before.nodes()[pid].path@, entry.0@),
            before.lookup(entry.0@) is None,
            after.kids() == before.kids().insert(id, Seq::<NodeId>::empty()).insert(pid, before.kids()[pid].push(id)),
            after.path_to_node@ == before.path_to_node@.push(entry),
            after.order@ == before.order@.push(id),
            after.pos@ == before.pos@.insert(id, before.order@.len() as int),
            after.up@ == before.up@.insert(id, pid),
            after.root == before.root,
            is_within(before.root_path_of(), entry.0@),
            entry.0@ != before.root_path_of(),
            parent_path(entry.0@) is Some,
            before.lookup(parent_path(entry.0@)->0) == Some(pid),
        ensures
            after.wf(),
            forall|q: Seq<char>| #[trigger] after.lookup(q) == if q == entry.0@ { Some(id) } else { before.lookup(q) },
    {
        let nodes = after.nodes();
        let kids = after.kids();
        assert(pid != id);
        assert forall|n: NodeId, k: int| #![trigger kids[n][k]] nodes.contains_key(n) && 0 <= k < kids[n].len() implies {
            let c = kids[n][k];
            &&& nodes.contains_key(c)
            &&& after.pos@[c] > after.pos@[n]
            &&& is_within(nodes[n].path@, nodes[c].path@)
            &&& after.up@.contains_key(c)
            &&& after.up@[c] == n
        } by {
            if n == pid && k == kids[n].len() - 1 {
                assert(kids[n][k] == id);
            } else if n != id {
                assert(kids[n][k] == before.kids()[n][k]);
            }
        }
        assert forall|c: NodeId| #[trigger] after.up@.contains_key(c) implies nodes.contains_key(after.up@[c]) && kids[after.up@[c]].contains(c) by {
            if c == id {
                assert(kids[pid][kids[pid].len() - 1] == id);
            } else {
                let n = before.up@[c];
                assert(before.kids()[n].contains(c));
                let k = choose|k: int| 0 <= k < before.kids()[n].len() && before.kids()[n][k] == c;
                assert(kids[n][k] == c);
            }
        }
        assert forall|n: NodeId, i: int, j: int| #![trigger kids[n][i], kids[n][j]]
            nodes.contains_key(n) && 0 <= i < j < kids[n].len() implies kids[n][i] != kids[n][j] by {
            if n == pid {
                assert(kids[n][i] == before.kids()[n][i]);
                if j < kids[n].len() - 1 {
                    assert(kids[n][j] == before.kids()[n][j]);
                } else {
                    assert(kids[n][j] == id);
                }
            } else if n != id {
                assert(kids[n][i] == before.kids()[n][i]);
                assert(kids[n][j] == before.kids()[n][j]);
            }
        }
        assert forall|i: int| 0 <= i < after.path_to_node@.len() implies nodes.contains_key(#[trigger] after.path_to_node@[i].1)
            && nodes[after.path_to_node@[i].1].path@ == after.path_to_node@[i].0@ by {
            if i < after.path_to_node@.len() - 1 {
                assert(after.path_to_node@[i] == before.path_to_node@[i]);
            }
        }
        assert forall|i: int| 0 <= i < after.order@.len() implies nodes.contains_key(#[trigger] after.order@[i])
            && after.pos@.contains_key(after.order@[i]) && after.pos@[after.order@[i]] == i by {
            if i < after.order@.len() - 1 {
                assert(after.order@[i] == before.order@[i]);
            }
        }
        assert forall|q: Seq<char>| #[trigger] after.lookup(q) == if q == entry.0@ { Some(id) } else { before.lookup(q) } by {
            lemma_index_push(before.path_to_node@, entry, q);
        }
        lemma_index_none(before.path_to_node@, entry.0@);
        assert(before.lookup(before.root_path_of()) == Some(after.root));
        assert(after.lookup(after.root_path_of()) == Some(after.root));
        assert(index_distinct(after.path_to_node@));
        let index = after.path_to_node@;
        assert(after.root_path_of() == before.root_path_of());
        assert forall|i: int| #![trigger index[i]] 0 <= i < index.len() implies is_within(nodes[after.root].path@, index[i].0@) by {
            if i < index.len() - 1 {
                assert(index[i] == before.path_to_node@[i]);
            }
        }
        assert forall|i: int| #![trigger index[i]] 0 <= i < index.len() && index[i].0@ != nodes[after.root].path@
            implies after.entry_linked(index[i]) by {
            if i < index.len() - 1 {
                let e = index[i];
                assert(e == before.path_to_node@[i]);
                assert(before.entry_linked(e));
                let pp = parent_path(e.0@)->0;
                assert(pp != entry.0@);
                assert(after.lookup(pp) == before.lookup(pp));
                assert(e.1 != id);
            } else {
                assert(index[i] == entry);
                let pp = parent_path(entry.0@)->0;
                assert(pp != entry.0@);
                assert(after.lookup(pp) == before.lookup(pp));
            }
        }
    }

    /// Every child of a node is a node of the tree.
    pub proof fn lemma_children_live(&self, n: NodeId, k: int)
        requires
            self.wf(),
            self.nodes().contains_key(n),
            0 <= k < self.kids()[n].len(),
        ensures
            self.nodes().contains_key(self.kids()[n][k]),
            self.kids().contains_key(n),
    {
    }

    /// Create a new tree holding only its root, a directory.
    pub fn new(root_path: &str) -> (r: Self)
        ensures
            r.wf(),
            r.root_path_of() == root_path@,
            r.lookup(root_path@) == Some(r.root_id()),
            forall|q: Seq<char>| q != root_path@ ==> r.lookup(q) is None,
            r.nodes().dom() == set![r.root_id()],
            r.nodes()[r.root_id()].is_dir,
            r.nodes()[r.root_id()].size == 0,
            r.nodes()[r.root_id()].cumulative_size == 0,
            r.kids()[r.root_id()].len() == 0,
    {
        let mut arena = arena_new();
        let name = file_name(root_path);
        let name = if name.unicode_len() == 0 {
            String::from_str("/")
        } else {
            name
        };
        let root = arena_add(&mut arena, TreeNode {
            path: root_path.to_owned(),
            name,
            size: 0,
            is_dir: true,
            cumulative_size: 0,
        });
        let mut path_to_node: Vec<(String, NodeId)> = Vec::new();
        path_to_node.push((root_path.to_owned(), root));
        let mut order: Vec<NodeId> = Vec::new();
        order.push(root);
        let ghost pos = Map::<NodeId, int>::empty().insert(root, 0);
        let tree = FileTree { arena, root, path_to_node, order, pos: Ghost(pos), up: Ghost(Map::empty()) };
        proof {
            assert(tree.nodes().dom() =~= set![root]);
            assert forall|q: Seq<char>| q != root_path@ implies tree.lookup(q) is None by {
                assert(index_lookup(tree.path_to_node@.drop_last(), q) is None);
            }
            assert(root_path@.subrange(0, root_path@.len() as int) =~= root_path@);
            assert(tree.path_to_node@[0].0@ == root_path@);
        }
        tree
    }

    /// Position of a path in the index.
    fn find(&self, path: &str) -> (r: Option<NodeId>)
        requires
            self.wf(),
        ensures
            r == self.lookup(path@),
    {
        let mut i: usize = 0;
        while i < self.path_to_node.len()
            invariant
                self.wf(),
                i <= self.path_to_node@.len(),
                forall|j: int| 0 <= j < i ==> self.path_to_node@[j].0@ != path@,
            decreases self.path_to_node@.len() - i,
        {
            if same_path(self.path_to_node[i].0.as_str(), path) {
                proof {
                    lemma_index_at(self.path_to_node@, i as int);
                }
                return Some(self.path_to_node[i].1);
            }
            i = i + 1;
        }
        proof {
            lemma_index_absent(self.path_to_node@, path@);
        }
        None
    }

    /// Calculate cumulative sizes for all directories, bottom-up: children are
    /// summed before their parents.
    pub fn calculate_sizes(&mut self)
        requires
            old(self).wf(),
        ensures
            final(self).wf(),
            final(self).root_id() == old(self).root_id(),
            final(self).kids() == old(self).kids(),
            final(self).nodes().dom() == old(self).nodes().dom(),
            forall|q: Seq<char>| #[trigger] final(self).lookup(q) == old(self).lookup(q),
            forall|n: NodeId| #[trigger] final(self).nodes().contains_key(n) ==> {
                &&& final(self).nodes()[n].path == old(self).nodes()[n].path
                &&& final(self).nodes()[n].name == old(self).nodes()[n].name
                &&& final(self).nodes()[n].size == old(self).nodes()[n].size
                &&& final(self).nodes()[n].is_dir == old(self).nodes()[n].is_dir
                &&& size_consistent(final(self).nodes(), final(self).kids(), n)
            },
            sizes_settled(old(self)) ==> final(self).nodes() == old(self).nodes(),
    {
        let ghost old_nodes = self.nodes();
        let mut i: usize = self.order.len();
        while i > 0
            invariant
                self.wf(),
                i <= self.order@.len(),
                self.root == old(self).root,
                self.order == old(self).order,
                self.pos == old(self).pos,
                self.path_to_node == old(self).path_to_node,
                self.kids() == old(self).kids(),
                self.nodes().dom() == old_nodes.dom(),
                old_nodes == old(self).nodes(),
                forall|n: NodeId| #[trigger] self.nodes().contains_key(n) ==> {
                    &&& self.nodes()[n].path == old_nodes[n].path
                    &&& self.nodes()[n].name == old_nodes[n].name
                    &&& self.nodes()[n].size == old_nodes[n].size
                    &&& self.nodes()[n].is_dir == old_nodes[n].is_dir
                },
                forall|j: int| i <= j < self.order@.len() ==> size_consistent(self.nodes(), self.kids(), #[trigger] self.order@[j]),
            decreases i,
        {
            i = i - 1;
            let id = self.order[i];
            let ks = arena_children_of(&self.arena, id);
            let mut total: u64 = 0;
            let mut k: usize = 0;
            while k < ks.len()
                invariant
                    self.wf(),
                    self.nodes().contains_key(id),
                    ks@ == self.kids()[id],
                    k <= ks@.len(),
                    total == saturate(kids_total(self.nodes(), ks@.take(k as int))),
                decreases ks@.len() - k,
            {
                let c = arena_get(&self.arena, ks[k]).cumulative_size;
                proof {
                    assert(ks@.take(k + 1).drop_last() =~= ks@.take(k as int));
                    lemma_kids_total_nonneg(self.nodes(), ks@.take(k as int));
                }
                total = total.saturating_add(c);
                k = k + 1;
            }
            assert(ks@.take(ks@.len() as int) =~= ks@);
            let ghost before = self.nodes();
            let node = arena_get_mut(&mut self.arena, id);
            if node.is_dir {
                node.cumulative_size = total;
            } else {
                node.cumulative_size = node.size;
            }
            proof {
                let after = self.nodes();
                assert forall|j: int| i <= j < self.order@.len() implies size_consistent(after, self.kids(), #[trigger] self.order@[j]) by {
                    let n = self.order@[j];
                    if j > i {
                        assert(size_consistent(before, self.kids(), n));
                        assert forall|x: int| 0 <= x < self.kids()[n].len() implies
                            before[self.kids()[n][x]].cumulative_size == after[self.kids()[n][x]].cumulative_size by {
                            assert(self.pos@[self.kids()[n][x]] > self.pos@[n]);
                        }
                        lemma_kids_total_frame(before, after, self.kids()[n]);
                    } else {
                        assert forall|x: int| 0 <= x < self.kids()[n].len() implies
                            before[self.kids()[n][x]].cumulative_size == after[self.kids()[n][x]].cumulative_size by {
                            assert(self.pos@[self.kids()[n][x]] > self.pos@[n]);
                        }
                        lemma_kids_total_frame(before, after, self.kids()[n]);
                    }
                }
            }
        }
        proof {
            assert forall|n: NodeId| #[trigger] self.nodes().contains_key(n) implies size_consistent(self.nodes(), self.kids(), n) by {
                assert(self.order@[self.pos@[n]] == n);
            }
            if sizes_settled(old(self)) {
                Self::lemma_settled_unique(old(self), self);
                assert(self.nodes() =~= old_nodes);
            }
        }
    }

    /// Create a node for `path`, which is not indexed yet, as the last child
    /// of `pid`, the node of its parent path.
    fn attach_new(&mut self, path: &str, pid: NodeId, size: u64, is_dir: bool) -> (id: NodeId)
        requires
            old(self).wf(),
            old(self).lookup(path@) is None,
            is_within(old(self).root_path_of(), path@),
            path@ != old(self).root_path_of(),
            parent_path(path@) is Some,
            old(self).lookup(parent_path(path@)->0) == Some(pid),
        ensures
            final(self).wf(),
            final(self).root_id() == old(self).root_id(),
            !old(self).nodes().contains_key(id),
            final(self).nodes() == old(self).nodes().insert(id, final(self).nodes()[id]),
            final(self).nodes()[id].path@ == path@,
            final(self).nodes()[id].name@ == file_name_of(path@),
            final(self).nodes()[id].size == size,
            final(self).nodes()[id].is_dir == is_dir,
            final(self).nodes()[id].cumulative_size == size,
            final(self).kids() == old(self).kids().insert(id, Seq::<NodeId>::empty()).insert(pid, old(self).kids()[pid].push(id)),
            forall|q: Seq<char>| #[trigger] final(self).lookup(q) == if q == path@ { Some(id) } else { old(self).lookup(q) },
    {
        proof {
            lemma_index_found(self.path_to_node@, parent_path(path@)->0);
            lemma_parent_within(path@);
        }
        let name = file_name(path);
        let ghost n_old = self.order@.len();
        let ghost before = *self;
        let id = arena_add(&mut self.arena, TreeNode {
            path: path.to_owned(),
            name,
            size,
            is_dir,
            cumulative_size: size,
        });
        proof {
            assert forall|n: NodeId| #[trigger] self.kids().contains_key(n) implies !self.kids()[n].contains(id) by {
                if n != id {
                    if self.kids()[n].contains(id) {
                        let k = choose|k: int| 0 <= k < self.kids()[n].len() && self.kids()[n][k] == id;
                        assert(before.kids()[n][k] == id);
                    }
                }
            }
        }
        arena_append(&mut self.arena, pid, id);
        let entry = (path.to_owned(), id);
        self.path_to_node.push(entry);
        self.order.push(id);
        proof {
            self.pos@ = self.pos@.insert(id, n_old as int);
            self.up@ = self.up@.insert(id, pid);
            Self::lemma_attached(before, *self, pid, id, entry);
        }
        id
    }

    /// Growing towards the parent `pp` of `p`, then attaching `p` under the
    /// parent's node, grows the tree towards `p`.
    proof fn lemma_grow_step(old: FileTree, mid: FileTree, fin: FileTree, p: Seq<char>, pp: Seq<char>, pid: NodeId, id: NodeId)
        requires
            old.wf(),
            mid.wf(),
            grown(&old, &mid, pp),
            old.lookup(pp) is Some ==> mid.nodes() == old.nodes() && mid.kids() == old.kids()
                && forall|q: Seq<char>| #[trigger] mid.lookup(q) == old.lookup(q),
            old.lookup(pp) is None ==> empty_dir(mid.nodes()[pid]),
            mid.lookup(pp) == Some(pid),
            parent_path(p) == Some(pp),
            old.lookup(p) is None,
            mid.lookup(p) is None,
            is_within(old.root_path_of(), p),
            !mid.nodes().contains_key(id),
            fin.root_id() == mid.root_id(),
            fin.nodes() == mid.nodes().insert(id, fin.nodes()[id]),
            fin.nodes()[id].path@ == p,
            fin.nodes()[id].name@ == file_name_of(p),
            fin.kids() == mid.kids().insert(id, Seq::<NodeId>::empty()).insert(pid, mid.kids()[pid].push(id)),
            forall|q: Seq<char>| #[trigger] fin.lookup(q) == if q == p { Some(id) } else { mid.lookup(q) },
        ensures
            grown(&old, &fin, p),
    {
        lemma_parent_within(p);
        lemma_index_found(mid.path_to_node@, pp);
        assert(mid.nodes().contains_key(pid) && mid.nodes()[pid].path@ == pp);
        assert(p.subrange(0, p.len() as int) =~= p);
        assert(id != pid);
        assert(fin.lookup(pp) == Some(pid));
        assert forall|q: Seq<char>| #[trigger] fin.lookup(q) is Some && old.lookup(q) is None implies {
            &&& is_within(old.root_path_of(), q)
            &&& is_within(q, p)
            &&& fresh_entry(&old, &fin, q)
            &&& q != p ==> empty_dir(fin.nodes()[fin.lookup(q)->0])
        } by {
            if q == p {
                assert(fin.lookup(p) == Some(id));
                if old.lookup(pp) is Some {
                    assert(old.nodes().contains_key(pid));
                    assert(fin.kids()[pid] == old.kids()[pid].push(id));
                } else {
                    assert(mid.lookup(pp) is Some && old.lookup(pp) is None);
                    assert(!old.nodes().contains_key(pid));
                    assert(mid.kids()[pid] =~= Seq::<NodeId>::empty());
                    assert(fin.kids()[pid] == Seq::<NodeId>::empty().push(id));
                }
                assert(fresh_entry(&old, &fin, q));
            } else {
                assert(mid.lookup(q) is Some && old.lookup(q) is None);
                lemma_within_trans(q, pp, p);
                let pq = parent_path(q)->0;
                let pid_q = mid.lookup(pq)->0;
                lemma_index_found(mid.path_to_node@, pq);
                lemma_index_found(mid.path_to_node@, q);
                assert(mid.nodes()[pid_q].path@ == pq);
                lemma_parent_shorter(q);
                assert(pid_q != pid);
                assert(pq != p);
                assert(fin.lookup(pq) == mid.lookup(pq));
                assert(fresh_entry(&old, &mid, q));
                let id_q = mid.lookup(q)->0;
                assert(fin.lookup(q) == Some(id_q));
                assert(mid.nodes().contains_key(id_q));
                assert(id_q != id);
                assert(fin.nodes()[id_q] == mid.nodes()[id_q]);
                assert(mid.nodes().contains_key(pid_q));
                assert(pid_q != id);
                assert(fin.kids()[pid_q] == mid.kids()[pid_q]);
                assert(fresh_entry(&old, &fin, q));
                if q != pp {
                    assert(empty_dir(mid.nodes()[id_q]));
                }
            }
        }
        assert forall|n: NodeId| #[trigger] old.nodes().contains_key(n) implies fin.kids()[n] == old.kids()[n] || exists|q: Seq<char>|
            #[trigger] fin.lookup(q) is Some && old.lookup(q) is None && fin.lookup(parent_path(q)->0) == Some(n) by {
            if n == pid {
                assert(fin.lookup(p) is Some && old.lookup(p) is None && fin.lookup(parent_path(p)->0) == Some(n));
            } else if mid.kids()[n] != old.kids()[n] {
                let q = choose|q: Seq<char>| #[trigger] mid.lookup(q) is Some && old.lookup(q) is None && mid.lookup(parent_path(q)->0) == Some(n);
                assert(fin.lookup(q) is Some && old.lookup(q) is None && fin.lookup(parent_path(q)->0) == Some(n));
            }
        }
        assert forall|n: NodeId| #[trigger] fin.nodes().contains_key(n) && !old.nodes().contains_key(n) implies exists|q: Seq<char>|
            #[trigger] fin.lookup(q) == Some(n) && old.lookup(q) is None by {
            if n == id {
                assert(fin.lookup(p) == Some(n) && old.lookup(p) is None);
            } else {
                let q = choose|q: Seq<char>| #[trigger] mid.lookup(q) == Some(n) && old.lookup(q) is None;
                assert(fin.lookup(q) == Some(n));
            }
        }
    }

    /// Growing towards `pp` is growing towards any path `p` whose parent is
    /// `pp` and which is not indexed.
    proof fn lemma_grown_widen(old: FileTree, mid: FileTree, pp: Seq<char>, p: Seq<char>)
        requires
            grown(&old, &mid, pp),
            mid.lookup(pp) is Some && old.lookup(pp) is None ==> empty_dir(mid.nodes()[mid.lookup(pp)->0]),
            parent_path(p) == Some(pp),
            mid.lookup(p) is None,
        ensures
            grown(&old, &mid, p),
    {
        lemma_parent_within(p);
        assert forall|q: Seq<char>| #[trigger] mid.lookup(q) is Some && old.lookup(q) is None implies is_within(q, p) by {
            lemma_within_trans(q, pp, p);
        }
    }

    /// Find or create the directory node for `path`, creating missing
    /// ancestors up to the root as implicit directories.
    fn ensure_directory_node(&mut self, path: &str) -> (r: Option<NodeId>)
        requires
            old(self).wf(),
        ensures
            final(self).wf(),
            grown(old(self), final(self), path@),
            old(self).lookup(path@) is Some ==> final(self).nodes() == old(self).nodes() && final(self).kids() == old(self).kids()
                && forall|q: Seq<char>| #[trigger] final(self).lookup(q) == old(self).lookup(q),
            final(self).lookup(path@) is Some && old(self).lookup(path@) is None ==> empty_dir(final(self).nodes()[final(self).lookup(path@)->0]),
            r matches Some(id) ==> final(self).lookup(path@) == Some(id) && final(self).nodes().contains_key(id),
            clean_root(old(self).root_path_of()) && is_within(old(self).root_path_of(), path@) ==> r is Some,
        decreases path@.len(),
    {
        let ghost start = *self;
        match self.find(path) {
            Some(id) => {
                proof {
                    lemma_index_found(self.path_to_node@, path@);
                }
                return Some(id);
            },
            None => {},
        }
        let root_path = self.root_path().to_owned();
        if !path_is_within(root_path.as_str(), path) {
            return None;
        }
        proof {
            lemma_index_none(self.path_to_node@, path@);
            if path@ == root_path@ {
                assert(self.lookup(path@) == Some(self.root));
            }
            if clean_root(root_path@) {
                lemma_root_parent(root_path@, path@);
            }
            lemma_parent_within(path@);
            lemma_parent_shorter(path@);
        }
        let parent = match path_parent(path) {
            Some(p) => p,
            None => {
                return None;
            },
        };
        let pid = match self.ensure_directory_node(parent.as_str()) {
            Some(p) => p,
            None => {
                proof {
                    if self.lookup(path@) is Some {
                        assert(start.lookup(path@) is None);
                    }
                    Self::lemma_grown_widen(start, *self, parent@, path@);
                }
                return None;
            },
        };
        let ghost mid = *self;
        proof {
            if self.lookup(path@) is Some {
                assert(start.lookup(path@) is None);
            }
            assert(mid.lookup(path@) is None);
        }
        let id = self.attach_new(path, pid, 0, true);
        proof {
            Self::lemma_grow_step(start, mid, *self, path@, parent@, pid, id);
        }
        Some(id)
    }

    /// Every path between the root and an indexed path is indexed too
    /// (taking the paths without a trailing `/`).
    pub proof fn lemma_ancestors_indexed(&self, q: Seq<char>, p: Seq<char>)
        requires
            self.wf(),
            self.lookup(p) is Some,
            clean_root(q),
            is_within(self.root_path_of(), q),
            is_within(q, p),
        ensures
            self.lookup(q) is Some,
        decreases p.len(),
    {
        if q != p {
            if p == self.root_path_of() {
                lemma_within_antisym(q, p);
            }
            self.lemma_indexed_linked(p);
            lemma_root_parent(q, p);
            lemma_parent_shorter(p);
            self.lemma_ancestors_indexed(q, parent_path(p)->0);
        }
    }

    /// Insert or update the entry at `path`. Paths outside the root's subtree,
    /// and the root itself, are ignored. An indexed path is updated in place:
    /// same id, same place, no node added. A new path gets a fresh node,
    /// appended to its parent directory's children; missing ancestors are
    /// created first as empty directories, each appended to its own parent.
    pub fn upsert_node(&mut self, path: &str, size: u64, is_dir: bool)
        requires
            old(self).wf(),
        ensures
            final(self).wf(),
            final(self).root_id() == old(self).root_id(),
            final(self).root_path_of() == old(self).root_path_of(),
            path@ == old(self).root_path_of() || !is_within(old(self).root_path_of(), path@) ==> {
                &&& final(self).nodes() == old(self).nodes()
                &&& final(self).kids() == old(self).kids()
                &&& forall|q: Seq<char>| #[trigger] final(self).lookup(q) == old(self).lookup(q)
            },
            path@ != old(self).root_path_of() && old(self).lookup(path@) is Some ==> {
                let id = old(self).lookup(path@)->0;
                &&& final(self).kids() == old(self).kids()
                &&& forall|q: Seq<char>| #[trigger] final(self).lookup(q) == old(self).lookup(q)
                &&& final(self).nodes() == old(self).nodes().insert(id, final(self).nodes()[id])
                &&& final(self).nodes()[id].path == old(self).nodes()[id].path
                &&& final(self).nodes()[id].name == old(self).nodes()[id].name
                &&& final(self).nodes()[id].is_dir == is_dir
                &&& final(self).nodes()[id].size == if is_dir { 0 } else { size }
                &&& final(self).nodes()[id].cumulative_size == if is_dir { old(self).nodes()[id].cumulative_size } else { size }
            },
            path@ != old(self).root_path_of() && is_within(old(self).root_path_of(), path@) && old(self).lookup(path@) is None ==> {
                &&& grown(old(self), final(self), path@)
                &&& final(self).lookup(path@) is Some ==> {
                    let n = final(self).nodes()[final(self).lookup(path@)->0];
                    &&& n.is_dir == is_dir
                    &&& n.size == if is_dir { 0 } else { size }
                    &&& n.cumulative_size == if is_dir { 0 } else { size }
                }
            },
            clean_root(old(self).root_path_of()) && is_within(old(self).root_path_of(), path@) ==> final(self).lookup(path@) is Some,
    {
        let ghost start = *self;
        proof {
            if start.lookup(path@) is Some {
                start.lemma_indexed_within_root(path@);
            }
        }
        let root_path = self.root_path().to_owned();
        if same_path(path, root_path.as_str()) || !path_is_within(root_path.as_str(), path) {
            return;
        }
        match self.find(path) {
            Some(id) => {
                proof {
                    lemma_index_found(self.path_to_node@, path@);
                }
                let ghost before = *self;
                let node = arena_get_mut(&mut self.arena, id);
                if is_dir {
                    node.is_dir = true;
                    node.size = 0;
                } else {
                    node.is_dir = false;
                    node.size = size;
                    node.cumulative_size = size;
                }
                proof {
                    let nodes = self.nodes();
                    let kids = self.kids();
                    assert(id != self.root);
                    assert forall|n: NodeId, k: int| #![trigger kids[n][k]] nodes.contains_key(n) && 0 <= k < kids[n].len() implies {
                        let c = kids[n][k];
                        &&& nodes.contains_key(c)
                        &&& self.pos@[c] > self.pos@[n]
                        &&& is_within(nodes[n].path@, nodes[c].path@)
                        &&& self.up@.contains_key(c)
                        &&& self.up@[c] == n
                    } by {
                        assert(kids[n][k] == before.kids()[n][k]);
                    }
                    let index = self.path_to_node@;
                    assert forall|i: int| #![trigger index[i]] 0 <= i < index.len() && index[i].0@ != nodes[self.root].path@
                        implies self.entry_linked(index[i]) by {
                        assert(before.entry_linked(index[i]));
                    }
                }
                return;
            },
            None => {},
        }
        proof {
            if clean_root(root_path@) {
                lemma_root_parent(root_path@, path@);
            }
            lemma_parent_within(path@);
            lemma_parent_shorter(path@);
        }
        if is_dir {
            let _ = self.ensure_directory_node(path);
            return;
        }
        let parent = match path_parent(path) {
            Some(p) => p,
            None => {
                return;
            },
        };
        let pid = match self.ensure_directory_node(parent.as_str()) {
            Some(p) => p,
            None => {
                proof {
                    if self.lookup(path@) is Some {
                        assert(start.lookup(path@) is None);
                    }
                    Self::lemma_grown_widen(start, *self, parent@, path@);
                }
                return;
            },
        };
        let ghost mid = *self;
        proof {
            if self.lookup(path@) is Some {
                assert(start.lookup(path@) is None);
            }
        }
        let id = self.attach_new(path, pid, size, false);
        proof {
            Self::lemma_grow_step(start, mid, *self, path@, parent@, pid, id);
        }
    }

    /// Remove the entry at `path` and every descendant: the node leaves its
    /// parent's children and every path within `path` leaves the index.
    /// Returns whether anything was removed; the root and unknown paths are
    /// left alone.
    pub fn remove_path_recursive(&mut self, path: &str) -> (r: bool)
        requires
            old(self).wf(),
        ensures
            final(self).wf(),
            r == (path@ != old(self).root_path_of() && old(self).lookup(path@) is Some),
            final(self).root_id() == old(self).root_id(),
            final(self).nodes() == old(self).nodes(),
            !r ==> final(self).kids() == old(self).kids(),
            !r ==> forall|q: Seq<char>| #[trigger] final(self).lookup(q) == old(self).lookup(q),
            r ==> final(self).kids() == without_child(old(self).kids(), old(self).lookup(path@)->0),
            r ==> forall|q: Seq<char>| is_within(path@, q) ==> #[trigger] final(self).lookup(q) is None,
            forall|q: Seq<char>| !is_within(path@, q) ==> #[trigger] final(self).lookup(q) == old(self).lookup(q),
    {
        let root_path = self.root_path().to_owned();
        if same_path(path, root_path.as_str()) {
            return false;
        }
        let id = match self.find(path) {
            Some(id) => id,
            None => {
                return false;
            },
        };
        proof {
            lemma_index_found(self.path_to_node@, path@);
            self.lemma_indexed_within_root(path@);
            let x = choose|x: int| 0 <= x < self.path_to_node@.len() && self.path_to_node@[x].0@ == path@
                && self.path_to_node@[x].1 == id;
            assert(self.nodes()[id].path@ == path@);
            assert(path@.subrange(0, path@.len() as int) =~= path@);
        }
        let ghost nodes = self.nodes();
        let ghost s = self.path_to_node@;
        let mut kept: Vec<(String, NodeId)> = Vec::new();
        let mut i: usize = 0;
        while i < self.path_to_node.len()
            invariant
                self.wf(),
                s == self.path_to_node@,
                nodes == self.nodes(),
                nodes.contains_key(id),
                nodes[id].path@ == path@,
                is_within(nodes[self.root].path@, path@),
                path@ != nodes[self.root].path@,
                i <= s.len(),
                index_distinct(kept@),
                forall|a: int| #![trigger kept@[a]] 0 <= a < kept@.len() ==> exists|j: int| #![trigger s[j]] 0 <= j < i && s[j] == kept@[a],
                forall|q: Seq<char>| #[trigger] index_lookup(kept@, q) == if is_within(path@, q) { None } else { index_lookup(s.take(i as int), q) },
            decreases s.len() - i,
        {
            let ghost before = kept@;
            let ghost t = s.take(i + 1);
            assert(t.drop_last() =~= s.take(i as int));
            assert(t.last() == s[i as int]);
            if !path_is_within(path, self.path_to_node[i].0.as_str()) {
                let e = (self.path_to_node[i].0.clone(), self.path_to_node[i].1);
                kept.push(e);
                assert(kept@.drop_last() =~= before);
                assert forall|a: int, b: int| 0 <= a < kept@.len() && 0 <= b < kept@.len() && a != b implies kept@[a].0@ != kept@[b].0@ by {
                    if a == kept@.len() - 1 {
                        let j = choose|j: int| #![trigger s[j]] 0 <= j < i && s[j] == kept@[b];
                    } else if b == kept@.len() - 1 {
                        let j = choose|j: int| #![trigger s[j]] 0 <= j < i && s[j] == kept@[a];
                    }
                }
                assert forall|a: int| #![trigger kept@[a]] 0 <= a < kept@.len() implies exists|j: int| #![trigger s[j]] 0 <= j < i + 1 && s[j] == kept@[a] by {
                    if a == kept@.len() - 1 {
                        assert(s[i as int] == kept@[a]);
                    } else {
                        assert(kept@[a] == before[a]);
                    }
                }
                assert forall|q: Seq<char>| #[trigger] index_lookup(kept@, q) == if is_within(path@, q) { None } else { index_lookup(t, q) } by {
                    assert(index_lookup(before, q) == if is_within(path@, q) { None } else { index_lookup(s.take(i as int), q) });
                    if is_within(path@, q) {
                        assert(q != s[i as int].0@);
                    }
                }
            } else {
                assert forall|q: Seq<char>| #[trigger] index_lookup(kept@, q) == if is_within(path@, q) { None } else { index_lookup(t, q) } by {
                    if !is_within(path@, q) {
                        assert(q != s[i as int].0@);
                    }
                }
            }
            i = i + 1;
        }
        assert(s.take(s.len() as int) =~= s);
        let ghost old_tree = *self;
        self.path_to_node = kept;
        arena_detach(&mut self.arena, id);
        proof {
            self.up@ = self.up@.remove(id);
            let root_path = old_tree.root_path_of();
            assert(!is_within(path@, root_path)) by {
                if is_within(path@, root_path) {
                    lemma_within_antisym(path@, root_path);
                }
            }
            assert(self.lookup(root_path) == Some(self.root));
            assert forall|q: Seq<char>| !is_within(path@, q) implies #[trigger] self.lookup(q) == old_tree.lookup(q) by {}
            let index = self.path_to_node@;
            assert forall|x: int| 0 <= x < index.len() implies nodes.contains_key(#[trigger] index[x].1)
                && nodes[index[x].1].path@ == index[x].0@ by {
                let j = choose|j: int| #![trigger s[j]] 0 <= j < s.len() && s[j] == index[x];
            }
            assert forall|x: int| #![trigger index[x]] 0 <= x < index.len() implies is_within(nodes[self.root].path@, index[x].0@) by {
                let j = choose|j: int| #![trigger s[j]] 0 <= j < s.len() && s[j] == index[x];
            }
            assert forall|x: int| #![trigger index[x]] 0 <= x < index.len() && index[x].0@ != nodes[self.root].path@
                implies self.entry_linked(index[x]) by {
                let j = choose|j: int| #![trigger s[j]] 0 <= j < s.len() && s[j] == index[x];
                let e = index[x];
                assert(old_tree.entry_linked(e));
                let pp = parent_path(e.0@)->0;
                lemma_parent_within(e.0@);
                assert(!is_within(path@, e.0@)) by {
                    lemma_index_at(self.path_to_node@, x);
                }
                assert(!is_within(path@, pp)) by {
                    if is_within(path@, pp) {
                        lemma_within_trans(path@, pp, e.0@);
                    }
                }
                assert(e.1 != id) by {
                    if e.1 == id {
                        assert(nodes[e.1].path@ == e.0@);
                        assert(e.0@ == path@);
                    }
                }
            }
            let kids = self.kids();
            let okids = old_tree.kids();
            assert forall|n: NodeId, k: int| #![trigger kids[n][k]] nodes.contains_key(n) && 0 <= k < kids[n].len() implies {
                let c = kids[n][k];
                &&& nodes.contains_key(c)
                &&& self.pos@[c] > self.pos@[n]
                &&& is_within(nodes[n].path@, nodes[c].path@)
                &&& self.up@.contains_key(c)
                &&& self.up@[c] == n
            } by {
                let c = kids[n][k];
                assert(okids[n].filter(other_than(id)).contains(c));
                okids[n].lemma_filter_contains_rev(other_than(id), c);
                okids[n].lemma_filter_pred(other_than(id), k);
                let k2 = choose|k2: int| 0 <= k2 < okids[n].len() && okids[n][k2] == c;
                assert(okids[n][k2] == c);
            }
            assert forall|c: NodeId| #[trigger] self.up@.contains_key(c) implies nodes.contains_key(self.up@[c]) && kids[self.up@[c]].contains(c) by {
                let n = old_tree.up@[c];
                assert(okids[n].contains(c));
                let k = choose|k: int| 0 <= k < okids[n].len() && okids[n][k] == c;
                okids[n].lemma_filter_contains(other_than(id), k);
            }
            assert forall|n: NodeId, i: int, j: int| #![trigger kids[n][i], kids[n][j]]
                nodes.contains_key(n) && 0 <= i < j < kids[n].len() implies kids[n][i] != kids[n][j] by {
                lemma_filter_distinct(okids[n], id);
            }
            assert(kids =~= without_child(okids, id));
        }
        true
    }

    pub fn get_root(&self) -> (r: NodeId)
        requires
            self.wf(),
        ensures
            r == self.root_id(),
            self.nodes().contains_key(r),
    {
        self.root
    }

    pub fn get_arena(&self) -> (r: &Arena<TreeNode>)
        ensures
            arena_nodes(*r) == self.nodes(),
            arena_children(*r) == self.kids(),
    {
        &self.arena
    }

    /// The node stored for a path, if any.
    pub fn get_node(&self, path: &str) -> (r: Option<NodeId>)
        requires
            self.wf(),
        ensures
            r == self.lookup(path@),
            r matches Some(id) ==> self.nodes().contains_key(id) && self.nodes()[id].path@ == path@,
    {
        let r = self.find(path);
        proof {
            if r is Some {
                lemma_index_found(self.path_to_node@, path@);
            }
        }
        r
    }

    /// The data of a node.
    pub fn node(&self, id: NodeId) -> (r: &TreeNode)
        requires
            self.wf(),
            self.nodes().contains_key(id),
        ensures
            *r == self.nodes()[id],
    {
        arena_get(&self.arena, id)
    }

    /// The children of a node, in order.
    pub fn children_of(&self, id: NodeId) -> (r: Vec<NodeId>)
        requires
            self.wf(),
            self.nodes().contains_key(id),
        ensures
            self.kids().contains_key(id),
            r@ == self.kids()[id],
            forall|k: int| 0 <= k < r@.len() ==> self.nodes().contains_key(#[trigger] r@[k]),
    {
        let r = arena_children_of(&self.arena, id);
        proof {
            assert forall|k: int| 0 <= k < r@.len() implies self.nodes().contains_key(#[trigger] r@[k]) by {
                self.lemma_children_live(id, k);
            }
        }
        r
    }

    /// The path of the root.
    pub fn root_path(&self) -> (r: &str)
        requires
            self.wf(),
        ensures
            r@ == self.root_path_of(),
    {
        arena_get(&self.arena, self.root).path.as_str()
    }

    /// Total size of the tree: the root's cumulative size.
    pub fn total_size(&self) -> (r: u64)
        requires
            self.wf(),
        ensures
            r == self.nodes()[self.root_id()].cumulative_size,
    {
        arena_get(&self.arena, self.root).cumulative_size
    }
}


/// `d`'s ancestor `k` levels up (`d` itself for `k == 0`).
pub open spec fn ancestor_at(t: &FileTree, d: NodeId, k: nat) -> Option<NodeId>
    decreases k,
{
    if k == 0 {
        Some(d)
    } else {
        match ancestor_at(t, d, (k - 1) as nat) {
            Some(a) => t.parent_of(a),
            None => None,
        }
    }
}

/// `a` is a proper ancestor of `d`.
pub open spec fn is_ancestor(t: &FileTree, a: NodeId, d: NodeId) -> bool {
    exists|k: nat| k >= 1 && #[trigger] ancestor_at(t, d, k) == Some(a)
}

/// Every node holds the size that `calculate_sizes` gives it.
pub open spec fn sizes_settled(t: &FileTree) -> bool {
    forall|n: NodeId| #[trigger] t.nodes().contains_key(n) ==> size_consistent(t.nodes(), t.kids(), n)
}

/// No directory's children add up to more than a `u64` holds.
pub open spec fn no_saturation(t: &FileTree) -> bool {
    forall|n: NodeId| #[trigger] t.nodes().contains_key(n) && t.nodes()[n].is_dir ==> kids_total(t.nodes(), t.kids()[n]) <= u64::MAX
}

/// Only directories have children.
pub open spec fn only_dirs_have_children(t: &FileTree) -> bool {
    forall|n: NodeId| #[trigger] t.nodes().contains_key(n) && t.kids()[n].len() > 0 ==> t.nodes()[n].is_dir
}

proof fn lemma_filter_absent(s: Seq<NodeId>, d: NodeId)
    requires
        !s.contains(d),
    ensures
        s.filter(other_than(d)) == s,
    decreases s.len(),
{
    reveal(Seq::filter);
    if s.len() > 0 {
        let t = s.drop_last();
        assert(!t.contains(d)) by {
            if t.contains(d) {
                let k = choose|k: int| 0 <= k < t.len() && t[k] == d;
                assert(s[k] == d);
            }
        }
        lemma_filter_absent(t, d);
        assert(s.last() != d) by {
            assert(s[s.len() - 1] == s.last());
        }
        assert(t.push(s.last()) =~= s);
    }
}

proof fn lemma_total_without(nodes: Map<NodeId, TreeNode>, s: Seq<NodeId>, d: NodeId)
    requires
        distinct_ids(s),
        s.contains(d),
    ensures
        kids_total(nodes, s.filter(other_than(d))) == kids_total(nodes, s) - nodes[d].cumulative_size,
    decreases s.len(),
{
    reveal(Seq::filter);
    let t = s.drop_last();
    assert(distinct_ids(t)) by {
        assert forall|i: int, j: int| 0 <= i < j < t.len() implies t[i] != t[j] by {
            assert(t[i] == s[i] && t[j] == s[j]);
        }
    }
    if s.last() == d {
        assert(!t.contains(d)) by {
            if t.contains(d) {
                let k = choose|k: int| 0 <= k < t.len() && t[k] == d;
                assert(s[k] == s[s.len() - 1]);
            }
        }
        lemma_filter_absent(t, d);
    } else {
        assert(t.contains(d)) by {
            let k = choose|k: int| 0 <= k < s.len() && s[k] == d;
            assert(k != s.len() - 1);
            assert(t[k] == d);
        }
        lemma_total_without(nodes, t, d);
        let f = t.filter(other_than(d));
        assert(f.push(s.last()).drop_last() =~= f);
    }
}

proof fn lemma_total_one_less(a: Map<NodeId, TreeNode>, b: Map<NodeId, TreeNode>, s: Seq<NodeId>, i0: int, x: int)
    requires
        distinct_ids(s),
        0 <= i0 < s.len(),
        a[s[i0]].cumulative_size == b[s[i0]].cumulative_size - x,
        forall|i: int| 0 <= i < s.len() && i != i0 ==> a[s[i]].cumulative_size == b[s[i]].cumulative_size,
    ensures
        kids_total(a, s) == kids_total(b, s) - x,
    decreases s.len(),
{
    let t = s.drop_last();
    if i0 == s.len() - 1 {
        assert forall|i: int| 0 <= i < t.len() implies a[t[i]].cumulative_size == b[t[i]].cumulative_size by {
            assert(t[i] == s[i]);
        }
        lemma_kids_total_frame(a, b, t);
        assert(s.last() == s[i0]);
    } else {
        assert(distinct_ids(t)) by {
            assert forall|i: int, j: int| 0 <= i < j < t.len() implies t[i] != t[j] by {
                assert(t[i] == s[i] && t[j] == s[j]);
            }
        }
        assert forall|i: int| 0 <= i < t.len() && i != i0 implies a[t[i]].cumulative_size == b[t[i]].cumulative_size by {
            assert(t[i] == s[i]);
        }
        assert(t[i0] == s[i0]);
        lemma_total_one_less(a, b, t, i0, x);
        assert(s.last() == s[s.len() - 1]);
    }
}

impl FileTree {
    /// Settled sizes are determined by the tree's shape and its entries'
    /// own sizes: two trees that agree on those agree on every cumulative size.
    pub proof fn lemma_settled_unique(a: &FileTree, b: &FileTree)
        requires
            a.wf(),
            sizes_settled(a),
            sizes_settled(b),
            a.kids() == b.kids(),
            a.nodes().dom() == b.nodes().dom(),
            forall|n: NodeId| #[trigger] a.nodes().contains_key(n) ==>
                a.nodes()[n].is_dir == b.nodes()[n].is_dir && a.nodes()[n].size == b.nodes()[n].size,
        ensures
            forall|n: NodeId| #[trigger] a.nodes().contains_key(n) ==> a.nodes()[n].cumulative_size == b.nodes()[n].cumulative_size,
    {
        assert forall|n: NodeId| #[trigger] a.nodes().contains_key(n) implies a.nodes()[n].cumulative_size == b.nodes()[n].cumulative_size by {
            Self::lemma_settled_unique_at(a, b, n);
        }
    }

    proof fn lemma_settled_unique_at(a: &FileTree, b: &FileTree, n: NodeId)
        requires
            a.wf(),
            sizes_settled(a),
            sizes_settled(b),
            a.kids() == b.kids(),
            a.nodes().dom() == b.nodes().dom(),
            forall|m: NodeId| #[trigger] a.nodes().contains_key(m) ==>
                a.nodes()[m].is_dir == b.nodes()[m].is_dir && a.nodes()[m].size == b.nodes()[m].size,
            a.nodes().contains_key(n),
        ensures
            a.nodes()[n].cumulative_size == b.nodes()[n].cumulative_size,
        decreases a.order@.len() - a.pos@[n],
    {
        let s = a.kids()[n];
        assert(size_consistent(a.nodes(), a.kids(), n));
        assert(b.nodes().contains_key(n));
        assert(size_consistent(b.nodes(), b.kids(), n));
        assert forall|i: int| 0 <= i < s.len() implies a.nodes()[s[i]].cumulative_size == b.nodes()[s[i]].cumulative_size by {
            assert(a.pos@[s[i]] > a.pos@[n]);
            Self::lemma_settled_unique_at(a, b, s[i]);
        }
        lemma_kids_total_frame(a.nodes(), b.nodes(), s);
    }

    /// The node whose list of children holds `c`, if any.
    pub closed spec fn parent_of(&self, c: NodeId) -> Option<NodeId> {
        if self.up@.contains_key(c) { Some(self.up@[c]) } else { None }
    }

    /// `parent_of` agrees with the lists of children.
    pub proof fn lemma_parent_of(&self, c: NodeId, n: NodeId)
        requires
            self.wf(),
            self.nodes().contains_key(n),
        ensures
            (self.parent_of(c) == Some(n)) <==> self.kids()[n].contains(c),
    {
        if self.kids()[n].contains(c) {
            let k = choose|k: int| 0 <= k < self.kids()[n].len() && self.kids()[n][k] == c;
            assert(self.kids()[n][k] == c);
        }
    }

    proof fn lemma_ancestor_live(&self, d: NodeId, k: nat)
        requires
            self.wf(),
            self.nodes().contains_key(d),
        ensures
            ancestor_at(self, d, k) matches Some(x) ==> self.nodes().contains_key(x),
        decreases k,
    {
        if k > 0 {
            self.lemma_ancestor_live(d, (k - 1) as nat);
        }
    }

    /// Going up strictly lowers the position in the creation order.
    proof fn lemma_ancestor_rises(&self, d: NodeId, k: nat, j: nat)
        requires
            self.wf(),
            self.nodes().contains_key(d),
            k < j,
            ancestor_at(self, d, k) is Some,
            ancestor_at(self, d, j) is Some,
        ensures
            self.pos@[ancestor_at(self, d, j)->0] < self.pos@[ancestor_at(self, d, k)->0],
        decreases j - k,
    {
        let z = ancestor_at(self, d, (j - 1) as nat);
        assert(z is Some);
        let y = ancestor_at(self, d, j)->0;
        let zz = z->0;
        self.lemma_ancestor_live(d, (j - 1) as nat);
        assert(self.up@.contains_key(zz) && self.up@[zz] == y);
        assert(self.kids()[y].contains(zz));
        let i = choose|i: int| 0 <= i < self.kids()[y].len() && self.kids()[y][i] == zz;
        assert(self.kids()[y][i] == zz);
        if k < j - 1 {
            self.lemma_ancestor_rises(d, k, (j - 1) as nat);
        }
    }

    /// A node is a proper ancestor of `d` exactly when one of its children is
    /// `d` or an ancestor of `d`; at most one child is.
    proof fn lemma_ancestor_step(&self, d: NodeId, n: NodeId)
        requires
            self.wf(),
            self.nodes().contains_key(d),
            self.nodes().contains_key(n),
        ensures
            is_ancestor(self, n, d) <==> exists|i: int| 0 <= i < self.kids()[n].len()
                && (self.kids()[n][i] == d || is_ancestor(self, #[trigger] self.kids()[n][i], d)),
            forall|i: int, j: int| 0 <= i < self.kids()[n].len() && 0 <= j < self.kids()[n].len()
                && (self.kids()[n][i] == d || is_ancestor(self, #[trigger] self.kids()[n][i], d))
                && (self.kids()[n][j] == d || is_ancestor(self, #[trigger] self.kids()[n][j], d)) ==> i == j,
    {
        let kids = self.kids()[n];
        if is_ancestor(self, n, d) {
            let k = choose|k: nat| k >= 1 && #[trigger] ancestor_at(self, d, k) == Some(n);
            let c = ancestor_at(self, d, (k - 1) as nat)->0;
            self.lemma_ancestor_live(d, (k - 1) as nat);
            self.lemma_parent_of(c, n);
            let i = choose|i: int| 0 <= i < kids.len() && kids[i] == c;
            if k > 1 {
                assert(ancestor_at(self, d, (k - 1) as nat) == Some(c));
                assert(is_ancestor(self, kids[i], d));
            } else {
                assert(kids[i] == d);
            }
        }
        assert forall|i: int| 0 <= i < kids.len() && (kids[i] == d || is_ancestor(self, #[trigger] kids[i], d)) implies is_ancestor(self, n, d) by {
            let c = kids[i];
            self.lemma_parent_of(c, n);
            assert(kids.contains(c));
            if c == d {
                assert(ancestor_at(self, d, 0) == Some(d));
                assert(ancestor_at(self, d, 1) == Some(n));
            } else {
                let k = choose|k: nat| k >= 1 && #[trigger] ancestor_at(self, d, k) == Some(c);
                assert(ancestor_at(self, d, k + 1) == Some(n));
            }
        }
        assert forall|i: int, j: int| 0 <= i < kids.len() && 0 <= j < kids.len()
            && (kids[i] == d || is_ancestor(self, #[trigger] kids[i], d))
            && (kids[j] == d || is_ancestor(self, #[trigger] kids[j], d)) implies i == j by {
            let ki: nat = if kids[i] == d { 0 } else { choose|k: nat| k >= 1 && #[trigger] ancestor_at(self, d, k) == Some(kids[i]) };
            let kj: nat = if kids[j] == d { 0 } else { choose|k: nat| k >= 1 && #[trigger] ancestor_at(self, d, k) == Some(kids[j]) };
            self.lemma_parent_of(kids[i], n);
            self.lemma_parent_of(kids[j], n);
            assert(kids.contains(kids[i]));
            assert(kids.contains(kids[j]));
            assert(ancestor_at(self, d, ki) == Some(kids[i]));
            assert(ancestor_at(self, d, kj) == Some(kids[j]));
            assert(ancestor_at(self, d, ki + 1) == Some(n));
            assert(ancestor_at(self, d, kj + 1) == Some(n));
            if ki < kj {
                self.lemma_ancestor_rises(d, ki + 1, kj + 1);
            } else if kj < ki {
                self.lemma_ancestor_rises(d, kj + 1, ki + 1);
            }
            assert(kids[i] == kids[j]);
        }
    }

    proof fn lemma_round_trip_at(before: &FileTree, after: &FileTree, d: NodeId, n: NodeId)
        requires
            before.wf(),
            sizes_settled(before),
            no_saturation(before),
            only_dirs_have_children(before),
            before.nodes().contains_key(d),
            before.nodes().contains_key(n),
            after.kids() == without_child(before.kids(), d),
            after.nodes().dom() == before.nodes().dom(),
            forall|m: NodeId| #[trigger] after.nodes().contains_key(m) ==>
                after.nodes()[m].is_dir == before.nodes()[m].is_dir && after.nodes()[m].size == before.nodes()[m].size,
            sizes_settled(after),
        ensures
            after.nodes()[n].cumulative_size == before.nodes()[n].cumulative_size
                - if is_ancestor(before, n, d) { before.nodes()[d].cumulative_size as int } else { 0 },
        decreases before.order@.len() - before.pos@[n],
    {
        let b = before.nodes();
        let a = after.nodes();
        let s = before.kids()[n];
        let x = b[d].cumulative_size as int;
        before.lemma_ancestor_step(d, n);
        assert(before.kids().contains_key(n));
        assert(size_consistent(b, before.kids(), n));
        assert(size_consistent(a, after.kids(), n));
        assert forall|i: int| 0 <= i < s.len() implies a[#[trigger] s[i]].cumulative_size == b[s[i]].cumulative_size
            - if is_ancestor(before, s[i], d) { x } else { 0 } by {
            assert(before.pos@[s[i]] > before.pos@[n]);
            Self::lemma_round_trip_at(before, after, d, s[i]);
        }
        lemma_kids_total_nonneg(b, s);
        if !b[n].is_dir {
            if is_ancestor(before, n, d) {
                assert(s.len() > 0);
            }
        } else {
            assert(distinct_ids(s));
            if s.contains(d) {
                let i0 = choose|i: int| 0 <= i < s.len() && s[i] == d;
                assert(is_ancestor(before, n, d));
                let f = s.filter(other_than(d));
                assert(after.kids()[n] == f);
                assert forall|i: int| 0 <= i < f.len() implies a[f[i]].cumulative_size == b[f[i]].cumulative_size by {
                    s.lemma_filter_contains_rev(other_than(d), f[i]);
                    s.lemma_filter_pred(other_than(d), i);
                    let k = choose|k: int| 0 <= k < s.len() && s[k] == f[i];
                    if is_ancestor(before, s[k], d) {
                        assert(k == i0);
                    }
                }
                lemma_kids_total_frame(a, b, f);
                lemma_total_without(b, s, d);
                lemma_kids_total_nonneg(b, f);
            } else {
                lemma_filter_absent(s, d);
                assert(after.kids()[n] == s);
                if is_ancestor(before, n, d) {
                    let i0 = choose|i: int| 0 <= i < s.len() && (s[i] == d || is_ancestor(before, #[trigger] s[i], d));
                    assert(s[i0] != d);
                    assert forall|i: int| 0 <= i < s.len() && i != i0 implies a[s[i]].cumulative_size == b[s[i]].cumulative_size by {
                        if is_ancestor(before, s[i], d) {
                            assert(i == i0);
                        }
                    }
                    lemma_total_one_less(a, b, s, i0, x);
                    lemma_kids_total_nonneg(a, s);
                } else {
                    assert forall|i: int| 0 <= i < s.len() implies a[s[i]].cumulative_size == b[s[i]].cumulative_size by {
                        assert(s[i] != d);
                        if is_ancestor(before, s[i], d) {
                            assert(is_ancestor(before, n, d));
                        }
                    }
                    lemma_kids_total_frame(a, b, s);
                }
            }
        }
    }

    /// Removing the subtree at `d` (as `remove_path_recursive` does) and
    /// recomputing sizes (as `calculate_sizes` does) lowers the cumulative size
    /// of every ancestor of `d` by exactly `d`'s cumulative size before the
    /// removal, and leaves every other node's size as it was. It holds of a
    /// tree whose sizes were settled, that only has children under
    /// directories, and whose sums fit in a `u64`.
    pub proof fn lemma_remove_round_trip(before: &FileTree, after: &FileTree, d: NodeId)
        requires
            before.wf(),
            sizes_settled(before),
            no_saturation(before),
            only_dirs_have_children(before),
            before.nodes().contains_key(d),
            after.kids() == without_child(before.kids(), d),
            after.nodes().dom() == before.nodes().dom(),
            forall|m: NodeId| #[trigger] after.nodes().contains_key(m) ==>
                after.nodes()[m].is_dir == before.nodes()[m].is_dir && after.nodes()[m].size == before.nodes()[m].size,
            sizes_settled(after),
        ensures
            forall|n: NodeId| #[trigger] before.nodes().contains_key(n) ==> after.nodes()[n].cumulative_size
                == before.nodes()[n].cumulative_size - if is_ancestor(before, n, d) {
                    before.nodes()[d].cumulative_size as int
                } else {
                    0
                },
    {
        assert forall|n: NodeId| #[trigger] before.nodes().contains_key(n) implies after.nodes()[n].cumulative_size
            == before.nodes()[n].cumulative_size - if is_ancestor(before, n, d) {
                before.nodes()[d].cumulative_size as int
            } else {
                0
            } by {
            Self::lemma_round_trip_at(before, after, d, n);
        }
    }
}

} // verus!
