//! Which directories the user has expanded, and how deep.

use vstd::prelude::*;
use crate::paths::{is_within, path_is_within, same_path};

verus! {

/// The depth recorded for `k` in a list of entries; the last entry for a key wins.
pub open spec fn depth_in(s: Seq<(String, u8)>, k: Seq<char>) -> u8
    decreases s.len(),
{
    if s.len() == 0 {
        0
    } else if s.last().0@ == k {
        s.last().1
    } else {
        depth_in(s.drop_last(), k)
    }
}

pub open spec fn keys_distinct(s: Seq<(String, u8)>) -> bool {
    forall|i: int, j: int| 0 <= i < s.len() && 0 <= j < s.len() && i != j ==> s[i].0@ != s[j].0@
}

proof fn lemma_depth_absent(s: Seq<(String, u8)>, k: Seq<char>)
    requires
        forall|j: int| 0 <= j < s.len() ==> s[j].0@ != k,
    ensures
        depth_in(s, k) == 0,
    decreases s.len(),
{
    if s.len() > 0 {
        lemma_depth_absent(s.drop_last(), k);
    }
}

proof fn lemma_depth_at(s: Seq<(String, u8)>, i: int)
    requires
        keys_distinct(s),
        0 <= i < s.len(),
    ensures
        depth_in(s, s[i].0@) == s[i].1,
    decreases s.len(),
{
    if i < s.len() - 1 {
        assert(s.drop_last()[i] == s[i]);
        lemma_depth_at(s.drop_last(), i);
    }
}

proof fn lemma_depth_update(s: Seq<(String, u8)>, i: int, e: (String, u8), k: Seq<char>)
    requires
        keys_distinct(s),
        0 <= i < s.len(),
        s[i].0@ == e.0@,
    ensures
        depth_in(s.update(i, e), k) == if k == e.0@ { e.1 } else { depth_in(s, k) },
    decreases s.len(),
{
    let t = s.update(i, e);
    if i == s.len() - 1 {
        assert(t.drop_last() =~= s.drop_last());
    } else {
        assert(t.drop_last() =~= s.drop_last().update(i, e));
        assert(t.last() == s.last());
        lemma_depth_update(s.drop_last(), i, e, k);
    }
}

/// Tracks which folders are expanded and to what depth.
pub struct ExpansionState {
    expanded: Vec<(String, u8)>,
}

impl ExpansionState {
    /// Each path has at most one entry.
    pub closed spec fn wf(&self) -> bool {
        keys_distinct(self.expanded@)
    }

    /// The recorded expansion depth of a path (0 = collapsed).
    pub closed spec fn depth_of(&self, k: Seq<char>) -> u8 {
        depth_in(self.expanded@, k)
    }

    /// An empty state: every path collapsed.
    pub fn new() -> (r: Self)
        ensures
            r.wf(),
            forall|k: Seq<char>| r.depth_of(k) == 0,
    {
        ExpansionState { expanded: Vec::new() }
    }

    fn position(&self, path: &str) -> (r: Option<usize>)
        requires
            self.wf(),
        ensures
            r matches Some(i) ==> i < self.expanded@.len() && self.expanded@[i as int].0@ == path@,
            r is None ==> forall|j: int| 0 <= j < self.expanded@.len() ==> self.expanded@[j].0@ != path@,
    {
        let mut i: usize = 0;
        while i < self.expanded.len()
            invariant
                i <= self.expanded@.len(),
                forall|j: int| 0 <= j < i ==> self.expanded@[j].0@ != path@,
            decreases self.expanded@.len() - i,
        {
            if same_path(self.expanded[i].0.as_str(), path) {
                return Some(i);
            }
            i = i + 1;
        }
        None
    }

    fn set_depth(&mut self, path: &str, d: u8)
        requires
            old(self).wf(),
        ensures
            final(self).wf(),
            forall|k: Seq<char>| #[trigger] final(self).depth_of(k) == if k == path@ { d } else { old(self).depth_of(k) },
    {
        match self.position(path) {
            Some(i) => {
                let e = (path.to_owned(), d);
                proof {
                    assert forall|k: Seq<char>| depth_in(self.expanded@.update(i as int, e), k)
                        == if k == path@ { d } else { depth_in(self.expanded@, k) } by {
                        lemma_depth_update(self.expanded@, i as int, e, k);
                    }
                }
                self.expanded.set(i, e);
            },
            None => {
                let ghost s = self.expanded@;
                self.expanded.push((path.to_owned(), d));
                assert(self.expanded@.drop_last() =~= s);
            },
        }
    }

    /// Expand a folder to depth 1 (single-click).
    pub fn expand(&mut self, path: &str)
        requires
            old(self).wf(),
        ensures
            final(self).wf(),
            forall|k: Seq<char>| #[trigger] final(self).depth_of(k) == if k == path@ { 1 } else { old(self).depth_of(k) },
    {
        self.set_depth(path, 1);
    }

    /// Increment the expansion depth by one (double-click), saturating at `u8::MAX`.
    pub fn deepen(&mut self, path: &str)
        requires
            old(self).wf(),
        ensures
            final(self).wf(),
            final(self).depth_of(path@) == if old(self).depth_of(path@) == u8::MAX {
                u8::MAX
            } else {
                (old(self).depth_of(path@) + 1) as u8
            },
            forall|k: Seq<char>| k != path@ ==> #[trigger] final(self).depth_of(k) == old(self).depth_of(k),
    {
        let current = self.depth(path);
        let next = current.saturating_add(1);
        self.set_depth(path, next);
    }

    /// Remove this path and all of its descendants from the expanded set.
    pub fn collapse_recursive(&mut self, path: &str)
        requires
            old(self).wf(),
        ensures
            final(self).wf(),
            forall|k: Seq<char>| #[trigger] final(self).depth_of(k) == if is_within(path@, k) { 0 } else { old(self).depth_of(k) },
    {
        let ghost s = self.expanded@;
        let mut kept: Vec<(String, u8)> = Vec::new();
        let mut i: usize = 0;
        while i < self.expanded.len()
            invariant
                s == self.expanded@,
                keys_distinct(s),
                i <= s.len(),
                keys_distinct(kept@),
                forall|a: int| #![trigger kept@[a]] 0 <= a < kept@.len() ==> exists|j: int| #![trigger s[j]] 0 <= j < i && s[j].0@ == kept@[a].0@,
                forall|k: Seq<char>| #[trigger] depth_in(kept@, k) == if is_within(path@, k) { 0 } else { depth_in(s.take(i as int), k) },
            decreases s.len() - i,
        {
            let ghost before = kept@;
            assert(s.take(i + 1).drop_last() =~= s.take(i as int));
            let ghost t = s.take(i + 1);
            assert(t.last() == s[i as int]);
            if !path_is_within(path, self.expanded[i].0.as_str()) {
                let e = (self.expanded[i].0.clone(), self.expanded[i].1);
                kept.push(e);
                assert(kept@.drop_last() =~= before);
                assert forall|a: int, b: int| 0 <= a < kept@.len() && 0 <= b < kept@.len() && a != b implies kept@[a].0@ != kept@[b].0@ by {
                    if a == kept@.len() - 1 {
                        let j = choose|j: int| #![trigger s[j]] 0 <= j < i && s[j].0@ == kept@[b].0@;
                    } else if b == kept@.len() - 1 {
                        let j = choose|j: int| #![trigger s[j]] 0 <= j < i && s[j].0@ == kept@[a].0@;
                    }
                }
                assert forall|a: int| #![trigger kept@[a]] 0 <= a < kept@.len() implies exists|j: int| #![trigger s[j]] 0 <= j < i + 1 && s[j].0@ == kept@[a].0@ by {
                    if a == kept@.len() - 1 {
                        assert(s[i as int].0@ == kept@[a].0@);
                    } else {
                        assert(kept@[a] == before[a]);
                    }
                }
                assert forall|k: Seq<char>| #[trigger] depth_in(kept@, k) == if is_within(path@, k) { 0 } else { depth_in(t, k) } by {
                    assert(depth_in(before, k) == if is_within(path@, k) { 0 } else { depth_in(s.take(i as int), k) });
                    assert(kept@.last().0@ == s[i as int].0@);
                    if is_within(path@, k) {
                        assert(k != s[i as int].0@);
                    }
                }
            } else {
                assert forall|k: Seq<char>| #[trigger] depth_in(kept@, k) == if is_within(path@, k) { 0 } else { depth_in(t, k) } by {
                    if !is_within(path@, k) {
                        assert(k != s[i as int].0@);
                    }
                }
            }
            i = i + 1;
        }
        assert(s.take(s.len() as int) =~= s);
        self.expanded = kept;
    }

    /// Current expansion depth (0 = collapsed).
    pub fn depth(&self, path: &str) -> (r: u8)
        requires
            self.wf(),
        ensures
            r == self.depth_of(path@),
    {
        match self.position(path) {
            Some(i) => {
                proof {
                    lemma_depth_at(self.expanded@, i as int);
                }
                self.expanded[i].1
            },
            None => {
                proof {
                    lemma_depth_absent(self.expanded@, path@);
                }
                0
            },
        }
    }

    /// Whether a path is expanded.
    pub fn is_expanded(&self, path: &str) -> (r: bool)
        requires
            self.wf(),
        ensures
            r == (self.depth_of(path@) > 0),
    {
        self.depth(path) > 0
    }

    /// Reset all expansions.
    pub fn collapse_all(&mut self)
        ensures
            final(self).wf(),
            forall|k: Seq<char>| #[trigger] final(self).depth_of(k) == 0,
    {
        self.expanded.clear();
    }
}

impl Default for ExpansionState {
    fn default() -> (r: Self)
        ensures
            r.wf(),
            forall|k: Seq<char>| #[trigger] r.depth_of(k) == 0,
    {
        ExpansionState::new()
    }
}

} // verus!
