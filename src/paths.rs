//! Paths are `/`-separated strings. This module gives them the component-wise
//! meaning that the size model and the expansion state rely on.

use vstd::prelude::*;

verus! {

/// `p` names `q` itself or one of its ancestors, comparing whole components:
/// `/a/b` is within `/a`, while `/ab` is not.
pub open spec fn is_within(p: Seq<char>, q: Seq<char>) -> bool {
    &&& p.len() <= q.len()
    &&& q.subrange(0, p.len() as int) == p
    &&& (q.len() == p.len() || (p.len() > 0 && p.last() == '/') || q[p.len() as int] == '/')
}

/// Executable form of [`is_within`].
pub fn path_is_within(p: &str, q: &str) -> (r: bool)
    ensures
        r == is_within(p@, q@),
{
    let pn = p.unicode_len();
    let qn = q.unicode_len();
    if pn > qn {
        return false;
    }
    let mut i: usize = 0;
    while i < pn
        invariant
            pn == p@.len(),
            qn == q@.len(),
            pn <= qn,
            i <= pn,
            forall|j: int| 0 <= j < i ==> q@[j] == p@[j],
        decreases pn - i,
    {
        if p.get_char(i) != q.get_char(i) {
            assert(q@.subrange(0, pn as int)[i as int] != p@[i as int]);
            return false;
        }
        i = i + 1;
    }
    assert(q@.subrange(0, pn as int) =~= p@);
    if qn == pn {
        true
    } else if pn > 0 && p.get_char(pn - 1) == '/' {
        true
    } else {
        q.get_char(pn) == '/'
    }
}

/// Whether two paths are the same string.
pub fn same_path(p: &str, q: &str) -> (r: bool)
    ensures
        r == (p@ == q@),
{
    let pn = p.unicode_len();
    let qn = q.unicode_len();
    if pn != qn {
        return false;
    }
    let mut i: usize = 0;
    while i < pn
        invariant
            pn == p@.len(),
            qn == q@.len(),
            pn == qn,
            i <= pn,
            forall|j: int| 0 <= j < i ==> q@[j] == p@[j],
        decreases pn - i,
    {
        if p.get_char(i) != q.get_char(i) {
            return false;
        }
        i = i + 1;
    }
    assert(q@ =~= p@);
    true
}

/// Index of the last `/` in `q[..i]`, or -1.
pub open spec fn last_slash(q: Seq<char>, i: int) -> int
    decreases i,
{
    if i <= 0 || i > q.len() {
        -1
    } else if q[i - 1] == '/' {
        i - 1
    } else {
        last_slash(q, i - 1)
    }
}

pub proof fn lemma_last_slash(q: Seq<char>, i: int)
    requires
        0 <= i <= q.len(),
    ensures
        -1 <= last_slash(q, i) < i,
        last_slash(q, i) >= 0 ==> q[last_slash(q, i)] == '/',
        forall|j: int| last_slash(q, i) < j < i ==> q[j] != '/',
    decreases i,
{
    if i > 0 && q[i - 1] != '/' {
        lemma_last_slash(q, i - 1);
    }
}

/// The path without its last component: `/a/b` gives `/a`, `/a` gives `/`;
/// `/` and a path without any `/` have none.
pub open spec fn parent_path(q: Seq<char>) -> Option<Seq<char>> {
    let j = last_slash(q, q.len() as int);
    if j < 0 || q.len() <= 1 {
        None
    } else if j == 0 {
        Some(seq!['/'])
    } else {
        Some(q.subrange(0, j))
    }
}

/// The last component of a path: what follows its last `/`.
pub open spec fn file_name_of(q: Seq<char>) -> Seq<char> {
    q.subrange(last_slash(q, q.len() as int) + 1, q.len() as int)
}

pub proof fn lemma_parent_shorter(q: Seq<char>)
    ensures
        parent_path(q) matches Some(p) ==> p.len() < q.len(),
{
    lemma_last_slash(q, q.len() as int);
}

fn find_last_slash(q: &str) -> (r: (usize, bool))
    ensures
        r.0 <= q@.len(),
        r.1 ==> r.0 < q@.len() && last_slash(q@, q@.len() as int) == r.0 as int,
        !r.1 ==> last_slash(q@, q@.len() as int) == -1,
{
    let n = q.unicode_len();
    let mut i: usize = n;
    while i > 0
        invariant
            n == q@.len(),
            i <= n,
            last_slash(q@, n as int) == last_slash(q@, i as int),
        decreases i,
    {
        if q.get_char(i - 1) == '/' {
            return (i - 1, true);
        }
        i = i - 1;
    }
    (0, false)
}

/// Root paths for which every path strictly within them has a parent within them.
pub open spec fn clean_root(r: Seq<char>) -> bool {
    r.len() > 0 && (r == seq!['/'] || r.last() != '/')
}

/// A path lies within its parent.
pub proof fn lemma_parent_within(q: Seq<char>)
    ensures
        parent_path(q) matches Some(p) ==> is_within(p, q),
{
    lemma_last_slash(q, q.len() as int);
    let j = last_slash(q, q.len() as int);
    if j == 0 && q.len() > 1 {
        assert(q.subrange(0, 1) =~= seq!['/']);
    } else if j > 0 {
        assert(q.subrange(0, j).len() == j);
    }
}

/// `is_within` is transitive.
pub proof fn lemma_within_trans(a: Seq<char>, b: Seq<char>, c: Seq<char>)
    requires
        is_within(a, b),
        is_within(b, c),
    ensures
        is_within(a, c),
{
    assert(c.subrange(0, a.len() as int) =~= b.subrange(0, a.len() as int));
    if c.len() > a.len() && b.len() > a.len() {
        assert(c[a.len() as int] == b[a.len() as int]);
    }
}

/// Two paths within each other are the same path.
pub proof fn lemma_within_antisym(a: Seq<char>, b: Seq<char>)
    requires
        is_within(a, b),
        is_within(b, a),
    ensures
        a == b,
{
    assert(a =~= b.subrange(0, a.len() as int));
    assert(b =~= b.subrange(0, b.len() as int));
}

/// Under a clean root, a path strictly within it has a parent that is within it too.
pub proof fn lemma_root_parent(r: Seq<char>, q: Seq<char>)
    requires
        clean_root(r),
        is_within(r, q),
        q != r,
    ensures
        parent_path(q) matches Some(p) && is_within(r, p),
{
    lemma_last_slash(q, q.len() as int);
    let j = last_slash(q, q.len() as int);
    if q.len() == r.len() {
        assert(q =~= q.subrange(0, r.len() as int));
    }
    assert(q.len() > r.len());
    if r == seq!['/'] {
        assert(q[0] == q.subrange(0, 1)[0]);
        assert(q[0] == '/');
        assert(j >= 0);
        if j > 0 {
            let p = q.subrange(0, j);
            assert(p.subrange(0, 1) =~= q.subrange(0, 1));
            assert(is_within(r, p));
        } else {
            assert(r.subrange(0, 1) =~= r);
            assert(is_within(r, seq!['/']));
        }
    } else {
        assert(q[r.len() as int] == '/');
        assert(j >= r.len());
        let p = q.subrange(0, j);
        assert(p.subrange(0, r.len() as int) =~= q.subrange(0, r.len() as int));
        if j == r.len() {
            assert(p =~= r);
        } else {
            assert(p[r.len() as int] == q[r.len() as int]);
        }
    }
}

/// Executable form of [`parent_path`].
pub fn path_parent(q: &str) -> (r: Option<String>)
    ensures
        match parent_path(q@) {
            Some(p) => r is Some && r->0@ == p,
            None => r is None,
        },
        r matches Some(p) ==> p@.len() < q@.len(),
{
    proof {
        lemma_parent_shorter(q@);
    }
    let (j, found) = find_last_slash(q);
    let n = q.unicode_len();
    if !found || n <= 1 {
        None
    } else if j == 0 {
        let r = String::from_str("/");
        proof {
            reveal_strlit("/");
        }
        assert(r@ =~= seq!['/']);
        Some(r)
    } else {
        Some(q.substring_char(0, j).to_owned())
    }
}

/// Executable form of [`file_name_of`].
pub fn file_name(q: &str) -> (r: String)
    ensures
        r@ == file_name_of(q@),
{
    let (j, found) = find_last_slash(q);
    let n = q.unicode_len();
    if found {
        q.substring_char(j + 1, n).to_owned()
    } else {
        q.substring_char(0, n).to_owned()
    }
}

} // verus!
