//! Which paths a scan leaves out.

use vstd::prelude::*;

verus! {

/// The components, in order, that mark a path inside Docker's virtual machine
/// images, whose reported sizes are not real disk usage.
pub open spec fn docker_vm_part(m: int) -> Seq<char> {
    if m == 0 {
        "Library"@
    } else if m == 1 {
        "Containers"@
    } else if m == 2 {
        "com.docker.docker"@
    } else if m == 3 {
        "Data"@
    } else {
        "vms"@
    }
}

/// Number of those components.
pub const DOCKER_VM_PARTS: usize = 5;

fn docker_vm_part_str(m: usize) -> (r: &'static str)
    requires
        m < DOCKER_VM_PARTS,
    ensures
        r@ == docker_vm_part(m as int),
{
    if m == 0 {
        "Library"
    } else if m == 1 {
        "Containers"
    } else if m == 2 {
        "com.docker.docker"
    } else if m == 3 {
        "Data"
    } else {
        "vms"
    }
}

/// Splitting `p[..i]` at `/`: the complete non-empty components so far, and
/// the component being read.
pub open spec fn split_state(p: Seq<char>, i: int) -> (Seq<Seq<char>>, Seq<char>)
    decreases i,
{
    if i <= 0 || i > p.len() {
        (Seq::empty(), Seq::empty())
    } else {
        let (cs, cur) = split_state(p, i - 1);
        if p[i - 1] == '/' {
            if cur.len() > 0 { (cs.push(cur), Seq::empty()) } else { (cs, Seq::empty()) }
        } else {
            (cs, cur.push(p[i - 1]))
        }
    }
}

/// The non-empty `/`-separated components of a path.
pub open spec fn components(p: Seq<char>) -> Seq<Seq<char>> {
    let (cs, cur) = split_state(p, p.len() as int);
    if cur.len() > 0 { cs.push(cur) } else { cs }
}

/// How many of the Docker components `cs[..k]` matches, in order, taking
/// each one as soon as it comes.
pub open spec fn docker_matched(cs: Seq<Seq<char>>, k: int) -> int
    decreases k,
{
    if k <= 0 || k > cs.len() {
        0
    } else {
        let m = docker_matched(cs, k - 1);
        if m < DOCKER_VM_PARTS && cs[k - 1] == docker_vm_part(m) { m + 1 } else { m }
    }
}

/// A path to skip: its components hold all the Docker components in order.
pub open spec fn skipped(p: Seq<char>) -> bool {
    docker_matched(components(p), components(p).len() as int) == DOCKER_VM_PARTS
}

proof fn lemma_matched_prefix(s: Seq<Seq<char>>, t: Seq<Seq<char>>, k: int)
    requires
        0 <= k <= s.len(),
        k <= t.len(),
        forall|i: int| 0 <= i < k ==> s[i] == t[i],
    ensures
        docker_matched(s, k) == docker_matched(t, k),
    decreases k,
{
    if k > 0 {
        lemma_matched_prefix(s, t, k - 1);
    }
}

/// Taking in one more component.
proof fn lemma_matched_push(cs: Seq<Seq<char>>, c: Seq<char>)
    ensures
        docker_matched(cs.push(c), cs.len() + 1 as int) == {
            let m = docker_matched(cs, cs.len() as int);
            if m < DOCKER_VM_PARTS && c == docker_vm_part(m) { m + 1 } else { m }
        },
{
    lemma_matched_prefix(cs.push(c), cs, cs.len() as int);
    assert(cs.push(c)[cs.len() as int] == c);
}

proof fn lemma_matched_bound(cs: Seq<Seq<char>>, k: int)
    ensures
        0 <= docker_matched(cs, k) <= DOCKER_VM_PARTS,
    decreases k,
{
    if 0 < k <= cs.len() {
        lemma_matched_bound(cs, k - 1);
    }
}

/// Whether the piece `p[start..end]` is `name`.
fn piece_is(p: &str, start: usize, end: usize, name: &str) -> (r: bool)
    requires
        start <= end <= p@.len(),
    ensures
        r == (p@.subrange(start as int, end as int) == name@),
{
    let n = name.unicode_len();
    if end - start != n {
        proof {
            if p@.subrange(start as int, end as int) == name@ {
                assert(p@.subrange(start as int, end as int).len() == name@.len());
            }
        }
        return false;
    }
    let mut i: usize = 0;
    while i < n
        invariant
            n == name@.len(),
            end - start == n,
            start <= end <= p@.len(),
            i <= n,
            forall|j: int| 0 <= j < i ==> p@[start + j] == name@[j],
        decreases n - i,
    {
        if p.get_char(start + i) != name.get_char(i) {
            assert(p@.subrange(start as int, end as int)[i as int] != name@[i as int]);
            return false;
        }
        i = i + 1;
    }
    assert(p@.subrange(start as int, end as int) =~= name@);
    true
}

/// Takes in one complete component: the count goes up when it is the next
/// Docker component.
fn take_component(p: &str, start: usize, end: usize, matched: usize) -> (r: usize)
    requires
        start <= end <= p@.len(),
        matched <= DOCKER_VM_PARTS,
    ensures
        r == if matched < DOCKER_VM_PARTS && p@.subrange(start as int, end as int) == docker_vm_part(matched as int) {
            matched + 1
        } else {
            matched as int
        },
{
    if matched < DOCKER_VM_PARTS && piece_is(p, start, end, docker_vm_part_str(matched)) {
        matched + 1
    } else {
        matched
    }
}

/// Whether a scan should leave `path` out: paths inside Docker's virtual
/// machine images (`.../Library/Containers/com.docker.docker/Data/vms/...`).
pub fn should_skip_path(path: &str) -> (r: bool)
    ensures
        r == skipped(path@),
{
    let n = path.unicode_len();
    let mut matched: usize = 0;
    let mut start: usize = 0;
    let mut i: usize = 0;
    while i < n
        invariant
            n == path@.len(),
            start <= i <= n,
            split_state(path@, i as int).1 == path@.subrange(start as int, i as int),
            matched == docker_matched(split_state(path@, i as int).0, split_state(path@, i as int).0.len() as int),
            matched <= DOCKER_VM_PARTS,
        decreases n - i,
    {
        let ghost before = split_state(path@, i as int);
        assert(split_state(path@, i + 1) == {
            let (cs, cur) = before;
            if path@[i as int] == '/' {
                if cur.len() > 0 { (cs.push(cur), Seq::<char>::empty()) } else { (cs, Seq::<char>::empty()) }
            } else {
                (cs, cur.push(path@[i as int]))
            }
        });
        if path.get_char(i) == '/' {
            if start < i {
                matched = take_component(path, start, i, matched);
                proof {
                    lemma_matched_push(before.0, before.1);
                    lemma_matched_bound(before.0.push(before.1), before.0.len() + 1 as int);
                }
            } else {
                assert(before.1.len() == 0);
            }
            start = i + 1;
            assert(path@.subrange(start as int, i + 1) =~= Seq::<char>::empty());
        } else {
            assert(path@.subrange(start as int, i + 1) =~= path@.subrange(start as int, i as int).push(path@[i as int]));
        }
        i = i + 1;
    }
    if start < n {
        matched = take_component(path, start, n, matched);
        proof {
            let st = split_state(path@, n as int);
            lemma_matched_push(st.0, st.1);
        }
    }
    matched == DOCKER_VM_PARTS
}

} // verus!
