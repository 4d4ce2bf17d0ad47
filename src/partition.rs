//! Splits a directory's children, largest first, into those drawn on their own
//! and those swept into one aggregate block.

use vstd::prelude::*;

verus! {

/// Absolute minimum area for an item to render individually (about 20 x 20).
pub const MIN_USEFUL_AREA: u128 = 400;

/// An item must also cover at least 1/200 (0.5%) of the container.
pub const MIN_AREA_DIVISOR: u128 = 200;

/// Soft cap on individual items per level before aggregation kicks in.
pub const PREFERRED_MAX_ITEMS: usize = 12;

/// The aggregate may hold at most `BUDGET_NUM / BUDGET_DEN` (8%) of the total size.
pub const BUDGET_NUM: u128 = 2;

pub const BUDGET_DEN: u128 = 25;

/// Sum of `s[k..]`.
pub open spec fn tail_sum(s: Seq<u64>, k: int) -> int
    decreases s.len() - k,
{
    if k < 0 || k >= s.len() {
        0
    } else {
        s[k] + tail_sum(s, k + 1)
    }
}

pub open spec fn sum_of(s: Seq<u64>) -> int {
    tail_sum(s, 0)
}

pub open spec fn sorted_desc(s: Seq<u64>) -> bool {
    forall|i: int, j: int| 0 <= i <= j < s.len() ==> s[i] >= s[j]
}

/// The area an item of `size` would get, `size / total * area`, is at least
/// `max(MIN_USEFUL_AREA, area / MIN_AREA_DIVISOR)` (the second bound, once the
/// first holds and so `area > 0`, reads `size / total >= 1 / MIN_AREA_DIVISOR`).
pub open spec fn area_ok(size: int, total: int, area: int) -> bool {
    &&& total > 0
    &&& size * area >= MIN_USEFUL_AREA * total
    &&& MIN_AREA_DIVISOR * size >= total
}

/// An aggregate of `agg` out of `total` stays within the budget.
pub open spec fn within_budget(agg: int, total: int) -> bool {
    BUDGET_DEN * agg <= BUDGET_NUM * total
}

/// Number of leading items that pass the area filter, counting from `i`.
pub open spec fn area_prefix(s: Seq<u64>, total: int, area: int, i: int) -> int
    decreases s.len() - i,
{
    if 0 <= i < s.len() && area_ok(s[i] as int, total, area) {
        area_prefix(s, total, area, i + 1)
    } else {
        i
    }
}

/// The first cut at or after `k` whose tail fits the budget.
pub open spec fn rescue_from(s: Seq<u64>, total: int, k: int) -> int
    decreases s.len() - k,
{
    if k < 0 || k >= s.len() || within_budget(tail_sum(s, k), total) {
        k
    } else {
        rescue_from(s, total, k + 1)
    }
}

pub open spec fn min_int(a: int, b: int) -> int {
    if a <= b { a } else { b }
}

/// The cut after the count cap and the budget rescue, before the
/// guarantee of one kept item.
pub open spec fn kept_count_base(s: Seq<u64>, total: int, area: int) -> int {
    rescue_from(s, total, min_int(area_prefix(s, total, area, 0), PREFERRED_MAX_ITEMS as int))
}

/// How many of the (descending) items are kept: those that pass the area
/// filter, capped at `PREFERRED_MAX_ITEMS`, then extended until the rest fits
/// the budget, and never zero when there are items.
pub open spec fn kept_count(s: Seq<u64>, total: int, area: int) -> int {
    let k = kept_count_base(s, total, area);
    if k == 0 && s.len() > 0 { 1 } else { k }
}

proof fn lemma_tail_bounds(s: Seq<u64>, i: int, j: int)
    requires
        0 <= i <= j,
    ensures
        0 <= tail_sum(s, j) <= tail_sum(s, i),
    decreases j - i,
{
    if i < j {
        lemma_tail_bounds(s, i + 1, j);
    } else {
        lemma_tail_nonneg(s, j);
    }
}

proof fn lemma_tail_nonneg(s: Seq<u64>, i: int)
    ensures
        tail_sum(s, i) >= 0,
    decreases s.len() - i,
{
    if 0 <= i < s.len() {
        lemma_tail_nonneg(s, i + 1);
    }
}

proof fn lemma_area_prefix_range(s: Seq<u64>, total: int, area: int, i: int)
    requires
        0 <= i <= s.len(),
    ensures
        i <= area_prefix(s, total, area, i) <= s.len(),
    decreases s.len() - i,
{
    if i < s.len() && area_ok(s[i] as int, total, area) {
        lemma_area_prefix_range(s, total, area, i + 1);
    }
}

proof fn lemma_rescue_range(s: Seq<u64>, total: int, k: int)
    requires
        0 <= k <= s.len(),
    ensures
        k <= rescue_from(s, total, k) <= s.len(),
        within_budget(tail_sum(s, rescue_from(s, total, k)), total) || rescue_from(s, total, k) == s.len(),
    decreases s.len() - k,
{
    if k < s.len() && !within_budget(tail_sum(s, k), total) {
        lemma_rescue_range(s, total, k + 1);
    }
}

/// Whether an item of `size` out of `total` gets enough of `area` to be drawn on its own.
pub fn fits_area(size: u64, total: u64, area: u64) -> (r: bool)
    ensures
        r == area_ok(size as int, total as int, area as int),
{
    let size = size as u128;
    let total = total as u128;
    let area = area as u128;
    proof {
        assert(size * area <= u64::MAX * u64::MAX) by (nonlinear_arith)
            requires size <= u64::MAX, area <= u64::MAX;
    }
    total > 0 && size * area >= MIN_USEFUL_AREA * total && MIN_AREA_DIVISOR * size >= total
}

/// Partition children (sizes sorted descending, summing to `total_size`) into
/// (kept individually, aggregated into one block), for a container of
/// `container_area`.
///
/// The kept items are the largest ones, a prefix of the input; the aggregated
/// ones are the rest, in order. Every index appears in exactly one of the two,
/// and the aggregated sizes never exceed 8% of the total.
pub fn partition_children(sizes: &Vec<u64>, total_size: u64, container_area: u64) -> (r: (Vec<usize>, Vec<usize>))
    requires
        sorted_desc(sizes@),
        sum_of(sizes@) == total_size,
    ensures
        ({
            let k = kept_count(sizes@, total_size as int, container_area as int);
            &&& 0 <= k <= sizes@.len()
            &&& r.0@ == Seq::new(k as nat, |i: int| i as usize)
            &&& r.1@ == Seq::new((sizes@.len() - k) as nat, |i: int| (k + i) as usize)
            &&& within_budget(tail_sum(sizes@, k), total_size as int)
        }),
        forall|i: usize| i < sizes@.len() ==> (r.0@.contains(i) != r.1@.contains(i)),
        forall|i: usize| r.0@.contains(i) || r.1@.contains(i) ==> i < sizes@.len(),
        sizes@.len() > 0 ==> r.0@.len() > 0,
{
    let n = sizes.len();
    let ghost s = sizes@;
    let total = total_size as u128;
    proof {
        lemma_area_prefix_range(s, total_size as int, container_area as int, 0);
    }

    // Phase 1: the items that pass the area filter form a prefix.
    let mut k: usize = 0;
    while k < n && fits_area(sizes[k], total_size, container_area)
        invariant
            n == s.len(),
            s == sizes@,
            0 <= k <= n,
            area_prefix(s, total_size as int, container_area as int, 0) == area_prefix(s, total_size as int, container_area as int, k as int),
        decreases n - k,
    {
        k = k + 1;
    }
    // Phase 2: the count cap.
    if k > PREFERRED_MAX_ITEMS {
        k = PREFERRED_MAX_ITEMS;
    }
    // Phase 3: the budget rescue.
    let mut agg: u64 = 0;
    let mut j: usize = n;
    proof {
        lemma_tail_bounds(s, 0, n as int);
    }
    while j > k
        invariant
            n == s.len(),
            s == sizes@,
            k <= j <= n,
            agg == tail_sum(s, j as int),
            tail_sum(s, 0) == total_size,
        decreases j,
    {
        proof {
            lemma_tail_bounds(s, 0, j - 1);
        }
        j = j - 1;
        agg = agg + sizes[j];
    }
    proof {
        lemma_rescue_range(s, total_size as int, k as int);
    }
    while k < n && BUDGET_DEN * (agg as u128) > BUDGET_NUM * total
        invariant
            n == s.len(),
            s == sizes@,
            total == total_size as u128,
            k <= n,
            agg == tail_sum(s, k as int),
            rescue_from(s, total_size as int, k as int) == kept_count_base(s, total_size as int, container_area as int),
        decreases n - k,
    {
        proof {
            lemma_tail_nonneg(s, k + 1);
        }
        agg = agg - sizes[k];
        k = k + 1;
    }
    if k == 0 && n > 0 {
        proof {
            lemma_tail_bounds(s, 0, 1);
        }
        k = 1;
    }
    let mut kept: Vec<usize> = Vec::new();
    let mut i: usize = 0;
    while i < k
        invariant
            i <= k,
            kept@ == Seq::new(i as nat, |x: int| x as usize),
        decreases k - i,
    {
        kept.push(i);
        i = i + 1;
    }
    let mut aggregated: Vec<usize> = Vec::new();
    let mut i: usize = k;
    while i < n
        invariant
            k <= i <= n,
            aggregated@ == Seq::new((i - k) as nat, |x: int| (k + x) as usize),
        decreases n - i,
    {
        aggregated.push(i);
        i = i + 1;
    }
    proof {
        assert forall|i: usize| i < s.len() implies (kept@.contains(i) != aggregated@.contains(i)) by {
            if i < k {
                assert(kept@[i as int] == i);
            } else {
                assert(aggregated@[i - k] == i);
            }
        }
    }
    (kept, aggregated)
}

} // verus!
