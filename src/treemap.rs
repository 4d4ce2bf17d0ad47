//! The squarified layout engine: packs weighted items into a rectangle as
//! rows of tiles, choosing the split direction of each row adaptively.
//!
//! Coordinates are whole units (pixels or terminal cells). Each row's tiles
//! are placed at rounded cumulative offsets and the last row takes what is
//! left of the container, so the tiles cover the container exactly.

use vstd::prelude::*;
use vstd::arithmetic::div_mod::{lemma_div_is_ordered, lemma_fundamental_div_mod};

verus! {

/// Threshold used to mark tiny items (for rendering decisions only).
///
/// Layout never enlarges a tile to this size: that would make neighbours overlap.
pub const MIN_VISIBLE_SIZE: u16 = 16;

/// Fixed-point scale of aspect ratios and scores: `RATIO_SCALE` stands for 1.0.
pub const RATIO_SCALE: u128 = 65536;

/// The ratio given for a zero denominator, above every finite one.
pub const RATIO_INF: u128 = 1_000_000_000_000_000_000_000_000_000;

/// Rectangle structure for treemap layout.
#[derive(Clone, Copy, Debug)]
pub struct Rect {
    pub x: u16,
    pub y: u16,
    pub width: u16,
    pub height: u16,
}

pub open spec fn right(r: Rect) -> int {
    r.x + r.width
}

pub open spec fn bottom(r: Rect) -> int {
    r.y + r.height
}

/// The rectangle stays within the coordinate range.
pub open spec fn rect_wf(r: Rect) -> bool {
    right(r) <= u16::MAX && bottom(r) <= u16::MAX
}

pub open spec fn area_of(r: Rect) -> int {
    r.width * r.height
}

/// `a` lies within `c`.
pub open spec fn inside(a: Rect, c: Rect) -> bool {
    c.x <= a.x && right(a) <= right(c) && c.y <= a.y && bottom(a) <= bottom(c)
}

/// `a` and `b` share an area of positive size (touching edges do not count).
pub open spec fn overlaps(a: Rect, b: Rect) -> bool {
    &&& a.x < right(b) && b.x < right(a) && a.x < right(a) && b.x < right(b)
    &&& a.y < bottom(b) && b.y < bottom(a) && a.y < bottom(a) && b.y < bottom(b)
}

/// `num / den` in fixed point, or `RATIO_INF` when `den` is zero.
pub open spec fn ratio_fp(num: int, den: int) -> int {
    if den <= 0 { RATIO_INF as int } else { num * RATIO_SCALE / den }
}

/// Longer side over shorter side, in fixed point; `RATIO_INF` for an empty side.
pub open spec fn aspect_fp(r: Rect) -> int {
    if r.width < 1 || r.height < 1 {
        RATIO_INF as int
    } else if r.width >= r.height {
        ratio_fp(r.width as int, r.height as int)
    } else {
        ratio_fp(r.height as int, r.width as int)
    }
}

pub proof fn lemma_ratio_bound(num: int, den: int)
    requires
        0 <= num <= u64::MAX,
        den > 0,
    ensures
        0 <= ratio_fp(num, den) <= num * RATIO_SCALE,
        ratio_fp(num, den) < RATIO_INF,
{
    assert(0 <= num * RATIO_SCALE <= u64::MAX * RATIO_SCALE) by (nonlinear_arith)
        requires 0 <= num <= u64::MAX;
    assert(num * RATIO_SCALE / den <= num * RATIO_SCALE) by (nonlinear_arith)
        requires num * RATIO_SCALE >= 0, den > 0;
    assert(num * RATIO_SCALE / den >= 0) by (nonlinear_arith)
        requires num * RATIO_SCALE >= 0, den > 0;
}

/// Fixed-point `num / den`.
pub fn ratio(num: u128, den: u128) -> (r: u128)
    requires
        num <= u64::MAX,
    ensures
        r == ratio_fp(num as int, den as int),
        r <= RATIO_INF,
{
    if den == 0 {
        RATIO_INF
    } else {
        proof {
            lemma_ratio_bound(num as int, den as int);
        }
        num * RATIO_SCALE / den
    }
}

impl Rect {
    pub fn new(x: u16, y: u16, width: u16, height: u16) -> (r: Self)
        ensures
            r.x == x,
            r.y == y,
            r.width == width,
            r.height == height,
    {
        Rect { x, y, width, height }
    }

    pub fn area(&self) -> (r: u64)
        ensures
            r == area_of(*self),
    {
        proof {
            assert(self.width * self.height <= u16::MAX * u16::MAX) by (nonlinear_arith)
                requires self.width <= u16::MAX, self.height <= u16::MAX, self.width >= 0, self.height >= 0;
        }
        self.width as u64 * self.height as u64
    }

    pub fn short_side(&self) -> (r: u16)
        ensures
            r == if self.width <= self.height { self.width } else { self.height },
    {
        if self.width <= self.height { self.width } else { self.height }
    }

    /// Longer side over shorter side, in fixed point (`RATIO_SCALE` is 1.0).
    pub fn aspect_ratio(&self) -> (r: u128)
        ensures
            r == aspect_fp(*self),
    {
        if self.width < 1 || self.height < 1 {
            RATIO_INF
        } else if self.width >= self.height {
            ratio(self.width as u128, self.height as u128)
        } else {
            ratio(self.height as u128, self.width as u128)
        }
    }
}

/// Item to be laid out in the treemap.
#[derive(Clone, Copy, Debug)]
pub struct TreemapItem {
    pub size: u64,
    pub index: usize,
}

/// Result of the treemap layout calculation.
#[derive(Clone, Copy, Debug)]
pub struct LayoutRect {
    pub rect: Rect,
    pub index: usize,
    /// True if the item is below the minimum visible size.
    pub is_tiny: bool,
}

/// Sum of item sizes in `s[..k]`.
pub open spec fn size_prefix(s: Seq<TreemapItem>, k: int) -> int
    decreases k,
{
    if k <= 0 || k > s.len() { 0 } else { size_prefix(s, k - 1) + s[k - 1].size }
}

pub open spec fn item_total(s: Seq<TreemapItem>) -> int {
    size_prefix(s, s.len() as int)
}

/// Sum of the areas in `s[a..b]`.
pub open spec fn row_sum(s: Seq<(usize, u64)>, a: int, b: int) -> int
    decreases b - a,
{
    if b <= a || a < 0 || b > s.len() { 0 } else { row_sum(s, a, b - 1) + s[b - 1].1 }
}

pub proof fn lemma_row_sum_split(s: Seq<(usize, u64)>, a: int, m: int, b: int)
    requires
        0 <= a <= m <= b <= s.len(),
    ensures
        row_sum(s, a, b) == row_sum(s, a, m) + row_sum(s, m, b),
        row_sum(s, a, b) >= row_sum(s, a, m) >= 0,
    decreases b - m,
{
    if m < b {
        lemma_row_sum_split(s, a, m, b - 1);
    } else {
        lemma_row_sum_nonneg(s, a, m);
    }
}

pub proof fn lemma_row_sum_nonneg(s: Seq<(usize, u64)>, a: int, b: int)
    ensures
        row_sum(s, a, b) >= 0,
    decreases b - a,
{
    if !(b <= a || a < 0 || b > s.len()) {
        lemma_row_sum_nonneg(s, a, b - 1);
    }
}

proof fn lemma_row_sum_frame(s: Seq<(usize, u64)>, t: Seq<(usize, u64)>, b: int)
    requires
        0 <= b <= s.len(),
        b <= t.len(),
        forall|i: int| 0 <= i < b ==> s[i] == t[i],
    ensures
        row_sum(s, 0, b) == row_sum(t, 0, b),
    decreases b,
{
    if b > 0 {
        lemma_row_sum_frame(s, t, b - 1);
    }
}

proof fn lemma_row_sum_insert(s: Seq<(usize, u64)>, p: int, e: (usize, u64))
    requires
        0 <= p <= s.len(),
    ensures
        row_sum(s.insert(p, e), 0, s.len() + 1 as int) == row_sum(s, 0, s.len() as int) + e.1,
    decreases s.len(),
{
    let t = s.insert(p, e);
    let n = s.len() as int;
    if p == n {
        lemma_row_sum_frame(s, t, n);
    } else {
        let d = s.drop_last();
        assert(t.drop_last() =~= d.insert(p, e));
        lemma_row_sum_insert(d, p, e);
        lemma_row_sum_frame(t, t.drop_last(), n);
        lemma_row_sum_frame(s, d, n - 1);
        assert(t[n] == s[n - 1]);
    }
}

pub open spec fn sorted_by_area(s: Seq<(usize, u64)>) -> bool {
    forall|i: int, j: int| 0 <= i <= j < s.len() ==> s[i].1 >= s[j].1
}

/// Where an item of area `v` goes in a descending list: after every item at
/// least as large, from index `i` on.
pub open spec fn insert_pos(s: Seq<(usize, u64)>, v: u64, i: int) -> int
    decreases s.len() - i,
{
    if i < 0 || i >= s.len() || s[i].1 < v { i } else { insert_pos(s, v, i + 1) }
}

/// Insertion sort by area, largest first; equal areas keep their order.
pub open spec fn sort_desc(s: Seq<(usize, u64)>) -> Seq<(usize, u64)>
    decreases s.len(),
{
    if s.len() == 0 {
        s
    } else {
        let t = sort_desc(s.drop_last());
        t.insert(insert_pos(t, s.last().1, 0), s.last())
    }
}

proof fn lemma_insert_pos_range(s: Seq<(usize, u64)>, v: u64, i: int)
    requires
        0 <= i <= s.len(),
    ensures
        i <= insert_pos(s, v, i) <= s.len(),
    decreases s.len() - i,
{
    if i < s.len() && s[i].1 >= v {
        lemma_insert_pos_range(s, v, i + 1);
    }
}

proof fn lemma_sort_desc_len(s: Seq<(usize, u64)>)
    ensures
        sort_desc(s).len() == s.len(),
    decreases s.len(),
{
    if s.len() > 0 {
        lemma_sort_desc_len(s.drop_last());
        lemma_insert_pos_range(sort_desc(s.drop_last()), s.last().1, 0);
    }
}

/// Sorts by area, largest first; equal areas keep their order.
pub(crate) fn sort_by_area_desc(v: Vec<(usize, u64)>) -> (r: Vec<(usize, u64)>)
    ensures
        sorted_by_area(r@),
        r@.to_multiset() == v@.to_multiset(),
        r@.len() == v@.len(),
        row_sum(r@, 0, r@.len() as int) == row_sum(v@, 0, v@.len() as int),
        r@ == sort_desc(v@),
{
    let mut out: Vec<(usize, u64)> = Vec::new();
    let mut i: usize = 0;
    assert(out@ =~= v@.take(0));
    assert(sort_desc(v@.take(0)) == v@.take(0));
    while i < v.len()
        invariant
            i <= v@.len(),
            sorted_by_area(out@),
            out@.to_multiset() == v@.take(i as int).to_multiset(),
            out@.len() == i,
            row_sum(out@, 0, i as int) == row_sum(v@, 0, i as int),
            out@ == sort_desc(v@.take(i as int)),
        decreases v@.len() - i,
    {
        let e = v[i];
        let mut p: usize = 0;
        while p < out.len() && out[p].1 >= e.1
            invariant
                p <= out@.len(),
                forall|j: int| 0 <= j < p ==> out@[j].1 >= e.1,
                insert_pos(out@, e.1, 0) == insert_pos(out@, e.1, p as int),
            decreases out@.len() - p,
        {
            p = p + 1;
        }
        let ghost before = out@;
        out.insert(p, e);
        proof {
            assert(out@ == before.insert(p as int, e));
            vstd::seq_lib::to_multiset_insert(before, p as int, e);
            assert(v@.take(i + 1) =~= v@.take(i as int).push(e));
            vstd::seq_lib::to_multiset_build(v@.take(i as int), e);
            lemma_row_sum_insert(before, p as int, e);
            assert(v@.take(i + 1).drop_last() =~= v@.take(i as int));
            assert(v@.take(i + 1).last() == e);
            assert forall|a: int, b: int| 0 <= a <= b < out@.len() implies out@[a].1 >= out@[b].1 by {
                if p < before.len() {
                    assert(before[p as int].1 < e.1);
                }
            }
        }
        i = i + 1;
    }
    assert(v@.take(v@.len() as int) =~= v@);
    out
}


/// Largest area a valid rectangle can have.
pub const MAX_AREA: u128 = 4294836225;

/// Sum of the tile areas in `s[a..b]`.
pub open spec fn rect_areas(s: Seq<LayoutRect>, a: int, b: int) -> int
    decreases b - a,
{
    if b <= a || a < 0 || b > s.len() { 0 } else { rect_areas(s, a, b - 1) + area_of(s[b - 1].rect) }
}

proof fn lemma_rect_areas_frame(s: Seq<LayoutRect>, t: Seq<LayoutRect>, a: int, b: int)
    requires
        0 <= a <= b <= s.len(),
        b <= t.len(),
        forall|i: int| a <= i < b ==> s[i] == t[i],
    ensures
        rect_areas(s, a, b) == rect_areas(t, a, b),
    decreases b - a,
{
    if a < b {
        lemma_rect_areas_frame(s, t, a, b - 1);
    }
}

proof fn lemma_rect_areas_split(s: Seq<LayoutRect>, a: int, m: int, b: int)
    requires
        0 <= a <= m <= b <= s.len(),
    ensures
        rect_areas(s, a, b) == rect_areas(s, a, m) + rect_areas(s, m, b),
    decreases b - m,
{
    if m < b {
        lemma_rect_areas_split(s, a, m, b - 1);
    }
}

/// The tiny flag of a tile: either side below `MIN_VISIBLE_SIZE`.
pub open spec fn tiny(r: Rect) -> bool {
    r.width < MIN_VISIBLE_SIZE || r.height < MIN_VISIBLE_SIZE
}

/// Offset along a row of length `len` after `c` of the row's total `t`.
pub open spec fn offset(c: int, len: int, t: int) -> int {
    if t > 0 { c * len / t } else { 0 }
}

/// The tile of the `i`-th item of the row `s[a..b]` laid in `strip` along its
/// width (`horizontal`) or height: it starts at the item's rounded cumulative
/// offset and ends at the next one; the last tile ends with the strip.
pub open spec fn row_tile(s: Seq<(usize, u64)>, a: int, b: int, strip: Rect, horizontal: bool, i: int) -> LayoutRect {
    let t = row_sum(s, a, b);
    let len: int = if horizontal { strip.width as int } else { strip.height as int };
    let pos = offset(row_sum(s, a, a + i), len, t);
    let next = if a + i + 1 == b { len } else { offset(row_sum(s, a, a + i + 1), len, t) };
    let rect = if horizontal {
        Rect { x: (strip.x + pos) as u16, y: strip.y, width: (next - pos) as u16, height: strip.height }
    } else {
        Rect { x: strip.x, y: (strip.y + pos) as u16, width: strip.width, height: (next - pos) as u16 }
    };
    LayoutRect { rect, index: s[a + i].0, is_tiny: tiny(rect) }
}

/// The tiles of the row `s[a..b]` laid in `strip`.
pub open spec fn row_tiles(s: Seq<(usize, u64)>, a: int, b: int, strip: Rect, horizontal: bool) -> Seq<LayoutRect> {
    Seq::new((b - a) as nat, |i: int| row_tile(s, a, b, strip, horizontal, i))
}

/// Breadth of a row holding `t` of area along the width (`horizontal`) or the
/// height of `r`: its area over its length, rounded, at most the other side.
pub open spec fn row_breadth(r: Rect, t: int, horizontal: bool) -> int {
    let len: int = if horizontal { r.width as int } else { r.height as int };
    let most: int = if horizontal { r.height as int } else { r.width as int };
    if t > 0 && len > 0 {
        let b = (t + len / 2) / len;
        if b <= most { b } else { most }
    } else {
        0
    }
}

/// The strip that a row takes from `r`.
pub open spec fn strip_of(r: Rect, t: int, horizontal: bool) -> Rect {
    let b = row_breadth(r, t, horizontal);
    if horizontal {
        Rect { x: r.x, y: r.y, width: r.width, height: b as u16 }
    } else {
        Rect { x: r.x, y: r.y, width: b as u16, height: r.height }
    }
}

/// What is left of `r` after that strip.
pub open spec fn rest_of(r: Rect, t: int, horizontal: bool) -> Rect {
    let b = row_breadth(r, t, horizontal);
    if horizontal {
        Rect { x: r.x, y: (r.y + b) as u16, width: r.width, height: (r.height - b) as u16 }
    } else {
        Rect { x: (r.x + b) as u16, y: r.y, width: (r.width - b) as u16, height: r.height }
    }
}

/// A tile inside a region that `a` does not overlap does not overlap `a`.
pub proof fn lemma_inside_disjoint(a: Rect, region: Rect, b: Rect)
    requires
        inside(b, region),
        !overlaps(a, region),
    ensures
        !overlaps(a, b),
        !overlaps(b, a),
{
}

/// The remaining container after placing a row of total area `t`, and the strip the row takes.
fn compute_remaining(r: Rect, t: u128, horizontal: bool) -> (res: (Rect, Rect))
    requires
        rect_wf(r),
        t <= MAX_AREA,
    ensures
        res.0 == strip_of(r, t as int, horizontal),
        res.1 == rest_of(r, t as int, horizontal),
        rect_wf(res.0),
        rect_wf(res.1),
        inside(res.0, r),
        inside(res.1, r),
        !overlaps(res.0, res.1),
        area_of(res.0) + area_of(res.1) == area_of(r),
{
    let len: u128 = if horizontal { r.width as u128 } else { r.height as u128 };
    let most: u128 = if horizontal { r.height as u128 } else { r.width as u128 };
    let b: u128 = if t > 0 && len > 0 {
        let q = (t + len / 2) / len;
        if q <= most { q } else { most }
    } else {
        0
    };
    assert(b == row_breadth(r, t as int, horizontal));
    let b = b as u16;
    if horizontal {
        let strip = Rect { x: r.x, y: r.y, width: r.width, height: b };
        let rest = Rect { x: r.x, y: r.y + b, width: r.width, height: r.height - b };
        proof {
            assert(r.width * r.height == r.width * b + r.width * (r.height - b)) by (nonlinear_arith);
        }
        (strip, rest)
    } else {
        let strip = Rect { x: r.x, y: r.y, width: b, height: r.height };
        let rest = Rect { x: r.x + b, y: r.y, width: r.width - b, height: r.height };
        proof {
            assert(r.width * r.height == b * r.height + (r.width - b) * r.height) by (nonlinear_arith);
        }
        (strip, rest)
    }
}

/// Place the items `s[a..b]`, whose areas sum to `t`, into `strip` as one row
/// along its width (`horizontal`) or height. Each tile starts where the
/// previous one ended; the last one closes the row exactly.
fn emit_row(out: &mut Vec<LayoutRect>, s: &Vec<(usize, u64)>, a: usize, b: usize, t: u128, strip: Rect, horizontal: bool)
    requires
        a < b <= s@.len(),
        t == row_sum(s@, a as int, b as int),
        t <= MAX_AREA,
        rect_wf(strip),
    ensures
        final(out)@.len() == old(out)@.len() + (b - a),
        forall|k: int| 0 <= k < old(out)@.len() ==> final(out)@[k] == old(out)@[k],
        forall|k: int| #![trigger final(out)@[k]] old(out)@.len() <= k < final(out)@.len() ==> {
            &&& inside(final(out)@[k].rect, strip)
            &&& final(out)@[k].index == s@[a + k - old(out)@.len()].0
            &&& final(out)@[k].is_tiny == tiny(final(out)@[k].rect)
        },
        forall|j: int, k: int| old(out)@.len() <= j < final(out)@.len() && old(out)@.len() <= k < final(out)@.len() && j != k
            ==> !overlaps(#[trigger] final(out)@[j].rect, #[trigger] final(out)@[k].rect),
        rect_areas(final(out)@, old(out)@.len() as int, final(out)@.len() as int) == area_of(strip),
        final(out)@ == old(out)@ + row_tiles(s@, a as int, b as int, strip, horizontal),
{
    let len: u128 = if horizontal { strip.width as u128 } else { strip.height as u128 };
    let breadth: u128 = if horizontal { strip.height as u128 } else { strip.width as u128 };
    let start = out.len();
    let mut cum: u128 = 0;
    let mut pos: u128 = 0;
    let mut k: usize = a;
    while k < b
        invariant
            a <= k <= b,
            b <= s@.len(),
            t == row_sum(s@, a as int, b as int),
            t <= MAX_AREA,
            rect_wf(strip),
            len == if horizontal { strip.width as u128 } else { strip.height as u128 },
            breadth == if horizontal { strip.height as u128 } else { strip.width as u128 },
            cum == row_sum(s@, a as int, k as int),
            k < b ==> pos == offset(cum as int, len as int, t as int),
            k == b ==> pos == len,
            pos <= len,
            out@.len() == start + (k - a),
            start == old(out)@.len(),
            forall|i: int| 0 <= i < start ==> out@[i] == old(out)@[i],
            forall|i: int| #![trigger out@[i]] start <= i < out@.len() ==> {
                &&& inside(out@[i].rect, strip)
                &&& out@[i].index == s@[a + i - start].0
                &&& out@[i].is_tiny == tiny(out@[i].rect)
                &&& horizontal ==> right(out@[i].rect) <= strip.x + pos
                &&& !horizontal ==> bottom(out@[i].rect) <= strip.y + pos
            },
            forall|i: int, j: int| start <= i < out@.len() && start <= j < out@.len() && i != j
                ==> !overlaps(#[trigger] out@[i].rect, #[trigger] out@[j].rect),
            rect_areas(out@, start as int, out@.len() as int) == pos * breadth,
            forall|i: int| start <= i < out@.len() ==> #[trigger] out@[i] == row_tile(s@, a as int, b as int, strip, horizontal, i - start),
        decreases b - k,
    {
        proof {
            lemma_row_sum_split(s@, a as int, k as int, b as int);
            lemma_row_sum_split(s@, a as int, k + 1, b as int);
            lemma_row_sum_split(s@, k as int, k + 1, b as int);
        }
        let size = s[k].1 as u128;
        let next_cum = cum + size;
        let next: u128 = if k + 1 == b {
            len
        } else if t > 0 {
            proof {
                let ti = t as int;
                let li = len as int;
                let ci = cum as int;
                let ni = next_cum as int;
                assert(ni * li <= ti * li) by (nonlinear_arith)
                    requires ni <= ti, li >= 0;
                assert(ci * li <= ni * li) by (nonlinear_arith)
                    requires ci <= ni, li >= 0;
                lemma_div_is_ordered(ci * li, ni * li, ti);
                lemma_div_is_ordered(ni * li, ti * li, ti);
                assert(ti * li / ti == li) by (nonlinear_arith)
                    requires ti > 0;
                assert(ti * li <= MAX_AREA * 65535) by (nonlinear_arith)
                    requires 0 <= ti <= MAX_AREA, 0 <= li <= 65535;
            }
            next_cum * len / t
        } else {
            0
        };
        assert(pos <= next <= len);
        let ghost prev = out@;
        let piece = (next - pos) as u16;
        let rect = if horizontal {
            Rect { x: strip.x + pos as u16, y: strip.y, width: piece, height: strip.height }
        } else {
            Rect { x: strip.x, y: strip.y + pos as u16, width: strip.width, height: piece }
        };
        let is_tiny = rect.width < MIN_VISIBLE_SIZE || rect.height < MIN_VISIBLE_SIZE;
        out.push(LayoutRect { rect, index: s[k].0, is_tiny });
        proof {
            assert(out@[out@.len() - 1] == row_tile(s@, a as int, b as int, strip, horizontal, k - a));
            assert forall|i: int| start <= i < out@.len() implies #[trigger] out@[i] == row_tile(s@, a as int, b as int, strip, horizontal, i - start) by {
                if i < out@.len() - 1 {
                    assert(out@[i] == prev[i]);
                }
            }
            assert(area_of(rect) == (next - pos) * breadth) by (nonlinear_arith)
                requires area_of(rect) == rect.width * rect.height,
                    horizontal ==> rect.width == next - pos && rect.height == breadth,
                    !horizontal ==> rect.height == next - pos && rect.width == breadth;
            assert((next - pos) * breadth + pos * breadth == next * breadth) by (nonlinear_arith);
            lemma_rect_areas_frame(prev, out@, start as int, prev.len() as int);
            assert forall|i: int| #![trigger out@[i]] start <= i < out@.len() implies {
                &&& inside(out@[i].rect, strip)
                &&& out@[i].index == s@[a + i - start].0
                &&& out@[i].is_tiny == tiny(out@[i].rect)
                &&& horizontal ==> right(out@[i].rect) <= strip.x + next
                &&& !horizontal ==> bottom(out@[i].rect) <= strip.y + next
            } by {
                if i < out@.len() - 1 {
                    assert(out@[i] == prev[i]);
                }
            }
            assert forall|i: int, j: int| start <= i < out@.len() && start <= j < out@.len() && i != j
                implies !overlaps(#[trigger] out@[i].rect, #[trigger] out@[j].rect) by {
                if i < out@.len() - 1 {
                    assert(out@[i] == prev[i]);
                }
                if j < out@.len() - 1 {
                    assert(out@[j] == prev[j]);
                }
            }
        }
        cum = next_cum;
        pos = next;
        k = k + 1;
    }
    proof {
        assert(out@ =~= old(out)@ + row_tiles(s@, a as int, b as int, strip, horizontal));
        assert(len * breadth == area_of(strip)) by (nonlinear_arith)
            requires
                horizontal ==> len == strip.width && breadth == strip.height,
                !horizontal ==> len == strip.height && breadth == strip.width;
    }
}


pub open spec fn short_of(r: Rect) -> int {
    if r.width <= r.height { r.width as int } else { r.height as int }
}

/// The worst aspect ratio of a row of total area `t`, largest item `mx` and
/// smallest `mn`, against a short side `w`:
/// `max(w² · mx / t², t² / (w² · mn))`, in fixed point.
pub open spec fn worst_fp(t: int, w: int, mx: int, mn: int) -> int {
    let a1 = ratio_fp(w * w * mx, t * t);
    let a2 = ratio_fp(t * t, w * w * mn);
    if a1 >= a2 { a1 } else { a2 }
}

/// The worst aspect ratio of the row `s[a..b]` in `r`. Rows are taken from a
/// list sorted largest first, so `s[a]` is the row's largest item and
/// `s[b - 1]` its smallest.
pub open spec fn row_worst(s: Seq<(usize, u64)>, a: int, b: int, r: Rect) -> int {
    worst_fp(row_sum(s, a, b), short_of(r), s[a].1 as int, s[b - 1].1 as int)
}

proof fn lemma_item_bound(s: Seq<(usize, u64)>, a: int, k: int, b: int)
    requires
        0 <= a <= k < b <= s.len(),
    ensures
        s[k].1 <= row_sum(s, a, b),
{
    lemma_row_sum_split(s, a, k, b);
    lemma_row_sum_split(s, k, k + 1, b);
    lemma_row_sum_nonneg(s, a, k);
    lemma_row_sum_nonneg(s, k + 1, b);
    assert(row_sum(s, k, k) == 0);
    assert(row_sum(s, k, k + 1) == s[k].1);
}

proof fn lemma_square_bound(x: int, y: int)
    requires
        0 <= x <= 65535,
        0 <= y <= MAX_AREA,
    ensures
        0 <= x * x * y <= u64::MAX,
        0 <= x * x <= MAX_AREA,
{
    assert(0 <= x * x <= 65535 * 65535) by (nonlinear_arith)
        requires 0 <= x <= 65535;
    assert(0 <= x * x * y <= MAX_AREA * MAX_AREA) by (nonlinear_arith)
        requires 0 <= x * x <= MAX_AREA, 0 <= y <= MAX_AREA;
}

proof fn lemma_area_square_bound(t: int)
    requires
        0 <= t <= MAX_AREA,
    ensures
        0 <= t * t <= u64::MAX,
{
    assert(0 <= t * t <= MAX_AREA * MAX_AREA) by (nonlinear_arith)
        requires 0 <= t <= MAX_AREA;
}

/// Worst aspect ratio of the row `s[a..b]` (areas summing to `t`) in `container`.
fn worst_aspect_ratio(s: &Vec<(usize, u64)>, a: usize, b: usize, t: u128, container: Rect) -> (r: u128)
    requires
        sorted_by_area(s@),
        a < b <= s@.len(),
        t == row_sum(s@, a as int, b as int),
        t <= MAX_AREA,
    ensures
        r == row_worst(s@, a as int, b as int, container),
        r <= RATIO_INF,
{
    proof {
        lemma_item_bound(s@, a as int, a as int, b as int);
        lemma_item_bound(s@, a as int, b - 1, b as int);
    }
    let w = container.short_side() as u128;
    let mx = s[a].1 as u128;
    let mn = s[b - 1].1 as u128;
    proof {
        lemma_square_bound(w as int, mx as int);
        lemma_square_bound(w as int, mn as int);
        lemma_area_square_bound(t as int);
    }
    let a1 = ratio(w * w * mx, t * t);
    let a2 = ratio(t * t, w * w * mn);
    if a1 >= a2 { a1 } else { a2 }
}

/// Aspect ratio of one item of `size` in a row of total `t` and length `len`,
/// in fixed point; 1.0 for an item or row of no extent.
pub open spec fn item_aspect_fp(size: int, t: int, len: int) -> int {
    if size > 0 && t > 0 && len > 0 {
        let p = size * len * len;
        let q = t * t;
        if p >= q { ratio_fp(p, q) } else { ratio_fp(q, p) }
    } else {
        RATIO_SCALE as int
    }
}

/// The worst item aspect ratio of the row `s[a..b]`, at least 1.0.
pub open spec fn worst_item_fp(s: Seq<(usize, u64)>, a: int, b: int, t: int, len: int) -> int
    decreases b - a,
{
    if b <= a {
        RATIO_SCALE as int
    } else {
        let w = worst_item_fp(s, a, b - 1, t, len);
        let c = item_aspect_fp(s[b - 1].1 as int, t, len);
        if c > w { c } else { w }
    }
}

/// Aspect ratio of a remaining container, counted as 1.0 when it is empty.
pub open spec fn rest_aspect_fp(q: Rect) -> int {
    if aspect_fp(q) == RATIO_INF { RATIO_SCALE as int } else { aspect_fp(q) }
}

/// Score of placing the row `s[a..b]` along the width (`horizontal`) or the
/// height of `r`: its worst item aspect ratio plus twice the aspect ratio of
/// the container left for the next rows. Lower is better.
pub open spec fn direction_score_fp(s: Seq<(usize, u64)>, a: int, b: int, r: Rect, t: int, horizontal: bool) -> int {
    let len: int = if horizontal { r.width as int } else { r.height as int };
    worst_item_fp(s, a, b, t, len) + 2 * rest_aspect_fp(rest_of(r, t, horizontal))
}

/// Whether the row goes along the width: the lower score wins, and a tie
/// goes to the horizontal split.
pub open spec fn picks_horizontal(s: Seq<(usize, u64)>, a: int, b: int, r: Rect, t: int) -> bool {
    if t <= 0 || r.width == 0 || r.height == 0 {
        r.width >= r.height
    } else {
        direction_score_fp(s, a, b, r, t, true) <= direction_score_fp(s, a, b, r, t, false)
    }
}

fn direction_score(s: &Vec<(usize, u64)>, a: usize, b: usize, r: Rect, t: u128, horizontal: bool) -> (res: u128)
    requires
        a < b <= s@.len(),
        t == row_sum(s@, a as int, b as int),
        t <= MAX_AREA,
        rect_wf(r),
    ensures
        res == direction_score_fp(s@, a as int, b as int, r, t as int, horizontal),
{
    let len: u128 = if horizontal { r.width as u128 } else { r.height as u128 };
    let mut worst: u128 = RATIO_SCALE;
    let mut k: usize = a;
    while k < b
        invariant
            a <= k <= b <= s@.len(),
            t == row_sum(s@, a as int, b as int),
            t <= MAX_AREA,
            len <= 65535,
            len == if horizontal { r.width as u128 } else { r.height as u128 },
            worst == worst_item_fp(s@, a as int, k as int, t as int, len as int),
            worst <= RATIO_INF,
        decreases b - k,
    {
        proof {
            lemma_item_bound(s@, a as int, k as int, b as int);
        }
        let size = s[k].1 as u128;
        let c: u128 = if size > 0 && t > 0 && len > 0 {
            proof {
                lemma_square_bound(len as int, size as int);
                lemma_area_square_bound(t as int);
                assert(size * len * len == len * len * size) by (nonlinear_arith);
            }
            let p = len * len * size;
            let q = t * t;
            if p >= q { ratio(p, q) } else { ratio(q, p) }
        } else {
            RATIO_SCALE
        };
        if c > worst {
            worst = c;
        }
        k = k + 1;
    }
    let (_, rest) = compute_remaining(r, t, horizontal);
    let ra = rest.aspect_ratio();
    let ra = if ra == RATIO_INF { RATIO_SCALE } else { ra };
    worst + 2 * ra
}

/// Try both split directions; true for horizontal.
fn pick_direction(s: &Vec<(usize, u64)>, a: usize, b: usize, r: Rect, t: u128) -> (res: bool)
    requires
        a < b <= s@.len(),
        t == row_sum(s@, a as int, b as int),
        t <= MAX_AREA,
        rect_wf(r),
    ensures
        res == picks_horizontal(s@, a as int, b as int, r, t as int),
{
    if t == 0 || r.width == 0 || r.height == 0 {
        return r.width >= r.height;
    }
    let score_h = direction_score(s, a, b, r, t, true);
    let score_v = direction_score(s, a, b, r, t, false);
    score_h <= score_v
}


proof fn lemma_size_prefix_mono(s: Seq<TreemapItem>, i: int, j: int)
    requires
        0 <= i <= j <= s.len(),
    ensures
        size_prefix(s, i) <= size_prefix(s, j),
        i < j ==> s[i].size <= size_prefix(s, j),
    decreases j - i,
{
    if i < j {
        lemma_size_prefix_mono(s, i, j - 1);
        if i < j - 1 {
            lemma_size_prefix_mono(s, i + 1, j - 1);
        } else {
            lemma_size_prefix_nonneg(s, i);
        }
    }
}

proof fn lemma_size_prefix_nonneg(s: Seq<TreemapItem>, i: int)
    ensures
        size_prefix(s, i) >= 0,
    decreases i,
{
    if i > 0 && i <= s.len() {
        lemma_size_prefix_nonneg(s, i - 1);
    }
}

/// `size / total` of `area`, rounded down.
pub open spec fn scaled(size: int, area: int, total: int) -> int {
    size * area / total
}

/// Scale item sizes to areas of a container of `area`: `size * area / total`,
/// rounded down, keeping each item's index.
fn normalize(items: &Vec<TreemapItem>, total: u128, area: u128) -> (r: Vec<(usize, u64)>)
    requires
        total == item_total(items@),
        total > 0,
        area <= MAX_AREA,
    ensures
        r@.len() == items@.len(),
        forall|k: int| 0 <= k < r@.len() ==> #[trigger] r@[k] == (items@[k].index, scaled(items@[k].size as int, area as int, total as int) as u64),
        row_sum(r@, 0, r@.len() as int) <= area,
{
    let n = items.len();
    let mut r: Vec<(usize, u64)> = Vec::new();
    let mut i: usize = 0;
    while i < n
        invariant
            n == items@.len(),
            i <= n,
            total == item_total(items@),
            total > 0,
            area <= MAX_AREA,
            r@.len() == i,
            forall|k: int| 0 <= k < i ==> #[trigger] r@[k] == (items@[k].index, scaled(items@[k].size as int, area as int, total as int) as u64),
            row_sum(r@, 0, i as int) * total <= area * size_prefix(items@, i as int),
            row_sum(r@, 0, i as int) >= 0,
        decreases n - i,
    {
        let size = items[i].size as u128;
        proof {
            lemma_size_prefix_mono(items@, i as int, n as int);
            assert(size * area <= total * area) by (nonlinear_arith)
                requires size <= total, area >= 0;
            assert(size * area <= u64::MAX * MAX_AREA) by (nonlinear_arith)
                requires size <= u64::MAX, area <= MAX_AREA, area >= 0, size >= 0;
            lemma_div_is_ordered((size * area) as int, (total * area) as int, total as int);
            assert((total * area) as int / total as int == area) by (nonlinear_arith)
                requires total > 0;
            lemma_fundamental_div_mod((size * area) as int, total as int);
        }
        let v = size * area / total;
        let ghost before = r@;
        r.push((items[i].index, v as u64));
        proof {
            lemma_row_sum_frame(before, r@, i as int);
            let rs = row_sum(before, 0, i as int);
            let sp = size_prefix(items@, i as int);
            let vi = v as int;
            let ti = total as int;
            let pi = (size * area) as int;
            assert(vi * ti <= pi) by (nonlinear_arith)
                requires vi == pi / ti, ti > 0, pi >= 0;
            assert((rs + v) * total <= area * (sp + size)) by (nonlinear_arith)
                requires rs * total <= area * sp, v * total <= size * area;
        }
        i = i + 1;
    }
    proof {
        let rs = row_sum(r@, 0, n as int);
        assert(rs <= area) by (nonlinear_arith)
            requires rs * total <= area * total, total > 0;
    }
    r
}

/// End of the row that starts at `start` and holds `s[start..end]` so far:
/// the next item joins while the worst aspect ratio does not get worse.
pub open spec fn row_end(s: Seq<(usize, u64)>, start: int, end: int, rest: Rect) -> int
    decreases s.len() - end,
{
    if end <= start || end >= s.len() {
        end
    } else if row_worst(s, start, end + 1, rest) > row_worst(s, start, end, rest) {
        end
    } else {
        row_end(s, start, end + 1, rest)
    }
}

proof fn lemma_row_end_range(s: Seq<(usize, u64)>, start: int, end: int, rest: Rect)
    requires
        start < end <= s.len(),
    ensures
        end <= row_end(s, start, end, rest) <= s.len(),
    decreases s.len() - end,
{
    if end < s.len() && row_worst(s, start, end + 1, rest) <= row_worst(s, start, end, rest) {
        lemma_row_end_range(s, start, end + 1, rest);
    }
}

/// The tiles of the (descending) items `s[start..]` in what is left of the
/// container, `rest`: one row at a time, in the direction the scores pick;
/// the last row fills `rest`.
pub open spec fn tiles(s: Seq<(usize, u64)>, start: int, rest: Rect) -> Seq<LayoutRect>
    decreases s.len() - start,
{
    if start < 0 || start >= s.len() {
        Seq::empty()
    } else {
        let end = row_end(s, start, start + 1, rest);
        let t = row_sum(s, start, end);
        if end <= start {
            Seq::empty()
        } else if end >= s.len() {
            row_tiles(s, start, s.len() as int, rest, rest.width >= rest.height)
        } else {
            let h = picks_horizontal(s, start, end, rest, t);
            row_tiles(s, start, end, strip_of(rest, t, h), h) + tiles(s, end, rest_of(rest, t, h))
        }
    }
}

/// The tiles in `out` belong to the first items of `s`, lie in `container`
/// and clear of `rest`, and do not overlap one another.
pub open spec fn placed(out: Seq<LayoutRect>, s: Seq<(usize, u64)>, container: Rect, rest: Rect) -> bool {
    &&& forall|k: int| #![trigger out[k]] 0 <= k < out.len() ==> {
        &&& out[k].index == s[k].0
        &&& out[k].is_tiny == tiny(out[k].rect)
        &&& inside(out[k].rect, container)
        &&& !overlaps(out[k].rect, rest)
    }
    &&& forall|j: int, k: int| 0 <= j < out.len() && 0 <= k < out.len() && j != k
        ==> !overlaps(#[trigger] out[j].rect, #[trigger] out[k].rect)
}

/// Appending a row of tiles laid in `strip`, a part of `old_rest`, keeps the
/// tiles placed, now clear of `new_rest`, the other part.
proof fn lemma_row_placed(
    prev: Seq<LayoutRect>,
    out: Seq<LayoutRect>,
    s: Seq<(usize, u64)>,
    container: Rect,
    old_rest: Rect,
    strip: Rect,
    new_rest: Rect,
)
    requires
        placed(prev, s, container, old_rest),
        prev.len() <= out.len(),
        forall|k: int| 0 <= k < prev.len() ==> out[k] == prev[k],
        forall|k: int| #![trigger out[k]] prev.len() <= k < out.len() ==> {
            &&& inside(out[k].rect, strip)
            &&& out[k].index == s[k].0
            &&& out[k].is_tiny == tiny(out[k].rect)
        },
        forall|j: int, k: int| prev.len() <= j < out.len() && prev.len() <= k < out.len() && j != k
            ==> !overlaps(#[trigger] out[j].rect, #[trigger] out[k].rect),
        inside(old_rest, container),
        inside(strip, old_rest),
        inside(new_rest, old_rest),
        !overlaps(strip, new_rest),
    ensures
        placed(out, s, container, new_rest),
{
    let start = prev.len() as int;
    assert forall|k: int| #![trigger out[k]] 0 <= k < out.len() implies {
        &&& out[k].index == s[k].0
        &&& out[k].is_tiny == tiny(out[k].rect)
        &&& inside(out[k].rect, container)
        &&& !overlaps(out[k].rect, new_rest)
    } by {
        if k < start {
            assert(out[k] == prev[k]);
            lemma_inside_disjoint(out[k].rect, old_rest, new_rest);
        } else {
            lemma_inside_disjoint(new_rest, strip, out[k].rect);
        }
    }
    assert forall|j: int, k: int| 0 <= j < out.len() && 0 <= k < out.len() && j != k
        implies !overlaps(#[trigger] out[j].rect, #[trigger] out[k].rect) by {
        if j < start && k < start {
            assert(out[j] == prev[j]);
            assert(out[k] == prev[k]);
        } else if j < start {
            assert(out[j] == prev[j]);
            lemma_inside_disjoint(out[j].rect, old_rest, out[k].rect);
        } else if k < start {
            assert(out[k] == prev[k]);
            lemma_inside_disjoint(out[k].rect, old_rest, out[j].rect);
        }
    }
}

/// Place the (descending) items of `s` in `container`, row by row.
#[verifier::rlimit(60)]
fn squarify(sorted: &Vec<(usize, u64)>, container: Rect) -> (out: Vec<LayoutRect>)
    requires
        sorted_by_area(sorted@),
        rect_wf(container),
        sorted@.len() > 0,
        row_sum(sorted@, 0, sorted@.len() as int) <= MAX_AREA,
    ensures
        out@.len() == sorted@.len(),
        placed(out@, sorted@, container, Rect { x: container.x, y: container.y, width: 0, height: 0 }),
        rect_areas(out@, 0, out@.len() as int) == area_of(container),
        out@ == tiles(sorted@, 0, container),
{
    let n = sorted.len();
    let mut out: Vec<LayoutRect> = Vec::new();
    let mut rest = container;
    let mut start: usize = 0;
    assert(out@ + tiles(sorted@, 0, container) =~= tiles(sorted@, 0, container));
    while start < n
        invariant
            n == sorted@.len(),
            sorted_by_area(sorted@),
            start <= n,
            rect_wf(container),
            rect_wf(rest),
            inside(rest, container),
            start == n ==> area_of(rest) == 0,
            row_sum(sorted@, 0, n as int) <= MAX_AREA,
            out@.len() == start,
            placed(out@, sorted@, container, rest),
            rect_areas(out@, 0, start as int) + area_of(rest) == area_of(container),
            out@ + tiles(sorted@, start as int, rest) == tiles(sorted@, 0, container),
        decreases n - start,
    {
        proof {
            lemma_row_sum_split(sorted@, 0, start as int, n as int);
            lemma_row_sum_nonneg(sorted@, 0, start as int);
            lemma_item_bound(sorted@, start as int, start as int, n as int);
            assert(row_sum(sorted@, start as int, start as int) == 0);
        }
        let mut end: usize = start + 1;
        let mut t: u128 = sorted[start].1 as u128;
        let mut growing = true;
        while growing && end < n
            invariant
                n == sorted@.len(),
                sorted_by_area(sorted@),
                start < end <= n,
                t == row_sum(sorted@, start as int, end as int),
                row_sum(sorted@, start as int, n as int) <= MAX_AREA,
                row_end(sorted@, start as int, start + 1, rest) == row_end(sorted@, start as int, end as int, rest),
                !growing ==> row_end(sorted@, start as int, end as int, rest) == end,
            decreases n - end + if growing { 1int } else { 0int },
        {
            proof {
                lemma_row_sum_split(sorted@, start as int, end + 1, n as int);
                lemma_row_sum_split(sorted@, start as int, end as int, n as int);
            }
            let next_t = t + sorted[end].1 as u128;
            let current = worst_aspect_ratio(&sorted, start, end, t, rest);
            let test = worst_aspect_ratio(&sorted, start, end + 1, next_t, rest);
            if test > current {
                growing = false;
            } else {
                t = next_t;
                end = end + 1;
            }
        }
        proof {
            lemma_row_sum_split(sorted@, start as int, end as int, n as int);
            lemma_row_sum_nonneg(sorted@, end as int, n as int);
        }
        let ghost prev = out@;
        let ghost old_rest = rest;
        proof {
            lemma_row_end_range(sorted@, start as int, start + 1, rest);
            assert(row_end(sorted@, start as int, start + 1, rest) == end);
        }
        if end == n {
            let horizontal = rest.width >= rest.height;
            emit_row(&mut out, &sorted, start, n, t, rest, horizontal);
            rest = Rect { x: rest.x, y: rest.y, width: 0, height: 0 };
            proof {
                lemma_rect_areas_split(out@, 0, start as int, n as int);
                lemma_rect_areas_frame(prev, out@, 0, start as int);
                lemma_row_placed(prev, out@, sorted@, container, old_rest, old_rest, rest);
                assert(tiles(sorted@, n as int, rest) =~= Seq::<LayoutRect>::empty());
                assert(out@ + tiles(sorted@, n as int, rest) =~= tiles(sorted@, 0, container));
            }
            start = n;
        } else {
            let horizontal = pick_direction(&sorted, start, end, rest, t);
            let (strip, next) = compute_remaining(rest, t, horizontal);
            emit_row(&mut out, &sorted, start, end, t, strip, horizontal);
            rest = next;
            proof {
                lemma_rect_areas_split(out@, 0, start as int, end as int);
                lemma_rect_areas_frame(prev, out@, 0, start as int);
                lemma_row_placed(prev, out@, sorted@, container, old_rest, strip, rest);
                assert(out@ + tiles(sorted@, end as int, rest) =~= tiles(sorted@, 0, container));
            }
            start = end;
        }
    }
    proof {
        let z = Rect { x: container.x, y: container.y, width: 0, height: 0 };
        assert forall|k: int| #![trigger out@[k]] 0 <= k < out@.len() implies !overlaps(out@[k].rect, z) by {}
    }
    out
}

/// Each item has a tile and each tile an item, when the tiles follow a
/// reordering of the items.
proof fn lemma_tile_indices(items: Seq<TreemapItem>, norm: Seq<(usize, u64)>, sorted: Seq<(usize, u64)>, out: Seq<LayoutRect>)
    requires
        norm.len() == items.len(),
        forall|k: int| 0 <= k < norm.len() ==> #[trigger] norm[k].0 == items[k].index,
        sorted.to_multiset() == norm.to_multiset(),
        out.len() == sorted.len(),
        forall|j: int| 0 <= j < out.len() ==> #[trigger] out[j].index == sorted[j].0,
    ensures
        forall|k: int| 0 <= k < items.len() ==> item_tiled(items, out, k),
        forall|j: int| 0 <= j < out.len() ==> tile_of_item(items, out, j),
{
    assert forall|k: int| 0 <= k < items.len() implies item_tiled(items, out, k) by {
        assert(norm.contains(norm[k]));
        vstd::seq_lib::to_multiset_contains(norm, norm[k]);
        vstd::seq_lib::to_multiset_contains(sorted, norm[k]);
        assert(sorted.contains(norm[k]));
        let j = choose|j: int| 0 <= j < sorted.len() && sorted[j] == norm[k];
        assert(norm[k].0 == items[k].index);
        assert(out[j].index == sorted[j].0);
    }
    assert forall|j: int| 0 <= j < out.len() implies tile_of_item(items, out, j) by {
        assert(sorted.contains(sorted[j]));
        vstd::seq_lib::to_multiset_contains(sorted, sorted[j]);
        vstd::seq_lib::to_multiset_contains(norm, sorted[j]);
        let k = choose|k: int| 0 <= k < norm.len() && norm[k] == sorted[j];
        assert(norm[k].0 == items[k].index);
        assert(out[j].index == sorted[j].0);
    }
}

/// Item `k` has a tile among `out`.
pub open spec fn item_tiled(items: Seq<TreemapItem>, out: Seq<LayoutRect>, k: int) -> bool {
    exists|j: int| 0 <= j < out.len() && #[trigger] out[j].index == items[k].index
}

/// Tile `j` of `out` belongs to one of the items.
pub open spec fn tile_of_item(items: Seq<TreemapItem>, out: Seq<LayoutRect>, j: int) -> bool {
    exists|k: int| 0 <= k < items.len() && out[j].index == #[trigger] items[k].index
}

/// Item sizes scaled to areas of a container of `area`, in input order.
pub open spec fn normalized(items: Seq<TreemapItem>, area: int, total: int) -> Seq<(usize, u64)> {
    Seq::new(items.len(), |k: int| (items[k].index, scaled(items[k].size as int, area, total) as u64))
}

/// The tiles of a layout: the items scaled to the container's area, sorted
/// largest first, and placed row by row.
pub open spec fn layout_spec(items: Seq<TreemapItem>, container: Rect) -> Seq<LayoutRect> {
    if items.len() == 0 || item_total(items) == 0 || area_of(container) == 0 {
        Seq::empty()
    } else {
        tiles(sort_desc(normalized(items, area_of(container), item_total(items))), 0, container)
    }
}

/// Squarified treemap with adaptive split direction.
///
/// A standard squarified treemap always splits along the shorter axis. This
/// one scores both directions for each row and picks the one that leaves the
/// better-shaped container, which avoids thin strips when one item takes most
/// of the area.
pub struct SquarifiedTreemap;

impl SquarifiedTreemap {
    /// Lay out `items` in `container`: one tile per item, largest first.
    ///
    /// The tiles lie in the container, no two share an area of positive size,
    /// and their areas add up to the container's exactly. Empty input, a zero
    /// total size or an empty container give no tiles.
    #[verifier::rlimit(40)]
    pub fn layout(items: &Vec<TreemapItem>, container: Rect) -> (r: Vec<LayoutRect>)
        requires
            rect_wf(container),
        ensures
            r@ == layout_spec(items@, container),
            items@.len() == 0 || item_total(items@) == 0 || area_of(container) == 0 ==> r@.len() == 0,
            !(items@.len() == 0 || item_total(items@) == 0 || area_of(container) == 0) ==> {
                &&& r@.len() == items@.len()
                &&& forall|k: int| 0 <= k < r@.len() ==> inside(#[trigger] r@[k].rect, container)
                &&& forall|j: int, k: int| 0 <= j < r@.len() && 0 <= k < r@.len() && j != k
                    ==> !overlaps(#[trigger] r@[j].rect, #[trigger] r@[k].rect)
                &&& rect_areas(r@, 0, r@.len() as int) == area_of(container)
                &&& forall|k: int| 0 <= k < items@.len() ==> #[trigger] item_tiled(items@, r@, k)
                &&& forall|j: int| 0 <= j < r@.len() ==> #[trigger] tile_of_item(items@, r@, j)
            },
            forall|j: int| 0 <= j < r@.len() ==> (#[trigger] r@[j]).is_tiny == tiny(r@[j].rect),
    {
        let n = items.len();
        if n == 0 {
            return Vec::new();
        }
        let mut total: u128 = 0;
        let mut i: usize = 0;
        while i < n
            invariant
                n == items@.len(),
                i <= n,
                total == size_prefix(items@, i as int),
                total <= i * (u64::MAX as int),
            decreases n - i,
        {
            proof {
                assert(usize::MAX <= u64::MAX);
                assert(i * (u64::MAX as int) + u64::MAX <= u64::MAX * u64::MAX) by (nonlinear_arith)
                    requires i < n, n <= u64::MAX, i >= 0;
            }
            total = total + items[i].size as u128;
            i = i + 1;
        }
        let area = container.area() as u128;
        if total == 0 || area == 0 {
            return Vec::new();
        }
        proof {
            assert(area_of(container) <= MAX_AREA) by (nonlinear_arith)
                requires area_of(container) == container.width * container.height,
                    container.width <= 65535, container.height <= 65535, container.width >= 0, container.height >= 0;
        }
        let norm = normalize(items, total, area);
        let sorted = sort_by_area_desc(norm);
        let out = squarify(&sorted, container);
        assert(norm@ =~= normalized(items@, area as int, total as int));
        proof {
            lemma_tile_indices(items@, norm@, sorted@, out@);
        }
        out
    }
}

} // verus!
