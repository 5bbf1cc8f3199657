//! The skyline profile: the occupied-height contour of a partially packed
//! container, kept as an ordered sequence of boundary nodes, together with
//! the bottom-left placement search and the profile updater.
//!
//! The node vector doubles as the node arena: index-addressed storage
//! whose slots appear when the profile splits and disappear when
//! equal-height neighbours merge, so each placed rectangle adds only a
//! bounded number of surviving nodes.

use vstd::prelude::*;

verus! {

/// One boundary of the skyline: from `x` (inclusive) up to the next
/// node's `x` (exclusive), the occupied height is `height`.
#[derive(Clone, Copy, Debug, PartialEq, Eq, Structural)]
pub struct SkylineNode {
    pub x: i32,
    pub height: i32,
}

/// Nodes are strictly increasing in `x`.
pub open spec fn nodes_sorted(s: Seq<SkylineNode>) -> bool {
    forall|i: int, j: int| 0 <= i < j < s.len() ==> s[i].x < s[j].x
}

/// A well-formed skyline for a container of width `cw`: the leftmost node
/// sits at `x = 0`, a sentinel terminates the sequence at `x = cw` (it is
/// never itself a placement candidate), heights are non-negative, and no
/// two adjacent non-sentinel nodes share a height (the updater re-merges
/// such neighbours before returning).
pub open spec fn wf_skyline(s: Seq<SkylineNode>, cw: int) -> bool {
    &&& s.len() >= 2
    &&& s[0].x == 0
    &&& s[s.len() - 1].x == cw
    &&& s[s.len() - 1].height == 0
    &&& nodes_sorted(s)
    &&& forall|i: int| 0 <= i < s.len() ==> 0 <= s[i].height
    &&& forall|i: int, j: int|
        #![trigger s[i].height, s[j].height]
        0 <= i && j == i + 1 && j < s.len() - 1 ==> s[i].height != s[j].height
}

/// The height of the skyline at column `c`: the height of the rightmost
/// node at or left of `c`, or 0 when every node lies right of `c`.
pub open spec fn sky_at(s: Seq<SkylineNode>, c: int) -> int
    decreases s.len(),
{
    if s.len() == 0 {
        0
    } else if s[s.len() - 1].x <= c {
        s[s.len() - 1].height as int
    } else {
        sky_at(s.drop_last(), c)
    }
}

/// The maximum skyline height over the columns `lo <= c < hi`
/// (0 for an empty range).
pub open spec fn span_max(s: Seq<SkylineNode>, lo: int, hi: int) -> int
    decreases hi - lo,
{
    if hi <= lo {
        0
    } else if span_max(s, lo, hi - 1) >= sky_at(s, hi - 1) {
        span_max(s, lo, hi - 1)
    } else {
        sky_at(s, hi - 1)
    }
}

pub proof fn lemma_sky_at_nonneg(s: Seq<SkylineNode>, c: int)
    requires
        forall|i: int| 0 <= i < s.len() ==> 0 <= s[i].height,
    ensures
        sky_at(s, c) >= 0,
    decreases s.len(),
{
    if s.len() > 0 && !(s[s.len() - 1].x <= c) {
        lemma_sky_at_nonneg(s.drop_last(), c);
    }
}

/// Inside one segment the skyline is flat: between node `i` and the next
/// node, the height at every column is node `i`'s height.
pub proof fn lemma_sky_at_in_segment(s: Seq<SkylineNode>, i: int, c: int)
    requires
        nodes_sorted(s),
        0 <= i < s.len(),
        s[i].x <= c,
        i == s.len() - 1 || c < s[i + 1].x,
    ensures
        sky_at(s, c) == s[i].height,
    decreases s.len(),
{
    if i < s.len() - 1 {
        assert(s[s.len() - 1].x >= s[i + 1].x);
        lemma_sky_at_in_segment(s.drop_last(), i, c);
    }
}

/// The height of the concatenation of two node runs is decided by the
/// right-hand run whenever it has a node at or left of the column.
pub proof fn lemma_sky_at_concat(s1: Seq<SkylineNode>, s2: Seq<SkylineNode>, c: int)
    ensures
        (exists|i: int| 0 <= i < s2.len() && s2[i].x <= c) ==> sky_at(s1 + s2, c) == sky_at(
            s2,
            c,
        ),
        (forall|i: int| 0 <= i < s2.len() ==> s2[i].x > c) ==> sky_at(s1 + s2, c) == sky_at(
            s1,
            c,
        ),
    decreases s2.len(),
{
    if s2.len() == 0 {
        assert(s1 + s2 =~= s1);
    } else {
        assert((s1 + s2)[(s1 + s2).len() - 1] == s2[s2.len() - 1]);
        if s2[s2.len() - 1].x <= c {
        } else {
            assert((s1 + s2).drop_last() =~= s1 + s2.drop_last());
            lemma_sky_at_concat(s1, s2.drop_last(), c);
            if exists|i: int| 0 <= i < s2.len() && s2[i].x <= c {
                let i = choose|i: int| 0 <= i < s2.len() && s2[i].x <= c;
                assert(0 <= i < s2.len() - 1 && s2.drop_last()[i].x <= c);
            }
        }
    }
}

pub proof fn lemma_span_max_ge(s: Seq<SkylineNode>, lo: int, hi: int, c: int)
    requires
        lo <= c < hi,
    ensures
        span_max(s, lo, hi) >= sky_at(s, c),
    decreases hi - c,
{
    if c < hi - 1 {
        lemma_span_max_ge(s, lo, hi - 1, c);
    }
}

/// Over a flat stretch of the skyline, the span maximum is that height.
pub proof fn lemma_span_max_const(s: Seq<SkylineNode>, lo: int, hi: int, v: int)
    requires
        lo < hi,
        0 <= v,
        forall|c: int| lo <= c < hi ==> sky_at(s, c) == v,
    ensures
        span_max(s, lo, hi) == v,
    decreases hi - lo,
{
    assert(sky_at(s, hi - 1) == v);
    if lo < hi - 1 {
        lemma_span_max_const(s, lo, hi - 1, v);
    } else {
        assert(span_max(s, lo, hi - 1) == 0);
    }
}

/// The span maximum splits at any interior column.
pub proof fn lemma_span_max_split(s: Seq<SkylineNode>, lo: int, mid: int, hi: int)
    requires
        lo <= mid <= hi,
        forall|i: int| 0 <= i < s.len() ==> 0 <= s[i].height,
    ensures
        span_max(s, lo, hi) == vstd::math::max(span_max(s, lo, mid), span_max(s, mid, hi)),
    decreases hi - mid,
{
    if mid == hi {
        if lo < hi {
            lemma_span_max_ge(s, lo, hi, lo);
            lemma_sky_at_nonneg(s, lo);
        }
    } else {
        lemma_span_max_split(s, lo, mid, hi - 1);
        if mid < hi {
            lemma_sky_at_nonneg(s, hi - 1);
        }
    }
}

/// The bottom-left choice among the placement candidates with index
/// below `n`: each node's `x` whose fit keeps the rectangle inside the
/// container is a candidate, the lowest resting height wins, and among
/// equally low candidates the leftmost (first scanned) wins.
pub open spec fn best_upto(
    s: Seq<SkylineNode>,
    cw: int,
    ch: int,
    w: int,
    h: int,
    n: int,
) -> Option<(int, int)>
    decreases n,
{
    if n <= 0 {
        None
    } else {
        let prev = best_upto(s, cw, ch, w, h, n - 1);
        let x = s[n - 1].x as int;
        let y = span_max(s, x, x + w);
        if x + w <= cw && y + h <= ch {
            match prev {
                None => Some((x, y)),
                Some(p) => if y < p.1 {
                    Some((x, y))
                } else {
                    prev
                },
            }
        } else {
            prev
        }
    }
}

/// The bottom-left-best legal position for a `w` by `h` rectangle on
/// skyline `s` in a `cw` by `ch` container, or `None` when no node
/// allows a legal placement.
pub open spec fn spec_best(s: Seq<SkylineNode>, cw: int, ch: int, w: int, h: int) -> Option<
    (int, int),
> {
    best_upto(s, cw, ch, w, h, s.len() as int)
}

/// What the chosen position guarantees: it is a node's `x`, the
/// rectangle fits horizontally, its bottom rests exactly on the span
/// maximum, it fits vertically, and no scanned candidate is lower
/// (nor, at equal height, further left).
pub proof fn lemma_best_upto_props(s: Seq<SkylineNode>, cw: int, ch: int, w: int, h: int, n: int)
    requires
        nodes_sorted(s),
        0 <= n <= s.len(),
    ensures
        match best_upto(s, cw, ch, w, h, n) {
            Some(p) => {
                &&& exists|i: int| 0 <= i < n && s[i].x == p.0
                &&& p.0 + w <= cw
                &&& p.1 == span_max(s, p.0, p.0 + w)
                &&& p.1 + h <= ch
                &&& forall|i: int|
                    0 <= i < n && s[i].x + w <= cw && span_max(s, s[i].x as int, s[i].x + w) + h
                        <= ch ==> p.1 <= span_max(s, s[i].x as int, s[i].x + w)
                &&& forall|i: int|
                    0 <= i < n && s[i].x + w <= cw && span_max(s, s[i].x as int, s[i].x + w) + h
                        <= ch && span_max(s, s[i].x as int, s[i].x + w) == p.1 ==> p.0 <= s[i].x
            },
            None => forall|i: int|
                0 <= i < n ==> !(s[i].x + w <= cw && span_max(s, s[i].x as int, s[i].x + w) + h
                    <= ch),
        },
    decreases n,
{
    if n > 0 {
        lemma_best_upto_props(s, cw, ch, w, h, n - 1);
        match best_upto(s, cw, ch, w, h, n - 1) {
            Some(p) => {
                let i0 = choose|i: int| 0 <= i < n - 1 && s[i].x == p.0;
                assert(s[i0].x < s[n - 1].x);
            },
            None => {},
        }
    }
}

/// A view of an optional pair of coordinates as mathematical integers.
pub open spec fn pos_view(r: Option<(i32, i32)>) -> Option<(int, int)> {
    match r {
        Some(p) => Some((p.0 as int, p.1 as int)),
        None => None,
    }
}

/// The elevation a `w`-wide rectangle would rest on if placed with its
/// left edge on node `i`: the maximum height among the nodes its span
/// covers.
#[verifier::loop_isolation(false)]
#[verifier::rlimit(60)]
fn fit_height(nodes: &Vec<SkylineNode>, i: usize, w: i32, cw: i32) -> (fit: i32)
    requires
        wf_skyline(nodes@, cw as int),
        1 <= w,
        i < nodes@.len(),
        nodes@[i as int].x + w <= cw,
    ensures
        fit as int == span_max(nodes@, nodes@[i as int].x as int, nodes@[i as int].x + w),
{
    let n: usize = nodes.len();
    let x: i32 = nodes[i].x;
    let limit: i32 = x + w;
    let mut m: i32 = nodes[i].height;
    let mut j: usize = i + 1;
    proof {
        assert(i < nodes@.len() - 1);
        let b = vstd::math::min(nodes@[i + 1].x as int, limit as int);
        assert forall|c: int| x <= c < b implies sky_at(nodes@, c) == nodes@[i as int].height by {
            lemma_sky_at_in_segment(nodes@, i as int, c);
        }
        lemma_span_max_const(nodes@, x as int, b, nodes@[i as int].height as int);
    }
    while j < nodes.len() && nodes[j].x < limit
        invariant
            i < j < nodes@.len(),
            m as int == span_max(
                nodes@,
                x as int,
                vstd::math::min(nodes@[j as int].x as int, limit as int),
            ),
        decreases nodes@.len() - j,
    {
        proof {
            assert(j < nodes@.len() - 1);
            let b = nodes@[j as int].x as int;
            let b2 = vstd::math::min(nodes@[j + 1].x as int, limit as int);
            assert forall|c: int| b <= c < b2 implies sky_at(nodes@, c) == nodes@[j as int].height
                by {
                lemma_sky_at_in_segment(nodes@, j as int, c);
            }
            lemma_span_max_const(nodes@, b, b2, nodes@[j as int].height as int);
            lemma_span_max_split(nodes@, x as int, b, b2);
        }
        if nodes[j].height > m {
            m = nodes[j].height;
        }
        j = j + 1;
    }
    m
}

/// Scan every node for the lowest, then leftmost, legal position for a
/// `w` by `h` rectangle; `None` when nothing fits.
#[verifier::loop_isolation(false)]
pub fn find_best(nodes: &Vec<SkylineNode>, w: i32, h: i32, cw: i32, ch: i32) -> (r: Option<
    (i32, i32),
>)
    requires
        wf_skyline(nodes@, cw as int),
        1 <= w,
        1 <= h,
        0 <= ch,
    ensures
        pos_view(r) == spec_best(nodes@, cw as int, ch as int, w as int, h as int),
{
    let mut best: Option<(i32, i32)> = None;
    let mut i: usize = 0;
    while i < nodes.len()
        invariant
            i <= nodes@.len(),
            pos_view(best) == best_upto(nodes@, cw as int, ch as int, w as int, h as int, i as int),
        decreases nodes@.len() - i,
    {
        let x: i32 = nodes[i].x;
        if x <= cw - w {
            let fit: i32 = fit_height(nodes, i, w, cw);
            if fit <= ch - h {
                match best {
                    None => { best = Some((x, fit)) },
                    Some(p) => {
                        if fit < p.1 {
                            best = Some((x, fit));
                        }
                    },
                }
            }
        }
        i = i + 1;
    }
    best
}

/// The number of nodes strictly left of column `b`.
pub open spec fn cut(s: Seq<SkylineNode>, b: int) -> int
    decreases s.len(),
{
    if s.len() == 0 {
        0
    } else if s[0].x < b {
        1 + cut(s.drop_first(), b)
    } else {
        0
    }
}

pub proof fn lemma_cut_props(s: Seq<SkylineNode>, b: int)
    requires
        nodes_sorted(s),
    ensures
        0 <= cut(s, b) <= s.len(),
        forall|i: int| 0 <= i < cut(s, b) ==> s[i].x < b,
        forall|i: int| cut(s, b) <= i < s.len() ==> s[i].x >= b,
    decreases s.len(),
{
    if s.len() > 0 {
        let d = s.drop_first();
        assert forall|i: int| 0 <= i < d.len() implies d[i] == s[i + 1] by {}
        lemma_cut_props(d, b);
        if s[0].x < b {
            assert(cut(s, b) == 1 + cut(d, b));
            assert forall|i: int| 0 <= i < cut(s, b) implies s[i].x < b by {
                if i > 0 {
                    assert(d[i - 1].x < b);
                }
            }
            assert forall|i: int| cut(s, b) <= i < s.len() implies s[i].x >= b by {
                assert(d[i - 1].x >= b);
            }
        } else {
            assert forall|i: int| cut(s, b) <= i < s.len() implies s[i].x >= b by {
                if i > 0 {
                    assert(s[0].x < s[i].x);
                }
            }
        }
    }
}

/// Drop every node that repeats the height of the kept node before it
/// (the sentinel is never dropped), so no redundant boundary survives.
pub open spec fn merge_spec(s: Seq<SkylineNode>, cw: int) -> Seq<SkylineNode>
    decreases s.len(),
{
    if s.len() <= 1 {
        s
    } else {
        let m = merge_spec(s.drop_last(), cw);
        let last = s[s.len() - 1];
        if last.x != cw && m.len() > 0 && last.height == m[m.len() - 1].height {
            m
        } else {
            m.push(last)
        }
    }
}

pub proof fn lemma_merge_props(s: Seq<SkylineNode>, cw: int)
    requires
        s.len() >= 1,
        nodes_sorted(s),
    ensures
        ({
            let m = merge_spec(s, cw);
            &&& 1 <= m.len() <= s.len()
            &&& m[0] == s[0]
            &&& m[m.len() - 1].height == s[s.len() - 1].height
            &&& m[m.len() - 1].x <= s[s.len() - 1].x
            &&& nodes_sorted(m)
            &&& (forall|i: int| 0 <= i < s.len() ==> 0 <= s[i].height) ==> (forall|i: int|
                0 <= i < m.len() ==> 0 <= m[i].height)
            &&& forall|i: int, j: int|
                #![trigger m[i].height, m[j].height]
                0 <= i && j == i + 1 && j < m.len() ==> m[j].x == cw || m[i].height != m[j].height
            &&& s[s.len() - 1].x == cw ==> m[m.len() - 1] == s[s.len() - 1]
        }),
    decreases s.len(),
{
    if s.len() > 1 {
        lemma_merge_props(s.drop_last(), cw);
    }
}

/// Merging never changes the profile itself, column for column.
pub proof fn lemma_merge_sky(s: Seq<SkylineNode>, cw: int, c: int)
    requires
        s.len() >= 1,
        nodes_sorted(s),
    ensures
        sky_at(merge_spec(s, cw), c) == sky_at(s, c),
    decreases s.len(),
{
    if s.len() > 1 {
        let m0 = merge_spec(s.drop_last(), cw);
        let last = s[s.len() - 1];
        lemma_merge_props(s.drop_last(), cw);
        lemma_merge_sky(s.drop_last(), cw, c);
        if last.x != cw && m0.len() > 0 && last.height == m0[m0.len() - 1].height {
            if last.x <= c {
                assert(m0[m0.len() - 1].x <= s[s.len() - 2].x);
                assert(sky_at(m0, c) == m0[m0.len() - 1].height);
            }
        } else {
            assert(m0.push(last).drop_last() =~= m0);
        }
    }
}

/// The skyline after resting a rectangle over `[px, right)` with its top
/// edge at `top`: covered nodes go away, a node at `px` carries the new
/// height, a boundary node at `right` preserves the old profile beyond
/// the rectangle when no node stands there, and equal-height neighbours
/// are merged away.
pub open spec fn update_mid(s: Seq<SkylineNode>, px: i32, right: i32, top: i32) -> Seq<
    SkylineNode,
> {
    let k = cut(s, right as int);
    if k < s.len() && s[k].x == right {
        seq![SkylineNode { x: px, height: top }]
    } else {
        seq![SkylineNode { x: px, height: top }, SkylineNode { x: right, height: s[k - 1].height }]
    }
}

/// The structural edit before re-merging: nodes left of `px` stay, nodes
/// under the rectangle go away, the new node (and a boundary node when
/// no node stands at `right`) takes their place, nodes from `right` on
/// stay.
pub open spec fn raw_update(s: Seq<SkylineNode>, px: i32, right: i32, top: i32) -> Seq<
    SkylineNode,
> {
    s.take(cut(s, px as int)) + update_mid(s, px, right, top) + s.skip(cut(s, right as int))
}

pub open spec fn spec_update(
    s: Seq<SkylineNode>,
    px: i32,
    right: i32,
    top: i32,
    cw: int,
) -> Seq<SkylineNode> {
    merge_spec(raw_update(s, px, right, top), cw)
}

/// The updater's precondition: a well-formed skyline, a span inside the
/// container, a node standing exactly at the span's left edge, and a
/// non-negative height to rest on it.
pub open spec fn update_pre(s: Seq<SkylineNode>, px: i32, right: i32, top: i32, cw: int) -> bool {
    &&& wf_skyline(s, cw)
    &&& 0 <= px
    &&& px < right
    &&& right as int <= cw
    &&& exists|i: int| 0 <= i < s.len() && s[i].x == px
    &&& 0 <= top
}

/// Where the edit cuts the node list: the node at `px` is the first one
/// kept out of the prefix, and the sentinel is never cut away.
pub proof fn lemma_update_indices(s: Seq<SkylineNode>, px: i32, right: i32, top: i32, cw: int)
    requires
        update_pre(s, px, right, top, cw),
    ensures
        0 <= cut(s, px as int),
        cut(s, px as int) < s.len(),
        s[cut(s, px as int)].x == px,
        cut(s, px as int) < cut(s, right as int),
        cut(s, right as int) <= s.len() - 1,
{
    lemma_cut_props(s, px as int);
    lemma_cut_props(s, right as int);
    let a = cut(s, px as int);
    let k = cut(s, right as int);
    let i0 = choose|i: int| 0 <= i < s.len() && s[i].x == px;
    assert(s[i0].x == px);
    if i0 < a {
        assert(s[i0].x < px);
    }
    if i0 > a {
        assert(s[a].x >= px);
        assert(s[a].x < s[i0].x);
    }
    assert(i0 == a);
    if k <= a {
        assert(s[a].x >= right);
    }
    if k == s.len() {
        assert(s[s.len() - 1].x < right);
    }
}

/// Shape of the edited node list: still strictly ordered, same endpoints,
/// non-negative heights.
#[verifier::rlimit(100)]
pub proof fn lemma_raw_struct(s: Seq<SkylineNode>, px: i32, right: i32, top: i32, cw: int)
    requires
        update_pre(s, px, right, top, cw),
    ensures
        ({
            let raw = raw_update(s, px, right, top);
            &&& raw.len() >= 2
            &&& nodes_sorted(raw)
            &&& raw[0].x == 0
            &&& raw[raw.len() - 1] == s[s.len() - 1]
            &&& forall|i: int| 0 <= i < raw.len() ==> 0 <= raw[i].height
        }),
{
    lemma_cut_props(s, px as int);
    lemma_cut_props(s, right as int);
    lemma_update_indices(s, px, right, top, cw);
    let a = cut(s, px as int);
    let k = cut(s, right as int);
    let mid = update_mid(s, px, right, top);
    let ml = mid.len();
    let raw = raw_update(s, px, right, top);
    assert(s[k].x >= right);
    assert(raw.len() == a + ml + (s.len() - k));
    assert forall|i: int| 0 <= i < raw.len() implies raw[i] == (if i < a {
        s[i]
    } else if i < a + ml {
        mid[i - a]
    } else {
        s[k + (i - a - ml)]
    }) by {}
    assert forall|i: int, j: int| 0 <= i < j < raw.len() implies raw[i].x < raw[j].x by {
        if a <= i < a + ml {
            assert(mid[i - a].x == px || mid[i - a].x == right);
        }
        if a <= j < a + ml {
            assert(mid[j - a].x == px || (j - a == 1 && mid[j - a].x == right));
        }
    }
    if a == 0 {
        assert(s[0].x >= px);
        assert(raw[0].x == px);
        assert(px == 0);
    } else {
        assert(raw[0] == s[0]);
    }
    assert(raw[raw.len() - 1] == s[k + (s.len() - 1 - k)]);
}

/// Left of the rectangle the profile is untouched.
pub proof fn lemma_raw_sky_low(s: Seq<SkylineNode>, px: i32, right: i32, top: i32, cw: int, c: int)
    requires
        update_pre(s, px, right, top, cw),
        0 <= c < px,
    ensures
        sky_at(raw_update(s, px, right, top), c) == sky_at(s, c),
{
    lemma_cut_props(s, px as int);
    lemma_cut_props(s, right as int);
    lemma_update_indices(s, px, right, top, cw);
    let a = cut(s, px as int);
    let k = cut(s, right as int);
    let mid = update_mid(s, px, right, top);
    let raw = raw_update(s, px, right, top);
    assert(raw =~= s.take(a) + (mid + s.skip(k)));
    assert forall|i: int| 0 <= i < (mid + s.skip(k)).len() implies (mid + s.skip(k))[i].x > c by {
        if i >= mid.len() {
            assert((mid + s.skip(k))[i] == s[k + (i - mid.len())]);
            assert(s[k + (i - mid.len())].x >= right);
        } else {
            assert(mid[i].x == px || mid[i].x == right);
        }
    }
    lemma_sky_at_concat(s.take(a), mid + s.skip(k), c);
    assert(s =~= s.take(a) + s.skip(a));
    assert forall|i: int| 0 <= i < s.skip(a).len() implies s.skip(a)[i].x > c by {
        assert(s.skip(a)[i] == s[a + i]);
        assert(s[a + i].x >= px);
    }
    lemma_sky_at_concat(s.take(a), s.skip(a), c);
}

/// Under the rectangle the profile now sits at `top`.
pub proof fn lemma_raw_sky_mid(s: Seq<SkylineNode>, px: i32, right: i32, top: i32, cw: int, c: int)
    requires
        update_pre(s, px, right, top, cw),
        px <= c < right,
    ensures
        sky_at(raw_update(s, px, right, top), c) == top,
{
    lemma_cut_props(s, px as int);
    lemma_cut_props(s, right as int);
    lemma_update_indices(s, px, right, top, cw);
    let a = cut(s, px as int);
    let k = cut(s, right as int);
    let mid = update_mid(s, px, right, top);
    let npx = SkylineNode { x: px, height: top };
    let raw = raw_update(s, px, right, top);
    assert(raw =~= s.take(a) + (mid + s.skip(k)));
    assert((mid + s.skip(k))[0].x == px);
    lemma_sky_at_concat(s.take(a), mid + s.skip(k), c);
    assert forall|i: int| 0 <= i < s.skip(k).len() implies s.skip(k)[i].x > c by {
        assert(s.skip(k)[i] == s[k + i]);
        assert(s[k + i].x >= right);
    }
    lemma_sky_at_concat(mid, s.skip(k), c);
    assert(sky_at(seq![npx], c) == top);
    if mid.len() == 2 {
        assert(mid.drop_last() =~= seq![npx]);
    }
}

/// From the rectangle's right edge on the profile is untouched.
pub proof fn lemma_raw_sky_high(s: Seq<SkylineNode>, px: i32, right: i32, top: i32, cw: int, c: int)
    requires
        update_pre(s, px, right, top, cw),
        right <= c,
    ensures
        sky_at(raw_update(s, px, right, top), c) == sky_at(s, c),
{
    lemma_cut_props(s, px as int);
    lemma_cut_props(s, right as int);
    lemma_update_indices(s, px, right, top, cw);
    let a = cut(s, px as int);
    let k = cut(s, right as int);
    let mid = update_mid(s, px, right, top);
    let raw = raw_update(s, px, right, top);
    assert(raw =~= (s.take(a) + mid) + s.skip(k));
    assert(s =~= s.take(k) + s.skip(k));
    assert(s[k].x >= right);
    if s[k].x <= c {
        assert(s.skip(k)[0] == s[k]);
        lemma_sky_at_concat(s.take(a) + mid, s.skip(k), c);
        lemma_sky_at_concat(s.take(k), s.skip(k), c);
    } else {
        assert forall|i: int| 0 <= i < s.skip(k).len() implies s.skip(k)[i].x > c by {
            assert(s.skip(k)[i] == s[k + i]);
            if i > 0 {
                assert(s[k].x < s[k + i].x);
            }
        }
        lemma_sky_at_concat(s.take(a) + mid, s.skip(k), c);
        lemma_sky_at_concat(s.take(k), s.skip(k), c);
        assert(mid.len() == 2 && mid[1] == SkylineNode { x: right, height: s[k - 1].height });
        assert(mid[mid.len() - 1].x <= c);
        lemma_sky_at_concat(s.take(a), mid, c);
        assert(sky_at(mid, c) == s[k - 1].height);
        assert(s[k - 1].x < right);
        lemma_sky_at_in_segment(s, k - 1, c);
        assert(sky_at(s.take(k), c) == sky_at(s, c)) by {
            assert forall|i: int| 0 <= i < s.skip(k).len() implies s.skip(k)[i].x > c by {
                assert(s.skip(k)[i] == s[k + i]);
                if i > 0 {
                    assert(s[k].x < s[k + i].x);
                }
            }
            lemma_sky_at_concat(s.take(k), s.skip(k), c);
        }
    }
}

/// What one update does: columns under the rectangle rise to `top`,
/// every other column keeps its height, and the skyline stays
/// well-formed.
#[verifier::rlimit(100)]
pub proof fn lemma_update(s: Seq<SkylineNode>, px: i32, right: i32, top: i32, cw: int)
    requires
        update_pre(s, px, right, top, cw),
    ensures
        ({
            let r = spec_update(s, px, right, top, cw);
            &&& wf_skyline(r, cw)
            &&& forall|c: int| 0 <= c < px ==> sky_at(r, c) == sky_at(s, c)
            &&& forall|c: int| px <= c < right ==> sky_at(r, c) == top
            &&& forall|c: int| right <= c ==> sky_at(r, c) == sky_at(s, c)
        }),
{
    let raw = raw_update(s, px, right, top);
    let r = spec_update(s, px, right, top, cw);
    lemma_raw_struct(s, px, right, top, cw);
    lemma_merge_props(raw, cw);
    assert forall|c: int| 0 <= c < px implies sky_at(r, c) == sky_at(s, c) by {
        lemma_merge_sky(raw, cw, c);
        lemma_raw_sky_low(s, px, right, top, cw, c);
    }
    assert forall|c: int| px <= c < right implies sky_at(r, c) == top by {
        lemma_merge_sky(raw, cw, c);
        lemma_raw_sky_mid(s, px, right, top, cw, c);
    }
    assert forall|c: int| right <= c implies sky_at(r, c) == sky_at(s, c) by {
        lemma_merge_sky(raw, cw, c);
        lemma_raw_sky_high(s, px, right, top, cw, c);
    }
    assert(r[r.len() - 1] == s[s.len() - 1]);
    assert(r.len() >= 2) by {
        assert(r[0].x == 0 && r[r.len() - 1].x == cw && cw > 0);
    }
    assert forall|i: int, j: int|
        #![trigger r[i].height, r[j].height]
        0 <= i && j == i + 1 && j < r.len() - 1 implies r[i].height != r[j].height by {
        assert(r[j].x < r[r.len() - 1].x);
    }
}

/// One update never grows the profile by more than one surviving node:
/// the new node replaces at least one covered node, and at most a
/// boundary node is added beside it, so the arena stays bounded as
/// rectangles are placed.
pub proof fn lemma_update_node_budget(s: Seq<SkylineNode>, px: i32, right: i32, top: i32, cw: int)
    requires
        update_pre(s, px, right, top, cw),
    ensures
        spec_update(s, px, right, top, cw).len() <= s.len() + 1,
{
    lemma_update_indices(s, px, right, top, cw);
    let raw = raw_update(s, px, right, top);
    lemma_raw_struct(s, px, right, top, cw);
    lemma_merge_props(raw, cw);
    assert(raw.len() <= s.len() + 1);
}

/// Carry out one update on the node vector. The result is exactly
/// `spec_update` of the input, and the profile changes only under the
/// rectangle.
#[verifier::loop_isolation(false)]
#[verifier::rlimit(60)]
pub fn place_rect(nodes: &Vec<SkylineNode>, px: i32, right: i32, top: i32, cw: i32) -> (r: Vec<
    SkylineNode,
>)
    requires
        wf_skyline(nodes@, cw as int),
        0 <= px,
        px < right,
        right <= cw,
        exists|i: int| 0 <= i < nodes@.len() && nodes@[i].x == px,
        0 <= top,
    ensures
        r@ == spec_update(nodes@, px, right, top, cw as int),
        wf_skyline(r@, cw as int),
        forall|c: int| 0 <= c < px ==> sky_at(r@, c) == sky_at(nodes@, c),
        forall|c: int| px <= c < right ==> sky_at(r@, c) == top,
        forall|c: int| right <= c ==> sky_at(r@, c) == sky_at(nodes@, c),
{
    proof {
        lemma_cut_props(nodes@, px as int);
        lemma_cut_props(nodes@, right as int);
        lemma_update_indices(nodes@, px, right, top, cw as int);
        lemma_update(nodes@, px, right, top, cw as int);
    }
    let n: usize = nodes.len();
    let mut out: Vec<SkylineNode> = Vec::new();
    let mut j: usize = 0;
    while j < n && nodes[j].x < px
        invariant
            0 <= j <= n,
            out@ == nodes@.take(j as int),
            forall|i: int| 0 <= i < j ==> nodes@[i].x < px,
        decreases n - j,
    {
        proof {
            assert(nodes@.take(j + 1) =~= nodes@.take(j as int).push(nodes@[j as int]));
        }
        out.push(nodes[j]);
        j = j + 1;
    }
    let ghost a = cut(nodes@, px as int);
    proof {
        if (j as int) < a {
            assert(nodes@[j as int].x < px);
        }
        if (j as int) > a {
            assert(nodes@[a].x < px);
            assert(nodes@[a].x >= px);
        }
        assert(j as int == a);
    }
    out.push(SkylineNode { x: px, height: top });
    let mut carry: i32 = 0;
    while j < n && nodes[j].x < right
        invariant
            a <= j <= n,
            j > a ==> carry == nodes@[j - 1].height,
            forall|i: int| a <= i < j ==> nodes@[i].x < right,
        decreases n - j,
    {
        carry = nodes[j].height;
        j = j + 1;
    }
    let ghost k = cut(nodes@, right as int);
    proof {
        assert(nodes@[a].x == px);
        assert(k <= nodes@.len() - 1);
        if (j as int) < k {
            assert(nodes@[j as int].x < right);
        }
        if (j as int) > k {
            assert(nodes@[k].x < right);
            assert(nodes@[k].x >= right);
        }
        assert(j as int == k);
        assert(k > a);
        assert(carry == nodes@[k - 1].height);
    }
    let ghost mid = update_mid(nodes@, px, right, top);
    if nodes[j].x > right {
        out.push(SkylineNode { x: right, height: carry });
    }
    proof {
        assert(out@ =~= nodes@.take(a) + mid + nodes@.subrange(k, k));
    }
    while j < n
        invariant
            k <= j <= n,
            out@ == nodes@.take(a) + mid + nodes@.subrange(k, j as int),
        decreases n - j,
    {
        proof {
            assert(nodes@.subrange(k, j + 1) =~= nodes@.subrange(k, j as int).push(
                nodes@[j as int],
            ));
            assert(nodes@.take(a) + mid + nodes@.subrange(k, j + 1) =~= (nodes@.take(a) + mid
                + nodes@.subrange(k, j as int)).push(nodes@[j as int]));
        }
        out.push(nodes[j]);
        j = j + 1;
    }
    proof {
        assert(nodes@.subrange(k, nodes@.len() as int) =~= nodes@.skip(k));
        assert(out@ == raw_update(nodes@, px, right, top));
        assert(out@.len() >= 1);
    }
    let r = merge_pass(&out, cw);
    proof {
        assert(r@ == spec_update(nodes@, px, right, top, cw as int));
    }
    r
}

/// One pass over freshly edited nodes that drops each node repeating the
/// height of the kept node before it; the sentinel always stays.
#[verifier::loop_isolation(false)]
fn merge_pass(v: &Vec<SkylineNode>, cw: i32) -> (r: Vec<SkylineNode>)
    requires
        v@.len() >= 1,
    ensures
        r@ == merge_spec(v@, cw as int),
{
    let n: usize = v.len();
    let mut out: Vec<SkylineNode> = Vec::new();
    out.push(v[0]);
    proof {
        assert(v@.take(1) =~= seq![v@[0]]);
        assert(merge_spec(v@.take(1), cw as int) =~= out@);
    }
    let mut t: usize = 1;
    while t < n
        invariant
            1 <= t <= n,
            out@.len() >= 1,
            out@ == merge_spec(v@.take(t as int), cw as int),
        decreases n - t,
    {
        proof {
            assert(v@.take(t + 1).drop_last() =~= v@.take(t as int));
            assert(v@.take(t + 1)[t as int] == v@[t as int]);
        }
        let last_h: i32 = out[out.len() - 1].height;
        if v[t].x != cw && v[t].height == last_h {
        } else {
            out.push(v[t]);
        }
        t = t + 1;
    }
    proof {
        assert(v@.take(n as int) =~= v@);
    }
    out
}

} // verus!
