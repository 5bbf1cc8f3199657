//! A rectangle packer built on a skyline profile.
//!
//! Given a list of rectangles and a fixed container, `pack` finds a
//! non-overlapping placement for every rectangle inside the container,
//! without rotation, using the bottom-left skyline heuristic: rectangles
//! are sorted by height, then width (both descending), then by original
//! position, and each is placed at the lowest, then leftmost, legal spot
//! on the current skyline.

use vstd::prelude::*;
use vstd::string::StringExecFns;

pub mod skyline;
pub mod order;

use crate::order::{WorkRect, work_order, sort_work};
use crate::skyline::{
    SkylineNode, wf_skyline, sky_at, span_max, spec_best, spec_update, find_best, place_rect,
    lemma_best_upto_props, lemma_span_max_ge, lemma_sky_at_nonneg,
};

verus! {

/// Why a call to `pack` failed. Every failure leaves the caller's
/// rectangles exactly as they were.
#[derive(Clone, Copy, Debug, PartialEq, Eq, Structural)]
pub enum PackError {
    /// The rectangle list was empty.
    NoInput,
    /// A rectangle has a non-positive width or height; the payload is the
    /// index of the first such rectangle.
    Dimension(usize),
    /// Every rectangle is well-formed, but the heuristic found no
    /// arrangement that fits the container.
    FailedToPack,
}

impl PackError {
    /// A short description of the failure.
    pub fn message(&self) -> (m: String)
        ensures
            *self == PackError::NoInput ==> m@ == "No input given"@,
            (*self matches PackError::Dimension(_)) ==> m@ == "Unexpected input dimension"@,
            *self == PackError::FailedToPack ==> m@ == "Failed to pack"@,
    {
        match self {
            PackError::NoInput => String::from_str("No input given"),
            PackError::Dimension(_) => String::from_str("Unexpected input dimension"),
            PackError::FailedToPack => String::from_str("Failed to pack"),
        }
    }
}

/// An axis-aligned rectangle. `width` and `height` are inputs;
/// `packed_top_left_x` / `packed_top_left_y` are outputs, meaningful only
/// after a successful `pack`.
#[derive(Clone, Copy, Debug, PartialEq, Eq, Structural)]
pub struct Rect {
    pub width: i32,
    pub height: i32,
    pub packed_top_left_x: i32,
    pub packed_top_left_y: i32,
}

impl Rect {
    /// A rectangle of the given size with its placement fields cleared.
    pub fn new(width: i32, height: i32) -> (r: Rect)
        ensures
            r.width == width,
            r.height == height,
            r.packed_top_left_x == 0,
            r.packed_top_left_y == 0,
    {
        Rect { width, height, packed_top_left_x: 0, packed_top_left_y: 0 }
    }
}

/// One recorded placement: which input rectangle, and where its
/// top-left corner landed.
#[derive(Clone, Copy, Debug, PartialEq, Eq, Structural)]
pub struct Placement {
    pub idx: usize,
    pub x: i32,
    pub y: i32,
}

/// A rectangle the packer accepts: strictly positive width and height.
pub open spec fn dims_ok(r: Rect) -> bool {
    r.width >= 1 && r.height >= 1
}

pub open spec fn all_dims_ok(rs: Seq<Rect>) -> bool {
    forall|i: int| 0 <= i < rs.len() ==> dims_ok(rs[i])
}

/// The least index whose rectangle has a non-positive dimension.
pub open spec fn first_bad(rs: Seq<Rect>) -> int
    decreases rs.len(),
{
    if rs.len() == 0 {
        0
    } else if !dims_ok(rs[0]) {
        0
    } else {
        1 + first_bad(rs.drop_first())
    }
}

pub proof fn lemma_first_bad(rs: Seq<Rect>, i: int)
    requires
        0 <= i < rs.len(),
        !dims_ok(rs[i]),
        forall|t: int| 0 <= t < i ==> dims_ok(rs[t]),
    ensures
        first_bad(rs) == i,
        !all_dims_ok(rs),
    decreases rs.len(),
{
    if i > 0 {
        let d = rs.drop_first();
        assert forall|t: int| 0 <= t < d.len() implies d[t] == rs[t + 1] by {}
        lemma_first_bad(d, i - 1);
    }
}

/// The working copy of the caller's list, each entry tagged with the
/// index it holds there.
pub open spec fn spec_work(rs: Seq<Rect>) -> Seq<WorkRect> {
    Seq::new(rs.len(), |i: int| WorkRect { idx: i as usize, w: rs[i].width, h: rs[i].height })
}

/// The initial skyline: a flat floor at height 0 and the sentinel at
/// the container's right edge.
pub open spec fn init_nodes(cw: i32) -> Seq<SkylineNode> {
    seq![SkylineNode { x: 0, height: 0 }, SkylineNode { x: cw, height: 0 }]
}

/// One run of the packing loop over the sorted work list: the final
/// skyline and the placements in packing order, or `None` as soon as a
/// rectangle finds no legal position.
pub open spec fn spec_run(
    work: Seq<WorkRect>,
    nodes: Seq<SkylineNode>,
    cw: i32,
    ch: i32,
) -> Option<(Seq<SkylineNode>, Seq<Placement>)>
    decreases work.len(),
{
    if work.len() == 0 {
        Some((nodes, Seq::empty()))
    } else {
        let wr = work[0];
        match spec_best(nodes, cw as int, ch as int, wr.w as int, wr.h as int) {
            None => None,
            Some(p) => {
                let px = p.0 as i32;
                let right = (p.0 + wr.w) as i32;
                let top = (p.1 + wr.h) as i32;
                match spec_run(work.drop_first(), spec_update(nodes, px, right, top, cw as int),
                    cw, ch) {
                    None => None,
                    Some(rest) => Some(
                        (rest.0, seq![Placement { idx: wr.idx, x: px, y: p.1 as i32 }] + rest.1),
                    ),
                }
            },
        }
    }
}

/// Everything `pack` decides, as a function of its inputs alone:
/// `NoInput` for an empty list, `Dimension` for the first bad rectangle,
/// otherwise the run of the loop over the sorted work list.
pub open spec fn spec_pack(rs: Seq<Rect>, cw: i32, ch: i32) -> Result<Seq<Placement>, PackError> {
    if rs.len() == 0 {
        Err(PackError::NoInput)
    } else if !all_dims_ok(rs) {
        Err(PackError::Dimension(first_bad(rs) as usize))
    } else {
        match spec_run(spec_work(rs).sort_by(work_order()), init_nodes(cw), cw, ch) {
            None => Err(PackError::FailedToPack),
            Some(r) => Ok(r.1),
        }
    }
}

/// Does some placement carry index `i`?
pub open spec fn has_placement(ps: Seq<Placement>, i: int) -> bool {
    exists|t: int| 0 <= t < ps.len() && ps[t].idx as int == i
}

pub open spec fn placement_for(ps: Seq<Placement>, i: int) -> Placement {
    ps[choose|t: int| 0 <= t < ps.len() && ps[t].idx as int == i]
}

/// The caller's list with the placements written into it; entries
/// without a placement stay as they were.
pub open spec fn apply_placements(rs: Seq<Rect>, ps: Seq<Placement>) -> Seq<Rect> {
    Seq::new(
        rs.len(),
        |i: int|
            if has_placement(ps, i) {
                Rect {
                    width: rs[i].width,
                    height: rs[i].height,
                    packed_top_left_x: placement_for(ps, i).x,
                    packed_top_left_y: placement_for(ps, i).y,
                }
            } else {
                rs[i]
            },
    )
}

/// A placed rectangle lies inside the `cw` by `ch` container.
pub open spec fn placed_in_bounds(r: Rect, cw: int, ch: int) -> bool {
    &&& 0 <= r.packed_top_left_x
    &&& r.packed_top_left_x + r.width <= cw
    &&& 0 <= r.packed_top_left_y
    &&& r.packed_top_left_y + r.height <= ch
}

/// Two placed rectangles do not overlap: their half-open boxes
/// `[x, x + w) x [y, y + h)` are disjoint.
pub open spec fn disjoint(ra: Rect, rb: Rect) -> bool {
    ||| ra.packed_top_left_x + ra.width <= rb.packed_top_left_x
    ||| rb.packed_top_left_x + rb.width <= ra.packed_top_left_x
    ||| ra.packed_top_left_y + ra.height <= rb.packed_top_left_y
    ||| rb.packed_top_left_y + rb.height <= ra.packed_top_left_y
}

/// The box a placement gives to its rectangle, dimensions taken from
/// the caller's list.
pub open spec fn placement_rect(rs: Seq<Rect>, p: Placement) -> Rect {
    Rect {
        width: rs[p.idx as int].width,
        height: rs[p.idx as int].height,
        packed_top_left_x: p.x,
        packed_top_left_y: p.y,
    }
}

/// Everything `pack` promises of one call on list `rs`: the outcome is
/// the one `spec_pack` names, failures leave the list untouched, and
/// success writes exactly the computed placements.
pub open spec fn pack_post(
    rs: Seq<Rect>,
    cw: i32,
    ch: i32,
    out: Seq<Rect>,
    r: Result<(), PackError>,
) -> bool {
    &&& (r is Ok <==> spec_pack(rs, cw, ch) is Ok)
    &&& (r matches Err(e) ==> spec_pack(rs, cw, ch) == Err::<Seq<Placement>, PackError>(e) && out
        == rs)
    &&& (r is Ok ==> out == apply_placements(rs, spec_pack(rs, cw, ch).unwrap()))
}

/// Determinism: the outcome of `pack` is a function of the rectangle
/// list and the container alone, so two calls that satisfy `pack`'s
/// contract on identical inputs agree exactly — same result, same
/// placements, same final list.
pub proof fn lemma_pack_deterministic(
    rs: Seq<Rect>,
    cw: i32,
    ch: i32,
    out1: Seq<Rect>,
    r1: Result<(), PackError>,
    out2: Seq<Rect>,
    r2: Result<(), PackError>,
)
    requires
        pack_post(rs, cw, ch, out1, r1),
        pack_post(rs, cw, ch, out2, r2),
    ensures
        out1 == out2,
        r1 == r2,
{
    match (r1, r2) {
        (Ok(u1), Ok(u2)) => {
            assert(u1 == u2);
        },
        (Err(e1), Err(e2)) => {
            assert(spec_pack(rs, cw, ch) == Err::<Seq<Placement>, PackError>(e1));
            assert(spec_pack(rs, cw, ch) == Err::<Seq<Placement>, PackError>(e2));
        },
        (Ok(_), Err(_)) => {},
        (Err(_), Ok(_)) => {},
    }
}

/// Some work entry carries index `i`.
pub open spec fn has_idx(work: Seq<WorkRect>, i: int) -> bool {
    exists|t: int| 0 <= t < work.len() && work[t].idx as int == i
}

/// A permutation of the tagged work list keeps each caller index
/// exactly once, with the caller's dimensions attached to it.
proof fn lemma_work_perm(rs: Seq<Rect>, work: Seq<WorkRect>)
    requires
        rs.len() <= usize::MAX,
        work.to_multiset() == spec_work(rs).to_multiset(),
    ensures
        work.len() == rs.len(),
        forall|t: int|
            0 <= t < work.len() ==> (#[trigger] work[t]).idx < rs.len() && work[t] == spec_work(
                rs,
            )[work[t].idx as int],
        forall|t1: int, t2: int| 0 <= t1 < t2 < work.len() ==> work[t1].idx != work[t2].idx,
        forall|i: int| 0 <= i < rs.len() ==> has_idx(work, i),
{
    broadcast use vstd::seq_lib::group_to_multiset_ensures;

    let sw = spec_work(rs);
    assert(work.len() == work.to_multiset().len());
    assert(sw.len() == sw.to_multiset().len());
    assert(work.len() == rs.len());
    assert forall|t: int|
        0 <= t < work.len() implies (#[trigger] work[t]).idx < rs.len() && work[t] == sw[work[t].idx
        as int] by {
        assert(work.contains(work[t]));
        assert(work.to_multiset().count(work[t]) > 0);
        assert(sw.contains(work[t]));
        let u = choose|u: int| 0 <= u < sw.len() && sw[u] == work[t];
        assert(sw[u].idx as int == u);
    }
    assert(sw.no_duplicates()) by {
        assert forall|i: int, j: int|
            0 <= i < sw.len() && 0 <= j < sw.len() && i != j implies sw[i] != sw[j] by {
            assert(sw[i].idx == i && sw[j].idx == j);
        }
    }
    sw.lemma_multiset_has_no_duplicates();
    work.lemma_multiset_has_no_duplicates_conv();
    assert forall|t1: int, t2: int|
        0 <= t1 < t2 < work.len() implies work[t1].idx != work[t2].idx by {
        if work[t1].idx == work[t2].idx {
            assert(work[t1] == sw[work[t1].idx as int]);
            assert(work[t2] == sw[work[t2].idx as int]);
        }
    }
    assert forall|i: int| 0 <= i < rs.len() implies has_idx(work, i) by {
        assert(sw[i].idx as int == i);
        assert(sw.contains(sw[i]));
        assert(work.to_multiset().count(sw[i]) > 0);
        assert(work.contains(sw[i]));
        let t = choose|t: int| 0 <= t < work.len() && work[t] == sw[i];
        assert(work[t].idx as int == i);
    }
}

/// Loop invariant of the packing run: every recorded placement lies in
/// bounds, sits wholly at or below the current skyline, and overlaps no
/// other.
pub open spec fn placements_ok(
    rs: Seq<Rect>,
    ps: Seq<Placement>,
    nodes: Seq<SkylineNode>,
    cw: int,
    ch: int,
) -> bool {
    &&& forall|s: int|
        0 <= s < ps.len() ==> (#[trigger] ps[s]).idx < rs.len() && dims_ok(rs[ps[s].idx as int])
            && placed_in_bounds(placement_rect(rs, ps[s]), cw, ch)
    &&& forall|s: int, c: int|
        #![trigger ps[s], sky_at(nodes, c)]
        0 <= s < ps.len() && ps[s].x <= c < ps[s].x + rs[ps[s].idx as int].width ==> sky_at(
            nodes,
            c,
        ) >= ps[s].y + rs[ps[s].idx as int].height
    &&& forall|s1: int, s2: int|
        0 <= s1 < s2 < ps.len() ==> disjoint(
            #[trigger] placement_rect(rs, ps[s1]),
            #[trigger] placement_rect(rs, ps[s2]),
        )
}

/// Adding one placement at the skyline's best spot, then raising the
/// profile over it, keeps every placement legal: the newcomer rests on
/// the old maximum there, so it clears everything placed before.
proof fn lemma_placements_step(
    rs: Seq<Rect>,
    ps: Seq<Placement>,
    nodes: Seq<SkylineNode>,
    nodes2: Seq<SkylineNode>,
    pl: Placement,
    cw: int,
    ch: int,
)
    requires
        placements_ok(rs, ps, nodes, cw, ch),
        pl.idx < rs.len(),
        dims_ok(rs[pl.idx as int]),
        0 <= pl.x,
        pl.x + rs[pl.idx as int].width <= cw,
        0 <= pl.y,
        pl.y + rs[pl.idx as int].height <= ch,
        pl.y == span_max(nodes, pl.x as int, pl.x + rs[pl.idx as int].width),
        forall|c: int| 0 <= c < pl.x ==> sky_at(nodes2, c) == sky_at(nodes, c),
        forall|c: int|
            pl.x <= c < pl.x + rs[pl.idx as int].width ==> sky_at(nodes2, c) == pl.y + rs[pl.idx
                as int].height,
        forall|c: int| pl.x + rs[pl.idx as int].width <= c ==> sky_at(nodes2, c) == sky_at(
            nodes,
            c,
        ),
    ensures
        placements_ok(rs, ps.push(pl), nodes2, cw, ch),
{
    let ps2 = ps.push(pl);
    let w = rs[pl.idx as int].width;
    let h = rs[pl.idx as int].height;
    let right = pl.x + w;
    assert forall|s: int, c: int|
        #![trigger ps2[s], sky_at(nodes2, c)]
        0 <= s < ps2.len() && ps2[s].x <= c < ps2[s].x + rs[ps2[s].idx as int].width implies sky_at(
        nodes2,
        c,
    ) >= ps2[s].y + rs[ps2[s].idx as int].height by {
        if s < ps.len() {
            assert(ps2[s] == ps[s]);
            assert(sky_at(nodes, c) >= ps[s].y + rs[ps[s].idx as int].height);
            if pl.x <= c < right {
                lemma_span_max_ge(nodes, pl.x as int, right as int, c);
            }
        } else {
            assert(ps2[s] == pl);
        }
    }
    assert forall|s1: int, s2: int|
        0 <= s1 < s2 < ps2.len() implies disjoint(
        #[trigger] placement_rect(rs, ps2[s1]),
        #[trigger] placement_rect(rs, ps2[s2]),
    ) by {
        if s2 == ps.len() {
            assert(ps2[s2] == pl);
            assert(ps2[s1] == ps[s1]);
            let q = ps[s1];
            let qw = rs[q.idx as int].width;
            let qh = rs[q.idx as int].height;
            if q.x + qw <= pl.x || right <= q.x {
            } else {
                let c0 = vstd::math::max(pl.x as int, q.x as int);
                assert(pl.x <= c0 < right);
                assert(q.x <= c0 < q.x + qw);
                assert(sky_at(nodes, c0) >= q.y + qh);
                lemma_span_max_ge(nodes, pl.x as int, right as int, c0);
                assert(pl.y >= q.y + qh);
            }
        }
    }
}

/// Splice an already-recorded prefix of placements onto the outcome of
/// the rest of the run.
pub open spec fn opt_extend(
    prefix: Seq<Placement>,
    rest: Option<(Seq<SkylineNode>, Seq<Placement>)>,
) -> Option<(Seq<SkylineNode>, Seq<Placement>)> {
    match rest {
        None => None,
        Some(r) => Some((r.0, prefix + r.1)),
    }
}

/// Pack every rectangle into a `width` by `height` container, without
/// rotation. On success each rectangle's `packed_top_left_x` /
/// `packed_top_left_y` are set so that every rectangle lies inside the
/// container and no two overlap; on any failure the caller's list is
/// left exactly as it was. The outcome is a function of the inputs
/// alone (`spec_pack`), so identical calls place identically.
///
/// The skyline and its node storage are created fresh for every call
/// and dropped at its end: no state survives the call, and separate
/// calls never share data.
#[verifier::loop_isolation(false)]
#[verifier::rlimit(100)]
pub fn pack(rects: &mut Vec<Rect>, width: i32, height: i32) -> (r: Result<(), PackError>)
    requires
        width >= 1,
        height >= 1,
    ensures
        pack_post(old(rects)@, width, height, final(rects)@, r),
        old(rects)@.len() == 0 <==> r == Err::<(), PackError>(PackError::NoInput),
        (old(rects)@.len() > 0 && !all_dims_ok(old(rects)@)) <==> r == Err::<(), PackError>(
            PackError::Dimension(first_bad(old(rects)@) as usize),
        ),
        r is Err ==> final(rects)@ == old(rects)@,
        r is Ok ==> final(rects)@.len() == old(rects)@.len(),
        r is Ok ==> forall|i: int|
            0 <= i < old(rects)@.len() ==> has_placement(
                spec_pack(old(rects)@, width, height).unwrap(),
                i,
            ),
        r is Ok ==> forall|i: int|
            0 <= i < old(rects)@.len() ==> (#[trigger] final(rects)@[i]).width == old(
                rects,
            )@[i].width && final(rects)@[i].height == old(rects)@[i].height && placed_in_bounds(
                final(rects)@[i],
                width as int,
                height as int,
            ),
        r is Ok ==> forall|i: int, j: int|
            0 <= i < old(rects)@.len() && 0 <= j < old(rects)@.len() && i != j ==> disjoint(
                #[trigger] final(rects)@[i],
                #[trigger] final(rects)@[j],
            ),
{
    let ghost rs = rects@;
    let n: usize = rects.len();
    if n == 0 {
        return Err(PackError::NoInput);
    }
    let mut i: usize = 0;
    while i < n
        invariant
            rects@ == rs,
            i <= n,
            forall|t: int| 0 <= t < i ==> dims_ok(rs[t]),
        decreases n - i,
    {
        let rc = rects[i];
        if rc.width <= 0 || rc.height <= 0 {
            proof {
                lemma_first_bad(rs, i as int);
            }
            return Err(PackError::Dimension(i));
        }
        i = i + 1;
    }
    proof {
        assert(all_dims_ok(rs));
    }
    let mut work_v: Vec<WorkRect> = Vec::new();
    let mut i: usize = 0;
    while i < n
        invariant
            rects@ == rs,
            i <= n,
            work_v@ == spec_work(rs).take(i as int),
        decreases n - i,
    {
        proof {
            assert(spec_work(rs).take(i + 1) =~= spec_work(rs).take(i as int).push(
                spec_work(rs)[i as int],
            ));
        }
        work_v.push(WorkRect { idx: i, w: rects[i].width, h: rects[i].height });
        i = i + 1;
    }
    proof {
        assert(work_v@ =~= spec_work(rs));
    }
    let work = sort_work(work_v);
    proof {
        lemma_work_perm(rs, work@);
    }
    let mut nodes: Vec<SkylineNode> = Vec::new();
    nodes.push(SkylineNode { x: 0, height: 0 });
    nodes.push(SkylineNode { x: width, height: 0 });
    proof {
        assert(nodes@ =~= init_nodes(width));
        assert(work@.skip(0) =~= work@);
        match spec_run(work@, init_nodes(width), width, height) {
            Some(rr) => {
                assert(Seq::<Placement>::empty() + rr.1 =~= rr.1);
            },
            None => {},
        }
    }
    let mut placed: Vec<Placement> = Vec::new();
    let mut t: usize = 0;
    while t < n
        invariant
            rects@ == rs,
            t <= n,
            placed@.len() == t,
            wf_skyline(nodes@, width as int),
            opt_extend(placed@, spec_run(work@.skip(t as int), nodes@, width, height)) == spec_run(
                work@,
                init_nodes(width),
                width,
                height,
            ),
            forall|s: int| 0 <= s < t ==> (#[trigger] placed@[s]).idx == work@[s].idx,
            placements_ok(rs, placed@, nodes@, width as int, height as int),
        decreases n - t,
    {
        let wr = work[t];
        proof {
            assert(work@[t as int] == spec_work(rs)[wr.idx as int]);
            assert(wr.w == rs[wr.idx as int].width);
            assert(wr.h == rs[wr.idx as int].height);
            assert(dims_ok(rs[wr.idx as int]));
            assert(work@.skip(t as int)[0] == wr);
        }
        match find_best(&nodes, wr.w, wr.h, width, height) {
            None => {
                proof {
                    assert(spec_run(work@.skip(t as int), nodes@, width, height) is None);
                    assert(spec_run(work@, init_nodes(width), width, height) is None);
                }
                return Err(PackError::FailedToPack);
            },
            Some(pos) => {
                let px = pos.0;
                let py = pos.1;
                let ghost pl = Placement { idx: wr.idx, x: px, y: py };
                proof {
                    lemma_best_upto_props(
                        nodes@,
                        width as int,
                        height as int,
                        wr.w as int,
                        wr.h as int,
                        nodes@.len() as int,
                    );
                    let i0 = choose|i0: int|
                        0 <= i0 < nodes@.len() && nodes@[i0].x == px as int;
                    if i0 > 0 {
                        assert(nodes@[0].x < nodes@[i0].x);
                    }
                    assert(px >= 0);
                    lemma_span_max_ge(nodes@, px as int, px + wr.w, px as int);
                    lemma_sky_at_nonneg(nodes@, px as int);
                    assert(py >= 0);
                }
                let right = px + wr.w;
                let top = py + wr.h;
                let new_nodes = place_rect(&nodes, px, right, top, width);
                proof {
                    lemma_placements_step(
                        rs,
                        placed@,
                        nodes@,
                        new_nodes@,
                        pl,
                        width as int,
                        height as int,
                    );
                    assert(work@.skip(t as int).drop_first() =~= work@.skip(t + 1));
                    assert(new_nodes@ == spec_update(nodes@, px, right, top, width as int));
                    match spec_run(work@.skip(t + 1), new_nodes@, width, height) {
                        None => {},
                        Some(rest) => {
                            assert(placed@ + (seq![pl] + rest.1) =~= placed@.push(pl) + rest.1);
                        },
                    }
                }
                nodes = new_nodes;
                placed.push(Placement { idx: wr.idx, x: px, y: py });
            },
        }
        t = t + 1;
    }
    proof {
        assert(work@.skip(n as int) =~= Seq::<WorkRect>::empty());
        assert(placed@ + Seq::<Placement>::empty() =~= placed@);
        assert(spec_run(work@, init_nodes(width), width, height) == Some(
            (nodes@, placed@),
        ));
        assert forall|i2: int| 0 <= i2 < n implies has_placement(placed@, i2) by {
            assert(has_idx(work@, i2));
            let t0 = choose|t0: int| 0 <= t0 < work@.len() && work@[t0].idx as int == i2;
            assert(placed@[t0].idx == work@[t0].idx);
        }
    }
    let m = placed.len();
    let mut out: Vec<Rect> = Vec::new();
    let mut i: usize = 0;
    while i < n
        invariant
            rects@ == rs,
            i <= n,
            out@.len() == i,
            forall|u: int| 0 <= u < i ==> out@[u] == apply_placements(rs, placed@)[u],
        decreases n - i,
    {
        let mut t2: usize = 0;
        let mut px: i32 = 0;
        let mut py: i32 = 0;
        let mut found = false;
        while t2 < m
            invariant
                t2 <= m,
                found ==> exists|u: int|
                    0 <= u < t2 && placed@[u].idx as int == i as int && placed@[u].x == px
                        && placed@[u].y == py,
                !found ==> forall|u: int| 0 <= u < t2 ==> placed@[u].idx as int != i as int,
            decreases m - t2,
        {
            if placed[t2].idx == i {
                px = placed[t2].x;
                py = placed[t2].y;
                found = true;
            }
            t2 = t2 + 1;
        }
        proof {
            assert(has_placement(placed@, i as int));
            if !found {
                let u1 = choose|u1: int|
                    0 <= u1 < placed@.len() && placed@[u1].idx as int == i as int;
                assert(placed@[u1].idx as int != i as int);
            }
            assert(found);
            let u = choose|u: int|
                0 <= u < t2 && placed@[u].idx as int == i as int && placed@[u].x == px
                    && placed@[u].y == py;
            let u0 = choose|u0: int|
                0 <= u0 < placed@.len() && placed@[u0].idx as int == i as int;
            assert(placed@[u].idx == work@[u].idx);
            assert(placed@[u0].idx == work@[u0].idx);
            assert(u == u0);
            assert(placement_for(placed@, i as int) == placed@[u]);
        }
        let rc = rects[i];
        if found {
            out.push(
                Rect {
                    width: rc.width,
                    height: rc.height,
                    packed_top_left_x: px,
                    packed_top_left_y: py,
                },
            );
        } else {
            out.push(rc);
        }
        i = i + 1;
    }
    proof {
        assert(out@ =~= apply_placements(rs, placed@));
        assert forall|i2: int|
            0 <= i2 < n implies (#[trigger] out@[i2]).width == rs[i2].width && out@[i2].height
            == rs[i2].height && placed_in_bounds(out@[i2], width as int, height as int) by {
            assert(has_placement(placed@, i2));
            let t0 = choose|t0: int| 0 <= t0 < placed@.len() && placed@[t0].idx as int == i2;
            assert(placed@[t0].idx as int == i2);
            assert(placement_for(placed@, i2) == placed@[t0]);
            assert(placed_in_bounds(placement_rect(rs, placed@[t0]), width as int, height as int));
        }
        assert forall|i2: int, j2: int|
            0 <= i2 < n && 0 <= j2 < n && i2 != j2 implies disjoint(
            #[trigger] out@[i2],
            #[trigger] out@[j2],
        ) by {
            assert(has_placement(placed@, i2));
            assert(has_placement(placed@, j2));
            let ti = choose|t0: int| 0 <= t0 < placed@.len() && placed@[t0].idx as int == i2;
            let tj = choose|t0: int| 0 <= t0 < placed@.len() && placed@[t0].idx as int == j2;
            assert(placement_for(placed@, i2) == placed@[ti]);
            assert(placement_for(placed@, j2) == placed@[tj]);
            if ti < tj {
                assert(disjoint(placement_rect(rs, placed@[ti]), placement_rect(rs, placed@[tj])));
            } else {
                assert(placed@[ti].idx == work@[ti].idx);
                assert(placed@[tj].idx == work@[tj].idx);
                assert(ti != tj);
                assert(disjoint(placement_rect(rs, placed@[tj]), placement_rect(rs, placed@[ti])));
            }
        }
    }
    *rects = out;
    Ok(())
}

} // verus!
