//! The deterministic packing order: a working copy of each rectangle is
//! tagged with its original index and sorted by height, then width (both
//! descending), then original index (ascending). The index key makes the
//! order total, so the sorted sequence is unique and packing is
//! reproducible.

use vstd::prelude::*;

verus! {

/// A working rectangle: the caller's dimensions plus the index it held
/// in the caller's list, which carries the placement back.
#[derive(Clone, Copy, Debug, PartialEq, Eq, Structural)]
pub struct WorkRect {
    pub idx: usize,
    pub w: i32,
    pub h: i32,
}

/// `a` packs no later than `b`: taller first, then wider, then the
/// earlier original index. Total, so ties cannot arise.
pub open spec fn work_le(a: WorkRect, b: WorkRect) -> bool {
    ||| a.h > b.h
    ||| (a.h == b.h && a.w > b.w)
    ||| (a.h == b.h && a.w == b.w && a.idx <= b.idx)
}

/// The packing order as a relation value, for vstd's sorting lemmas.
pub open spec fn work_order() -> spec_fn(WorkRect, WorkRect) -> bool {
    |a: WorkRect, b: WorkRect| work_le(a, b)
}

pub proof fn lemma_work_order_total()
    ensures
        vstd::relations::total_ordering(work_order()),
{
}

/// Swapping two positions of a sequence keeps its multiset of elements.
proof fn lemma_swap_multiset(s: Seq<WorkRect>, i: int, j: int)
    requires
        0 <= i < s.len(),
        0 <= j < s.len(),
        i != j,
    ensures
        s.update(i, s[j]).update(j, s[i]).to_multiset() == s.to_multiset(),
{
    broadcast use vstd::seq_lib::group_to_multiset_ensures;
    broadcast use vstd::multiset::group_multiset_axioms;

    let s1 = s.update(i, s[j]);
    let s2 = s1.update(j, s[i]);
    assert(s.contains(s[i]));
    assert(s1[j] == s[j]);
    assert(s1.to_multiset() == s.to_multiset().insert(s[j]).remove(s[i]));
    assert(s2.to_multiset() == s1.to_multiset().insert(s[i]).remove(s[j]));
    assert(s2.to_multiset() =~= s.to_multiset());
}

/// Does `a` pack no later than `b`? The executable mirror of `work_le`.
fn order_le(a: &WorkRect, b: &WorkRect) -> (r: bool)
    ensures
        r == work_le(*a, *b),
{
    if a.h != b.h {
        a.h > b.h
    } else if a.w != b.w {
        a.w > b.w
    } else {
        a.idx <= b.idx
    }
}

/// Insertion-sort the working rectangles into packing order. The order
/// is total and antisymmetric (the index breaks every tie), so the
/// result is the one and only sorted permutation of the input.
#[verifier::loop_isolation(false)]
pub fn sort_work(input: Vec<WorkRect>) -> (r: Vec<WorkRect>)
    ensures
        r@ == input@.sort_by(work_order()),
        r@.to_multiset() == input@.to_multiset(),
        vstd::relations::sorted_by(r@, work_order()),
        r@.len() == input@.len(),
{
    let ghost orig = input@;
    let mut v = input;
    let n: usize = v.len();
    let mut i: usize = 1;
    while i < n
        invariant
            1 <= i,
            i <= n || n <= 1,
            v@.len() == n,
            v@.to_multiset() == orig.to_multiset(),
            forall|p: int, q: int| 0 <= p < q < i && q < n ==> work_le(v@[p], v@[q]),
        decreases n - i,
    {
        let mut j: usize = i;
        while j > 0 && !order_le(&v[j - 1], &v[j])
            invariant
                0 <= j <= i < n,
                v@.len() == n,
                v@.to_multiset() == orig.to_multiset(),
                forall|p: int, q: int| 0 <= p < q <= i && q != j ==> work_le(v@[p], v@[q]),
                forall|q: int| j < q <= i ==> work_le(v@[j as int], v@[q]),
            decreases j,
        {
            let x = v[j - 1];
            let y = v[j];
            proof {
                lemma_swap_multiset(v@, j - 1, j as int);
            }
            v.set(j - 1, y);
            v.set(j, x);
            j = j - 1;
        }
        proof {
            assert forall|p: int, q: int| 0 <= p < q < i + 1 implies work_le(v@[p], v@[q]) by {
                if q == j as int && p < j - 1 {
                    assert(work_le(v@[p], v@[j - 1]));
                    assert(work_le(v@[j - 1], v@[j as int]));
                }
            }
        }
        i = i + 1;
    }
    proof {
        lemma_work_order_total();
        assert(vstd::relations::sorted_by(v@, work_order()));
        orig.lemma_sort_by_ensures(work_order());
        vstd::seq_lib::lemma_sorted_unique(v@, orig.sort_by(work_order()), work_order());
    }
    v
}

} // verus!
