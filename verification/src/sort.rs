//! Stable sorting, by the order of positions.

use vstd::multiset::Multiset;
use vstd::prelude::*;
use vstd::relations;
use vstd::seq_lib;

verus! {

/// Position `a` comes before position `b`, or is the same: its key is smaller,
/// or the keys are equal and `a` is not behind `b`.
pub open spec fn before(keys: Seq<i64>, a: int, b: int) -> bool {
    keys[a] < keys[b] || (keys[a] == keys[b] && a <= b)
}

/// The positions from `lo` up to `hi`.
pub open spec fn positions(lo: int, hi: int) -> Seq<int> {
    Seq::new((hi - lo) as nat, |i: int| lo + i)
}

/// The positions of `keys`, by ascending key; among equal keys the earlier
/// position comes first.
pub open spec fn sorted_order(keys: Seq<i64>) -> Seq<int> {
    positions(0, keys.len() as int).sort_by(|a: int, b: int| before(keys, a, b))
}

/// Positions as mathematical integers.
pub open spec fn ints(s: Seq<usize>) -> Seq<int> {
    s.map_values(|i: usize| i as int)
}

proof fn lemma_before_total(keys: Seq<i64>)
    ensures
        relations::total_ordering(|a: int, b: int| before(keys, a, b)),
{
}

/// The sorted order holds every position once, with ascending keys, and keeps
/// equal keys in their order.
pub proof fn lemma_sorted_order(keys: Seq<i64>)
    ensures
        sorted_order(keys).len() == keys.len(),
        sorted_order(keys).to_multiset() == positions(0, keys.len() as int).to_multiset(),
        sorted_order(keys).no_duplicates(),
        forall|i: int|
            0 <= i < keys.len() ==> 0 <= #[trigger] sorted_order(keys)[i] < keys.len(),
        forall|i: int, j: int|
            #![trigger sorted_order(keys)[i], sorted_order(keys)[j]]
            0 <= i < j < keys.len() ==> {
                let a = sorted_order(keys)[i];
                let b = sorted_order(keys)[j];
                keys[a] < keys[b] || (keys[a] == keys[b] && a < b)
            },
{
    broadcast use {seq_lib::group_to_multiset_ensures, vstd::multiset::group_multiset_axioms};

    let all = positions(0, keys.len() as int);
    let leq = |a: int, b: int| before(keys, a, b);
    let order = sorted_order(keys);
    lemma_before_total(keys);
    all.lemma_sort_by_ensures(leq);
    assert(all.to_multiset().len() == order.to_multiset().len());
    assert(all.no_duplicates());
    all.lemma_multiset_has_no_duplicates();
    order.lemma_multiset_has_no_duplicates_conv();
    assert forall|i: int| 0 <= i < keys.len() implies 0 <= #[trigger] order[i] < keys.len() by {
        assert(order.contains(order[i]));
        assert(all.contains(order[i]));
    }
    assert forall|i: int, j: int|
        #![trigger order[i], order[j]]
        0 <= i < j < keys.len() implies {
        let a = order[i];
        let b = order[j];
        keys[a] < keys[b] || (keys[a] == keys[b] && a < b)
    } by {
        assert(leq(order[i], order[j]));
    }
}

proof fn lemma_skip_multiset(s: Seq<int>, i: int)
    requires
        0 <= i < s.len(),
    ensures
        s.skip(i).to_multiset() == s.skip(i + 1).to_multiset().insert(s[i]),
{
    broadcast use {seq_lib::group_to_multiset_ensures, vstd::multiset::group_multiset_axioms};

    let t = s.skip(i);
    assert(t.remove(0) =~= s.skip(i + 1));
    assert(t.remove(0).to_multiset() == t.to_multiset().remove(s[i]));
    assert(t.contains(t[0]));
    assert(t.to_multiset().remove(s[i]).insert(s[i]) =~= t.to_multiset());
}

fn merge(keys: &[i64], left: &Vec<usize>, right: &Vec<usize>) -> (out: Vec<usize>)
    requires
        relations::sorted_by(ints(left@), |a: int, b: int| before(keys@, a, b)),
        relations::sorted_by(ints(right@), |a: int, b: int| before(keys@, a, b)),
        forall|i: int| 0 <= i < left@.len() ==> left@[i] < keys@.len(),
        forall|i: int| 0 <= i < right@.len() ==> right@[i] < keys@.len(),
    ensures
        relations::sorted_by(ints(out@), |a: int, b: int| before(keys@, a, b)),
        ints(out@).to_multiset() == ints(left@).to_multiset().add(ints(right@).to_multiset()),
        forall|i: int| 0 <= i < out@.len() ==> out@[i] < keys@.len(),
{
    broadcast use {seq_lib::group_to_multiset_ensures, vstd::multiset::group_multiset_axioms};

    let ghost leq = |a: int, b: int| before(keys@, a, b);
    let ghost ls = ints(left@);
    let ghost rs = ints(right@);
    let mut out: Vec<usize> = Vec::new();
    let mut i: usize = 0;
    let mut j: usize = 0;
    proof {
        assert(ls.skip(0) =~= ls);
        assert(rs.skip(0) =~= rs);
        assert(ints(out@) =~= Seq::<int>::empty());
        assert(ints(out@).to_multiset().add(ls.to_multiset()).add(rs.to_multiset()) =~= ls.to_multiset().add(
            rs.to_multiset(),
        ));
    }
    while i < left.len() || j < right.len()
        invariant
            i <= left@.len(),
            j <= right@.len(),
            ls == ints(left@),
            rs == ints(right@),
            leq == (|a: int, b: int| before(keys@, a, b)),
            relations::sorted_by(ls, leq),
            relations::sorted_by(rs, leq),
            forall|k: int| 0 <= k < left@.len() ==> left@[k] < keys@.len(),
            forall|k: int| 0 <= k < right@.len() ==> right@[k] < keys@.len(),
            forall|k: int| 0 <= k < out@.len() ==> out@[k] < keys@.len(),
            ints(out@).to_multiset().add(ls.skip(i as int).to_multiset()).add(
                rs.skip(j as int).to_multiset(),
            ) == ls.to_multiset().add(rs.to_multiset()),
            relations::sorted_by(ints(out@), leq),
            forall|k: int|
                #![trigger out@[k]]
                0 <= k < out@.len() && i < left@.len() ==> before(
                    keys@,
                    out@[k] as int,
                    left@[i as int] as int,
                ),
            forall|k: int|
                #![trigger out@[k]]
                0 <= k < out@.len() && j < right@.len() ==> before(
                    keys@,
                    out@[k] as int,
                    right@[j as int] as int,
                ),
        decreases left@.len() - i + right@.len() - j,
    {
        let mut from_left: bool = j >= right.len();
        if i < left.len() && j < right.len() {
            let a: usize = left[i];
            let b: usize = right[j];
            from_left = keys[a] < keys[b] || (keys[a] == keys[b] && a <= b);
        }
        let ghost before_out = ints(out@);
        if from_left {
            let a: usize = left[i];
            proof {
                lemma_skip_multiset(ls, i as int);
                assert(ints(out@.push(a)) =~= before_out.push(a as int));
                seq_lib::to_multiset_build(before_out, a as int);
                assert(before_out.push(a as int).to_multiset().add(ls.skip(i + 1).to_multiset()).add(
                    rs.skip(j as int).to_multiset(),
                ) =~= before_out.to_multiset().add(ls.skip(i as int).to_multiset()).add(
                    rs.skip(j as int).to_multiset(),
                ));
                assert(i + 1 < left@.len() ==> leq(ls[i as int], ls[i + 1]));
            }
            out.push(a);
            i = i + 1;
        } else {
            let b: usize = right[j];
            proof {
                lemma_skip_multiset(rs, j as int);
                assert(ints(out@.push(b)) =~= before_out.push(b as int));
                seq_lib::to_multiset_build(before_out, b as int);
                assert(before_out.push(b as int).to_multiset().add(ls.skip(i as int).to_multiset()).add(
                    rs.skip(j + 1).to_multiset(),
                ) =~= before_out.to_multiset().add(ls.skip(i as int).to_multiset()).add(
                    rs.skip(j as int).to_multiset(),
                ));
                assert(j + 1 < right@.len() ==> leq(rs[j as int], rs[j + 1]));
            }
            out.push(b);
            j = j + 1;
        }
        proof {
            let now = ints(out@);
            let n: int = before_out.len() as int;
            assert forall|p: int, q: int| 0 <= p < q < now.len() implies #[trigger] leq(
                now[p],
                now[q],
            ) by {
                assert(now[p] == before_out[p]);
                if q < n {
                    assert(now[q] == before_out[q]);
                    assert(leq(before_out[p], before_out[q]));
                } else {
                    assert(out@[p] as int == before_out[p]);
                }
            }
        }
    }
    proof {
        assert(ls.skip(i as int) =~= Seq::<int>::empty());
        assert(rs.skip(j as int) =~= Seq::<int>::empty());
        assert(ints(out@).to_multiset().add(Multiset::empty()).add(Multiset::empty()) =~= ints(
            out@,
        ).to_multiset());
    }
    out
}

fn sort_range(keys: &[i64], lo: usize, hi: usize) -> (out: Vec<usize>)
    requires
        lo <= hi <= keys@.len(),
    ensures
        relations::sorted_by(ints(out@), |a: int, b: int| before(keys@, a, b)),
        ints(out@).to_multiset() == positions(lo as int, hi as int).to_multiset(),
        forall|i: int| 0 <= i < out@.len() ==> out@[i] < keys@.len(),
    decreases hi - lo,
{
    let mut out: Vec<usize> = Vec::new();
    if lo == hi {
        assert(ints(out@) =~= positions(lo as int, hi as int));
        return out;
    }
    if hi - lo == 1 {
        out.push(lo);
        assert(ints(out@) =~= positions(lo as int, hi as int));
        return out;
    }
    let mid: usize = lo + (hi - lo) / 2;
    let left: Vec<usize> = sort_range(keys, lo, mid);
    let right: Vec<usize> = sort_range(keys, mid, hi);
    proof {
        let a = positions(lo as int, mid as int);
        let b = positions(mid as int, hi as int);
        seq_lib::lemma_multiset_commutative(a, b);
        assert(a + b =~= positions(lo as int, hi as int));
    }
    merge(keys, &left, &right)
}

/// The positions of `keys` in sorted order.
pub fn sort_order(keys: &[i64]) -> (order: Vec<usize>)
    ensures
        ints(order@) == sorted_order(keys@),
{
    let order: Vec<usize> = sort_range(keys, 0, keys.len());
    proof {
        let leq = |a: int, b: int| before(keys@, a, b);
        lemma_before_total(keys@);
        positions(0, keys@.len() as int).lemma_sort_by_ensures(leq);
        seq_lib::lemma_sorted_unique(ints(order@), sorted_order(keys@), leq);
    }
    order
}

} // verus!
