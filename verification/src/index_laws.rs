//! What an index holds after it was filled, in terms of what was put into it.

use crate::code_laws;
use crate::fastscan;
use crate::ivfpq;
use crate::ivfpq::IVFPQIndex;
use crate::metric::MetricType;
use crate::writer;
use vstd::prelude::*;

verus! {

/// As many vectors go to a list as are assigned to it.
proof fn lemma_routed_len(
    assignments: Seq<usize>,
    codes: Seq<u8>,
    ids: Seq<i64>,
    cs: nat,
    n: nat,
    l: int,
)
    requires
        n <= assignments.len(),
        n <= ids.len(),
        n * cs <= codes.len(),
    ensures
        ivfpq::routed_ids(assignments, ids, n, l).len() == assignments.take(n as int).filter(
            |a: usize| a == l,
        ).len(),
        ivfpq::routed_codes(assignments, codes, cs, n, l).len() == assignments.take(
            n as int,
        ).filter(|a: usize| a == l).len() * cs,
    decreases n,
{
    reveal(Seq::filter);
    let here = |a: usize| a == l;
    if n == 0 {
        assert(0 * cs == 0) by (nonlinear_arith);
    } else {
        let m = (n - 1) as nat;
        let before = assignments.take(m as int);
        assert(n * cs == m * cs + cs) by (nonlinear_arith)
            requires
                n == m + 1,
        ;
        lemma_routed_len(assignments, codes, ids, cs, m, l);
        assert(assignments.take(n as int).drop_last() =~= before);
        let h = before.filter(here).len();
        assert((h + 1) * cs == h * cs + cs) by (nonlinear_arith);
        assert(0 <= m * cs) by (nonlinear_arith);
    }
}

/// A vector goes behind those that went to its list before it.
proof fn lemma_routed_at(
    assignments: Seq<usize>,
    codes: Seq<u8>,
    ids: Seq<i64>,
    cs: nat,
    n: nat,
    i: nat,
)
    requires
        i < n <= assignments.len(),
        n <= ids.len(),
        n * cs <= codes.len(),
    ensures
        ({
            let l: int = assignments[i as int] as int;
            let g = assignments.take(i as int).filter(|a: usize| a == l).len();
            let routed = ivfpq::routed_codes(assignments, codes, cs, n, l);
            &&& g < ivfpq::routed_ids(assignments, ids, n, l).len()
            &&& ivfpq::routed_ids(assignments, ids, n, l)[g as int] == ids[i as int]
            &&& g * cs + cs <= routed.len()
            &&& i * cs + cs <= codes.len()
            &&& routed.subrange((g * cs) as int, (g * cs + cs) as int) == codes.subrange(
                (i * cs) as int,
                (i * cs + cs) as int,
            )
        }),
    decreases n,
{
    let l: int = assignments[i as int] as int;
    let m = (n - 1) as nat;
    let g = assignments.take(i as int).filter(|a: usize| a == l).len();
    let old_codes = ivfpq::routed_codes(assignments, codes, cs, m, l);
    let all_codes = ivfpq::routed_codes(assignments, codes, cs, n, l);
    assert(n * cs == m * cs + cs) by (nonlinear_arith)
        requires
            n == m + 1,
    ;
    assert(0 <= g * cs && 0 <= i * cs && 0 <= m * cs) by (nonlinear_arith);
    lemma_routed_len(assignments, codes, ids, cs, m, l);
    if i < m {
        lemma_routed_at(assignments, codes, ids, cs, m, i);
        assert(all_codes.subrange((g * cs) as int, (g * cs + cs) as int) =~= old_codes.subrange(
            (g * cs) as int,
            (g * cs + cs) as int,
        ));
    } else {
        assert(all_codes.subrange((g * cs) as int, (g * cs + cs) as int) =~= codes.subrange(
            (i * cs) as int,
            (i * cs + cs) as int,
        ));
    }
}

/// Every vector that was added stands in the list that it was assigned to,
/// behind what the list held before and behind the vectors that were added to
/// it earlier: its ID and, at the same place, its code, byte for byte.
pub proof fn lemma_added(
    after: IVFPQIndex,
    before: IVFPQIndex,
    assignments: Seq<usize>,
    codes: Seq<u8>,
    ids: Seq<i64>,
    n: nat,
    cs: nat,
    i: nat,
    p: nat,
)
    requires
        after.added(before, assignments, codes, ids, n),
        cs == before.pq.spec_code_size(),
        i < n <= assignments.len(),
        n <= ids.len(),
        n * cs <= codes.len(),
        assignments[i as int] < before.nlist,
        before.codes@[assignments[i as int] as int]@.len()
            == before.ids@[assignments[i as int] as int]@.len() * cs,
    ensures
        ({
            let l: int = assignments[i as int] as int;
            let g: nat = before.ids@[l]@.len() + assignments.take(i as int).filter(
                |a: usize| a == l,
            ).len();
            &&& g < after.ids@[l]@.len()
            &&& after.ids@[l]@[g as int] == ids[i as int]
            &&& p < cs ==> g * cs + p < after.codes@[l]@.len()
            &&& p < cs ==> after.codes@[l]@[(g * cs + p) as int] == codes[(i * cs + p) as int]
        }),
{
    let l: int = assignments[i as int] as int;
    lemma_routed_at(assignments, codes, ids, cs, n, i);
    let held = before.ids@[l]@.len();
    let h = assignments.take(i as int).filter(|a: usize| a == l).len();
    assert((held + h) * cs == held * cs + h * cs) by (nonlinear_arith);
    assert(0 <= h * cs && 0 <= held * cs && 0 <= i * cs) by (nonlinear_arith);
    assert(after.ids@[l]@ == before.ids@[l]@ + ivfpq::routed_ids(assignments, ids, n, l));
    let routed = ivfpq::routed_codes(assignments, codes, cs, n, l);
    assert(after.codes@[l]@ == before.codes@[l]@ + routed);
    if p < cs {
        assert(routed[(h * cs + p) as int] == routed.subrange(
            (h * cs) as int,
            (h * cs + cs) as int,
        )[p as int]);
        assert(codes[(i * cs + p) as int] == codes.subrange(
            (i * cs) as int,
            (i * cs + cs) as int,
        )[p as int]);
    }
}

/// A list grows by the number of vectors that were assigned to it, and what it
/// held stays at its place.
pub proof fn lemma_added_list(
    after: IVFPQIndex,
    before: IVFPQIndex,
    assignments: Seq<usize>,
    codes: Seq<u8>,
    ids: Seq<i64>,
    n: nat,
    l: int,
)
    requires
        after.added(before, assignments, codes, ids, n),
        n <= assignments.len(),
        n <= ids.len(),
        n * before.pq.spec_code_size() <= codes.len(),
        0 <= l < before.nlist,
    ensures
        after.ids@[l]@.len() == before.ids@[l]@.len() + assignments.take(n as int).filter(
            |a: usize| a == l,
        ).len(),
        after.codes@[l]@.len() == before.codes@[l]@.len() + assignments.take(n as int).filter(
            |a: usize| a == l,
        ).len() * before.pq.spec_code_size(),
        forall|g: int|
            #![trigger after.ids@[l]@[g]]
            0 <= g < before.ids@[l]@.len() ==> after.ids@[l]@[g] == before.ids@[l]@[g],
        forall|x: int|
            #![trigger after.codes@[l]@[x]]
            0 <= x < before.codes@[l]@.len() ==> after.codes@[l]@[x] == before.codes@[l]@[x],
{
    let cs = before.pq.spec_code_size();
    lemma_routed_len(assignments, codes, ids, cs, n, l);
    assert(after.ids@[l]@ == before.ids@[l]@ + ivfpq::routed_ids(assignments, ids, n, l));
    assert(after.codes@[l]@ == before.codes@[l]@ + ivfpq::routed_codes(
        assignments,
        codes,
        cs,
        n,
        l,
    ));
}

/// Adding changes nothing but the lists and what was derived from them: that is
/// dropped as soon as one vector is added, and stays as it is if none is.
pub proof fn lemma_added_rest(
    after: IVFPQIndex,
    before: IVFPQIndex,
    assignments: Seq<usize>,
    codes: Seq<u8>,
    ids: Seq<i64>,
    n: nat,
)
    requires
        after.added(before, assignments, codes, ids, n),
    ensures
        after.d == before.d,
        after.nlist == before.nlist,
        after.metric == before.metric,
        after.by_residual == before.by_residual,
        after.quantizer_centroids == before.quantizer_centroids,
        after.pq == before.pq,
        after.opq == before.opq,
        after.ids@.len() == before.ids@.len(),
        after.codes@.len() == before.codes@.len(),
        n > 0 ==> after.fastscan_codes@ == Seq::<Vec<u8>>::empty() && after.precomputed_table@
            == Seq::<u32>::empty(),
        n == 0 ==> after.fastscan_codes == before.fastscan_codes && after.precomputed_table
            == before.precomputed_table,
{
}

/// Merging puts the vectors of the other index behind those of a list, each ID
/// with its code; it drops what was derived from the lists and changes nothing
/// else.
pub proof fn lemma_merged(after: IVFPQIndex, before: IVFPQIndex, other: IVFPQIndex, l: int, g: int)
    requires
        after.merged(before, other),
        0 <= l < before.nlist,
        before.codes@[l]@.len() == before.ids@[l]@.len() * before.pq.spec_code_size(),
        other.codes@[l]@.len() == other.ids@[l]@.len() * before.pq.spec_code_size(),
    ensures
        after.ids@[l]@.len() == before.ids@[l]@.len() + other.ids@[l]@.len(),
        after.codes@[l]@.len() == before.codes@[l]@.len() + other.codes@[l]@.len(),
        0 <= g < before.ids@[l]@.len() ==> after.ids@[l]@[g] == before.ids@[l]@[g],
        0 <= g < other.ids@[l]@.len() ==> after.ids@[l]@[before.ids@[l]@.len() + g]
            == other.ids@[l]@[g],
        forall|x: int|
            #![trigger after.codes@[l]@[x]]
            0 <= x < before.codes@[l]@.len() ==> after.codes@[l]@[x] == before.codes@[l]@[x],
        0 <= g < other.ids@[l]@.len() ==> forall|p: int|
            0 <= p < before.pq.spec_code_size() ==> #[trigger] after.codes@[l]@[(
            before.ids@[l]@.len() + g) * before.pq.spec_code_size() + p] == other.codes@[l]@[g
                * before.pq.spec_code_size() + p],
        after.d == before.d,
        after.nlist == before.nlist,
        after.metric == before.metric,
        after.by_residual == before.by_residual,
        after.quantizer_centroids == before.quantizer_centroids,
        after.pq == before.pq,
        after.opq == before.opq,
        after.ids@.len() == before.ids@.len(),
        after.codes@.len() == before.codes@.len(),
        after.fastscan_codes@ == Seq::<Vec<u8>>::empty(),
        after.precomputed_table@ == Seq::<u32>::empty(),
{
    let cs = before.pq.spec_code_size();
    let held = before.ids@[l]@.len();
    let more = other.ids@[l]@.len();
    assert(after.ids@[l]@ == before.ids@[l]@ + other.ids@[l]@);
    assert(after.codes@[l]@ == before.codes@[l]@ + other.codes@[l]@);
    if 0 <= g < more {
        assert((held + g) * cs == held * cs + g * cs) by (nonlinear_arith);
        assert(0 <= g * cs && g * cs + cs <= more * cs) by (nonlinear_arith)
            requires
                0 <= g,
                g + 1 <= more,
        ;
    }
}

/// The number of lists for `n` vectors: between 1 and 65536; full lists of the
/// wanted size, as many as there can be, between those bounds.
pub proof fn lemma_list_count(n: nat, target: nat)
    requires
        target > 0,
    ensures
        1 <= ivfpq::list_count_for(n, target) <= 65536,
        ivfpq::list_count_for(n, target) > 1 ==> ivfpq::list_count_for(n, target) * target <= n,
        ivfpq::list_count_for(n, target) < 65536 ==> n < (ivfpq::list_count_for(n, target) + 1)
            * target,
        ivfpq::list_count_for(n, 0) == ivfpq::list_count_for(n, 1),
{
    let lists = n / target;
    let count = ivfpq::list_count_for(n, target);
    vstd::arithmetic::div_mod::lemma_fundamental_div_mod(n as int, target as int);
    assert(n == target * lists + n % target);
    assert(n % target < target) by (nonlinear_arith)
        requires
            target > 0,
    ;
    assert(target * lists == lists * target) by (nonlinear_arith);
    assert((lists + 1) * target == lists * target + target) by (nonlinear_arith);
    assert(count <= lists ==> count * target <= lists * target) by (nonlinear_arith);
    assert(count >= lists ==> (count + 1) * target >= (lists + 1) * target) by (nonlinear_arith);
}

/// A new index has its dimensions, no vector and no training: the residual is
/// used with the Euclidean distance alone, and a rotation is there if it was
/// asked for.
pub proof fn lemma_new(
    index: IVFPQIndex,
    d: usize,
    nlist: usize,
    m: usize,
    nbits: usize,
    metric: MetricType,
    use_opq: bool,
)
    requires
        index.is_new(d, nlist, m, nbits, metric, use_opq),
    ensures
        index.d == d,
        index.nlist == nlist,
        index.metric == metric,
        index.by_residual <==> metric is L2,
        index.quantizer_centroids@.len() == 0,
        index.ids@.len() == nlist,
        index.codes@.len() == nlist,
        forall|l: int|
            #![trigger index.ids@[l]]
            #![trigger index.codes@[l]]
            0 <= l < nlist ==> index.ids@[l]@.len() == 0 && index.codes@[l]@.len() == 0,
        index.precomputed_table@.len() == 0,
        index.fastscan_codes@.len() == 0,
        index.pq.d == d,
        index.pq.m == m,
        index.pq.nbits == nbits,
        index.pq.dsub == d / m,
        nbits == 8 ==> index.pq.ksub == 256 && index.pq.centroids@.len() == m * 256 * (d / m),
        nbits == 4 ==> index.pq.ksub == 16 && index.pq.centroids@.len() == m * 16 * (d / m),
        forall|x: int|
            0 <= x < index.pq.centroids@.len() ==> #[trigger] index.pq.centroids@[x] == 0,
        index.opq is Some <==> use_opq,
        use_opq ==> {
            let opq = index.opq->0;
            &&& opq.d == d
            &&& opq.m == m
            &&& opq.niter == 50
            &&& opq.niter_pq == 4
            &&& opq.niter_pq_0 == 40
            &&& opq.max_train_points == 65536
            &&& opq.rotation@.len() == d * d
            &&& forall|x: int| 0 <= x < d * d ==> #[trigger] opq.rotation@[x] == 0
            &&& !opq.is_trained
        },
{
    vstd::arithmetic::power2::lemma2_to64();
    assert(0 <= d * d) by (nonlinear_arith);
    let size = m * vstd::arithmetic::power2::pow2(nbits as nat) * (d / m);
    assert(0 <= d / m || m == 0) by (nonlinear_arith);
    assert forall|l: int|
        #![trigger index.ids@[l]]
        #![trigger index.codes@[l]]
        0 <= l < nlist implies index.ids@[l]@.len() == 0 && index.codes@[l]@.len() == 0 by {
        assert(index.ids@[l]@ == Seq::<i64>::empty());
        assert(index.codes@[l]@ == Seq::<u8>::empty());
    }
}

/// The number of IDs in lists is the sum of their lengths.
pub proof fn lemma_total(ids: Seq<Vec<i64>>, n: nat)
    requires
        n <= ids.len(),
    ensures
        ivfpq::total_len(ids, n) == ids.take(n as int).map_values(
            |l: Vec<i64>| l@.len() as int,
        ).fold_left(0int, |a: int, b: int| a + b),
    decreases n,
{
    let len_of = |l: Vec<i64>| l@.len() as int;
    if n > 0 {
        lemma_total(ids, (n - 1) as nat);
        assert(ids.take(n as int).map_values(len_of).drop_last() =~= ids.take(n - 1).map_values(
            len_of,
        ));
    }
}

/// The block layout holds every code: 32 vectors make a block, which holds the
/// first byte of each, then the second byte of each, and so on.
pub proof fn lemma_blocks_current(index: IVFPQIndex, l: int, g: nat, p: nat)
    requires
        index.fastscan_current(),
        0 <= l < index.codes@.len(),
        g < index.ids@[l]@.len(),
        p < index.pq.spec_code_size(),
    ensures
        index.pq.nbits == 4,
        index.fastscan_codes@.len() == index.codes@.len(),
        index.fastscan_codes@[l]@[(((g / 32) * index.pq.spec_code_size() + p) * 32 + g % 32) as int]
            == index.codes@[l]@[(g * index.pq.spec_code_size() + p) as int],
{
    let cs = index.pq.spec_code_size();
    assert(index.fastscan_codes@[l]@ == fastscan::packed(
        index.codes@[l]@,
        index.ids@[l]@.len(),
        cs,
    ));
    code_laws::lemma_packed(index.codes@[l]@, index.ids@[l]@.len(), cs, g, p);
}

/// An index has as many lists as it says, with one code for every ID, and its
/// blocks, if there are any, hold these codes.
pub proof fn lemma_sound(index: IVFPQIndex, l: int)
    requires
        index.wf(),
    ensures
        index.ids@.len() == index.nlist,
        index.codes@.len() == index.nlist,
        0 <= l < index.nlist && index.pq.nbits == 8 ==> index.codes@[l]@.len()
            == index.ids@[l]@.len() * index.pq.m,
        0 <= l < index.nlist && index.pq.nbits == 4 ==> index.codes@[l]@.len()
            == index.ids@[l]@.len() * (index.pq.m as int / 2),
        index.fastscan_codes@.len() > 0 ==> index.fastscan_current(),
        index.scans_blocks() <==> index.fastscan_codes@.len() > 0 && index.pq.nbits == 4,
        index.takes_table() <==> index.metric is L2 && index.by_residual,
{
}

/// An index is sound if it has as many lists as it says, one code for every ID,
/// and nothing that is derived from them.
pub proof fn lemma_sound_if(index: IVFPQIndex)
    requires
        index.ids@.len() == index.nlist,
        index.codes@.len() == index.nlist,
        index.fastscan_codes@.len() == 0,
        index.pq.nbits == 8,
        forall|l: int|
            #![trigger index.codes@[l]]
            0 <= l < index.nlist ==> index.codes@[l]@.len() == index.ids@[l]@.len() * index.pq.m,
    ensures
        index.wf(),
{
}

/// Two indexes with one training differ in their lists, and in what is derived
/// from these, at most.
pub proof fn lemma_same_training(a: IVFPQIndex, b: IVFPQIndex)
    ensures
        a.same_training(&b) <==> {
            &&& a.d == b.d
            &&& a.nlist == b.nlist
            &&& a.metric == b.metric
            &&& a.by_residual == b.by_residual
            &&& a.quantizer_centroids == b.quantizer_centroids
            &&& a.pq == b.pq
            &&& a.opq == b.opq
        },
{
}

/// An index with four bits for every part is sound under the same conditions,
/// with half a byte for every part.
pub proof fn lemma_sound_four_bits(index: IVFPQIndex)
    requires
        index.ids@.len() == index.nlist,
        index.codes@.len() == index.nlist,
        index.fastscan_codes@.len() == 0,
        index.pq.nbits == 4,
        forall|l: int|
            #![trigger index.codes@[l]]
            0 <= l < index.nlist ==> index.codes@[l]@.len() == index.ids@[l]@.len() * (
            index.pq.m as nat / 2),
    ensures
        index.wf(),
{
}

/// An index can be written if it has its lists and a code for every ID.
pub proof fn lemma_writable(index: &IVFPQIndex)
    ensures
        index.wf() ==> writer::writable(index),
{
    if index.wf() {
        assert forall|i: int| #![trigger index.codes@[i]] 0 <= i < index.nlist implies
            index.ids@[i]@.len() * index.pq.spec_code_size() <= index.codes@[i]@.len() by {}
    }
}

/// The room that is set aside for a file: 64 bytes, four for every number, sixteen
/// for every list, and for a list twelve bytes, ten for every ID, and its codes.
pub proof fn lemma_room(index: &IVFPQIndex)
    requires
        index.ids@.len() == index.nlist,
    ensures
        writer::file_room(index) == 64 + 4 * ((if index.opq is Some {
            index.opq->0.rotation@.len() as int
        } else {
            0
        }) + index.quantizer_centroids@.len() + index.pq.centroids@.len()) + 16 * index.nlist
            + index.ids@.map_values(
            |l: Vec<i64>| 12 + 10 * l@.len() as int + l@.len() * index.pq.spec_code_size(),
        ).fold_left(0int, |a: int, b: int| a + b),
{
    lemma_lists_room(index, index.nlist as nat);
    assert(index.ids@.take(index.nlist as int) =~= index.ids@);
}

proof fn lemma_lists_room(index: &IVFPQIndex, n: nat)
    requires
        n <= index.ids@.len(),
    ensures
        writer::lists_room(index, n) == index.ids@.take(n as int).map_values(
            |l: Vec<i64>| 12 + 10 * l@.len() as int + l@.len() * index.pq.spec_code_size(),
        ).fold_left(0int, |a: int, b: int| a + b),
    decreases n,
{
    let room = |l: Vec<i64>| 12 + 10 * l@.len() as int + l@.len() * index.pq.spec_code_size();
    if n > 0 {
        lemma_lists_room(index, (n - 1) as nat);
        assert(index.ids@.take(n as int).map_values(room).drop_last() =~= index.ids@.take(
            n - 1,
        ).map_values(room));
    }
}

} // verus!
