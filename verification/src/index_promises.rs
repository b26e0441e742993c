//! What building and filling an index does, in terms of the arguments.

use crate::index_laws;
use crate::ivfpq::IVFPQIndex;
use crate::layout::CodeLayout;
use crate::metric::MetricType;
use crate::opq;
use crate::opq::OPQMatrix;
use crate::pq::ProductQuantizer;
use vstd::arithmetic::power2;
use vstd::prelude::*;

verus! {

/// A vector that was added stands in its list, behind what the list held and
/// behind what was added to it earlier: its ID and, at the same place, its code,
/// byte for byte.
pub proof fn lemma_add(
    before: IVFPQIndex,
    after: IVFPQIndex,
    assignments: &[usize],
    codes: &[u8],
    ids: &[i64],
    n: usize,
    cs: nat,
    i: nat,
    p: nat,
)
    requires
        exists|s: &mut IVFPQIndex|
            #[trigger] call_ensures(IVFPQIndex::add, (s, assignments, codes, ids, n), ()) && *s
                == before && *final(s) == after,
        before.wf(),
        cs == before.pq.m || before.pq.nbits == 4,
        cs == before.pq.m as nat / 2 || before.pq.nbits != 4,
        i < n <= assignments@.len(),
        n <= ids@.len(),
        n * cs <= codes@.len(),
        assignments@[i as int] < before.nlist,
    ensures
        ({
            let l: int = assignments@[i as int] as int;
            let g: nat = before.ids@[l]@.len() + assignments@.take(i as int).filter(
                |a: usize| a == l,
            ).len();
            &&& g < after.ids@[l]@.len()
            &&& after.ids@[l]@[g as int] == ids@[i as int]
            &&& p < cs ==> g * cs + p < after.codes@[l]@.len()
            &&& p < cs ==> after.codes@[l]@[(g * cs + p) as int] == codes@[(i * cs + p) as int]
        }),
{
    let l: int = assignments@[i as int] as int;
    assert(before.codes@[l]@.len() == before.ids@[l]@.len() * cs);
    index_laws::lemma_added(after, before, assignments@, codes@, ids@, n as nat, cs, i, p);
}

/// What a list held stays at its place when vectors are added; it grows by the
/// vectors that are assigned to it. What was derived from the lists is dropped,
/// and nothing else changes.
pub proof fn lemma_add_list(
    before: IVFPQIndex,
    after: IVFPQIndex,
    assignments: &[usize],
    codes: &[u8],
    ids: &[i64],
    n: usize,
    cs: nat,
    l: int,
)
    requires
        exists|s: &mut IVFPQIndex|
            #[trigger] call_ensures(IVFPQIndex::add, (s, assignments, codes, ids, n), ()) && *s
                == before && *final(s) == after,
        cs == before.pq.m || before.pq.nbits == 4,
        cs == before.pq.m as nat / 2 || before.pq.nbits != 4,
        n <= assignments@.len(),
        n <= ids@.len(),
        n * cs <= codes@.len(),
        0 <= l < before.nlist,
    ensures
        after.ids@[l]@.len() == before.ids@[l]@.len() + assignments@.take(n as int).filter(
            |a: usize| a == l,
        ).len(),
        after.codes@[l]@.len() == before.codes@[l]@.len() + assignments@.take(n as int).filter(
            |a: usize| a == l,
        ).len() * cs,
        forall|g: int|
            #![trigger after.ids@[l]@[g]]
            0 <= g < before.ids@[l]@.len() ==> after.ids@[l]@[g] == before.ids@[l]@[g],
        forall|x: int|
            #![trigger after.codes@[l]@[x]]
            0 <= x < before.codes@[l]@.len() ==> after.codes@[l]@[x] == before.codes@[l]@[x],
        after.d == before.d,
        after.nlist == before.nlist,
        after.metric == before.metric,
        after.by_residual == before.by_residual,
        after.quantizer_centroids == before.quantizer_centroids,
        after.pq == before.pq,
        after.opq == before.opq,
        after.ids@.len() == before.ids@.len(),
        after.codes@.len() == before.codes@.len(),
        n > 0 ==> after.fastscan_codes@.len() == 0 && after.precomputed_table@.len() == 0,
{
    index_laws::lemma_added_list(after, before, assignments@, codes@, ids@, n as nat, l);
    index_laws::lemma_added_rest(after, before, assignments@, codes@, ids@, n as nat);
}

/// Merging puts the vectors of the other index behind those of each list, every
/// ID with its code, and changes nothing else but what was derived from the
/// lists, which is dropped.
pub proof fn lemma_merge_from(
    before: IVFPQIndex,
    after: IVFPQIndex,
    other: &IVFPQIndex,
    cs: nat,
    l: int,
    g: int,
)
    requires
        exists|s: &mut IVFPQIndex|
            #[trigger] call_ensures(IVFPQIndex::merge_from, (s, other), ()) && *s == before
                && *final(s) == after,
        before.wf(),
        other.wf(),
        before.nlist == other.nlist,
        before.pq.m == other.pq.m,
        before.pq.nbits == other.pq.nbits,
        cs == before.pq.m || before.pq.nbits == 4,
        cs == before.pq.m as nat / 2 || before.pq.nbits != 4,
        0 <= l < before.nlist,
    ensures
        after.ids@[l]@.len() == before.ids@[l]@.len() + other.ids@[l]@.len(),
        after.codes@[l]@.len() == before.codes@[l]@.len() + other.codes@[l]@.len(),
        0 <= g < before.ids@[l]@.len() ==> after.ids@[l]@[g] == before.ids@[l]@[g],
        0 <= g < other.ids@[l]@.len() ==> after.ids@[l]@[before.ids@[l]@.len() + g]
            == other.ids@[l]@[g],
        forall|x: int|
            #![trigger after.codes@[l]@[x]]
            0 <= x < before.codes@[l]@.len() ==> after.codes@[l]@[x] == before.codes@[l]@[x],
        0 <= g < other.ids@[l]@.len() ==> forall|p: int|
            0 <= p < cs ==> #[trigger] after.codes@[l]@[(before.ids@[l]@.len() + g) * cs + p]
                == other.codes@[l]@[g * cs + p],
        after.d == before.d,
        after.nlist == before.nlist,
        after.metric == before.metric,
        after.by_residual == before.by_residual,
        after.quantizer_centroids == before.quantizer_centroids,
        after.pq == before.pq,
        after.opq == before.opq,
        after.ids@.len() == before.ids@.len(),
        after.codes@.len() == before.codes@.len(),
        after.fastscan_codes@.len() == 0,
        after.precomputed_table@.len() == 0,
{
    assert(before.codes@[l]@.len() == before.ids@[l]@.len() * cs);
    assert(other.codes@[l]@.len() == other.ids@[l]@.len() * cs);
    index_laws::lemma_merged(after, before, *other, l, g);
}

/// A new index holds no vector. It uses the residual with the Euclidean distance
/// alone, one byte for every part, and a rotation if it was asked for.
pub proof fn lemma_new(
    d: usize,
    nlist: usize,
    m: usize,
    metric: MetricType,
    use_opq: bool,
    index: IVFPQIndex,
    l: int,
)
    requires
        call_ensures(IVFPQIndex::new, (d, nlist, m, metric, use_opq), index),
    ensures
        index.d == d,
        index.nlist == nlist,
        index.metric == metric,
        index.by_residual <==> metric is L2,
        index.quantizer_centroids@.len() == 0,
        index.ids@.len() == nlist,
        index.codes@.len() == nlist,
        0 <= l < nlist ==> index.ids@[l]@.len() == 0 && index.codes@[l]@.len() == 0,
        index.pq.d == d,
        index.pq.m == m,
        index.pq.nbits == 8,
        index.pq.dsub == d / m,
        index.pq.ksub == 256,
        index.opq is Some <==> use_opq,
        use_opq ==> index.opq->0.d == d && index.opq->0.m == m && !index.opq->0.is_trained,
{
    index_laws::lemma_new(index, d, nlist, m, 8, metric, use_opq);
}

/// An index with four bits for every part has sixteen centroids for each, and
/// one with `nbits` bits as many as they can tell apart.
pub proof fn lemma_with_nbits(
    d: usize,
    nlist: usize,
    m: usize,
    nbits: usize,
    metric: MetricType,
    use_opq: bool,
    index: IVFPQIndex,
)
    requires
        call_ensures(IVFPQIndex::with_nbits, (d, nlist, m, nbits, metric, use_opq), index),
    ensures
        index.d == d,
        index.nlist == nlist,
        index.metric == metric,
        index.by_residual <==> metric is L2,
        index.ids@.len() == nlist,
        index.pq.m == m,
        index.pq.nbits == nbits,
        index.pq.ksub == power2::pow2(nbits as nat),
        nbits == 4 ==> index.pq.ksub == 16,
        nbits == 8 ==> index.pq.ksub == 256,
        index.opq is Some <==> use_opq,
{
    index_laws::lemma_new(index, d, nlist, m, nbits, metric, use_opq);
}

/// The number of lists follows from the number of vectors that each should hold:
/// full lists, as many as there can be, but one at least and 65536 at most.
pub proof fn lemma_with_target_partition_size(
    d: usize,
    n: usize,
    target: usize,
    m: usize,
    metric: MetricType,
    use_opq: bool,
    index: IVFPQIndex,
)
    requires
        call_ensures(
            IVFPQIndex::with_target_partition_size,
            (d, n, target, m, metric, use_opq),
            index,
        ),
    ensures
        1 <= index.nlist <= 65536,
        target > 0 && index.nlist > 1 ==> index.nlist * target <= n,
        target > 0 && index.nlist < 65536 ==> n < (index.nlist + 1) * target,
        target == 0 && 1 <= n <= 65536 ==> index.nlist == n,
        target == 0 && n > 65536 ==> index.nlist == 65536,
        target == 0 && n == 0 ==> index.nlist == 1,
        index.d == d,
        index.metric == metric,
        index.pq.m == m,
        index.pq.nbits == 8,
        index.opq is Some <==> use_opq,
{
    if target > 0 {
        index_laws::lemma_list_count(n as nat, target as nat);
    } else {
        index_laws::lemma_list_count(n as nat, 1);
    }
}

/// An index that takes over a training holds no vector; its centroids, its
/// codebooks and its rotation are those of the other.
pub proof fn lemma_from_trained(trained: &IVFPQIndex, index: IVFPQIndex, l: int)
    requires
        call_ensures(IVFPQIndex::from_trained, (trained,), index),
    ensures
        index.d == trained.d,
        index.nlist == trained.nlist,
        index.metric == trained.metric,
        index.by_residual == trained.by_residual,
        index.quantizer_centroids@ == trained.quantizer_centroids@,
        index.pq.d == trained.pq.d,
        index.pq.m == trained.pq.m,
        index.pq.nbits == trained.pq.nbits,
        index.pq.dsub == trained.pq.dsub,
        index.pq.ksub == trained.pq.ksub,
        index.pq.centroids@ == trained.pq.centroids@,
        index.opq is Some <==> trained.opq is Some,
        trained.opq is Some ==> index.opq->0.rotation@ == trained.opq->0.rotation@
            && index.opq->0.d == trained.opq->0.d && index.opq->0.m == trained.opq->0.m
            && index.opq->0.is_trained,
        index.ids@.len() == trained.nlist,
        index.codes@.len() == trained.nlist,
        0 <= l < trained.nlist ==> index.ids@[l]@.len() == 0 && index.codes@[l]@.len() == 0,
        index.precomputed_table@.len() == 0,
        index.fastscan_codes@.len() == 0,
{
    if 0 <= l < trained.nlist {
        assert(index.ids@[l]@ == Seq::<i64>::empty());
        assert(index.codes@[l]@ == Seq::<u8>::empty());
    }
}

/// Four-bit codes are brought into block layout, byte for byte; the lists stay
/// as they are, and so does an index with other codes.
pub proof fn lemma_build_search_structures(
    before: IVFPQIndex,
    after: IVFPQIndex,
    l: int,
    g: nat,
    p: nat,
)
    requires
        exists|s: &mut IVFPQIndex|
            #[trigger] call_ensures(IVFPQIndex::build_search_structures, (s,), ()) && *s == before
                && *final(s) == after,
        before.wf(),
    ensures
        after.ids == before.ids,
        after.codes == before.codes,
        after.pq == before.pq,
        after.nlist == before.nlist,
        after.precomputed_table == before.precomputed_table,
        before.pq.nbits != 4 ==> after.fastscan_codes == before.fastscan_codes,
        before.pq.nbits == 4 ==> after.fastscan_codes@.len() == before.nlist,
        ({
            let cs: nat = before.pq.m as nat / 2;
            before.pq.nbits == 4 && 0 <= l < before.nlist && g < before.ids@[l]@.len() && p < cs
                ==> after.fastscan_codes@[l]@[(((g / 32) * cs + p) * 32 + g % 32) as int]
                == before.codes@[l]@[(g * cs + p) as int]
        }),
{
    let cs: nat = before.pq.m as nat / 2;
    if before.pq.nbits == 4 && 0 <= l < before.nlist && g < before.ids@[l]@.len() && p < cs {
        index_laws::lemma_blocks_current(after, l, g, p);
    }
}

/// A table of precomputed distances is kept with the Euclidean distance of
/// residuals, and else dropped.
pub proof fn lemma_build_precomputed_table(
    before: IVFPQIndex,
    after: IVFPQIndex,
    table: Vec<u32>,
    yes: bool,
)
    requires
        exists|s: &mut IVFPQIndex|
            #[trigger] call_ensures(IVFPQIndex::build_precomputed_table, (s, table), ()) && *s
                == before && *final(s) == after,
        call_ensures(IVFPQIndex::uses_precomputed, (&after,), yes),
    ensures
        before.metric is L2 && before.by_residual ==> after.precomputed_table == table,
        !(before.metric is L2 && before.by_residual) ==> after.precomputed_table
            == before.precomputed_table,
        after.ids == before.ids,
        after.codes == before.codes,
        after.fastscan_codes == before.fastscan_codes,
        after.pq == before.pq,
        after.nlist == before.nlist,
        yes <==> after.precomputed_table@.len() > 0,
{
}

/// A search reads the blocks, if there are any, else the codes of the list; byte
/// `p` of vector `g` is the same in both.
pub proof fn lemma_scan_codes(
    index: &IVFPQIndex,
    l: usize,
    source: (CodeLayout, &[u8]),
    g: nat,
    p: nat,
)
    requires
        call_ensures(IVFPQIndex::scan_codes, (index, l), source),
        index.wf(),
        l < index.nlist,
        g < index.ids@[l as int]@.len(),
    ensures
        source.0 is Block || source.0 is RowMajor,
        source.0 is Block <==> index.fastscan_codes@.len() > 0 && index.pq.nbits == 4,
        source.0 is Block && p < index.pq.m as nat / 2 ==> source.1@[(((g / 32) * (
        index.pq.m as nat / 2) + p) * 32 + g % 32) as int] == index.codes@[l as int]@[(g * (
        index.pq.m as nat / 2) + p) as int],
        source.0 is RowMajor ==> source.1@ == index.codes@[l as int]@,
{
    if source.0 is Block && p < index.pq.m as nat / 2 {
        index_laws::lemma_blocks_current(*index, l as int, g, p);
    }
}

/// A code takes half a byte for every part with four bits, else a byte.
pub proof fn lemma_code_size(pq: &ProductQuantizer, size: usize)
    requires
        call_ensures(ProductQuantizer::code_size, (pq,), size),
    ensures
        pq.nbits == 4 ==> size == pq.m as int / 2,
        pq.nbits != 4 ==> size == pq.m,
{
}

/// A quantizer whose centroids are all zero.
pub proof fn lemma_quantizer(d: usize, m: usize, nbits: usize, pq: ProductQuantizer, x: int)
    requires
        call_ensures(ProductQuantizer::with_nbits, (d, m, nbits), pq) || (nbits == 8
            && call_ensures(ProductQuantizer::new, (d, m), pq)),
        m > 0,
    ensures
        pq.d == d,
        pq.m == m,
        pq.nbits == nbits,
        pq.dsub == d / m,
        nbits == 4 ==> pq.ksub == 16 && pq.centroids@.len() == m * 16 * (d / m),
        nbits == 8 ==> pq.ksub == 256 && pq.centroids@.len() == m * 256 * (d / m),
        0 <= x < pq.centroids@.len() ==> pq.centroids@[x] == 0,
        pq.centroid_norms_cache@.len() == 0,
{
    power2::lemma2_to64();
    let a: int = m * 16;
    let b: int = m * 256;
    let q: int = d as int / m as int;
    assert(q >= 0) by (nonlinear_arith)
        requires
            q == d as int / m as int,
            m > 0,
            d >= 0,
    ;
    assert(a * q >= 0 && b * q >= 0) by (nonlinear_arith)
        requires
            a >= 0,
            b >= 0,
            q >= 0,
    ;
}

/// A rotation that is to be trained, and one that was read back.
pub proof fn lemma_rotation(d: usize, m: usize, rotation: Vec<u32>, opq: OPQMatrix, x: int)
    ensures
        call_ensures(OPQMatrix::new, (d, m), opq) ==> {
            &&& opq.d == d
            &&& opq.m == m
            &&& opq.niter == 50
            &&& opq.niter_pq == 4
            &&& opq.niter_pq_0 == 40
            &&& opq.max_train_points == 65536
            &&& opq.rotation@.len() == d * d
            &&& 0 <= x < d * d ==> opq.rotation@[x] == 0
            &&& !opq.is_trained
        },
        call_ensures(OPQMatrix::loaded, (d, m, rotation), opq) ==> {
            &&& opq.d == d
            &&& opq.m == m
            &&& opq.niter == 0
            &&& opq.niter_pq == 0
            &&& opq.niter_pq_0 == 0
            &&& opq.max_train_points == 0
            &&& opq.rotation@ == rotation@
            &&& opq.is_trained
        },
{
    assert(0 <= d * d) by (nonlinear_arith);
}

/// The first round of a training starts the quantizer anew, with its own number
/// of rounds; every other goes on.
pub proof fn lemma_quantizer_rounds(opq: &OPQMatrix, iter: usize, rounds: (usize, bool))
    requires
        call_ensures(OPQMatrix::quantizer_rounds, (opq, iter), rounds),
    ensures
        iter == 0 ==> rounds.0 == opq.niter_pq_0 && !rounds.1,
        iter > 0 ==> rounds.0 == opq.niter_pq && rounds.1,
{
}

/// Rows are copied number by number.
pub proof fn lemma_gather(data: &[u32], d: usize, rows: &[usize], out: Vec<u32>, i: int, x: int)
    requires
        call_ensures(opq::gather, (data, d, rows), out),
        forall|y: int| 0 <= y < rows@.len() ==> (#[trigger] rows@[y] + 1) * d <= data@.len(),
    ensures
        out@.len() == rows@.len() * d,
        0 <= i < rows@.len() && 0 <= x < d ==> out@[i * d + x] == data@[rows@[i] * d + x],
{
    opq::lemma_gathered(data@, d as nat, rows@, i, x);
}

/// The picked rows are different ones that exist, as many as were drawn; the
/// first of them is the one that was drawn first.
pub proof fn lemma_pick_rows(n: usize, draws: &[usize], rows: Vec<usize>)
    requires
        call_ensures(opq::pick_rows, (n, draws), rows),
        draws@.len() <= n,
        forall|i: int| 0 <= i < draws@.len() ==> i <= #[trigger] draws@[i] < n,
    ensures
        rows@.len() == draws@.len(),
        rows@.no_duplicates(),
        forall|i: int| 0 <= i < rows@.len() ==> #[trigger] rows@[i] < n,
        draws@.len() > 0 ==> rows@[0] == draws@[0],
{
    opq::lemma_picked(n as nat, draws@);
    if draws@.len() > 0 {
        lemma_first_picked(n as nat, draws@);
    }
}

proof fn lemma_first_picked(n: nat, draws: Seq<usize>)
    requires
        n <= usize::MAX,
        0 < draws.len() <= n,
        forall|i: int| 0 <= i < draws.len() ==> i <= #[trigger] draws[i] < n,
    ensures
        opq::picked(n, draws).len() == draws.len(),
        opq::picked(n, draws)[0] == draws[0],
    decreases draws.len(),
{
    let front = draws.drop_last();
    assert(opq::draws_valid(n, front)) by {
        assert forall|i: int| 0 <= i < front.len() implies i <= #[trigger] front[i] < n by {
            assert(draws[i] == front[i]);
        }
    }
    assert(draws[draws.len() - 1] == draws.last());
    opq::lemma_next_draw(n, front, draws.last());
    opq::lemma_picked(n, front);
    assert(front.push(draws.last()) =~= draws);
    if front.len() > 0 {
        lemma_first_picked(n, front);
        assert(front[0] == draws[0]);
    } else {
        assert(front =~= Seq::empty());
        assert(opq::shuffled(n, Seq::empty())[draws.last() as int] == draws.last());
    }
}

/// A training uses the vectors as they are, if there are no more than it may
/// use; else different ones of them, as many as it may use, each as it is.
pub proof fn lemma_subsample(
    opq: &OPQMatrix,
    data: &[u32],
    n: usize,
    sample: (Vec<u32>, rand::rngs::StdRng),
)
    requires
        call_ensures(OPQMatrix::subsample, (opq, data, n), sample),
        n * opq.d <= data@.len(),
    ensures
        n <= opq.max_train_points ==> sample.0@ == data@.take((n * opq.d) as int),
        n > opq.max_train_points ==> exists|rows: Seq<usize>|
            {
                &&& rows.len() == opq.max_train_points
                &&& #[trigger] rows.no_duplicates()
                &&& forall|i: int| 0 <= i < rows.len() ==> #[trigger] rows[i] < n
                &&& sample.0@.len() == rows.len() * opq.d
                &&& forall|i: int, x: int|
                    0 <= i < rows.len() && 0 <= x < opq.d ==> sample.0@[i * opq.d + x]
                        == #[trigger] data@[rows[i] * opq.d + x]
            },
{
    if n > opq.max_train_points {
        let max = opq.max_train_points as nat;
        let d = opq.d as nat;
        let draws = choose|draws: Seq<usize>|
            #![trigger opq::training_rows(n as nat, max, draws)]
            {
                &&& draws.len() == max
                &&& opq::draws_valid(n as nat, draws)
                &&& sample.0@ == opq::gathered(data@, d, opq::training_rows(n as nat, max, draws))
            };
        let rows = opq::training_rows(n as nat, max, draws);
        opq::lemma_training_rows(n as nat, max, draws);
        assert forall|y: int| 0 <= y < rows.len() implies (#[trigger] rows[y] + 1) * d
            <= data@.len() by {
            assert((rows[y] + 1) * d <= n * d) by (nonlinear_arith)
                requires
                    rows[y] + 1 <= n,
            ;
        }
        opq::lemma_gathered(data@, d, rows, 0, 0);
        assert forall|i: int, x: int|
            0 <= i < rows.len() && 0 <= x < opq.d implies sample.0@[i * opq.d + x]
            == #[trigger] data@[rows[i] * opq.d + x] by {
            opq::lemma_gathered(data@, d, rows, i, x);
        }
        assert(rows.no_duplicates());
    }
}

} // verus!
