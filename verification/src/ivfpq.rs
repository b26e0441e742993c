//! The index: inverted lists of product-quantized vectors.

use crate::fastscan;
use crate::layout;
use crate::layout::CodeLayout;
use crate::metric::MetricType;
use crate::opq::OPQMatrix;
use crate::pq::ProductQuantizer;
use vstd::arithmetic::power2;
use vstd::prelude::*;

verus! {

/// How many vectors are added at a time.
pub const BATCH_SIZE: usize = 32768;

/// An inverted-file index. Every vector belongs to the list of its nearest
/// coarse centroid, which holds its ID and its code.
pub struct IVFPQIndex {
    pub d: usize,
    pub nlist: usize,
    pub metric: MetricType,
    pub by_residual: bool,
    /// The coarse centroids, `[nlist][d]`.
    pub quantizer_centroids: Vec<u32>,
    pub pq: ProductQuantizer,
    pub opq: Option<OPQMatrix>,
    /// The IDs of each list.
    pub ids: Vec<Vec<i64>>,
    /// The codes of each list, one behind the other.
    pub codes: Vec<Vec<u8>>,
    /// The table `[nlist][m][ksub]` that saves work in repeated searches, or
    /// nothing.
    pub precomputed_table: Vec<u32>,
    /// The four-bit codes of each list in block layout, or nothing.
    pub fastscan_codes: Vec<Vec<u8>>,
}

/// The IDs among the first `n` that go to `list`.
pub open spec fn routed_ids(assignments: Seq<usize>, ids: Seq<i64>, n: nat, list: int) -> Seq<i64>
    decreases n,
{
    if n == 0 {
        Seq::empty()
    } else {
        let before = routed_ids(assignments, ids, (n - 1) as nat, list);
        if assignments[n - 1] == list {
            before.push(ids[n - 1])
        } else {
            before
        }
    }
}

/// The codes among the first `n`, of `cs` bytes each, that go to `list`.
pub open spec fn routed_codes(
    assignments: Seq<usize>,
    codes: Seq<u8>,
    cs: nat,
    n: nat,
    list: int,
) -> Seq<u8>
    decreases n,
{
    if n == 0 {
        Seq::empty()
    } else {
        let before = routed_codes(assignments, codes, cs, (n - 1) as nat, list);
        if assignments[n - 1] == list {
            before + codes.subrange((n - 1) * cs, (n * cs) as int)
        } else {
            before
        }
    }
}

/// The number of IDs in the first `n` lists.
pub open spec fn total_len(ids: Seq<Vec<i64>>, n: nat) -> nat
    decreases n,
{
    if n == 0 {
        0
    } else {
        total_len(ids, (n - 1) as nat) + ids[n - 1]@.len()
    }
}

/// The number of lists that is chosen for `n` vectors.
pub open spec fn list_count_for(n: nat, target: nat) -> nat {
    let lists = n / if target < 1 {
        1
    } else {
        target
    };
    if lists < 1 {
        1
    } else if lists > 65536 {
        65536
    } else {
        lists
    }
}

impl IVFPQIndex {
    /// There are `nlist` lists, and every ID has its code. What was derived
    /// from the lists is either absent or up to date.
    pub open spec fn wf(&self) -> bool {
        &&& self.ids@.len() == self.nlist
        &&& self.codes@.len() == self.nlist
        &&& self.codes_match()
        &&& self.fastscan_codes@.len() > 0 ==> self.fastscan_current()
    }

    /// Every ID has its code.
    pub open spec fn codes_match(&self) -> bool {
        forall|i: int|
            #![trigger self.codes@[i]]
            0 <= i < self.nlist ==> self.codes@[i]@.len() == self.ids@[i]@.len()
                * self.pq.spec_code_size()
    }

    /// The block layout holds the codes of every list.
    pub open spec fn fastscan_current(&self) -> bool {
        &&& self.pq.nbits == 4
        &&& self.fastscan_codes@.len() == self.codes@.len()
        &&& forall|i: int|
            #![trigger self.fastscan_codes@[i]]
            0 <= i < self.codes@.len() ==> self.fastscan_codes@[i]@ == fastscan::packed(
                self.codes@[i]@,
                self.ids@[i]@.len(),
                self.pq.spec_code_size(),
            )
    }

    /// Everything but the lists and what is derived from them is the same.
    pub open spec fn same_training(&self, other: &IVFPQIndex) -> bool {
        &&& self.d == other.d
        &&& self.nlist == other.nlist
        &&& self.metric == other.metric
        &&& self.by_residual == other.by_residual
        &&& self.quantizer_centroids == other.quantizer_centroids
        &&& self.pq == other.pq
        &&& self.opq == other.opq
    }

    /// An index with one byte for every part of a vector.
    pub fn new(d: usize, nlist: usize, m: usize, metric: MetricType, use_opq: bool) -> (index: Self)
        requires
            m > 0,
            m * 256 * (d / m) <= usize::MAX,
            use_opq ==> d * d <= usize::MAX,
        ensures
            index.is_new(d, nlist, m, 8, metric, use_opq),
    {
        proof {
            power2::lemma2_to64();
        }
        Self::with_nbits(d, nlist, m, 8, metric, use_opq)
    }

    /// An index that holds no vector and is not trained.
    pub open spec fn is_new(
        &self,
        d: usize,
        nlist: usize,
        m: usize,
        nbits: usize,
        metric: MetricType,
        use_opq: bool,
    ) -> bool {
        &&& self.wf()
        &&& self.d == d
        &&& self.nlist == nlist
        &&& self.metric == metric
        &&& self.by_residual == (metric == MetricType::L2)
        &&& self.quantizer_centroids@ == Seq::<u32>::empty()
        &&& self.pq.d == d
        &&& self.pq.m == m
        &&& self.pq.nbits == nbits
        &&& self.pq.dsub == d / m
        &&& self.pq.ksub == power2::pow2(nbits as nat)
        &&& self.pq.centroids@ == Seq::new(
            (m * power2::pow2(nbits as nat) * (d / m)) as nat,
            |i: int| 0u32,
        )
        &&& self.pq.centroid_norms_cache@ == Seq::<u32>::empty()
        &&& match self.opq {
            Some(opq) => {
                &&& use_opq
                &&& opq.d == d
                &&& opq.m == m
                &&& opq.niter == 50
                &&& opq.niter_pq == 4
                &&& opq.niter_pq_0 == 40
                &&& opq.max_train_points == 65536
                &&& opq.rotation@ == Seq::new((d * d) as nat, |i: int| 0u32)
                &&& !opq.is_trained
            },
            None => !use_opq,
        }
        &&& self.no_vectors()
    }

    /// All lists are empty, and nothing is derived from them.
    pub open spec fn no_vectors(&self) -> bool {
        &&& forall|i: int| 0 <= i < self.nlist ==> (#[trigger] self.ids@[i])@ == Seq::<i64>::empty()
        &&& forall|i: int| 0 <= i < self.nlist ==> (#[trigger] self.codes@[i])@ == Seq::<u8>::empty()
        &&& self.precomputed_table@ == Seq::<u32>::empty()
        &&& self.fastscan_codes@ == Seq::<Vec<u8>>::empty()
    }

    /// An index with `nbits` bits for every part of a vector.
    pub fn with_nbits(
        d: usize,
        nlist: usize,
        m: usize,
        nbits: usize,
        metric: MetricType,
        use_opq: bool,
    ) -> (index: Self)
        requires
            m > 0,
            nbits < 32,
            m * power2::pow2(nbits as nat) * (d / m) <= usize::MAX,
            use_opq ==> d * d <= usize::MAX,
        ensures
            index.is_new(d, nlist, m, nbits, metric, use_opq),
    {
        let by_residual: bool = metric == MetricType::L2;
        let opq: Option<OPQMatrix> = if use_opq {
            Some(OPQMatrix::new(d, m))
        } else {
            None
        };
        let (ids, codes): (Vec<Vec<i64>>, Vec<Vec<u8>>) = empty_lists(nlist);
        IVFPQIndex {
            d,
            nlist,
            metric,
            by_residual,
            quantizer_centroids: Vec::new(),
            pq: ProductQuantizer::with_nbits(d, m, nbits),
            opq,
            ids,
            codes,
            precomputed_table: Vec::new(),
            fastscan_codes: Vec::new(),
        }
    }

    /// An index whose lists hold about `target_partition_size` of `n` vectors
    /// each.
    pub fn with_target_partition_size(
        d: usize,
        n: usize,
        target_partition_size: usize,
        m: usize,
        metric: MetricType,
        use_opq: bool,
    ) -> (index: Self)
        requires
            m > 0,
            m * 256 * (d / m) <= usize::MAX,
            use_opq ==> d * d <= usize::MAX,
        ensures
            1 <= list_count_for(n as nat, target_partition_size as nat) <= 65536,
            index.is_new(
                d,
                list_count_for(n as nat, target_partition_size as nat) as usize,
                m,
                8,
                metric,
                use_opq,
            ),
    {
        let target: usize = if target_partition_size < 1 {
            1
        } else {
            target_partition_size
        };
        let lists: usize = n / target;
        let nlist: usize = if lists < 1 {
            1
        } else if lists > 65536 {
            65536
        } else {
            lists
        };
        Self::new(d, nlist, m, metric, use_opq)
    }

    /// An empty index that uses the training of another one.
    pub fn from_trained(trained: &IVFPQIndex) -> (index: Self)
        ensures
            index.wf(),
            index.d == trained.d,
            index.nlist == trained.nlist,
            index.metric == trained.metric,
            index.by_residual == trained.by_residual,
            index.quantizer_centroids@ == trained.quantizer_centroids@,
            index.pq.d == trained.pq.d,
            index.pq.m == trained.pq.m,
            index.pq.nbits == trained.pq.nbits,
            index.pq.dsub == trained.pq.dsub,
            index.pq.ksub == trained.pq.ksub,
            index.pq.centroids@ == trained.pq.centroids@,
            index.pq.centroid_norms_cache@ == trained.pq.centroid_norms_cache@,
            match trained.opq {
                Some(opq) => index.opq matches Some(copy) && copy.is_loaded(
                    opq.d,
                    opq.m,
                    opq.rotation@,
                ),
                None => index.opq is None,
            },
            index.no_vectors(),
    {
        let opq: Option<OPQMatrix> = match &trained.opq {
            Some(opq) => Some(OPQMatrix::loaded(opq.d, opq.m, copied(&opq.rotation))),
            None => None,
        };
        let (ids, codes): (Vec<Vec<i64>>, Vec<Vec<u8>>) = empty_lists(trained.nlist);
        IVFPQIndex {
            d: trained.d,
            nlist: trained.nlist,
            metric: trained.metric,
            by_residual: trained.by_residual,
            quantizer_centroids: copied(&trained.quantizer_centroids),
            pq: ProductQuantizer {
                d: trained.pq.d,
                m: trained.pq.m,
                nbits: trained.pq.nbits,
                dsub: trained.pq.dsub,
                ksub: trained.pq.ksub,
                centroids: copied(&trained.pq.centroids),
                centroid_norms_cache: copied(&trained.pq.centroid_norms_cache),
            },
            opq,
            ids,
            codes,
            precomputed_table: Vec::new(),
            fastscan_codes: Vec::new(),
        }
    }

    /// Adds `n` vectors: each one's ID and code go to the list that it is
    /// assigned to.
    pub fn add(&mut self, assignments: &[usize], codes: &[u8], ids: &[i64], n: usize)
        requires
            old(self).wf(),
            n <= assignments@.len(),
            n <= ids@.len(),
            n * old(self).pq.spec_code_size() <= codes@.len(),
            forall|i: int| 0 <= i < n ==> assignments@[i] < old(self).nlist,
        ensures
            final(self).wf(),
            final(self).added(*old(self), assignments@, codes@, ids@, n as nat),
    {
        let total: usize = codes.len();
        let cs: usize = self.pq.code_size();
        let mut offset: usize = 0;
        proof {
            assert forall|l: int| 0 <= l < self.nlist implies #[trigger] self.ids@[l]@
                == old(self).ids@[l]@ + routed_ids(assignments@, ids@, 0, l) by {}
            assert forall|l: int| 0 <= l < self.nlist implies #[trigger] self.codes@[l]@
                == old(self).codes@[l]@ + routed_codes(assignments@, codes@, cs as nat, 0, l) by {}
        }
        while offset < n
            invariant
                offset <= n,
                n <= assignments@.len(),
                n <= ids@.len(),
                total == codes@.len(),
                cs == self.pq.spec_code_size(),
                n * cs <= total,
                forall|i: int| 0 <= i < n ==> assignments@[i] < self.nlist,
                self.wf(),
                self.added(*old(self), assignments@, codes@, ids@, offset as nat),
            decreases n - offset,
        {
            let batch_n: usize = if n - offset < BATCH_SIZE {
                n - offset
            } else {
                BATCH_SIZE
            };
            assert((offset + batch_n) * cs <= n * cs) by (nonlinear_arith)
                requires
                    offset + batch_n <= n,
            ;
            self.add_batch(assignments, codes, ids, offset, offset + batch_n, Ghost(*old(self)));
            offset = offset + batch_n;
        }
    }

    /// What adding `n` vectors does: the lists grow at their ends, and what was
    /// derived from them is dropped.
    pub open spec fn added(
        &self,
        before: IVFPQIndex,
        assignments: Seq<usize>,
        codes: Seq<u8>,
        ids: Seq<i64>,
        n: nat,
    ) -> bool {
        &&& self.same_training(&before)
        &&& self.ids@.len() == before.ids@.len()
        &&& self.codes@.len() == before.codes@.len()
        &&& forall|l: int|
            0 <= l < self.nlist ==> (#[trigger] self.ids@[l])@ == before.ids@[l]@ + routed_ids(
                assignments,
                ids,
                n,
                l,
            )
        &&& forall|l: int|
            0 <= l < self.nlist ==> (#[trigger] self.codes@[l])@ == before.codes@[l]@
                + routed_codes(assignments, codes, before.pq.spec_code_size(), n, l)
        &&& if n == 0 {
            &&& self.fastscan_codes == before.fastscan_codes
            &&& self.precomputed_table == before.precomputed_table
        } else {
            &&& self.fastscan_codes@.len() == 0
            &&& self.precomputed_table@.len() == 0
        }
    }

    /// Adds the vectors from `from` up to `to`.
    fn add_batch(
        &mut self,
        assignments: &[usize],
        codes: &[u8],
        ids: &[i64],
        from: usize,
        to: usize,
        Ghost(before): Ghost<IVFPQIndex>,
    )
        requires
            from < to <= assignments@.len(),
            to <= ids@.len(),
            to * old(self).pq.spec_code_size() <= codes@.len(),
            forall|i: int| 0 <= i < to ==> assignments@[i] < old(self).nlist,
            old(self).wf(),
            old(self).added(before, assignments@, codes@, ids@, from as nat),
        ensures
            final(self).wf(),
            final(self).added(before, assignments@, codes@, ids@, to as nat),
    {
        let total: usize = codes.len();
        let cs: usize = self.pq.code_size();
        let ghost state = *self;
        let mut i: usize = from;
        while i < to
            invariant
                from <= i <= to,
                to <= assignments@.len(),
                to <= ids@.len(),
                total == codes@.len(),
                cs == self.pq.spec_code_size(),
                to * cs <= total,
                forall|x: int| 0 <= x < to ==> assignments@[x] < self.nlist,
                self.same_training(&before),
                self.ids@.len() == self.nlist,
                self.codes@.len() == self.nlist,
                self.ids@.len() == before.ids@.len(),
                self.codes@.len() == before.codes@.len(),
                self.codes_match(),
                forall|l: int|
                    0 <= l < self.nlist ==> (#[trigger] self.ids@[l])@ == before.ids@[l]@
                        + routed_ids(assignments@, ids@, i as nat, l),
                forall|l: int|
                    0 <= l < self.nlist ==> (#[trigger] self.codes@[l])@ == before.codes@[l]@
                        + routed_codes(assignments@, codes@, cs as nat, i as nat, l),
            decreases to - i,
        {
            let list_id: usize = assignments[i];
            let ghost old_ids = self.ids@;
            let ghost old_codes = self.codes@;
            proof {
                assert(i * cs + cs == (i + 1) * cs) by (nonlinear_arith);
                assert((i + 1) * cs <= to * cs) by (nonlinear_arith)
                    requires
                        i + 1 <= to,
                ;
                let count: int = self.ids@[list_id as int]@.len() as int;
                assert((count + 1) * cs == count * cs + cs) by (nonlinear_arith);
                assert(self.codes@[list_id as int]@.len() == count * cs);
            }
            self.ids[list_id].push(ids[i]);
            append_range(&mut self.codes[list_id], codes, i * cs, (i + 1) * cs);
            proof {
                assert forall|l: int| 0 <= l < self.nlist implies (#[trigger] self.ids@[l])@
                    == before.ids@[l]@ + routed_ids(assignments@, ids@, (i + 1) as nat, l) by {
                    assert(old_ids[l]@ == before.ids@[l]@ + routed_ids(
                        assignments@,
                        ids@,
                        i as nat,
                        l,
                    ));
                    assert(self.ids@[l]@ =~= before.ids@[l]@ + routed_ids(
                        assignments@,
                        ids@,
                        (i + 1) as nat,
                        l,
                    ));
                }
                assert forall|l: int| 0 <= l < self.nlist implies (#[trigger] self.codes@[l])@
                    == before.codes@[l]@ + routed_codes(
                    assignments@,
                    codes@,
                    cs as nat,
                    (i + 1) as nat,
                    l,
                ) by {
                    assert(old_codes[l]@ == before.codes@[l]@ + routed_codes(
                        assignments@,
                        codes@,
                        cs as nat,
                        i as nat,
                        l,
                    ));
                    assert(self.codes@[l]@ =~= before.codes@[l]@ + routed_codes(
                        assignments@,
                        codes@,
                        cs as nat,
                        (i + 1) as nat,
                        l,
                    ));
                }
                assert forall|l: int|
                    #![trigger self.codes@[l]]
                    0 <= l < self.nlist implies self.codes@[l]@.len() == self.ids@[l]@.len()
                    * self.pq.spec_code_size() by {
                    assert(old_codes[l]@.len() == old_ids[l]@.len() * cs);
                }
            }
            i = i + 1;
        }
        self.fastscan_codes = Vec::new();
        self.precomputed_table = Vec::new();
    }

    /// Brings four-bit codes into block layout. To be called after all vectors
    /// were added.
    pub fn build_search_structures(&mut self)
        requires
            old(self).wf(),
            old(self).pq.nbits == 4 ==> forall|i: int|
                0 <= i < old(self).nlist ==> fastscan::block_count(
                    (#[trigger] old(self).ids@[i])@.len(),
                ) * old(self).pq.spec_code_size() * 32 <= usize::MAX,
        ensures
            final(self).wf(),
            final(self).same_training(old(self)),
            final(self).ids == old(self).ids,
            final(self).codes == old(self).codes,
            final(self).precomputed_table == old(self).precomputed_table,
            old(self).pq.nbits != 4 ==> final(self).fastscan_codes == old(self).fastscan_codes,
            old(self).pq.nbits == 4 ==> final(self).fastscan_current(),
    {
        if self.pq.nbits == 4 {
            let cs: usize = self.pq.code_size();
            let mut blocks: Vec<Vec<u8>> = Vec::new();
            let mut i: usize = 0;
            while i < self.codes.len()
                invariant
                    i <= self.codes@.len(),
                    *self == *old(self),
                    self.wf(),
                    self.pq.nbits == 4,
                    cs == self.pq.spec_code_size(),
                    forall|x: int|
                        0 <= x < self.nlist ==> fastscan::block_count(
                            (#[trigger] self.ids@[x])@.len(),
                        ) * cs * 32 <= usize::MAX,
                    blocks@.len() == i,
                    forall|x: int|
                        #![trigger blocks@[x]]
                        0 <= x < i ==> blocks@[x]@ == fastscan::packed(
                            self.codes@[x]@,
                            self.ids@[x]@.len(),
                            cs as nat,
                        ),
                decreases self.codes@.len() - i,
            {
                let count: usize = self.ids[i].len();
                assert(self.codes@[i as int]@.len() == self.ids@[i as int]@.len() * cs);
                if count == 0 {
                    blocks.push(Vec::new());
                    assert(fastscan::block_count(0) * cs * 32 == 0) by (nonlinear_arith)
                        requires
                            fastscan::block_count(0) == 0,
                    ;
                    assert(blocks@[i as int]@ =~= fastscan::packed(
                        self.codes@[i as int]@,
                        0,
                        cs as nat,
                    ));
                } else {
                    blocks.push(
                        fastscan::pack_codes_block_layout(self.codes[i].as_slice(), count, cs),
                    );
                }
                i = i + 1;
            }
            self.fastscan_codes = blocks;
        }
    }

    /// Whether a search uses the block layout.
    pub open spec fn scans_blocks(&self) -> bool {
        self.fastscan_codes@.len() > 0 && self.pq.nbits == 4
    }

    /// The codes of a list that a search reads, and their order: those in block
    /// layout, if they are there, else those of the list. Every vector has the
    /// same code in both.
    pub fn scan_codes(&self, list_id: usize) -> (source: (CodeLayout, &[u8]))
        requires
            self.wf(),
            list_id < self.nlist,
        ensures
            source.0 == if self.scans_blocks() {
                CodeLayout::Block
            } else {
                CodeLayout::RowMajor
            },
            source.1@ == if self.scans_blocks() {
                self.fastscan_codes@[list_id as int]@
            } else {
                self.codes@[list_id as int]@
            },
            ({
                let count = self.ids@[list_id as int]@.len();
                let cs = self.pq.spec_code_size();
                &&& layout::covers(source.0, source.1@.len(), count, cs)
                &&& forall|g: nat|
                    g < count ==> #[trigger] layout::code_row(
                        source.0,
                        source.1@,
                        count,
                        cs,
                        g,
                    ) == layout::code_row(
                        CodeLayout::RowMajor,
                        self.codes@[list_id as int]@,
                        count,
                        cs,
                        g,
                    )
            }),
    {
        let ghost count = self.ids@[list_id as int]@.len();
        let ghost cs = self.pq.spec_code_size();
        let ghost codes = self.codes@[list_id as int]@;
        assert(codes.len() == count * cs);
        if self.fastscan_codes.len() > 0 && self.pq.nbits == 4 {
            proof {
                assert(self.fastscan_codes@[list_id as int]@ == fastscan::packed(
                    codes,
                    count,
                    cs,
                ));
                if count > 0 && cs > 0 {
                    let last = (count - 1) as nat;
                    fastscan::lemma_block_index(last, (cs - 1) as nat, cs, count);
                }
                assert forall|g: nat| g < count implies #[trigger] layout::code_row(
                    CodeLayout::Block,
                    fastscan::packed(codes, count, cs),
                    count,
                    cs,
                    g,
                ) == layout::code_row(CodeLayout::RowMajor, codes, count, cs, g) by {
                    fastscan::lemma_packed_row(codes, count, cs, g);
                }
            }
            (CodeLayout::Block, self.fastscan_codes[list_id].as_slice())
        } else {
            proof {
                if count > 0 && cs > 0 {
                    layout::lemma_code_index_bound(
                        CodeLayout::RowMajor,
                        count,
                        cs,
                        (count - 1) as nat,
                        (cs - 1) as nat,
                    );
                }
            }
            (CodeLayout::RowMajor, self.codes[list_id].as_slice())
        }
    }

    /// Whether a search uses the table of precomputed distances.
    pub fn uses_precomputed(&self) -> (yes: bool)
        ensures
            yes == (self.precomputed_table@.len() > 0),
    {
        self.precomputed_table.len() > 0
    }

    /// Whether a table of precomputed distances is of use.
    pub open spec fn takes_table(&self) -> bool {
        self.metric == MetricType::L2 && self.by_residual
    }

    /// Installs a table of precomputed distances, if one is of use.
    pub fn build_precomputed_table(&mut self, table: Vec<u32>)
        ensures
            final(self).same_training(old(self)),
            final(self).ids == old(self).ids,
            final(self).codes == old(self).codes,
            final(self).fastscan_codes == old(self).fastscan_codes,
            final(self).precomputed_table == if old(self).takes_table() {
                table
            } else {
                old(self).precomputed_table
            },
    {
        if self.metric != MetricType::L2 || !self.by_residual {
            return;
        }
        self.precomputed_table = table;
    }

    /// Appends the lists of another index with the same training, and drops
    /// what was derived from the lists.
    pub fn merge_from(&mut self, other: &IVFPQIndex)
        requires
            old(self).d == other.d,
            old(self).nlist == other.nlist,
            old(self).pq.m == other.pq.m,
            old(self).pq.nbits == other.pq.nbits,
            old(self).wf(),
            other.wf(),
        ensures
            final(self).wf(),
            final(self).merged(*old(self), *other),
    {
        let mut i: usize = 0;
        while i < self.nlist
            invariant
                i <= self.nlist,
                self.same_training(old(self)),
                self.pq.spec_code_size() == other.pq.spec_code_size(),
                self.nlist == other.nlist,
                self.ids@.len() == self.nlist,
                self.codes@.len() == self.nlist,
                old(self).ids@.len() == self.nlist,
                old(self).codes@.len() == self.nlist,
                other.ids@.len() == self.nlist,
                other.codes@.len() == self.nlist,
                old(self).codes_match(),
                other.codes_match(),
                forall|l: int|
                    #![trigger self.ids@[l]]
                    0 <= l < self.nlist ==> self.ids@[l]@ == if l < i {
                        old(self).ids@[l]@ + other.ids@[l]@
                    } else {
                        old(self).ids@[l]@
                    },
                forall|l: int|
                    #![trigger self.codes@[l]]
                    0 <= l < self.nlist ==> self.codes@[l]@ == if l < i {
                        old(self).codes@[l]@ + other.codes@[l]@
                    } else {
                        old(self).codes@[l]@
                    },
            decreases self.nlist - i,
        {
            let ghost before_ids = self.ids@;
            let ghost before_codes = self.codes@;
            self.ids[i].extend_from_slice(other.ids[i].as_slice());
            self.codes[i].extend_from_slice(other.codes[i].as_slice());
            proof {
                assert(self.ids@[i as int]@ =~= before_ids[i as int]@ + other.ids@[i as int]@);
                assert(self.codes@[i as int]@ =~= before_codes[i as int]@
                    + other.codes@[i as int]@);
                assert(forall|l: int|
                    0 <= l < self.nlist && l != i ==> self.ids@[l] == before_ids[l]);
                assert(forall|l: int|
                    0 <= l < self.nlist && l != i ==> self.codes@[l] == before_codes[l]);
            }
            i = i + 1;
        }
        self.fastscan_codes = Vec::new();
        self.precomputed_table = Vec::new();
        proof {
            let cs: int = self.pq.spec_code_size() as int;
            assert forall|l: int|
                #![trigger self.codes@[l]]
                0 <= l < self.nlist implies self.codes@[l]@.len() == self.ids@[l]@.len()
                * self.pq.spec_code_size() by {
                let a: int = old(self).ids@[l]@.len() as int;
                let b: int = other.ids@[l]@.len() as int;
                assert(old(self).codes@[l]@.len() == a * cs);
                assert(other.codes@[l]@.len() == b * cs);
                assert(self.ids@[l]@.len() == a + b);
                assert((a + b) * cs == a * cs + b * cs) by (nonlinear_arith);
            }
        }
    }

    /// What merging does.
    pub open spec fn merged(&self, before: IVFPQIndex, other: IVFPQIndex) -> bool {
        &&& self.same_training(&before)
        &&& self.ids@.len() == before.ids@.len()
        &&& self.codes@.len() == before.codes@.len()
        &&& forall|l: int|
            0 <= l < self.nlist ==> (#[trigger] self.ids@[l])@ == before.ids@[l]@ + other.ids@[l]@
        &&& forall|l: int|
            0 <= l < self.nlist ==> (#[trigger] self.codes@[l])@ == before.codes@[l]@
                + other.codes@[l]@
        &&& self.fastscan_codes@.len() == 0
        &&& self.precomputed_table@.len() == 0
    }
}

/// The vectors that all lists together receive.
spec fn routed_total(assignments: Seq<usize>, ids: Seq<i64>, n: nat, lists: nat) -> nat
    decreases lists,
{
    if lists == 0 {
        0
    } else {
        routed_total(assignments, ids, n, (lists - 1) as nat) + routed_ids(
            assignments,
            ids,
            n,
            lists - 1,
        ).len()
    }
}

proof fn lemma_routed_total_step(assignments: Seq<usize>, ids: Seq<i64>, n: nat, lists: nat)
    requires
        n > 0,
    ensures
        routed_total(assignments, ids, n, lists) == routed_total(
            assignments,
            ids,
            (n - 1) as nat,
            lists,
        ) + if assignments[n - 1] < lists {
            1nat
        } else {
            0nat
        },
    decreases lists,
{
    if lists > 0 {
        lemma_routed_total_step(assignments, ids, n, (lists - 1) as nat);
    }
}

proof fn lemma_routed_total(assignments: Seq<usize>, ids: Seq<i64>, n: nat, lists: nat)
    requires
        forall|i: int| 0 <= i < n ==> assignments[i] < lists,
    ensures
        routed_total(assignments, ids, n, lists) == n,
    decreases n,
{
    if n > 0 {
        lemma_routed_total(assignments, ids, (n - 1) as nat, lists);
        lemma_routed_total_step(assignments, ids, n, lists);
        assert(assignments[n - 1] < lists);
    } else {
        lemma_routed_total_zero(assignments, ids, lists);
    }
}

proof fn lemma_routed_total_zero(assignments: Seq<usize>, ids: Seq<i64>, lists: nat)
    ensures
        routed_total(assignments, ids, 0, lists) == 0,
    decreases lists,
{
    if lists > 0 {
        lemma_routed_total_zero(assignments, ids, (lists - 1) as nat);
    }
}

/// Adding `n` vectors makes the index hold `n` vectors more.
pub proof fn lemma_added_total(
    after: IVFPQIndex,
    before: IVFPQIndex,
    assignments: Seq<usize>,
    codes: Seq<u8>,
    ids: Seq<i64>,
    n: nat,
)
    requires
        before.wf(),
        forall|i: int| 0 <= i < n ==> assignments[i] < before.nlist,
        after.added(before, assignments, codes, ids, n),
    ensures
        total_len(after.ids@, after.nlist as nat) == total_len(before.ids@, before.nlist as nat)
            + n,
{
    lemma_added_total_lists(after, before, assignments, codes, ids, n, before.nlist as nat);
    lemma_routed_total(assignments, ids, n, before.nlist as nat);
}

proof fn lemma_added_total_lists(
    after: IVFPQIndex,
    before: IVFPQIndex,
    assignments: Seq<usize>,
    codes: Seq<u8>,
    ids: Seq<i64>,
    n: nat,
    lists: nat,
)
    requires
        after.added(before, assignments, codes, ids, n),
        lists <= before.nlist,
    ensures
        total_len(after.ids@, lists) == total_len(before.ids@, lists) + routed_total(
            assignments,
            ids,
            n,
            lists,
        ),
    decreases lists,
{
    if lists > 0 {
        lemma_added_total_lists(after, before, assignments, codes, ids, n, (lists - 1) as nat);
        assert(after.ids@[lists - 1]@ == before.ids@[lists - 1]@ + routed_ids(
            assignments,
            ids,
            n,
            lists - 1,
        ));
    }
}

/// A merged index holds the vectors of both.
pub proof fn lemma_merged_total(after: IVFPQIndex, before: IVFPQIndex, other: IVFPQIndex, lists: nat)
    requires
        after.merged(before, other),
        lists <= after.nlist,
    ensures
        total_len(after.ids@, lists) == total_len(before.ids@, lists) + total_len(other.ids@, lists),
    decreases lists,
{
    if lists > 0 {
        lemma_merged_total(after, before, other, (lists - 1) as nat);
        assert(after.ids@[lists - 1]@ == before.ids@[lists - 1]@ + other.ids@[lists - 1]@);
    }
}

/// It does not matter how the vectors are split over calls: every list receives
/// what the calls one after the other would give it.
pub proof fn lemma_routed_split(
    assignments: (Seq<usize>, Seq<usize>),
    ids: (Seq<i64>, Seq<i64>),
    codes: (Seq<u8>, Seq<u8>),
    cs: nat,
    n: nat,
    list: int,
)
    requires
        ids.0.len() == assignments.0.len(),
        codes.0.len() == assignments.0.len() * cs,
        n <= assignments.1.len(),
        n <= ids.1.len(),
        n * cs <= codes.1.len(),
    ensures
        routed_ids(
            assignments.0 + assignments.1,
            ids.0 + ids.1,
            assignments.0.len() + n,
            list,
        ) == routed_ids(assignments.0, ids.0, assignments.0.len(), list) + routed_ids(
            assignments.1,
            ids.1,
            n,
            list,
        ),
        routed_codes(
            assignments.0 + assignments.1,
            codes.0 + codes.1,
            cs,
            assignments.0.len() + n,
            list,
        ) == routed_codes(assignments.0, codes.0, cs, assignments.0.len(), list) + routed_codes(
            assignments.1,
            codes.1,
            cs,
            n,
            list,
        ),
    decreases n,
{
    let first = assignments.0.len();
    if n == 0 {
        lemma_routed_front(assignments.0, assignments.1, ids.0, ids.1, codes.0, codes.1, cs, first, list);
    } else {
        let m = (n - 1) as nat;
        assert(m * cs + cs == n * cs) by (nonlinear_arith)
            requires
                n == m + 1,
        ;
        lemma_routed_split(assignments, ids, codes, cs, m, list);
        assert(((first + n - 1) as nat) == first + m);
        assert((assignments.0 + assignments.1)[(first + m) as int] == assignments.1[m as int]);
        assert((ids.0 + ids.1)[(first + m) as int] == ids.1[m as int]);
        assert((first + m) * cs == first * cs + m * cs) by (nonlinear_arith);
        assert((first + n) * cs == first * cs + n * cs) by (nonlinear_arith);
        assert((codes.0 + codes.1).subrange(((first + m) * cs) as int, ((first + n) * cs) as int)
            =~= codes.1.subrange((m * cs) as int, (n * cs) as int));
    }
}

proof fn lemma_routed_front(
    a: Seq<usize>,
    a_rest: Seq<usize>,
    ids: Seq<i64>,
    ids_rest: Seq<i64>,
    codes: Seq<u8>,
    codes_rest: Seq<u8>,
    cs: nat,
    n: nat,
    list: int,
)
    requires
        n <= a.len(),
        n <= ids.len(),
        n * cs <= codes.len(),
    ensures
        routed_ids(a + a_rest, ids + ids_rest, n, list) == routed_ids(a, ids, n, list),
        routed_codes(a + a_rest, codes + codes_rest, cs, n, list) == routed_codes(
            a,
            codes,
            cs,
            n,
            list,
        ),
    decreases n,
{
    if n > 0 {
        let m = (n - 1) as nat;
        assert(m * cs + cs == n * cs) by (nonlinear_arith)
            requires
                n == m + 1,
        ;
        lemma_routed_front(a, a_rest, ids, ids_rest, codes, codes_rest, cs, m, list);
        assert((codes + codes_rest).subrange((m * cs) as int, (n * cs) as int) =~= codes.subrange(
            (m * cs) as int,
            (n * cs) as int,
        ));
    }
}

/// `nlist` empty lists of IDs and as many of codes.
fn empty_lists(nlist: usize) -> (lists: (Vec<Vec<i64>>, Vec<Vec<u8>>))
    ensures
        lists.0@.len() == nlist,
        lists.1@.len() == nlist,
        forall|i: int| 0 <= i < nlist ==> (#[trigger] lists.0@[i])@ == Seq::<i64>::empty(),
        forall|i: int| 0 <= i < nlist ==> (#[trigger] lists.1@[i])@ == Seq::<u8>::empty(),
{
    let mut ids: Vec<Vec<i64>> = Vec::new();
    let mut codes: Vec<Vec<u8>> = Vec::new();
    let mut i: usize = 0;
    while i < nlist
        invariant
            i <= nlist,
            ids@.len() == i,
            codes@.len() == i,
            forall|j: int| 0 <= j < i ==> (#[trigger] ids@[j])@ == Seq::<i64>::empty(),
            forall|j: int| 0 <= j < i ==> (#[trigger] codes@[j])@ == Seq::<u8>::empty(),
        decreases nlist - i,
    {
        ids.push(Vec::new());
        codes.push(Vec::new());
        i = i + 1;
    }
    (ids, codes)
}

/// A copy of some numbers.
fn copied(v: &Vec<u32>) -> (copy: Vec<u32>)
    ensures
        copy@ == v@,
{
    let mut copy: Vec<u32> = Vec::new();
    copy.extend_from_slice(v.as_slice());
    assert(copy@ =~= v@);
    copy
}

/// Appends a part of `codes`.
fn append_range(list: &mut Vec<u8>, codes: &[u8], from: usize, to: usize)
    requires
        from <= to <= codes@.len(),
    ensures
        final(list)@ == old(list)@ + codes@.subrange(from as int, to as int),
{
    let mut i: usize = from;
    while i < to
        invariant
            from <= i <= to <= codes@.len(),
            list@ == old(list)@ + codes@.subrange(from as int, i as int),
        decreases to - i,
    {
        list.push(codes[i]);
        i = i + 1;
        assert(list@ =~= old(list)@ + codes@.subrange(from as int, i as int));
    }
}

} // verus!
