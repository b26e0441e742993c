//! Product quantizers: the shape of the codes and the codebooks.

use vstd::arithmetic::power2;
use vstd::prelude::*;

verus! {

/// A product quantizer. It splits a vector of `d` components into `m` parts of
/// `dsub` components and replaces each part by the number of one of the `ksub`
/// centroids of that part.
pub struct ProductQuantizer {
    pub d: usize,
    pub m: usize,
    pub nbits: usize,
    pub dsub: usize,
    pub ksub: usize,
    /// The centroids, `[m][ksub][dsub]`.
    pub centroids: Vec<u32>,
    /// The squared norms of the centroids, or nothing.
    pub centroid_norms_cache: Vec<u32>,
}

/// The number of bytes of a code of `m` parts.
pub open spec fn code_bytes(m: nat, nbits: nat) -> nat {
    if nbits == 4 {
        m / 2
    } else {
        m
    }
}

/// `norms` can be asked for the norms of any centroids.
pub open spec fn takes_all<F: Fn(&Vec<u32>, usize, usize, usize) -> Vec<u32>>(norms: F) -> bool {
    forall|centroids: &Vec<u32>, m: usize, ksub: usize, dsub: usize|
        call_requires(norms, (centroids, m, ksub, dsub))
}

impl ProductQuantizer {
    /// The number of bytes of a code.
    pub open spec fn spec_code_size(&self) -> nat {
        code_bytes(self.m as nat, self.nbits as nat)
    }

    /// A quantizer with one byte for every part.
    pub fn new(d: usize, m: usize) -> (pq: Self)
        requires
            m > 0,
            m * 256 * (d / m) <= usize::MAX,
        ensures
            pq.d == d,
            pq.m == m,
            pq.nbits == 8,
            pq.dsub == d / m,
            pq.ksub == 256,
            pq.centroids@ == Seq::new((m * 256 * (d / m)) as nat, |i: int| 0u32),
            pq.centroid_norms_cache@ == Seq::<u32>::empty(),
    {
        proof {
            power2::lemma2_to64();
        }
        Self::with_nbits(d, m, 8)
    }

    /// A quantizer whose centroids are all zero, with `nbits` bits for every
    /// part.
    pub fn with_nbits(d: usize, m: usize, nbits: usize) -> (pq: Self)
        requires
            m > 0,
            nbits < 32,
            m * power2::pow2(nbits as nat) * (d / m) <= usize::MAX,
        ensures
            pq.d == d,
            pq.m == m,
            pq.nbits == nbits,
            pq.dsub == d / m,
            pq.ksub == power2::pow2(nbits as nat),
            pq.centroids@ == Seq::new(
                (m * power2::pow2(nbits as nat) * (d / m)) as nat,
                |i: int| 0u32,
            ),
            pq.centroid_norms_cache@ == Seq::<u32>::empty(),
    {
        let dsub: usize = d / m;
        let mut ksub: u64 = 1;
        let mut i: usize = 0;
        proof {
            power2::lemma2_to64();
        }
        while i < nbits
            invariant
                i <= nbits,
                nbits < 32,
                ksub == power2::pow2(i as nat),
            decreases nbits - i,
        {
            proof {
                power2::lemma_pow2_unfold((i + 1) as nat);
                power2::lemma_pow2_strictly_increases(i as nat, 32);
                power2::lemma2_to64();
            }
            ksub = ksub * 2;
            i = i + 1;
        }
        proof {
            power2::lemma_pow2_strictly_increases(nbits as nat, 32);
            power2::lemma2_to64();
            assert(m * ksub <= m * ksub * dsub || dsub == 0) by (nonlinear_arith)
                requires
                    dsub >= 0,
                    m >= 0,
                    ksub >= 0,
            ;
        }
        let size: usize = if dsub == 0 {
            assert(m * ksub * 0 == 0) by (nonlinear_arith);
            0
        } else {
            m * ksub as usize * dsub
        };
        let centroids: Vec<u32> = vec![0u32; size];
        assert(centroids@ =~= Seq::new((m * ksub * dsub) as nat, |i: int| 0u32));
        ProductQuantizer {
            d,
            m,
            nbits,
            dsub,
            ksub: ksub as usize,
            centroids,
            centroid_norms_cache: Vec::new(),
        }
    }

    /// The cache holds what `norms` gives for the centroids, of which there are
    /// `ksub` of `dsub` components for each of `m` parts.
    pub open spec fn measured_by<F: Fn(&Vec<u32>, usize, usize, usize) -> Vec<u32>>(
        &self,
        norms: F,
    ) -> bool {
        call_ensures(
            norms,
            (&self.centroids, self.m, self.ksub, self.dsub),
            self.centroid_norms_cache,
        )
    }

    /// Fills the cache of norms. `norms` computes them from the centroids.
    pub fn rebuild_norms_cache<F: Fn(&Vec<u32>, usize, usize, usize) -> Vec<u32>>(
        &mut self,
        norms: F,
    )
        requires
            call_requires(
                norms,
                (&old(self).centroids, old(self).m, old(self).ksub, old(self).dsub),
            ),
        ensures
            final(self).measured_by(norms),
            final(self).d == old(self).d,
            final(self).m == old(self).m,
            final(self).nbits == old(self).nbits,
            final(self).dsub == old(self).dsub,
            final(self).ksub == old(self).ksub,
            final(self).centroids == old(self).centroids,
    {
        self.centroid_norms_cache = norms(&self.centroids, self.m, self.ksub, self.dsub);
    }

    /// The number of bytes of a code.
    pub fn code_size(&self) -> (size: usize)
        ensures
            size == self.spec_code_size(),
    {
        if self.nbits == 4 {
            self.m / 2
        } else {
            self.m
        }
    }
}

} // verus!
