//! Rotations that prepare vectors for a product quantizer.

use vstd::prelude::*;

verus! {

/// The generator of random numbers, `rand::rngs::StdRng`.
#[verifier::external_type_specification]
#[verifier::external_body]
pub struct ExStdRng(rand::rngs::StdRng);

/// The seed of every training.
pub const TRAINING_SEED: u64 = 12345;

/// Calls `seed_from_u64` of `rand::SeedableRng` for `rand::rngs::StdRng`. Of the
/// generator that it makes nothing is claimed: which numbers it yields may
/// differ between machines and releases.
#[verifier::external_body]
fn seeded(seed: u64) -> (rng: rand::rngs::StdRng) {
    <rand::rngs::StdRng as rand::SeedableRng>::seed_from_u64(seed)
}

/// Calls `gen_range` of `rand::Rng` on a range of `usize`, which must not be
/// empty. The number lies in the range; which one it is rests on the generator.
#[verifier::external_body]
fn draw(rng: &mut rand::rngs::StdRng, low: usize, high: usize) -> (drawn: usize)
    requires
        low < high,
    ensures
        low <= drawn < high,
{
    rand::Rng::gen_range(rng, low..high)
}

/// A rotation of vectors with `d` components.
pub struct OPQMatrix {
    pub d: usize,
    pub m: usize,
    pub niter: usize,
    pub niter_pq: usize,
    pub niter_pq_0: usize,
    pub max_train_points: usize,
    /// The matrix `[d][d]`, row by row.
    pub rotation: Vec<u32>,
    pub is_trained: bool,
}

impl OPQMatrix {
    /// A rotation that is yet to be trained.
    pub fn new(d: usize, m: usize) -> (opq: Self)
        requires
            d * d <= usize::MAX,
        ensures
            opq.d == d,
            opq.m == m,
            opq.niter == 50,
            opq.niter_pq == 4,
            opq.niter_pq_0 == 40,
            opq.max_train_points == 65536,
            opq.rotation@ == Seq::new((d * d) as nat, |i: int| 0u32),
            !opq.is_trained,
    {
        let rotation: Vec<u32> = vec![0u32; d * d];
        assert(rotation@ =~= Seq::new((d * d) as nat, |i: int| 0u32));
        OPQMatrix {
            d,
            m,
            niter: 50,
            niter_pq: 4,
            niter_pq_0: 40,
            max_train_points: 65536,
            rotation,
            is_trained: false,
        }
    }

    /// How the quantizer is trained in round `iter` of the training: the number
    /// of its own rounds, and whether it goes on from the round before.
    pub fn quantizer_rounds(&self, iter: usize) -> (rounds: (usize, bool))
        ensures
            rounds == if iter == 0 {
                (self.niter_pq_0, false)
            } else {
                (self.niter_pq, true)
            },
    {
        if iter == 0 {
            (self.niter_pq_0, false)
        } else {
            (self.niter_pq, true)
        }
    }

    /// A trained rotation, as it is read back.
    pub fn loaded(d: usize, m: usize, rotation: Vec<u32>) -> (opq: Self)
        ensures
            opq.is_loaded(d, m, rotation@),
    {
        OPQMatrix {
            d,
            m,
            niter: 0,
            niter_pq: 0,
            niter_pq_0: 0,
            max_train_points: 0,
            rotation,
            is_trained: true,
        }
    }

    /// A trained rotation without training parameters.
    pub open spec fn is_loaded(&self, d: usize, m: usize, rotation: Seq<u32>) -> bool {
        &&& self.d == d
        &&& self.m == m
        &&& self.niter == 0
        &&& self.niter_pq == 0
        &&& self.niter_pq_0 == 0
        &&& self.max_train_points == 0
        &&& self.rotation@ == rotation
        &&& self.is_trained
    }
}


/// The numbers below `n`, after the places `0, 1, ..` were exchanged with the
/// drawn ones, one after the other.
pub open spec fn shuffled(n: nat, draws: Seq<usize>) -> Seq<usize>
    decreases draws.len(),
{
    if draws.len() == 0 {
        Seq::new(n, |i: int| i as usize)
    } else {
        let before = shuffled(n, draws.drop_last());
        let i = draws.len() - 1;
        let j = draws.last() as int;
        before.update(i, before[j]).update(j, before[i])
    }
}

/// The rows that the draws select: as many as there are draws.
pub open spec fn picked(n: nat, draws: Seq<usize>) -> Seq<usize> {
    shuffled(n, draws).take(draws.len() as int)
}

/// Draw `i` lies between `i` and `n`.
pub open spec fn draws_valid(n: nat, draws: Seq<usize>) -> bool {
    &&& draws.len() <= n
    &&& forall|i: int| 0 <= i < draws.len() ==> i <= #[trigger] draws[i] < n
}

/// The rows of `data`, of `d` numbers each, one behind the other.
pub open spec fn gathered(data: Seq<u32>, d: nat, rows: Seq<usize>) -> Seq<u32>
    decreases rows.len(),
{
    if rows.len() == 0 {
        Seq::empty()
    } else {
        let row = rows.last();
        gathered(data, d, rows.drop_last()) + data.subrange(
            (row * d) as int,
            (row * d + d) as int,
        )
    }
}

/// No row is picked twice, and every picked row exists, whatever was drawn.
pub proof fn lemma_picked(n: nat, draws: Seq<usize>)
    requires
        n <= usize::MAX,
        draws_valid(n, draws),
    ensures
        picked(n, draws).len() == draws.len(),
        picked(n, draws).no_duplicates(),
        forall|i: int| 0 <= i < draws.len() ==> #[trigger] picked(n, draws)[i] < n,
{
    lemma_shuffled(n, draws);
    let all = shuffled(n, draws);
    let some = picked(n, draws);
    assert forall|i: int, j: int| 0 <= i < some.len() && 0 <= j < some.len() && i != j implies
        some[i] != some[j] by {
        assert(all[i] != all[j]);
    }
}

proof fn lemma_shuffled(n: nat, draws: Seq<usize>)
    requires
        n <= usize::MAX,
        draws_valid(n, draws),
    ensures
        shuffled(n, draws).len() == n,
        shuffled(n, draws).no_duplicates(),
        forall|i: int| 0 <= i < n ==> #[trigger] shuffled(n, draws)[i] < n,
    decreases draws.len(),
{
    if draws.len() > 0 {
        let front = draws.drop_last();
        assert(draws_valid(n, front)) by {
            assert forall|i: int| 0 <= i < front.len() implies i <= #[trigger] front[i] < n by {
                assert(draws[i] == front[i]);
            }
        }
        lemma_shuffled(n, front);
        let last: int = draws.len() - 1;
        assert(last <= draws[last] < n);
    }
}

/// The rows that the draws select.
pub fn pick_rows(n: usize, draws: &[usize]) -> (rows: Vec<usize>)
    requires
        draws_valid(n as nat, draws@),
    ensures
        rows@ == picked(n as nat, draws@),
{
    let mut rows: Vec<usize> = Vec::new();
    let mut i: usize = 0;
    while i < n
        invariant
            i <= n,
            rows@ == shuffled(n as nat, Seq::empty()).take(i as int),
        decreases n - i,
    {
        rows.push(i);
        i = i + 1;
        assert(rows@ =~= shuffled(n as nat, Seq::empty()).take(i as int));
    }
    assert(rows@ =~= shuffled(n as nat, Seq::empty()));
    assert(draws@.take(0) =~= Seq::<usize>::empty());
    i = 0;
    while i < draws.len()
        invariant
            i <= draws@.len(),
            draws_valid(n as nat, draws@),
            rows@.len() == n,
            rows@ == shuffled(n as nat, draws@.take(i as int)),
        decreases draws@.len() - i,
    {
        let j: usize = draws[i];
        let a: usize = rows[i];
        let b: usize = rows[j];
        rows.set(i, b);
        rows.set(j, a);
        i = i + 1;
        assert(draws@.take(i as int).drop_last() =~= draws@.take(i - 1));
    }
    assert(draws@.take(i as int) =~= draws@);
    rows.truncate(draws.len());
    rows
}

/// Copies rows of `d` numbers each.
pub fn gather(data: &[u32], d: usize, rows: &[usize]) -> (out: Vec<u32>)
    requires
        forall|i: int| 0 <= i < rows@.len() ==> (#[trigger] rows@[i] + 1) * d <= data@.len(),
    ensures
        out@ == gathered(data@, d as nat, rows@),
{
    let total: usize = data.len();
    let mut out: Vec<u32> = Vec::new();
    let mut i: usize = 0;
    assert(rows@.take(0) =~= Seq::<usize>::empty());
    while i < rows.len()
        invariant
            i <= rows@.len(),
            total == data@.len(),
            forall|i: int| 0 <= i < rows@.len() ==> (#[trigger] rows@[i] + 1) * d <= data@.len(),
            out@ == gathered(data@, d as nat, rows@.take(i as int)),
        decreases rows@.len() - i,
    {
        let row: usize = rows[i];
        let ghost before = out@;
        assert((rows@[i as int] + 1) * d <= total);
        assert((row + 1) * d == row * d + d) by (nonlinear_arith);
        let mut j: usize = 0;
        assert(out@ =~= before + data@.subrange((row * d) as int, (row * d) as int));
        while j < d
            invariant
                j <= d,
                total == data@.len(),
                row * d + d <= total,
                out@ == before + data@.subrange((row * d) as int, row * d + j),
            decreases d - j,
        {
            out.push(data[row * d + j]);
            j = j + 1;
            assert(out@ =~= before + data@.subrange((row * d) as int, row * d + j));
        }
        i = i + 1;
        assert(rows@.take(i as int).drop_last() =~= rows@.take(i - 1));
    }
    assert(rows@.take(i as int) =~= rows@);
    out
}

/// The vectors that a training uses: all of them, or the picked ones, if there
/// are more than `max`.
pub open spec fn training_rows(n: nat, max: nat, draws: Seq<usize>) -> Seq<usize> {
    if n > max {
        picked(n, draws)
    } else {
        Seq::new(n, |i: int| i as usize)
    }
}

proof fn lemma_gathered_all(data: Seq<u32>, d: nat, n: nat)
    requires
        n <= usize::MAX,
        n * d <= data.len(),
    ensures
        gathered(data, d, Seq::new(n, |i: int| i as usize)) == data.take((n * d) as int),
    decreases n,
{
    let rows = Seq::new(n, |i: int| i as usize);
    if n > 0 {
        let m = (n - 1) as nat;
        assert(m * d + d == n * d) by (nonlinear_arith)
            requires
                n == m + 1,
        ;
        lemma_gathered_all(data, d, m);
        assert(rows.drop_last() =~= Seq::new(m, |i: int| i as usize));
        assert(gathered(data, d, rows) =~= data.take((n * d) as int));
    } else {
        assert(0 * d == 0) by (nonlinear_arith);
        assert(gathered(data, d, rows) =~= data.take(0));
    }
}

impl OPQMatrix {
    /// The vectors that the rotation is trained on: those of `data`, or
    /// `max_train_points` of them, no one twice, in random order. Returns the
    /// generator too, from which the training draws on.
    pub fn subsample(&self, data: &[u32], n: usize) -> (sample: (Vec<u32>, rand::rngs::StdRng))
        requires
            n * self.d <= data@.len(),
        ensures
            exists|draws: Seq<usize>|
                #![trigger training_rows(n as nat, self.max_train_points as nat, draws)]
                {
                    &&& n > self.max_train_points ==> draws.len() == self.max_train_points
                        && draws_valid(n as nat, draws)
                    &&& sample.0@ == gathered(
                        data@,
                        self.d as nat,
                        training_rows(n as nat, self.max_train_points as nat, draws),
                    )
                },
            n <= self.max_train_points ==> sample.0@ == data@.take((n * self.d) as int),
    {
        let d: usize = self.d;
        let mut rng: rand::rngs::StdRng = seeded(TRAINING_SEED);
        let mut draws: Vec<usize> = Vec::new();
        let total: usize = data.len();
        let rows: Vec<usize> = if n > self.max_train_points {
            let mut i: usize = 0;
            while i < self.max_train_points
                invariant
                    i <= self.max_train_points,
                    self.max_train_points < n,
                    draws@.len() == i,
                    forall|x: int| 0 <= x < i ==> x <= #[trigger] draws@[x] < n,
                decreases self.max_train_points - i,
            {
                draws.push(draw(&mut rng, i, n));
                i = i + 1;
            }
            let rows: Vec<usize> = pick_rows(n, draws.as_slice());
            proof {
                lemma_picked(n as nat, draws@);
            }
            rows
        } else {
            let mut rows: Vec<usize> = Vec::new();
            let mut i: usize = 0;
            while i < n
                invariant
                    i <= n,
                    rows@.len() == i,
                    forall|x: int| 0 <= x < i ==> #[trigger] rows@[x] == x,
                decreases n - i,
            {
                rows.push(i);
                i = i + 1;
            }
            proof {
                assert(rows@ =~= Seq::new(n as nat, |i: int| i as usize));
                lemma_gathered_all(data@, d as nat, n as nat);
            }
            rows
        };
        proof {
            assert(rows@ == training_rows(n as nat, self.max_train_points as nat, draws@));
            assert forall|i: int| 0 <= i < rows@.len() implies (#[trigger] rows@[i] + 1) * d
                <= data@.len() by {
                assert(rows@[i] < n);
                assert((rows@[i] + 1) * d <= n * d) by (nonlinear_arith)
                    requires
                        rows@[i] + 1 <= n,
                ;
            }
        }
        let sample: Vec<u32> = gather(data, d, rows.as_slice());
        (sample, rng)
    }
}

/// The draws exchange places one after the other: draw `i` puts what stands at
/// the drawn place to place `i`, and what stood there to the drawn place. Before
/// the first draw everything stands at its own place.
pub proof fn lemma_next_draw(n: nat, draws: Seq<usize>, j: usize)
    requires
        n <= usize::MAX,
        draws_valid(n, draws),
        draws.len() <= j < n,
    ensures
        shuffled(n, Seq::empty()).len() == n,
        forall|x: int| 0 <= x < n ==> #[trigger] shuffled(n, Seq::empty())[x] == x,
        ({
            let before = shuffled(n, draws);
            let after = shuffled(n, draws.push(j));
            let i: int = draws.len() as int;
            &&& after.len() == n
            &&& after[i] == before[j as int]
            &&& after[j as int] == before[i]
            &&& forall|x: int| 0 <= x < n && x != i && x != j ==> #[trigger] after[x] == before[x]
            &&& picked(n, draws.push(j)) == picked(n, draws).push(before[j as int])
        }),
{
    assert(draws.push(j).drop_last() =~= draws);
    lemma_shuffled(n, draws);
    let after = shuffled(n, draws.push(j));
    assert(picked(n, draws.push(j)) =~= picked(n, draws).push(shuffled(n, draws)[j as int]));
}

/// Gathered rows stand one behind the other, number by number as in the data.
pub proof fn lemma_gathered(data: Seq<u32>, d: nat, rows: Seq<usize>, i: int, x: int)
    requires
        forall|y: int| 0 <= y < rows.len() ==> (#[trigger] rows[y] + 1) * d <= data.len(),
    ensures
        gathered(data, d, rows).len() == rows.len() * d,
        0 <= i < rows.len() && 0 <= x < d ==> 0 <= i * d + x < rows.len() * d && gathered(
            data,
            d,
            rows,
        )[i * d + x] == data[rows[i] * d + x],
    decreases rows.len(),
{
    if rows.len() > 0 {
        let front = rows.drop_last();
        assert forall|y: int| 0 <= y < front.len() implies (#[trigger] front[y] + 1) * d
            <= data.len() by {
            assert(front[y] == rows[y]);
        }
        lemma_gathered(data, d, front, i, x);
        let row: int = rows.last() as int;
        assert((rows[rows.len() - 1] + 1) * d <= data.len());
        assert((row + 1) * d == row * d + d) by (nonlinear_arith);
        assert(0 <= row * d) by (nonlinear_arith)
            requires
                0 <= row,
        ;
        let m: int = front.len() as int;
        assert((m + 1) * d == m * d + d) by (nonlinear_arith);
        assert(0 <= i ==> 0 <= i * d) by (nonlinear_arith);
        if 0 <= i < m {
            assert(i * d + d <= m * d) by (nonlinear_arith)
                requires
                    0 <= i,
                    i + 1 <= m,
            ;
        }
    } else {
        assert(0 * d == 0) by (nonlinear_arith);
    }
}

/// A training uses all vectors, if there are no more than it may use; else as
/// many different ones as were drawn.
pub proof fn lemma_training_rows(n: nat, max: nat, draws: Seq<usize>)
    requires
        n <= usize::MAX,
        draws_valid(n, draws),
    ensures
        n <= max ==> training_rows(n, max, draws).len() == n,
        n <= max ==> forall|i: int| 0 <= i < n ==> #[trigger] training_rows(n, max, draws)[i] == i,
        n > max ==> training_rows(n, max, draws).len() == draws.len(),
        training_rows(n, max, draws).no_duplicates(),
        forall|i: int|
            0 <= i < training_rows(n, max, draws).len() ==> #[trigger] training_rows(
                n,
                max,
                draws,
            )[i] < n,
{
    lemma_picked(n, draws);
}

} // verus!
