//! Seeded random coordinate source for mine placement.
//!
//! The engine draws cell coordinates from a ChaCha8 stream. For a stream
//! built from an explicit 64-bit seed, every value drawn is a pure function
//! of the seed and of the bounds passed to the draws made so far; the
//! determinism proofs for mine generation rest on exactly that fact.

use vstd::prelude::*;

verus! {

#[verifier::external_type_specification]
#[verifier::external_body]
pub struct ExChaCha8Rng(rand_chacha::ChaCha8Rng);

/// The value that a ChaCha8 stream seeded with `seed` yields for a draw
/// bounded by `bound`, after earlier draws bounded by `history`.
pub uninterp spec fn chacha_draw(seed: u64, history: Seq<int>, bound: int) -> int;

/// A pseudorandom source of cell coordinates. The ghost fields record the
/// seed (if one was given) and the bounds of the draws made so far, which
/// together determine every value a seeded source yields.
pub struct MineRng {
    pub inner: rand_chacha::ChaCha8Rng,
    pub seed: Ghost<Option<u64>>,
    pub history: Ghost<Seq<int>>,
}

impl MineRng {
    /// Relies on `rand_chacha::ChaCha8Rng` (via `SeedableRng::seed_from_u64`):
    /// the stream is a deterministic function of the seed.
    #[verifier::external_body]
    pub fn new_seeded(seed: u64) -> (r: MineRng)
        ensures
            r.seed@ == Some(seed),
            r.history@ == Seq::<int>::empty(),
    {
        MineRng {
            inner: <rand_chacha::ChaCha8Rng as rand::SeedableRng>::seed_from_u64(seed),
            seed: Ghost(Some(seed)),
            history: Ghost(Seq::empty()),
        }
    }

    /// Relies on `rand::SeedableRng::from_os_rng`: entropy is drawn once from
    /// the operating system; nothing is assumed of the stream it yields.
    #[verifier::external_body]
    pub fn new_from_os() -> (r: MineRng)
        ensures
            r.seed@ == None::<u64>,
            r.history@ == Seq::<int>::empty(),
    {
        MineRng {
            inner: <rand_chacha::ChaCha8Rng as rand::SeedableRng>::from_os_rng(),
            seed: Ghost(None),
            history: Ghost(Seq::empty()),
        }
    }

    /// Relies on `rand::Rng::random_range` over `0..bound`: the result is
    /// below `bound`, and on a seeded ChaCha8 stream it depends only on the
    /// seed and on the bounds of the draws made so far.
    #[verifier::external_body]
    pub fn next_below(&mut self, bound: usize) -> (r: usize)
        requires
            bound > 0,
        ensures
            r < bound,
            final(self).seed@ == old(self).seed@,
            final(self).history@ == old(self).history@.push(bound as int),
            old(self).seed@ matches Some(s) ==> r as int == chacha_draw(
                s,
                old(self).history@,
                bound as int,
            ),
    {
        rand::Rng::random_range(&mut self.inner, 0..bound)
    }
}

/// The bounds consumed by `i` complete coordinate-pair draws on a grid of
/// the given dimensions: x below `cols`, then y below `rows`, repeated.
pub open spec fn pair_history(cols: int, rows: int, i: nat) -> Seq<int>
    decreases i,
{
    if i == 0 {
        Seq::empty()
    } else {
        pair_history(cols, rows, (i - 1) as nat) + seq![cols, rows]
    }
}

/// The `i`-th coordinate pair drawn from a stream seeded with `seed`.
pub open spec fn pair_at(seed: u64, cols: int, rows: int, i: nat) -> (int, int) {
    (
        chacha_draw(seed, pair_history(cols, rows, i), cols),
        chacha_draw(seed, pair_history(cols, rows, i).push(cols), rows),
    )
}

/// The mine set collected by rejection sampling after `i` pair draws: every
/// drawn pair except the start position.
pub open spec fn mine_set_at(
    seed: u64,
    cols: int,
    rows: int,
    start: (int, int),
    i: nat,
) -> Set<(int, int)>
    decreases i,
{
    if i == 0 {
        Set::empty()
    } else {
        let prev = mine_set_at(seed, cols, rows, start, (i - 1) as nat);
        let p = pair_at(seed, cols, rows, (i - 1) as nat);
        if p == start {
            prev
        } else {
            prev.insert(p)
        }
    }
}

/// `i` is the first pair count at which the sample holds `nr` mines.
pub open spec fn generation_complete(
    seed: u64,
    cols: int,
    rows: int,
    start: (int, int),
    nr: int,
    i: nat,
) -> bool {
    &&& mine_set_at(seed, cols, rows, start, i).len() == nr
    &&& forall|j: nat| j < i ==> #[trigger] mine_set_at(seed, cols, rows, start, j).len() < nr
}

/// The sampled set is finite at every step, and never holds the start
/// position.
pub proof fn lemma_mine_set_at_finite(seed: u64, cols: int, rows: int, start: (int, int), i: nat)
    ensures
        mine_set_at(seed, cols, rows, start, i).finite(),
        !mine_set_at(seed, cols, rows, start, i).contains(start),
    decreases i,
{
    if i > 0 {
        lemma_mine_set_at_finite(seed, cols, rows, start, (i - 1) as nat);
    }
}

/// Rejection sampling stops at exactly one point: two complete runs with the
/// same inputs collect the same mine set.
pub proof fn lemma_generation_unique(
    seed: u64,
    cols: int,
    rows: int,
    start: (int, int),
    nr: int,
    i1: nat,
    i2: nat,
)
    requires
        generation_complete(seed, cols, rows, start, nr, i1),
        generation_complete(seed, cols, rows, start, nr, i2),
    ensures
        i1 == i2,
        mine_set_at(seed, cols, rows, start, i1) == mine_set_at(seed, cols, rows, start, i2),
{
    if i1 < i2 {
        assert(mine_set_at(seed, cols, rows, start, i1).len() < nr);
    } else if i2 < i1 {
        assert(mine_set_at(seed, cols, rows, start, i2).len() < nr);
    }
}

} // verus!
