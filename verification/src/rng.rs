//! A seedable deterministic pseudo-random source.
//!
//! The generator carries a ghost record of its seed and of every draw it
//! has made so far. For a seeded generator the outcome of the next draw
//! is a pure function of the seed and of that record, which is what makes
//! whole simulation runs reproducible.

use vstd::prelude::*;

verus! {

// `rand::rngs::StdRng` is held in a field below, so it is declared here.
#[verifier::external_type_specification]
#[verifier::external_body]
pub struct ExStdRng(rand::rngs::StdRng);

/// The boolean that a generator seeded with `seed` yields once it has
/// made the draws recorded in `ops`.
pub uninterp spec fn bool_draw(seed: u64, ops: Seq<int>) -> bool;

/// The value below `bound` that a generator seeded with `seed` yields
/// once it has made the draws recorded in `ops`.
pub uninterp spec fn range_draw(seed: u64, ops: Seq<int>, bound: usize) -> usize;

/// The entry recorded for a boolean draw. A draw below `bound` is
/// recorded as `bound` itself, which is always positive.
pub open spec fn bool_op() -> int {
    -1
}

/// A pseudo-random generator together with a ghost record of its seed
/// and of the draws made so far.
pub struct SimRng {
    pub rng: rand::rngs::StdRng,
    pub seed: Ghost<Option<u64>>,
    pub ops: Ghost<Seq<int>>,
}

/// Relies on `rand::rngs::StdRng::seed_from_u64`: the seed determines
/// the generator's entire state.
#[verifier::external_body]
fn std_rng_from_seed(seed: u64) -> rand::rngs::StdRng {
    <rand::rngs::StdRng as rand::SeedableRng>::seed_from_u64(seed)
}

/// Relies on `rand::rngs::StdRng::from_entropy`; nothing is assumed of
/// the resulting state.
#[verifier::external_body]
fn std_rng_from_entropy() -> rand::rngs::StdRng {
    <rand::rngs::StdRng as rand::SeedableRng>::from_entropy()
}

impl SimRng {
    /// A generator from an optional seed: seeded and reproducible for
    /// `Some`, initialized from entropy for `None`.
    pub fn new(seed: Option<u64>) -> (r: SimRng)
        ensures
            r.seed@ == seed,
            r.ops@ == Seq::<int>::empty(),
    {
        let rng = match seed {
            Some(s) => std_rng_from_seed(s),
            None => std_rng_from_entropy(),
        };
        SimRng { rng, seed: Ghost(seed), ops: Ghost(Seq::empty()) }
    }

    /// A uniformly drawn boolean.
    ///
    /// Relies on `rand::Rng::gen::<bool>`: on a seeded generator the
    /// outcome depends only on the seed and on the draws already made.
    #[verifier::external_body]
    pub(crate) fn gen_bool(&mut self) -> (b: bool)
        ensures
            final(self).seed == old(self).seed,
            final(self).ops@ == old(self).ops@.push(bool_op()),
            old(self).seed@ matches Some(s) ==> b == bool_draw(s, old(self).ops@),
    {
        rand::Rng::gen::<bool>(&mut self.rng)
    }

    /// A uniformly drawn value in `[0, bound)`.
    ///
    /// Relies on `rand::Rng::gen_range` over `0..bound`: the result lies
    /// below `bound`, and on a seeded generator it depends only on the
    /// seed and on the draws already made. The call panics on an empty
    /// range, so `bound` must be positive.
    #[verifier::external_body]
    pub(crate) fn gen_below(&mut self, bound: usize) -> (v: usize)
        requires
            bound >= 1,
        ensures
            v < bound,
            final(self).seed == old(self).seed,
            final(self).ops@ == old(self).ops@.push(bound as int),
            old(self).seed@ matches Some(s) ==> v == range_draw(s, old(self).ops@, bound),
    {
        rand::Rng::gen_range(&mut self.rng, 0..bound)
    }
}

/// The draw record after `count` draws that were all below `bound`.
pub open spec fn range_ops(count: int, bound: usize) -> Seq<int> {
    Seq::new(count as nat, |i: int| bound as int)
}

/// The draw record after `count` boolean draws.
pub open spec fn bool_ops(count: int) -> Seq<int> {
    Seq::new(count as nat, |i: int| bool_op())
}

/// Extending a uniform draw record by one more draw of the same kind
/// gives the uniform record that is one draw longer.
pub proof fn lemma_range_ops_push(count: int, bound: usize)
    requires
        count >= 0,
    ensures
        range_ops(count, bound).push(bound as int) == range_ops(count + 1, bound),
        bool_ops(count).push(bool_op()) == bool_ops(count + 1),
{
    assert(range_ops(count, bound).push(bound as int) =~= range_ops(count + 1, bound));
    assert(bool_ops(count).push(bool_op()) =~= bool_ops(count + 1));
}

} // verus!
