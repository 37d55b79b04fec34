//! The random source of the generator: a ChaCha8 stream, modelled by an
//! abstract state that each draw advances.
use rand::{Rng, SeedableRng};
use rand_chacha::ChaCha8Rng;
use vstd::prelude::*;

verus! {

#[verifier::external_type_specification]
#[verifier::external_body]
pub struct ExChaCha8Rng(ChaCha8Rng);

/// The generator state that `ChaCha8Rng::seed_from_u64(seed)` starts from.
pub uninterp spec fn seeded_state(seed: u64) -> int;

/// What `gen::<u32>()` returns from a state, and the state it leaves.
pub uninterp spec fn word32_draw(state: int) -> (u32, int);

/// What `gen::<u64>()` returns from a state, and the state it leaves.
pub uninterp spec fn word64_draw(state: int) -> (u64, int);

/// What `gen_range(0..high)` over `usize` returns from a state, and the state
/// it leaves, on a machine whose `usize` has `word_bits` bits (the draw
/// samples words of that width).
pub uninterp spec fn gen_usize_below(state: int, high: usize, word_bits: u32) -> (usize, int);

/// What `gen_range(low..high)` over `i32` returns from a state, and the state it leaves.
pub uninterp spec fn gen_i32_range(state: int, low: i32, high: i32) -> (i32, int);

/// What `gen_range(low..high)` over `isize` returns from a state, and the
/// state it leaves, on a machine whose `usize` has `word_bits` bits.
pub uninterp spec fn gen_isize_range(state: int, low: isize, high: isize, word_bits: u32) -> (isize, int);

/// A draw below `high` over `usize` on this machine. The draw always lies
/// below a positive `high` (the value 0 stands in only where the range is
/// empty, which no caller asks for).
pub open spec fn usize_below_draw(state: int, high: usize) -> (usize, int) {
    let d = gen_usize_below(state, high, usize::BITS);
    (if d.0 < high {
        d.0
    } else {
        0
    }, d.1)
}

/// A draw in `low..high` over `i32`; it always lies in the range when the
/// range is not empty (`low` stands in otherwise).
pub open spec fn i32_range_draw(state: int, low: i32, high: i32) -> (i32, int) {
    let d = gen_i32_range(state, low, high);
    (if low <= d.0 < high {
        d.0
    } else {
        low
    }, d.1)
}

/// A draw in `low..high` over `isize` on this machine; it always lies in
/// the range when the range is not empty (`low` stands in otherwise).
pub open spec fn isize_range_draw(state: int, low: isize, high: isize) -> (isize, int) {
    let d = gen_isize_range(state, low, high, usize::BITS);
    (if low <= d.0 < high {
        d.0
    } else {
        low
    }, d.1)
}

/// Every draw from every state lies in its range: below `high` for a
/// positive `high`, and in `low..high` for a range that is not empty.
pub proof fn law_draws_stay_in_range(state: int, high: usize, low: i32, top: i32, lo: isize, hi: isize)
    ensures
        0 < high ==> usize_below_draw(state, high).0 < high,
        low < top ==> low <= i32_range_draw(state, low, top).0 < top,
        lo < hi ==> lo <= isize_range_draw(state, lo, hi).0 < hi,
{
}

/// A source of random draws. Its abstract state stands for the generator's
/// internal state (key, block counter and buffered words); every draw is a
/// function of it, so two sources in the same state produce the same values.
pub struct Dice {
    rng: ChaCha8Rng,
    state: Ghost<int>,
}

/// A draw passes a cut when the top 24 bits of a uniform 32-bit word exceed
/// the cut, which happens with probability `1 - (cut + 1) / 2^24`.
pub open spec fn chance_draw(state: int, cut: u32) -> (bool, int) {
    let d = word32_draw(state);
    ((d.0 >> 8u32) > cut, d.1)
}

impl Dice {
    pub closed spec fn state(&self) -> int {
        self.state@
    }

    /// `ChaCha8Rng::seed_from_u64`: the generator starts in the state named
    /// by the seed alone (the same seed gives the same stream everywhere).
    #[verifier::external_body]
    fn seeded(seed: u64) -> (d: Dice)
        ensures
            d.state() == seeded_state(seed),
    {
        Dice { rng: ChaCha8Rng::seed_from_u64(seed), state: Ghost(seeded_state(seed)) }
    }

    /// `ChaCha8Rng::from_entropy`: the generator starts in a state taken from
    /// the operating system's randomness; nothing is claimed of that state
    /// (the abstract state recorded here is a placeholder that no contract
    /// ties to anything). `from_entropy` panics only when the operating
    /// system cannot supply randomness at all.
    #[verifier::external_body]
    fn from_entropy() -> (d: Dice) {
        Dice { rng: ChaCha8Rng::from_entropy(), state: Ghost(0) }
    }

    /// A source seeded with `seed` when one is given, otherwise one seeded
    /// from the operating system's randomness.
    pub fn from_seed(seed: Option<u64>) -> (d: Dice)
        ensures
            seed matches Some(s) ==> d.state() == seeded_state(s),
    {
        match seed {
            Some(s) => Dice::seeded(s),
            None => Dice::from_entropy(),
        }
    }

    /// `Rng::gen::<u32>()`: a uniform 32-bit word, determined by the state.
    #[verifier::external_body]
    fn word32(&mut self) -> (w: u32)
        ensures
            (w, final(self).state()) == word32_draw(old(self).state()),
    {
        self.state = Ghost(word32_draw(self.state@).1);
        self.rng.gen::<u32>()
    }

    /// `Rng::gen::<u64>()`: a uniform 64-bit word, determined by the state.
    #[verifier::external_body]
    pub(crate) fn word64(&mut self) -> (w: u64)
        ensures
            (w, final(self).state()) == word64_draw(old(self).state()),
    {
        self.state = Ghost(word64_draw(self.state@).1);
        self.rng.gen::<u64>()
    }

    /// `Rng::gen_range(0..high)` over `usize`: a value below `high`,
    /// determined by the state (the range must not be empty).
    #[verifier::external_body]
    pub(crate) fn below(&mut self, high: usize) -> (r: usize)
        requires
            0 < high,
        ensures
            (r, final(self).state()) == gen_usize_below(old(self).state(), high, usize::BITS),
            r < high,
    {
        self.state = Ghost(gen_usize_below(self.state@, high, usize::BITS).1);
        self.rng.gen_range(0..high)
    }

    /// `Rng::gen_range(low..high)` over `i32`: a value in `low..high`,
    /// determined by the state (the range must not be empty).
    #[verifier::external_body]
    pub(crate) fn range_i32(&mut self, low: i32, high: i32) -> (r: i32)
        requires
            low < high,
        ensures
            (r, final(self).state()) == gen_i32_range(old(self).state(), low, high),
            low <= r < high,
    {
        self.state = Ghost(gen_i32_range(self.state@, low, high).1);
        self.rng.gen_range(low..high)
    }

    /// `Rng::gen_range(low..high)` over `isize`: a value in `low..high`,
    /// determined by the state (the range must not be empty).
    #[verifier::external_body]
    pub(crate) fn range_isize(&mut self, low: isize, high: isize) -> (r: isize)
        requires
            low < high,
        ensures
            (r, final(self).state()) == gen_isize_range(old(self).state(), low, high, usize::BITS),
            low <= r < high,
    {
        self.state = Ghost(gen_isize_range(self.state@, low, high, usize::BITS).1);
        self.rng.gen_range(low..high)
    }

    /// Whether a draw passes `cut` (see `chance_draw`).
    pub(crate) fn chance(&mut self, cut: u32) -> (pass: bool)
        ensures
            (pass, final(self).state()) == chance_draw(old(self).state(), cut),
    {
        let w = self.word32();
        (w >> 8u32) > cut
    }

    /// A uniform 64-bit word, as a seed for a later generator.
    pub fn next_seed(&mut self) -> (w: u64)
        ensures
            (w, final(self).state()) == word64_draw(old(self).state()),
    {
        self.word64()
    }
}

} // verus!
