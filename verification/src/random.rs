//! The source of the random decisions of training.

use vstd::prelude::*;
use rand::Rng;
use rand::SeedableRng;

verus! {

/// What `Rng::gen_range(low, high)` returns at `i64` on the
/// `rand::XorShiftRng` whose state is the four `words`, for `low < high`,
/// and the state in which it leaves the generator, as the four words drawn
/// next.
pub uninterp spec fn drawn_between(words: Seq<u32>, low: i64, high: i64) -> (i64, Seq<u32>);

/// Draws from the `rand::XorShiftRng` that `XorShiftRng::from_seed` makes
/// of `words`: the value is what `Rng::gen_range(low, high)` returns, which
/// lies in `[low, high)`; the four words that `Rng::gen` draws after it are
/// the state in which the draw has left the generator. Both are functions
/// of `words`, `low` and `high`.
#[verifier::external_body]
fn xorshift_between(words: [u32; 4], low: i64, high: i64) -> (r: (i64, [u32; 4]))
    requires
        !(words[0] == 0 && words[1] == 0 && words[2] == 0 && words[3] == 0),
        low < high,
    ensures
        r.0 == drawn_between(words@, low, high).0,
        r.1@ == drawn_between(words@, low, high).1,
        low <= r.0 < high,
{
    let mut rng = rand::XorShiftRng::from_seed(words);
    let value = rng.gen_range(low, high);
    let next: [u32; 4] = rng.gen();
    (value, next)
}

/// Four words from `rand::thread_rng`, the generator that the system seeds.
/// Nothing is claimed of them.
#[verifier::external_body]
fn entropy_words() -> (words: [u32; 4])
{
    rand::thread_rng().gen()
}

/// Whether the four words are all zero: the one state in which a generator
/// cannot be.
pub open spec fn all_zero(words: Seq<u32>) -> bool {
    words[0] == 0 && words[1] == 0 && words[2] == 0 && words[3] == 0
}

/// The state that stands in for the state of four zero words.
pub open spec fn fallback() -> Seq<u32> {
    seq![0x193a_6754u32, 0xa8a7_d469u32, 0x9783_0e05u32, 0x113b_a7bbu32]
}

/// The state `words` if a generator can be in it, else the fallback.
pub open spec fn settled(words: Seq<u32>) -> Seq<u32> {
    if all_zero(words) {
        fallback()
    } else {
        words
    }
}

/// A draw from `[low, high)` in the state `words`: the value drawn and the
/// state afterwards.
pub open spec fn between_step(words: Seq<u32>, low: i64, high: i64) -> (i64, Seq<u32>) {
    (drawn_between(words, low, high).0, settled(drawn_between(words, low, high).1))
}

/// A draw of an index below `n` in the state `words`: the index drawn and
/// the state afterwards. The index is drawn as a value of as many values
/// from the least 64-bit integer on.
pub open spec fn index_step(words: Seq<u32>, n: usize) -> (usize, Seq<u32>) {
    let step = between_step(words, i64::MIN, (i64::MIN + n) as i64);
    ((step.0 - i64::MIN) as usize, step.1)
}

/// The source of the random decisions of training: which feature a
/// candidate split tests and where its threshold lies. It is a state of
/// four words, not all zero, which every draw replaces; equal states give
/// equal draws.
pub struct Generator {
    words: [u32; 4],
}

impl View for Generator {
    type V = Seq<u32>;

    closed spec fn view(&self) -> Seq<u32> {
        self.words@
    }
}

/// The four words if a generator can be in that state, else the fallback.
fn settle(words: [u32; 4]) -> (state: [u32; 4])
    ensures
        state@ == settled(words@),
        !all_zero(state@),
{
    if words[0] == 0 && words[1] == 0 && words[2] == 0 && words[3] == 0 {
        let state = [0x193a_6754u32, 0xa8a7_d469u32, 0x9783_0e05u32, 0x113b_a7bbu32];
        proof {
            assert(state@ =~= fallback());
        }
        state
    } else {
        words
    }
}

impl Generator {
    #[verifier::type_invariant]
    spec fn alive(self) -> bool {
        !all_zero(self.words@)
    }

    /// Whether `seed` can start a generator: at least one word is not zero.
    pub open spec fn usable_seed(seed: [u32; 4]) -> bool {
        !all_zero(seed@)
    }

    /// The generator in the state `seed`. The seed of four zero words is
    /// the one seed that starts no generator.
    pub fn from_seed(seed: [u32; 4]) -> (g: Option<Generator>)
        ensures
            g is Some <==> Self::usable_seed(seed),
            g matches Some(x) ==> x@ == seed@,
    {
        if seed[0] == 0 && seed[1] == 0 && seed[2] == 0 && seed[3] == 0 {
            None
        } else {
            Some(Generator { words: seed })
        }
    }

    /// A generator in a state that the system draws: whichever four words
    /// are drawn, the state is one that a generator can be in, the fallback
    /// standing in for four zero words.
    pub fn from_entropy() -> (g: Generator)
        ensures
            g@.len() == 4,
            !all_zero(g@),
    {
        Generator { words: settle(entropy_words()) }
    }

    /// The four words of the state.
    pub fn state(&self) -> (words: [u32; 4])
        ensures
            words@ == self@,
            !all_zero(words@),
    {
        proof {
            use_type_invariant(self);
        }
        self.words
    }

    /// A value in `[low, high)`.
    pub fn between(&mut self, low: i64, high: i64) -> (r: i64)
        requires
            low < high,
        ensures
            low <= r < high,
            (r, final(self)@) == between_step(old(self)@, low, high),
    {
        proof {
            use_type_invariant(&*self);
        }
        let (value, next) = xorshift_between(self.words, low, high);
        *self = Generator { words: settle(next) };
        value
    }

    /// An index below `n`.
    pub fn index_below(&mut self, n: usize) -> (r: usize)
        requires
            0 < n,
        ensures
            r < n,
            (r, final(self)@) == index_step(old(self)@, n),
    {
        let high = (i64::MIN as i128 + n as i128) as i64;
        let value = self.between(i64::MIN, high);
        (value as i128 - i64::MIN as i128) as usize
    }
}

} // verus!
