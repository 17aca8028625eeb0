//! A deterministic stream of 64-bit words, made by the xorshift recurrence.

use vstd::prelude::*;

verus! {

/// The state that every new stream starts from.
pub const SEED: u64 = 0xFFAA_B58C_5833_FE89;

/// One step of the recurrence: three shifts, each folded back with xor.
pub open spec fn xorshift(x: u64) -> u64 {
    let a = x ^ (x << 13);
    let b = a ^ (a >> 17);
    b ^ (b << 5)
}

/// The state reached from `state` after `n` draws.
pub open spec fn state_after(state: u64, n: nat) -> u64
    decreases n,
{
    if n == 0 {
        state
    } else {
        xorshift(state_after(state, (n - 1) as nat))
    }
}

/// The first `n` words drawn from a stream in state `state`.
pub open spec fn draws(state: u64, n: nat) -> Seq<u64> {
    Seq::new(n, |i: int| state_after(state, (i + 1) as nat))
}

/// A stream of pseudo-random words. Its whole state is the word drawn last.
pub struct Random(u64);

impl Random {
    /// The word that the next draw is computed from.
    pub closed spec fn state(&self) -> u64 {
        self.0
    }

    /// A stream is well formed when it is not stuck at zero, the
    /// recurrence's only fixed point.
    pub open spec fn wf(&self) -> bool {
        self.state() != 0
    }

    pub fn new() -> (random: Self)
        ensures
            random.state() == SEED,
            random.wf(),
    {
        Self(SEED)
    }

    /// Draws the next word, which is also the stream's new state.
    pub fn next_u64(&mut self) -> (number: u64)
        ensures
            number == xorshift(old(self).state()),
            final(self).state() == number,
            final(self).wf() == old(self).wf(),
    {
        let mut number: u64 = self.0;
        number ^= number << 13;
        number ^= number >> 17;
        number ^= number << 5;
        self.0 = number;
        proof {
            lemma_xorshift_zero(old(self).state());
        }
        number
    }
}

/// The recurrence sends zero to zero and nothing else there.
pub proof fn lemma_xorshift_zero(x: u64)
    ensures
        xorshift(x) == 0 <==> x == 0,
{
    let a = x ^ (x << 13);
    let b = a ^ (a >> 17);
    assert(a == 0 <==> x == 0) by (bit_vector)
        requires
            a == x ^ (x << 13),
    ;
    assert(b == 0 <==> a == 0) by (bit_vector)
        requires
            b == a ^ (a >> 17),
    ;
    assert((b ^ (b << 5)) == 0 <==> b == 0) by (bit_vector);
}

/// A stream that is not at zero never gets there, however many words are
/// drawn: no state on the way is zero, and so no word drawn is.
pub proof fn lemma_never_zero(state: u64, n: nat)
    requires
        state != 0,
    ensures
        state_after(state, n) != 0,
        forall|i: int| 0 <= i < n ==> #[trigger] draws(state, n)[i] != 0,
    decreases n,
{
    if n > 0 {
        lemma_never_zero(state, (n - 1) as nat);
        lemma_xorshift_zero(state_after(state, (n - 1) as nat));
        assert forall|i: int| 0 <= i < n implies #[trigger] draws(state, n)[i] != 0 by {
            if i < n - 1 {
                assert(draws(state, n)[i] == draws(state, (n - 1) as nat)[i]);
            }
        }
    }
}

/// Two streams in the same state yield the same words, draw for draw. Two
/// new streams are in the same state, the seed.
pub proof fn lemma_streams_agree(a: Random, b: Random, n: nat)
    requires
        a.state() == b.state(),
    ensures
        draws(a.state(), n) == draws(b.state(), n),
        state_after(a.state(), n) == state_after(b.state(), n),
{
}

/// No word drawn from a new stream is zero.
pub proof fn lemma_seeded_stream_never_zero(n: nat)
    ensures
        forall|i: int| 0 <= i < n ==> #[trigger] draws(SEED, n)[i] != 0,
{
    lemma_never_zero(SEED, n);
}

} // verus!
