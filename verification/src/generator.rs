//! The search for a magic number: a multiplier that hashes every subset of
//! a square's relevant occupancies into a table of attacks without two
//! different attacks meeting in one slot.

use vstd::prelude::*;
use vstd::arithmetic::power2::{
    lemma2_to64,
    lemma2_to64_rest,
    lemma_pow2_adds,
    lemma_pow2_pos,
    lemma_pow2_strictly_increases,
    pow2,
};
use vstd::bits::{lemma_u64_pow2_no_overflow, lemma_u64_shl_is_mul, lemma_u64_shr_is_div};
use vstd::wrapping::u64_specs;
use crate::attacks::{
    all_ray_directions,
    attacks_of,
    get_attacks,
    get_relevant_occupancies,
    is_square,
    lemma_attacks_nonzero,
    relevant_of,
};
use crate::bounds::{lemma_relevant_popcount, MAX_RELEVANT};
use crate::entry::MagicEntry;
use crate::random::{xorshift, Random};
use crate::subsets::{
    count_ones,
    lemma_popcount_at_most_64,
    popcount,
    subset_at,
    table_size,
};

verus! {

/// How many candidates a search tries before it gives up.
pub const ATTEMPTS: u32 = 1_000_000;

/// The fewest ones that the top byte of `mask * candidate` must hold for the
/// candidate to be tried at all. It only speeds the search up.
pub const MIN_TOP_BITS: u32 = 6;

/// The top byte of a board.
pub const TOP_BYTE: u64 = 0xFF00_0000_0000_0000;

/// The error type returned when magic number fails and causes a collision.
#[derive(Debug, Clone, Copy, PartialEq, Eq, Structural)]
pub struct MagicNumberCollision;

/// Why a search returned no entry.
#[derive(Debug, Clone, Copy, PartialEq, Eq, Structural)]
pub enum SearchError {
    /// No candidate within the budget hashed without a collision.
    SearchExhausted,
}

/// The slot of `occupancies` under `magic`: the product, cut to 64 bits,
/// without its `shift` lowest bits.
pub open spec fn hash_of(occupancies: u64, magic: u64, shift: nat) -> nat {
    u64_specs::wrapping_mul(occupancies, magic) as nat / pow2(shift)
}

/// The slot of the subset that the walk through `mask` reaches at `step`.
pub open spec fn slot_of(mask: u64, magic: u64, step: nat) -> nat {
    hash_of(subset_at(mask, step), magic, (64 - popcount(mask)) as nat)
}

/// The attacks from `square` for each of the first `size` subsets of `mask`,
/// in the order of the walk.
pub open spec fn expected_attacks(directions: Seq<i8>, square: int, mask: u64, size: nat) -> Seq<
    u64,
> {
    Seq::new(size, |i: int| attacks_of(directions, square, subset_at(mask, i as nat)))
}

/// What `slot` of the working table holds once the first `n` subsets are
/// entered: the attacks of the latest of them that hashed there, zero if
/// none did.
pub open spec fn slot_after(mask: u64, magic: u64, expected: Seq<u64>, slot: nat, n: nat) -> u64
    decreases n,
{
    if n == 0 {
        0
    } else if slot_of(mask, magic, (n - 1) as nat) == slot {
        expected[n - 1]
    } else {
        slot_after(mask, magic, expected, slot, (n - 1) as nat)
    }
}

/// The subset at `step` finds its slot taken by other attacks than its own.
/// A slot that holds zero counts as free.
pub open spec fn collides_at(mask: u64, magic: u64, expected: Seq<u64>, step: nat) -> bool {
    let held = slot_after(mask, magic, expected, slot_of(mask, magic, step), step);
    held != 0 && held != expected[step as int]
}

/// `magic` enters all of `expected` into the table without a collision.
pub open spec fn is_magic(mask: u64, magic: u64, expected: Seq<u64>) -> bool {
    forall|step: nat| step < expected.len() ==> !#[trigger] collides_at(mask, magic, expected, step)
}

/// The candidate passes the filter on the top byte of its product with the
/// mask.
pub open spec fn passes_filter(mask: u64, magic: u64) -> bool {
    popcount(u64_specs::wrapping_mul(mask, magic) & TOP_BYTE) >= MIN_TOP_BITS
}

/// The candidate that a stream in state `state` yields: its next three
/// words, and-ed.
pub open spec fn candidate(state: u64) -> u64 {
    xorshift(state) & xorshift(xorshift(state)) & xorshift(xorshift(xorshift(state)))
}

/// The state of a stream after it yielded one candidate.
pub open spec fn state_after_candidate(state: u64) -> u64 {
    xorshift(xorshift(xorshift(state)))
}

/// The search from `state` with `budget` attempts left: the first candidate
/// that passes the filter and is magic, if there is one, and the stream's
/// state when the search ends.
pub open spec fn search(mask: u64, expected: Seq<u64>, state: u64, budget: nat) -> (
    Option<u64>,
    u64,
)
    decreases budget,
{
    if budget == 0 {
        (None, state)
    } else if passes_filter(mask, candidate(state)) && is_magic(mask, candidate(state), expected) {
        (Some(candidate(state)), state_after_candidate(state))
    } else {
        search(mask, expected, state_after_candidate(state), (budget - 1) as nat)
    }
}

/// What a whole search for `square` returns from a stream in state `state`.
pub open spec fn search_outcome(directions: Seq<i8>, square: int, state: u64) -> Result<
    MagicEntry,
    SearchError,
> {
    let mask = relevant_of(directions, square);
    let expected = expected_attacks(directions, square, mask, table_size(mask));
    match search(mask, expected, state, ATTEMPTS as nat).0 {
        Some(magic) => Ok(
            MagicEntry {
                mask,
                magic,
                shift: (64 - popcount(mask)) as u32,
                size: table_size(mask) as usize,
            },
        ),
        None => Err(SearchError::SearchExhausted),
    }
}

/// The state in which a whole search for `square` leaves a stream that was
/// in state `state`.
pub open spec fn state_after_search(directions: Seq<i8>, square: int, state: u64) -> u64 {
    let mask = relevant_of(directions, square);
    let expected = expected_attacks(directions, square, mask, table_size(mask));
    search(mask, expected, state, ATTEMPTS as nat).1
}

/// A search that finds a candidate finds one that passes the filter and is
/// magic.
pub proof fn lemma_search_finds_magic(mask: u64, expected: Seq<u64>, state: u64, budget: nat)
    requires
        search(mask, expected, state, budget).0 is Some,
    ensures
        passes_filter(mask, search(mask, expected, state, budget).0.unwrap()),
        is_magic(mask, search(mask, expected, state, budget).0.unwrap(), expected),
    decreases budget,
{
    if budget > 0 && !(passes_filter(mask, candidate(state)) && is_magic(
        mask,
        candidate(state),
        expected,
    )) {
        lemma_search_finds_magic(
            mask,
            expected,
            state_after_candidate(state),
            (budget - 1) as nat,
        );
    }
}

/// Under a magic number and with no zero among the attacks, a slot keeps
/// the attacks of whichever subset hashed there first.
pub proof fn lemma_slot_keeps_attacks(
    mask: u64,
    magic: u64,
    expected: Seq<u64>,
    step: nat,
    n: nat,
)
    requires
        is_magic(mask, magic, expected),
        forall|k: int| 0 <= k < expected.len() ==> #[trigger] expected[k] != 0,
        step < n <= expected.len(),
    ensures
        slot_after(mask, magic, expected, slot_of(mask, magic, step), n) == expected[step as int],
    decreases n,
{
    let last = (n - 1) as nat;
    if last > step {
        lemma_slot_keeps_attacks(mask, magic, expected, step, last);
        assert(!collides_at(mask, magic, expected, last));
    }
}

/// Under a magic number and with no zero among the attacks, two subsets
/// that share a slot have the same attacks.
pub proof fn lemma_no_true_collision(
    mask: u64,
    magic: u64,
    expected: Seq<u64>,
    first: nat,
    second: nat,
)
    requires
        is_magic(mask, magic, expected),
        forall|k: int| 0 <= k < expected.len() ==> #[trigger] expected[k] != 0,
        first < expected.len(),
        second < expected.len(),
        slot_of(mask, magic, first) == slot_of(mask, magic, second),
    ensures
        expected[first as int] == expected[second as int],
{
    if first < second {
        lemma_slot_keeps_attacks(mask, magic, expected, first, second);
        assert(!collides_at(mask, magic, expected, second));
    } else if second < first {
        lemma_slot_keeps_attacks(mask, magic, expected, second, first);
        assert(!collides_at(mask, magic, expected, first));
    }
}

/// With no zero among the attacks, a multiplier under which subsets share
/// a slot only where they share their attacks is magic.
pub proof fn lemma_collision_free_is_magic(mask: u64, magic: u64, expected: Seq<u64>)
    requires
        forall|first: nat, second: nat|
            first < second < expected.len() && #[trigger] slot_of(mask, magic, first)
                == #[trigger] slot_of(mask, magic, second) ==> expected[first as int]
                == expected[second as int],
    ensures
        is_magic(mask, magic, expected),
{
    assert forall|step: nat| step < expected.len() implies !#[trigger] collides_at(
        mask,
        magic,
        expected,
        step,
    ) by {
        lemma_slot_holds_earlier(mask, magic, expected, slot_of(mask, magic, step), step);
    }
}

/// What a slot holds is zero or the attacks of an earlier subset of that
/// slot.
pub proof fn lemma_slot_holds_earlier(
    mask: u64,
    magic: u64,
    expected: Seq<u64>,
    slot: nat,
    n: nat,
)
    ensures
        slot_after(mask, magic, expected, slot, n) == 0 || exists|step: nat|
            step < n && #[trigger] slot_of(mask, magic, step) == slot && slot_after(
                mask,
                magic,
                expected,
                slot,
                n,
            ) == expected[step as int],
    decreases n,
{
    if n > 0 {
        let last = (n - 1) as nat;
        if slot_of(mask, magic, last) != slot {
            lemma_slot_holds_earlier(mask, magic, expected, slot, last);
        }
    }
}

/// The entry that a search found hashes every subset of its mask into its
/// table, and two subsets into one slot only where the attacks for them are
/// the same.
pub proof fn lemma_found_entry_is_collision_free(
    directions: Seq<i8>,
    square: int,
    state: u64,
    first: nat,
    second: nat,
)
    requires
        is_square(square),
        all_ray_directions(directions),
        search_outcome(directions, square, state) is Ok,
        first < search_outcome(directions, square, state).unwrap().size,
        second < search_outcome(directions, square, state).unwrap().size,
    ensures
        ({
            let entry = search_outcome(directions, square, state).unwrap();
            let here = hash_of(subset_at(entry.mask, first), entry.magic, entry.shift as nat);
            let there = hash_of(subset_at(entry.mask, second), entry.magic, entry.shift as nat);
            &&& entry.mask == relevant_of(directions, square)
            &&& entry.size == table_size(entry.mask)
            &&& entry.shift == 64 - popcount(entry.mask)
            &&& here < entry.size
            &&& here == there ==> attacks_of(directions, square, subset_at(entry.mask, first))
                == attacks_of(directions, square, subset_at(entry.mask, second))
        }),
{
    let mask = relevant_of(directions, square);
    let expected = expected_attacks(directions, square, mask, table_size(mask));
    let entry = search_outcome(directions, square, state).unwrap();
    lemma_relevant_popcount(directions, square);
    lemma_search_finds_magic(mask, expected, state, ATTEMPTS as nat);
    lemma_hash_in_table(subset_at(mask, first), entry.magic, (64 - popcount(mask)) as nat);
    if mask == 0 {
        lemma2_to64();
    } else {
        assert forall|k: int| 0 <= k < expected.len() implies #[trigger] expected[k] != 0 by {
            lemma_attacks_nonzero(directions, square, subset_at(mask, k as nat));
        }
        if slot_of(mask, entry.magic, first) == slot_of(mask, entry.magic, second) {
            lemma_no_true_collision(mask, entry.magic, expected, first, second);
        }
    }
}

/// A slot is below two to the number of bits that the shift leaves.
pub proof fn lemma_hash_in_table(occupancies: u64, magic: u64, shift: nat)
    requires
        shift <= 64,
    ensures
        hash_of(occupancies, magic, shift) < pow2((64 - shift) as nat),
{
    let product = u64_specs::wrapping_mul(occupancies, magic) as nat;
    let low = pow2(shift);
    let high = pow2((64 - shift) as nat);
    lemma_pow2_adds(shift, (64 - shift) as nat);
    lemma_pow2_pos(shift);
    lemma2_to64_rest();
    assert(product < low * high);
    assert(product / low < high) by (nonlinear_arith)
        requires
            product < low * high,
            low > 0,
    ;
}

/// Returns the slot of `occupancies` under `magic` and `shift`.
pub fn hash(occupancies: u64, magic: u64, shift: u32) -> (slot: u64)
    ensures
        slot == hash_of(occupancies, magic, shift as nat),
{
    let product: u64 = occupancies.wrapping_mul(magic);
    if shift >= 64 {
        proof {
            lemma2_to64_rest();
            if shift > 64 {
                lemma_pow2_strictly_increases(64, shift as nat);
            }
            assert(product as nat / pow2(shift as nat) == 0) by (nonlinear_arith)
                requires
                    product < pow2(shift as nat),
            ;
        }
        0
    } else {
        proof {
            lemma_u64_shr_is_div(product, shift as u64);
        }
        product >> (shift as u64)
    }
}

/// Determines if the given hash causes a collision.
pub fn is_collision_detected(actual: &[u64], hash: usize, attacks: u64) -> (collision: bool)
    requires
        hash < actual@.len(),
    ensures
        collision == (actual@[hash as int] != 0 && actual@[hash as int] != attacks),
{
    actual[hash] != 0 && actual[hash] != attacks
}

/// Determines if the magic number works for all possible occupancies.
///
/// # Errors
///
/// This function will return an error if the magic number caused a collision.
pub fn try_magic_number(mask: u64, magic: u64, expected: &[u64]) -> (r: Result<
    (),
    MagicNumberCollision,
>)
    requires
        expected@.len() == table_size(mask),
    ensures
        r.is_ok() <==> is_magic(mask, magic, expected@),
{
    proof {
        lemma_popcount_at_most_64(mask);
    }
    let shift: u32 = 64 - count_ones(mask);
    let mut actual: Vec<u64> = vec![0u64; expected.len()];
    let mut occupancies: u64 = 0;
    let mut i: usize = 0;
    while i < expected.len()
        invariant
            i <= expected.len(),
            actual.len() == expected.len(),
            expected@.len() == table_size(mask),
            shift == 64 - popcount(mask),
            occupancies == subset_at(mask, i as nat),
            forall|slot: nat|
                slot < actual.len() ==> #[trigger] actual@[slot as int] == slot_after(
                    mask,
                    magic,
                    expected@,
                    slot,
                    i as nat,
                ),
            forall|step: nat| step < i ==> !#[trigger] collides_at(mask, magic, expected@, step),
        decreases expected.len() - i,
    {
        let slot: u64 = hash(occupancies, magic, shift);
        proof {
            lemma_hash_in_table(occupancies, magic, shift as nat);
        }
        let index: usize = slot as usize;
        if is_collision_detected(actual.as_slice(), index, expected[i]) {
            proof {
                assert(collides_at(mask, magic, expected@, i as nat));
            }
            return Err(MagicNumberCollision);
        }
        actual.set(index, expected[i]);
        occupancies = occupancies.wrapping_sub(mask) & mask;
        i = i + 1;
    }
    Ok(())
}

/// Generate an attack map for the square in the specified directions: the
/// attacks for each of the first `size` subsets of `mask`.
pub fn generate_attacks(size: usize, directions: &[i8], square: i8, mask: u64) -> (map: Vec<u64>)
    requires
        is_square(square as int),
        all_ray_directions(directions@),
    ensures
        map@ == expected_attacks(directions@, square as int, mask, size as nat),
{
    let mut map: Vec<u64> = Vec::with_capacity(size);
    let mut occupancies: u64 = 0;
    let mut i: usize = 0;
    while i < size
        invariant
            i <= size,
            is_square(square as int),
            all_ray_directions(directions@),
            occupancies == subset_at(mask, i as nat),
            map@ == expected_attacks(directions@, square as int, mask, i as nat),
        decreases size - i,
    {
        map.push(get_attacks(directions, square, occupancies));
        occupancies = occupancies.wrapping_sub(mask) & mask;
        i = i + 1;
        proof {
            assert(map@ =~= expected_attacks(directions@, square as int, mask, i as nat));
        }
    }
    map
}

/// Generates a magic number for the square in the specified directions.
///
/// Candidates are drawn from `random`, three words each, until one passes
/// the filter and hashes every subset of the relevant occupancies without a
/// collision, or the budget of attempts is spent.
///
/// # Errors
///
/// `SearchExhausted` if no candidate within the budget is magic.
pub fn generate_magic_number(directions: &[i8], square: i8, random: &mut Random) -> (r: Result<
    MagicEntry,
    SearchError,
>)
    requires
        is_square(square as int),
        all_ray_directions(directions@),
    ensures
        r == search_outcome(directions@, square as int, old(random).state()),
        final(random).state() == state_after_search(
            directions@,
            square as int,
            old(random).state(),
        ),
        final(random).wf() == old(random).wf(),
        r is Ok ==> r.unwrap().wf(),
        r is Ok ==> is_magic(
            relevant_of(directions@, square as int),
            r.unwrap().magic,
            expected_attacks(
                directions@,
                square as int,
                relevant_of(directions@, square as int),
                table_size(relevant_of(directions@, square as int)),
            ),
        ),
{
    let ghost start = random.state();
    let mask: u64 = get_relevant_occupancies(directions, square);
    let ones: u32 = count_ones(mask);
    proof {
        lemma_relevant_popcount(directions@, square as int);
        lemma_u64_pow2_no_overflow(ones as nat);
        lemma_u64_shl_is_mul(1, ones as u64);
    }
    let slots: u64 = 1u64 << (ones as u64);
    let size: usize = slots as usize;
    let expected: Vec<u64> = generate_attacks(size, directions, square, mask);
    let mut attempts: u32 = 0;
    while attempts < ATTEMPTS
        invariant
            attempts <= ATTEMPTS,
            ones == popcount(mask),
            ones <= MAX_RELEVANT,
            size == table_size(mask),
            start == old(random).state(),
            mask == relevant_of(directions@, square as int),
            expected@ == expected_attacks(directions@, square as int, mask, table_size(mask)),
            random.wf() == old(random).wf(),
            search(mask, expected@, start, ATTEMPTS as nat) == search(
                mask,
                expected@,
                random.state(),
                (ATTEMPTS - attempts) as nat,
            ),
        decreases ATTEMPTS - attempts,
    {
        let first: u64 = random.next_u64();
        let second: u64 = random.next_u64();
        let third: u64 = random.next_u64();
        let magic: u64 = first & second & third;
        if count_ones(mask.wrapping_mul(magic) & TOP_BYTE) >= MIN_TOP_BITS {
            match try_magic_number(mask, magic, expected.as_slice()) {
                Ok(_) => {
                    return Ok(MagicEntry::new(mask, magic, 64 - ones, size));
                },
                Err(_) => {},
            }
        }
        attempts = attempts + 1;
    }
    Err(SearchError::SearchExhausted)
}

} // verus!
