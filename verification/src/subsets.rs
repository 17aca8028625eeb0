//! Counting the bits of a board and walking through the subsets of one.

use vstd::prelude::*;
use vstd::arithmetic::power2::{
    lemma2_to64,
    lemma2_to64_rest,
    lemma_pow2_pos,
    lemma_pow2_unfold,
    pow2,
};
use vstd::wrapping::u64_specs;

verus! {

/// The number of ones in the binary representation of `x`.
pub open spec fn popcount(x: u64) -> nat
    decreases x,
{
    if x == 0 {
        0
    } else {
        (x % 2) as nat + popcount(x / 2)
    }
}

/// A number below `2^bits` has at most `bits` ones.
pub proof fn lemma_popcount_bound(x: u64, bits: nat)
    requires
        x < pow2(bits),
    ensures
        popcount(x) <= bits,
    decreases bits,
{
    if x != 0 {
        lemma2_to64();
        lemma_pow2_unfold(bits);
        lemma_popcount_bound(x / 2, (bits - 1) as nat);
    }
}

/// A board has at most 64 ones.
pub proof fn lemma_popcount_at_most_64(x: u64)
    ensures
        popcount(x) <= 64,
{
    lemma2_to64_rest();
    lemma_popcount_bound(x, 64);
}

/// What the empty board is to any other: part of it, apart from it, and
/// nothing added to it. And no board reaches beyond itself.
pub proof fn lemma_empty_board(board: u64)
    ensures
        0u64 & board == 0,
        board & 0u64 == 0,
        0u64 & !board == 0,
        0u64 | board == board,
        board | 0u64 == board,
        board & !board == 0,
{
    assert(0u64 & board == 0 && board & 0u64 == 0 && 0u64 & !board == 0 && 0u64 | board == board
        && board | 0u64 == board && board & !board == 0) by (bit_vector);
}

/// A board has the ones of its lowest bit and those of the bits above it.
pub proof fn lemma_popcount_unfold(x: u64)
    ensures
        popcount(x) == (x % 2) as nat + popcount(x / 2),
{
    if x == 0 {
        assert(popcount(0) == 0);
    }
}

/// A part of a board has no more ones than the board.
pub proof fn lemma_popcount_monotone(part: u64, whole: u64)
    requires
        part & !whole == 0,
    ensures
        popcount(part) <= popcount(whole),
    decreases part,
{
    if part != 0 {
        assert((part / 2) & !(whole / 2) == 0 && part % 2 <= whole % 2) by (bit_vector)
            requires
                part & !whole == 0,
        ;
        lemma_popcount_unfold(whole);
        lemma_popcount_monotone(part / 2, whole / 2);
    }
}

/// Two boards together have no more ones than the two have apart.
pub proof fn lemma_popcount_union(a: u64, b: u64)
    ensures
        popcount(a | b) <= popcount(a) + popcount(b),
    decreases a | b,
{
    let both = a | b;
    if both != 0 {
        assert(both / 2 == (a / 2) | (b / 2) && both % 2 <= a % 2 + b % 2) by (bit_vector)
            requires
                both == a | b,
        ;
        lemma_popcount_unfold(a);
        lemma_popcount_unfold(b);
        lemma_popcount_union(a / 2, b / 2);
    }
}

/// A board of one square has one one.
pub proof fn lemma_popcount_single(place: u64)
    requires
        place < 64,
    ensures
        popcount(1u64 << place) == 1,
    decreases place,
{
    let bit = 1u64 << place;
    if place == 0 {
        assert(1u64 << 0 == 1) by (bit_vector);
        assert(popcount(1) == 1 + popcount(0));
        assert(popcount(0) == 0);
    } else {
        let below = (place - 1) as u64;
        assert(bit != 0 && bit % 2 == 0 && bit / 2 == 1u64 << below) by (bit_vector)
            requires
                bit == 1u64 << place,
                0 < place < 64,
                below == place - 1,
        ;
        lemma_popcount_single(below);
    }
}

/// Returns the number of ones in the binary representation of `x`.
pub fn count_ones(x: u64) -> (ones: u32)
    ensures
        ones == popcount(x),
        ones <= 64,
{
    let mut rest: u64 = x;
    let mut ones: u32 = 0;
    proof {
        lemma_popcount_at_most_64(x);
    }
    while rest != 0
        invariant
            ones + popcount(rest) == popcount(x),
            popcount(x) <= 64,
        decreases rest,
    {
        proof {
            lemma_popcount_unfold(rest);
        }
        if rest % 2 == 1 {
            ones = ones + 1;
        }
        rest = rest / 2;
    }
    ones
}

/// The subset of `mask` that follows `current` in the carry-rippler walk:
/// `mask` is subtracted with wraparound and the difference cut back to
/// `mask`.
pub open spec fn next_subset(current: u64, mask: u64) -> u64 {
    u64_specs::wrapping_sub(current, mask) & mask
}

/// The subset that the walk through `mask` reaches after `steps` steps from
/// the empty one.
pub open spec fn subset_at(mask: u64, steps: nat) -> u64
    decreases steps,
{
    if steps == 0 {
        0
    } else {
        next_subset(subset_at(mask, (steps - 1) as nat), mask)
    }
}

/// The number of subsets of `mask`.
pub open spec fn table_size(mask: u64) -> nat {
    pow2(popcount(mask))
}

/// `subset` has no bit outside `mask`.
pub open spec fn is_subset(subset: u64, mask: u64) -> bool {
    subset & !mask == 0
}

/// The place of a subset among the subsets of `mask`: the number whose
/// binary digits are the subset's bits at the places of `mask`, lowest first.
pub open spec fn position_of(subset: u64, mask: u64) -> nat
    decreases mask,
{
    if mask == 0 {
        0
    } else if mask % 2 == 1 {
        (subset % 2) as nat + 2 * position_of(subset / 2, mask / 2)
    } else {
        position_of(subset / 2, mask / 2)
    }
}

/// How a step of the walk acts on the lowest bit and on the bits above it.
proof fn lemma_step_by_bits(subset: u64, mask: u64)
    requires
        is_subset(subset, mask),
    ensures
        is_subset(next_subset(subset, mask), mask),
        is_subset(subset / 2, mask / 2),
        mask == 0 ==> subset == 0,
        mask % 2 == 0 ==> subset % 2 == 0 && next_subset(subset, mask) % 2 == 0 && next_subset(
            subset,
            mask,
        ) / 2 == next_subset(subset / 2, mask / 2),
        mask % 2 == 1 && subset % 2 == 0 ==> next_subset(subset, mask) % 2 == 1 && next_subset(
            subset,
            mask,
        ) / 2 == subset / 2,
        mask % 2 == 1 && subset % 2 == 1 ==> next_subset(subset, mask) % 2 == 0 && next_subset(
            subset,
            mask,
        ) / 2 == next_subset(subset / 2, mask / 2),
{
    let next = next_subset(subset, mask);
    let above = next_subset(subset / 2, mask / 2);
    assert(next & !mask == 0) by (bit_vector)
        requires
            next == next_subset(subset, mask),
    ;
    assert((subset / 2) & !(mask / 2) == 0 && (mask == 0 ==> subset == 0)) by (bit_vector)
        requires
            subset & !mask == 0,
    ;
    assert(mask % 2 == 0 ==> subset % 2 == 0 && next % 2 == 0 && next / 2 == above)
        by (bit_vector)
        requires
            subset & !mask == 0,
            next == next_subset(subset, mask),
            above == next_subset(subset / 2, mask / 2),
    ;
    assert(mask % 2 == 1 && subset % 2 == 0 ==> next % 2 == 1 && next / 2 == subset / 2)
        by (bit_vector)
        requires
            subset & !mask == 0,
            next == next_subset(subset, mask),
    ;
    assert(mask % 2 == 1 && subset % 2 == 1 ==> next % 2 == 0 && next / 2 == above)
        by (bit_vector)
        requires
            subset & !mask == 0,
            next == next_subset(subset, mask),
            above == next_subset(subset / 2, mask / 2),
    ;
}

/// The empty subset has place zero.
pub proof fn lemma_position_of_empty(mask: u64)
    ensures
        position_of(0, mask) == 0,
    decreases mask,
{
    if mask != 0 {
        lemma_position_of_empty(mask / 2);
    }
}

/// Every place is below the number of subsets.
pub proof fn lemma_position_bound(subset: u64, mask: u64)
    ensures
        position_of(subset, mask) < table_size(mask),
    decreases mask,
{
    if mask == 0 {
        lemma2_to64();
    } else {
        lemma_position_bound(subset / 2, mask / 2);
        if mask % 2 == 1 {
            lemma_pow2_unfold(popcount(mask));
        }
    }
}

/// Two subsets of a mask with the same place are the same subset.
pub proof fn lemma_position_injective(first: u64, second: u64, mask: u64)
    requires
        is_subset(first, mask),
        is_subset(second, mask),
        position_of(first, mask) == position_of(second, mask),
    ensures
        first == second,
    decreases mask,
{
    lemma_step_by_bits(first, mask);
    lemma_step_by_bits(second, mask);
    if mask != 0 {
        lemma_position_injective(first / 2, second / 2, mask / 2);
    }
}

/// A step of the walk leads from a subset to the subset of the next place,
/// and from the last place to the first.
pub proof fn lemma_next_position(subset: u64, mask: u64)
    requires
        is_subset(subset, mask),
    ensures
        is_subset(next_subset(subset, mask), mask),
        position_of(next_subset(subset, mask), mask) == if position_of(subset, mask) + 1
            == table_size(mask) {
            0
        } else {
            position_of(subset, mask) + 1
        },
    decreases mask,
{
    lemma_step_by_bits(subset, mask);
    if mask == 0 {
        lemma2_to64();
    } else {
        lemma_position_bound(subset / 2, mask / 2);
        lemma_pow2_pos(popcount(mask / 2));
        if mask % 2 == 1 {
            lemma_pow2_unfold(popcount(mask));
        }
        if mask % 2 == 0 || subset % 2 == 1 {
            lemma_next_position(subset / 2, mask / 2);
        }
    }
}

/// The walk is at its `steps`-th subset after `steps` steps, as long as
/// `steps` is below the number of subsets.
pub proof fn lemma_walk_position(mask: u64, steps: nat)
    requires
        steps < table_size(mask),
    ensures
        is_subset(subset_at(mask, steps), mask),
        position_of(subset_at(mask, steps), mask) == steps,
    decreases steps,
{
    if steps == 0 {
        lemma_position_of_empty(mask);
        lemma_empty_board(mask);
    } else {
        lemma_walk_position(mask, (steps - 1) as nat);
        lemma_next_position(subset_at(mask, (steps - 1) as nat), mask);
    }
}

/// The walk through the subsets of a mask visits as many subsets as the
/// mask has, each of them once, and is back at the empty subset after that
/// many steps.
pub proof fn lemma_walk_visits_each_subset_once(mask: u64)
    ensures
        forall|i: nat| i < table_size(mask) ==> is_subset(#[trigger] subset_at(mask, i), mask),
        forall|i: nat, j: nat|
            i < j < table_size(mask) ==> #[trigger] subset_at(mask, i) != #[trigger] subset_at(
                mask,
                j,
            ),
        forall|subset: u64| #[trigger]
            is_subset(subset, mask) ==> position_of(subset, mask) < table_size(mask) && subset_at(
                mask,
                position_of(subset, mask),
            ) == subset,
        subset_at(mask, table_size(mask)) == 0,
{
    assert forall|i: nat| i < table_size(mask) implies is_subset(
        #[trigger] subset_at(mask, i),
        mask,
    ) by {
        lemma_walk_position(mask, i);
    }
    assert forall|i: nat, j: nat| i < j < table_size(mask) implies #[trigger] subset_at(mask, i)
        != #[trigger] subset_at(mask, j) by {
        lemma_walk_position(mask, i);
        lemma_walk_position(mask, j);
    }
    assert forall|subset: u64| #[trigger] is_subset(subset, mask) implies position_of(subset, mask)
        < table_size(mask) && subset_at(mask, position_of(subset, mask)) == subset by {
        lemma_position_bound(subset, mask);
        lemma_walk_position(mask, position_of(subset, mask));
        lemma_position_injective(subset_at(mask, position_of(subset, mask)), subset, mask);
    }
    lemma_pow2_pos(popcount(mask));
    let last = (table_size(mask) - 1) as nat;
    lemma_walk_position(mask, last);
    lemma_next_position(subset_at(mask, last), mask);
    lemma_position_of_empty(mask);
    lemma_empty_board(mask);
    lemma_position_injective(subset_at(mask, table_size(mask)), 0, mask);
}

} // verus!
