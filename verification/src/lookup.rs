//! What a found entry is good for: the table filled during the search
//! answers, for every board, what the slider attacks.

use vstd::prelude::*;
use vstd::arithmetic::power2::lemma2_to64;
use crate::attacks::{all_ray_directions, attacks_of, is_square, lemma_attacks_nonzero, relevant_of};
use crate::bounds::lemma_relevant_popcount;
use crate::generator::{
    expected_attacks,
    hash_of,
    lemma_hash_in_table,
    lemma_search_finds_magic,
    lemma_slot_keeps_attacks,
    search_outcome,
    slot_after,
    ATTEMPTS,
};
use crate::geometry::lemma_attacks_read_only_relevant;
use crate::subsets::{
    is_subset,
    lemma_walk_visits_each_subset_once,
    popcount,
    position_of,
    subset_at,
    table_size,
};

verus! {

/// The table of a square under `magic`, once every subset of `mask` is
/// entered: slot by slot, the attacks that it holds.
pub open spec fn attack_table(directions: Seq<i8>, square: int, mask: u64, magic: u64) -> Seq<u64> {
    Seq::new(
        table_size(mask),
        |slot: int|
            slot_after(
                mask,
                magic,
                expected_attacks(directions, square, mask, table_size(mask)),
                slot as nat,
                table_size(mask),
            ),
    )
}

/// With the entry that a search found, a lookup is right on every board:
/// the occupancies cut to the mask, times the magic number, shifted, name a
/// slot of the table, and that slot holds the attacks from the square on
/// that board.
pub proof fn lemma_lookup_finds_attacks(
    directions: Seq<i8>,
    square: int,
    state: u64,
    occupancies: u64,
)
    requires
        is_square(square),
        all_ray_directions(directions),
        search_outcome(directions, square, state) is Ok,
    ensures
        ({
            let entry = search_outcome(directions, square, state).unwrap();
            let slot = hash_of(occupancies & entry.mask, entry.magic, entry.shift as nat);
            let table = attack_table(directions, square, entry.mask, entry.magic);
            &&& table.len() == entry.size
            &&& slot < entry.size
            &&& table[slot as int] == attacks_of(directions, square, occupancies)
        }),
{
    let mask = relevant_of(directions, square);
    let size = table_size(mask);
    let expected = expected_attacks(directions, square, mask, size);
    let entry = search_outcome(directions, square, state).unwrap();
    let subset = occupancies & mask;
    let place = position_of(subset, mask);
    assert(subset & !mask == 0) by (bit_vector)
        requires
            subset == occupancies & mask,
    ;
    assert(is_subset(subset, mask));
    lemma_walk_visits_each_subset_once(mask);
    lemma_relevant_popcount(directions, square);
    lemma_search_finds_magic(mask, expected, state, ATTEMPTS as nat);
    lemma_hash_in_table(subset, entry.magic, (64 - popcount(mask)) as nat);
    lemma_attacks_read_only_relevant(directions, square, occupancies);
    assert(expected[place as int] == attacks_of(directions, square, occupancies));
    if mask == 0 {
        lemma2_to64();
    } else {
        assert forall|k: int| 0 <= k < expected.len() implies #[trigger] expected[k] != 0 by {
            lemma_attacks_nonzero(directions, square, subset_at(mask, k as nat));
        }
        lemma_slot_keeps_attacks(mask, entry.magic, expected, place, size);
    }
}

} // verus!
