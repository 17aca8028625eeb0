//! The magic numbers of a whole board, square by square, with the place of
//! each square's table in one shared array.

use vstd::prelude::*;
use crate::attacks::{all_ray_directions, diagonal_directions, orthogonal_directions};
use crate::bounds::{lemma_relevant_popcount, MAX_TABLE_SIZE};
use crate::entry::MagicEntry;
use crate::generator::{generate_magic_number, search_outcome, state_after_search, SearchError};
use crate::random::Random;

verus! {

/// The number of squares on the board.
pub const SQUARES: i8 = 64;

/// What a lookup needs of one square: mask, multiplier and shift, and where
/// in the shared array the square's table begins.
#[derive(Debug, Clone, Copy, PartialEq, Eq, Structural)]
pub struct TableEntry {
    pub mask: u64,
    pub magic: u64,
    pub shift: u32,
    pub offset: usize,
}

/// The entries of the squares in order, and the length of the shared array.
#[derive(Debug)]
pub struct MagicTable {
    pub entries: Vec<TableEntry>,
    pub map_size: usize,
}

/// The entry found for a square, placed at `offset`.
pub open spec fn placed(entry: MagicEntry, offset: nat) -> TableEntry {
    TableEntry { mask: entry.mask, magic: entry.magic, shift: entry.shift, offset: offset as usize }
}

/// The searches for the first `squares` squares, run in order on one stream
/// that starts in state `state`: the entries with the length of the shared
/// array, or the first error, and the state in which the stream is left.
/// A run stops at the first search that fails.
pub open spec fn table_run(directions: Seq<i8>, state: u64, squares: nat) -> (
    Result<(Seq<TableEntry>, nat), SearchError>,
    u64,
)
    decreases squares,
{
    if squares == 0 {
        (Ok((Seq::empty(), 0)), state)
    } else {
        let (before, reached) = table_run(directions, state, (squares - 1) as nat);
        match before {
            Err(error) => (Err(error), reached),
            Ok((entries, offset)) => {
                let left = state_after_search(directions, squares - 1, reached);
                match search_outcome(directions, squares - 1, reached) {
                    Err(error) => (Err(error), left),
                    Ok(entry) => (
                        Ok((entries.push(placed(entry, offset)), (offset + entry.size) as nat)),
                        left,
                    ),
                }
            },
        }
    }
}

/// A run that has failed stays as it is, however many squares are asked for.
pub proof fn lemma_failed_run_stays(directions: Seq<i8>, state: u64, failed: nat, squares: nat)
    requires
        table_run(directions, state, failed).0 is Err,
        failed <= squares,
    ensures
        table_run(directions, state, squares) == table_run(directions, state, failed),
    decreases squares,
{
    if failed < squares {
        lemma_failed_run_stays(directions, state, failed, (squares - 1) as nat);
    }
}

/// In a run that succeeds, the first table begins at zero, each table
/// begins where the one before it ends, and the shared array ends with the
/// last: every entry is what the search for its square found, in the state
/// in which the searches before it left the stream.
pub proof fn lemma_run_places_tables(directions: Seq<i8>, state: u64, squares: nat, square: nat)
    requires
        all_ray_directions(directions),
        squares <= SQUARES,
        table_run(directions, state, squares).0 is Ok,
        square < squares,
    ensures
        ({
            let (entries, map_size) = table_run(directions, state, squares).0.unwrap();
            let before = table_run(directions, state, square);
            let found = search_outcome(directions, square as int, before.1);
            let end = if square + 1 == squares {
                map_size
            } else {
                entries[square as int + 1].offset as nat
            };
            &&& entries.len() == squares
            &&& before.0 is Ok
            &&& found is Ok
            &&& entries[square as int] == placed(found.unwrap(), before.0.unwrap().1)
            &&& entries[0].offset == 0
            &&& entries[square as int].offset + found.unwrap().size == end
            &&& map_size <= squares * MAX_TABLE_SIZE
        }),
    decreases squares,
{
    let shorter = (squares - 1) as nat;
    lemma_relevant_popcount(directions, shorter as int);
    if square < shorter {
        lemma_run_places_tables(directions, state, shorter, square);
        if square + 1 < shorter {
            lemma_run_places_tables(directions, state, shorter, square + 1);
        }
    } else if shorter > 0 {
        lemma_run_places_tables(directions, state, shorter, 0);
    }
}

/// The steps of the rays along ranks and files.
pub fn rook_directions() -> (directions: [i8; 4])
    ensures
        directions@ == orthogonal_directions(),
        all_ray_directions(directions@),
{
    let directions: [i8; 4] = [1, 8, -8, -1];
    assert(directions@ =~= orthogonal_directions());
    directions
}

/// The steps of the rays along diagonals.
pub fn bishop_directions() -> (directions: [i8; 4])
    ensures
        directions@ == diagonal_directions(),
        all_ray_directions(directions@),
{
    let directions: [i8; 4] = [7, 9, -9, -7];
    assert(directions@ =~= diagonal_directions());
    directions
}

/// Searches the magic numbers of the first `squares` squares, in order and
/// on one stream, and places their tables one after the other.
///
/// # Errors
///
/// The error of the first search that fails.
pub fn generate_magics(directions: &[i8], squares: i8, random: &mut Random) -> (r: Result<
    MagicTable,
    SearchError,
>)
    requires
        all_ray_directions(directions@),
        0 <= squares <= SQUARES,
    ensures
        final(random).state() == table_run(directions@, old(random).state(), squares as nat).1,
        final(random).wf() == old(random).wf(),
        match r {
            Ok(table) => table_run(directions@, old(random).state(), squares as nat).0 == Ok::<
                (Seq<TableEntry>, nat),
                SearchError,
            >((table.entries@, table.map_size as nat)),
            Err(error) => table_run(directions@, old(random).state(), squares as nat).0 == Err::<
                (Seq<TableEntry>, nat),
                SearchError,
            >(error),
        },
{
    let ghost start = random.state();
    let mut entries: Vec<TableEntry> = Vec::new();
    let mut offset: usize = 0;
    let mut square: i8 = 0;
    while square < squares
        invariant
            0 <= square <= squares <= SQUARES,
            all_ray_directions(directions@),
            start == old(random).state(),
            random.wf() == old(random).wf(),
            offset <= square * MAX_TABLE_SIZE,
            table_run(directions@, start, square as nat) == (
                Ok::<(Seq<TableEntry>, nat), SearchError>((entries@, offset as nat)),
                random.state(),
            ),
        decreases squares - square,
    {
        let found = generate_magic_number(directions, square, random);
        match found {
            Err(error) => {
                proof {
                    lemma_failed_run_stays(
                        directions@,
                        start,
                        (square + 1) as nat,
                        squares as nat,
                    );
                }
                return Err(error);
            },
            Ok(entry) => {
                proof {
                    lemma_relevant_popcount(directions@, square as int);
                }
                entries.push(
                    TableEntry {
                        mask: entry.mask,
                        magic: entry.magic,
                        shift: entry.shift,
                        offset,
                    },
                );
                offset = offset + entry.size;
                square = square + 1;
            },
        }
    }
    Ok(MagicTable { entries, map_size: offset })
}

} // verus!
