//! Ray attacks of sliding pieces on an 8x8 board.
//!
//! A square is a number from 0 to 63, rank by rank; a board is a `u64` with
//! one bit per square. A ray leaves a square in one of eight directions,
//! each given by the step it adds to the square's number.

use vstd::prelude::*;
use crate::subsets::lemma_empty_board;

verus! {

/// Squares are numbered 0 to 63.
pub open spec fn is_square(square: int) -> bool {
    0 <= square < 64
}

/// The eight steps along which a ray can run.
pub open spec fn is_ray_direction(direction: int) -> bool {
    direction == 1 || direction == -1 || direction == 8 || direction == -8 || direction == 7
        || direction == -7 || direction == 9 || direction == -9
}

/// Every entry of `directions` is one of the eight ray steps.
pub open spec fn all_ray_directions(directions: Seq<i8>) -> bool {
    forall|i: int| 0 <= i < directions.len() ==> is_ray_direction(#[trigger] directions[i] as int)
}

/// The steps of the rays that run along ranks and files.
pub open spec fn orthogonal_directions() -> Seq<i8> {
    seq![1i8, 8i8, -8i8, -1i8]
}

/// The steps of the rays that run along diagonals.
pub open spec fn diagonal_directions() -> Seq<i8> {
    seq![7i8, 9i8, -9i8, -7i8]
}

pub open spec fn rank_of(square: int) -> int {
    square / 8
}

pub open spec fn file_of(square: int) -> int {
    square % 8
}

pub open spec fn min_of(a: int, b: int) -> int {
    if a <= b {
        a
    } else {
        b
    }
}

/// How many steps a ray from `square` can take along `direction` before it
/// leaves the board.
pub open spec fn edge_distance(square: int, direction: int) -> int {
    let up = 7 - rank_of(square);
    let down = rank_of(square);
    let right = 7 - file_of(square);
    let left = file_of(square);
    if direction == 1 {
        right
    } else if direction == 8 {
        up
    } else if direction == -1 {
        left
    } else if direction == -8 {
        down
    } else if direction == 7 {
        min_of(up, left)
    } else if direction == 9 {
        min_of(up, right)
    } else if direction == -7 {
        min_of(down, right)
    } else {
        min_of(down, left)
    }
}

/// The board that holds `square` alone.
pub open spec fn square_bit(square: int) -> u64 {
    1u64 << (square as u64)
}

/// The squares that a ray reaches in at most `steps` steps from `from`
/// (itself left out) along `direction`: each square up to the first occupied
/// one, which is the last it reaches.
pub open spec fn ray_attack(from: int, direction: int, occupancies: u64, steps: int) -> u64
    decreases steps,
{
    if steps <= 0 {
        0
    } else {
        let bit = square_bit(from + direction);
        if bit & occupancies != 0 {
            bit
        } else {
            bit | ray_attack(from + direction, direction, occupancies, steps - 1)
        }
    }
}

/// The squares of the first `steps` steps from `from` (itself left out)
/// along `direction`, whatever stands on them.
pub open spec fn ray_span(from: int, direction: int, steps: int) -> u64
    decreases steps,
{
    if steps <= 0 {
        0
    } else {
        square_bit(from + direction) | ray_span(from + direction, direction, steps - 1)
    }
}

/// What a slider on `square` attacks along one direction: the ray to the
/// board's edge, cut after the first occupied square.
pub open spec fn sliding_attack_of(square: int, occupancies: u64, direction: int) -> u64 {
    ray_attack(square, direction, occupancies, edge_distance(square, direction))
}

/// The squares along one direction whose occupancy can change the attack:
/// the ray to the board's edge without its last square.
pub open spec fn sliding_relevant_of(square: int, direction: int) -> u64 {
    ray_span(square, direction, edge_distance(square, direction) - 1)
}

/// The union of the attacks along each of `directions`.
pub open spec fn attacks_of(directions: Seq<i8>, square: int, occupancies: u64) -> u64
    decreases directions.len(),
{
    if directions.len() == 0 {
        0
    } else {
        attacks_of(directions.drop_last(), square, occupancies) | sliding_attack_of(
            square,
            occupancies,
            directions.last() as int,
        )
    }
}

/// The union of the relevant squares along each of `directions`.
pub open spec fn relevant_of(directions: Seq<i8>, square: int) -> u64
    decreases directions.len(),
{
    if directions.len() == 0 {
        0
    } else {
        relevant_of(directions.drop_last(), square) | sliding_relevant_of(
            square,
            directions.last() as int,
        )
    }
}

/// A ray that can take a step stays on the board with it, and has one step
/// less to go from there.
pub proof fn lemma_step_on_board(square: int, direction: int)
    requires
        is_square(square),
        is_ray_direction(direction),
    ensures
        0 <= edge_distance(square, direction) <= 7,
        edge_distance(square, direction) >= 1 ==> is_square(square + direction) && edge_distance(
            square + direction,
            direction,
        ) == edge_distance(square, direction) - 1,
{
}

/// A ray that can take a step attacks at least the square of that step.
pub proof fn lemma_ray_attack_nonzero(from: int, direction: int, occupancies: u64, steps: int)
    requires
        is_square(from + direction),
        steps >= 1,
    ensures
        ray_attack(from, direction, occupancies, steps) != 0,
{
    let square = (from + direction) as u64;
    let bit = square_bit(from + direction);
    let rest = ray_attack(from + direction, direction, occupancies, steps - 1);
    assert(bit != 0 && (bit | rest) != 0) by (bit_vector)
        requires
            bit == 1u64 << square,
            square < 64,
    ;
}

/// Where some square is relevant, something is attacked, whatever the
/// occupancies.
pub proof fn lemma_attacks_nonzero(directions: Seq<i8>, square: int, occupancies: u64)
    requires
        is_square(square),
        all_ray_directions(directions),
        relevant_of(directions, square) != 0,
    ensures
        attacks_of(directions, square, occupancies) != 0,
    decreases directions.len(),
{
    if directions.len() > 0 {
        let direction = directions.last() as int;
        let front = directions.drop_last();
        let relevant_front = relevant_of(front, square);
        let relevant_last = sliding_relevant_of(square, direction);
        let attacks_front = attacks_of(front, square, occupancies);
        let attacks_last = sliding_attack_of(square, occupancies, direction);
        assert(is_ray_direction(direction));
        if relevant_last != 0 {
            lemma_step_on_board(square, direction);
            lemma_ray_attack_nonzero(
                square,
                direction,
                occupancies,
                edge_distance(square, direction),
            );
        } else {
            assert(relevant_front != 0) by (bit_vector)
                requires
                    relevant_front | relevant_last != 0,
                    relevant_last == 0,
            ;
            assert(all_ray_directions(front)) by {
                assert forall|i: int| 0 <= i < front.len() implies is_ray_direction(
                    #[trigger] front[i] as int,
                ) by {
                    assert(front[i] == directions[i]);
                }
            }
            lemma_attacks_nonzero(front, square, occupancies);
        }
        assert(attacks_front | attacks_last != 0) by (bit_vector)
            requires
                attacks_front != 0 || attacks_last != 0,
        ;
    }
}

/// The rank of a square, 0 to 7.
pub fn rank(square: i8) -> (r: i8)
    requires
        is_square(square as int),
    ensures
        r == rank_of(square as int),
{
    square / 8
}

/// The file of a square, 0 to 7.
pub fn file(square: i8) -> (f: i8)
    requires
        is_square(square as int),
    ensures
        f == file_of(square as int),
{
    square % 8
}

/// Whether `direction` is one of the eight ray steps.
pub fn is_direction(direction: i8) -> (valid: bool)
    ensures
        valid == is_ray_direction(direction as int),
{
    direction == 1 || direction == -1 || direction == 8 || direction == -8 || direction == 7
        || direction == -7 || direction == 9 || direction == -9
}

fn smaller(a: i8, b: i8) -> (m: i8)
    ensures
        m == min_of(a as int, b as int),
{
    if a <= b {
        a
    } else {
        b
    }
}

/// Returns the ray distance from the square to the edge.
pub fn distance_to_edge(square: i8, direction: i8) -> (distance: i8)
    requires
        is_square(square as int),
        is_ray_direction(direction as int),
    ensures
        distance == edge_distance(square as int, direction as int),
        0 <= distance <= 7,
{
    if direction == 1 {
        7 - file(square)
    } else if direction == 8 {
        7 - rank(square)
    } else if direction == -1 {
        file(square)
    } else if direction == -8 {
        rank(square)
    } else if direction == 7 {
        smaller(7 - rank(square), file(square))
    } else if direction == 9 {
        smaller(7 - rank(square), 7 - file(square))
    } else if direction == -7 {
        smaller(rank(square), 7 - file(square))
    } else {
        smaller(rank(square), file(square))
    }
}

/// Returns the squares attacked from `square` along `direction`: those of
/// the ray up to the board's edge or the first occupied square, that one
/// included.
pub fn sliding_attack(square: i8, occupancies: u64, direction: i8) -> (output: u64)
    requires
        is_square(square as int),
        is_ray_direction(direction as int),
    ensures
        output == sliding_attack_of(square as int, occupancies, direction as int),
{
    let mut output: u64 = 0;
    let mut current: i8 = square;
    let mut remaining: i8 = distance_to_edge(square, direction);
    let mut blocked: bool = false;
    proof {
        let whole = sliding_attack_of(square as int, occupancies, direction as int);
        lemma_empty_board(whole);
    }
    while remaining > 0 && !blocked
        invariant
            is_square(current as int),
            is_ray_direction(direction as int),
            remaining == edge_distance(current as int, direction as int),
            !blocked ==> sliding_attack_of(square as int, occupancies, direction as int) == output
                | ray_attack(current as int, direction as int, occupancies, remaining as int),
            blocked ==> sliding_attack_of(square as int, occupancies, direction as int) == output,
        decreases remaining + (if blocked { 0int } else { 1int }),
    {
        proof {
            lemma_step_on_board(current as int, direction as int);
        }
        let ghost rest = ray_attack(
            current as int + direction as int,
            direction as int,
            occupancies,
            remaining as int - 1,
        );
        let ghost before = output;
        current = current + direction;
        remaining = remaining - 1;
        let bitboard: u64 = 1u64 << (current as u64);
        output |= bitboard;
        if bitboard & occupancies != 0 {
            blocked = true;
        }
        proof {
            assert(before | (bitboard | rest) == (before | bitboard) | rest) by (bit_vector);
        }
    }
    proof {
        lemma_empty_board(output);
    }
    output
}

/// Returns the squares along `direction` whose occupancy matters to a slider
/// on `square`: the ray to the edge without its last square.
pub fn sliding_relevant_occupancies(square: i8, direction: i8) -> (output: u64)
    requires
        is_square(square as int),
        is_ray_direction(direction as int),
    ensures
        output == sliding_relevant_of(square as int, direction as int),
{
    let mut output: u64 = 0;
    let mut current: i8 = square;
    let mut remaining: i8 = distance_to_edge(square, direction);
    proof {
        let whole = sliding_relevant_of(square as int, direction as int);
        lemma_empty_board(whole);
    }
    while remaining > 1
        invariant
            is_square(current as int),
            is_ray_direction(direction as int),
            remaining == edge_distance(current as int, direction as int),
            sliding_relevant_of(square as int, direction as int) == output | ray_span(
                current as int,
                direction as int,
                remaining as int - 1,
            ),
        decreases remaining,
    {
        proof {
            lemma_step_on_board(current as int, direction as int);
        }
        let ghost rest = ray_span(
            current as int + direction as int,
            direction as int,
            remaining as int - 2,
        );
        let ghost before = output;
        current = current + direction;
        remaining = remaining - 1;
        let bitboard: u64 = 1u64 << (current as u64);
        output |= bitboard;
        proof {
            assert(before | (bitboard | rest) == (before | bitboard) | rest) by (bit_vector);
        }
    }
    proof {
        lemma_empty_board(output);
    }
    output
}

/// Returns an attack mask from the square in the specified directions,
/// considering the occupancies.
pub fn get_attacks(directions: &[i8], square: i8, occupancies: u64) -> (attacks: u64)
    requires
        is_square(square as int),
        all_ray_directions(directions@),
    ensures
        attacks == attacks_of(directions@, square as int, occupancies),
{
    let mut attacks: u64 = 0;
    let mut i: usize = 0;
    while i < directions.len()
        invariant
            0 <= i <= directions.len(),
            is_square(square as int),
            all_ray_directions(directions@),
            attacks == attacks_of(directions@.take(i as int), square as int, occupancies),
        decreases directions.len() - i,
    {
        proof {
            assert(directions@.take(i + 1).drop_last() == directions@.take(i as int));
        }
        attacks = attacks | sliding_attack(square, occupancies, directions[i]);
        i = i + 1;
    }
    proof {
        assert(directions@.take(i as int) == directions@);
    }
    attacks
}

/// Returns a mask of relevant occupancies from the square in the specified
/// directions.
pub fn get_relevant_occupancies(directions: &[i8], square: i8) -> (mask: u64)
    requires
        is_square(square as int),
        all_ray_directions(directions@),
    ensures
        mask == relevant_of(directions@, square as int),
{
    let mut mask: u64 = 0;
    let mut i: usize = 0;
    while i < directions.len()
        invariant
            0 <= i <= directions.len(),
            is_square(square as int),
            all_ray_directions(directions@),
            mask == relevant_of(directions@.take(i as int), square as int),
        decreases directions.len() - i,
    {
        proof {
            assert(directions@.take(i + 1).drop_last() == directions@.take(i as int));
        }
        mask = mask | sliding_relevant_occupancies(square, directions[i]);
        i = i + 1;
    }
    proof {
        assert(directions@.take(i as int) == directions@);
    }
    mask
}

} // verus!
