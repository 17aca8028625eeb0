//! Where on the board the squares of a ray lie, and what follows for the
//! relevant occupancies: they are part of the attacks on an empty board,
//! and the last square of each ray is attacked but not relevant.

use vstd::prelude::*;
use crate::subsets::lemma_empty_board;
use crate::attacks::{
    all_ray_directions,
    attacks_of,
    diagonal_directions,
    edge_distance,
    file_of,
    is_ray_direction,
    is_square,
    lemma_step_on_board,
    orthogonal_directions,
    rank_of,
    ray_attack,
    ray_span,
    relevant_of,
    sliding_attack_of,
    sliding_relevant_of,
    square_bit,
};

verus! {

/// By how much one step along `direction` changes the rank.
pub open spec fn rank_step(direction: int) -> int {
    if direction == 8 || direction == 7 || direction == 9 {
        1
    } else if direction == -8 || direction == -7 || direction == -9 {
        -1
    } else {
        0
    }
}

/// By how much one step along `direction` changes the file.
pub open spec fn file_step(direction: int) -> int {
    if direction == 1 || direction == 9 || direction == -7 {
        1
    } else if direction == -1 || direction == -9 || direction == 7 {
        -1
    } else {
        0
    }
}

/// `count` steps of size `step`, where `step` is -1, 0 or 1.
pub open spec fn scaled(count: int, step: int) -> int {
    if step == 1 {
        count
    } else if step == -1 {
        -count
    } else {
        0
    }
}

pub open spec fn abs_of(a: int) -> int {
    if a < 0 {
        -a
    } else {
        a
    }
}

/// The number of king's moves between two squares.
pub open spec fn king_distance(a: int, b: int) -> int {
    let ranks = abs_of(rank_of(b) - rank_of(a));
    let files = abs_of(file_of(b) - file_of(a));
    if ranks >= files {
        ranks
    } else {
        files
    }
}

/// `target` is one of the first `steps` squares of the ray from `from`
/// along `direction`.
pub open spec fn on_ray(from: int, direction: int, steps: int, target: int) -> bool
    decreases steps,
{
    steps > 0 && (target == from + direction || on_ray(
        from + direction,
        direction,
        steps - 1,
        target,
    ))
}

/// `target` lies `count` steps along `direction` from `from`, seen by rank
/// and file.
pub open spec fn lies_along(from: int, direction: int, count: int, target: int) -> bool {
    &&& is_square(target)
    &&& king_distance(from, target) == count
    &&& rank_of(target) - rank_of(from) == scaled(count, rank_step(direction))
    &&& file_of(target) - file_of(from) == scaled(count, file_step(direction))
}

/// A square on a ray that stays on the board lies along the ray's direction,
/// as many king's moves away as the ray took steps to it.
pub proof fn lemma_on_ray_lies_along(from: int, direction: int, steps: int, target: int)
    requires
        is_square(from),
        is_ray_direction(direction),
        steps <= edge_distance(from, direction),
        on_ray(from, direction, steps, target),
    ensures
        1 <= king_distance(from, target) <= steps,
        lies_along(from, direction, king_distance(from, target), target),
    decreases steps,
{
    lemma_step_on_board(from, direction);
    if target != from + direction {
        lemma_on_ray_lies_along(from + direction, direction, steps - 1, target);
    }
}

/// The square that a ray reaches with its step number `steps` is on the ray
/// and lies `steps` king's moves away.
pub proof fn lemma_end_of_ray(from: int, direction: int, steps: int)
    requires
        is_square(from),
        is_ray_direction(direction),
        1 <= steps <= edge_distance(from, direction),
    ensures
        on_ray(from, direction, steps, from + steps * direction),
        lies_along(from, direction, steps, from + steps * direction),
    decreases steps,
{
    lemma_step_on_board(from, direction);
    if steps > 1 {
        lemma_end_of_ray(from + direction, direction, steps - 1);
        assert(from + direction + (steps - 1) * direction == from + steps * direction)
            by (nonlinear_arith);
    }
}

/// Two different squares have no bit in common.
pub proof fn lemma_bits_apart(a: int, b: int)
    requires
        is_square(a),
        is_square(b),
    ensures
        square_bit(a) != 0,
        a != b ==> square_bit(a) & square_bit(b) == 0,
{
    let x = a as u64;
    let y = b as u64;
    assert(1u64 << x != 0 && (x != y ==> (1u64 << x) & (1u64 << y) == 0)) by (bit_vector)
        requires
            x < 64,
            y < 64,
    ;
}

/// The span of a ray holds the squares on the ray and no others.
pub proof fn lemma_span_holds_ray(from: int, direction: int, steps: int, target: int)
    requires
        is_square(from),
        is_ray_direction(direction),
        steps <= edge_distance(from, direction),
        is_square(target),
    ensures
        on_ray(from, direction, steps, target) ==> ray_span(from, direction, steps) & square_bit(
            target,
        ) == square_bit(target),
        !on_ray(from, direction, steps, target) ==> ray_span(from, direction, steps) & square_bit(
            target,
        ) == 0,
    decreases steps,
{
    let bit = square_bit(target);
    if steps > 0 {
        lemma_step_on_board(from, direction);
        lemma_span_holds_ray(from + direction, direction, steps - 1, target);
        lemma_bits_apart(from + direction, target);
        let head = square_bit(from + direction);
        let rest = ray_span(from + direction, direction, steps - 1);
        assert((head == bit || rest & bit == bit) ==> (head | rest) & bit == bit) by (bit_vector);
        assert((head & bit == 0 && rest & bit == 0) ==> (head | rest) & bit == 0) by (bit_vector);
    } else {
        lemma_empty_board(bit);
    }
}

/// On an empty board a ray is cut nowhere.
pub proof fn lemma_empty_board_ray(from: int, direction: int, steps: int)
    ensures
        ray_attack(from, direction, 0, steps) == ray_span(from, direction, steps),
    decreases steps,
{
    if steps > 0 {
        lemma_empty_board_ray(from + direction, direction, steps - 1);
        let bit = square_bit(from + direction);
        lemma_empty_board(bit);
    }
}

/// A shorter span is part of a longer one.
pub proof fn lemma_span_grows(from: int, direction: int, steps: int)
    ensures
        ray_span(from, direction, steps - 1) & !ray_span(from, direction, steps) == 0,
    decreases steps,
{
    if steps > 1 {
        lemma_span_grows(from + direction, direction, steps - 1);
        let head = square_bit(from + direction);
        let short = ray_span(from + direction, direction, steps - 2);
        let long = ray_span(from + direction, direction, steps - 1);
        assert((head | short) & !(head | long) == 0) by (bit_vector)
            requires
                short & !long == 0,
        ;
    } else {
        let long = ray_span(from, direction, steps);
        lemma_empty_board(long);
    }
}

/// The relevant occupancies are part of the attacks on an empty board.
pub proof fn lemma_relevant_within_attacks(directions: Seq<i8>, square: int)
    ensures
        relevant_of(directions, square) & !attacks_of(directions, square, 0) == 0,
    decreases directions.len(),
{
    if directions.len() > 0 {
        let direction = directions.last() as int;
        let steps = edge_distance(square, direction);
        lemma_relevant_within_attacks(directions.drop_last(), square);
        lemma_empty_board_ray(square, direction, steps);
        lemma_span_grows(square, direction, steps);
        let relevant_front = relevant_of(directions.drop_last(), square);
        let attacks_front = attacks_of(directions.drop_last(), square, 0);
        let relevant_last = sliding_relevant_of(square, direction);
        let attacks_last = sliding_attack_of(square, 0, direction);
        assert((relevant_front | relevant_last) & !(attacks_front | attacks_last) == 0)
            by (bit_vector)
            requires
                relevant_front & !attacks_front == 0,
                relevant_last & !attacks_last == 0,
        ;
    } else {
        lemma_empty_board(0);
    }
}

/// The last square of the ray along `ending` is not relevant along
/// `direction`, whichever ray directions the two are.
pub proof fn lemma_end_not_relevant_along(square: int, ending: int, direction: int)
    requires
        is_square(square),
        is_ray_direction(ending),
        is_ray_direction(direction),
        edge_distance(square, ending) >= 1,
    ensures
        sliding_relevant_of(square, direction) & square_bit(
            square + edge_distance(square, ending) * ending,
        ) == 0,
{
    let reach = edge_distance(square, ending);
    let end = square + reach * ending;
    let steps = edge_distance(square, direction) - 1;
    lemma_end_of_ray(square, ending, reach);
    if on_ray(square, direction, steps, end) {
        lemma_on_ray_lies_along(square, direction, steps, end);
        assert(false);
    }
    lemma_span_holds_ray(square, direction, steps, end);
}

/// The last square of a ray is attacked on an empty board and is not
/// relevant, along whichever of `directions` the ray runs.
pub proof fn lemma_end_of_ray_not_relevant(directions: Seq<i8>, square: int, which: int)
    requires
        is_square(square),
        all_ray_directions(directions),
        0 <= which < directions.len(),
        edge_distance(square, directions[which] as int) >= 1,
    ensures
        ({
            let ending = directions[which] as int;
            let end = square_bit(square + edge_distance(square, ending) * ending);
            &&& end != 0
            &&& attacks_of(directions, square, 0) & end == end
            &&& relevant_of(directions, square) & end == 0
            &&& relevant_of(directions, square) != attacks_of(directions, square, 0)
        }),
    decreases directions.len(),
{
    let ending = directions[which] as int;
    let reach = edge_distance(square, ending);
    let end = square_bit(square + reach * ending);
    lemma_end_of_ray(square, ending, reach);
    lemma_bits_apart(square + reach * ending, square + reach * ending);
    lemma_end_not_relevant(directions, square, ending);
    lemma_end_attacked(directions, square, which);
    let relevant = relevant_of(directions, square);
    let attacks = attacks_of(directions, square, 0);
    assert(relevant != attacks) by (bit_vector)
        requires
            end != 0,
            attacks & end == end,
            relevant & end == 0,
    ;
}

/// The last square of the ray along `ending` is relevant along none of
/// `directions`.
pub proof fn lemma_end_not_relevant(directions: Seq<i8>, square: int, ending: int)
    requires
        is_square(square),
        all_ray_directions(directions),
        is_ray_direction(ending),
        edge_distance(square, ending) >= 1,
    ensures
        relevant_of(directions, square) & square_bit(
            square + edge_distance(square, ending) * ending,
        ) == 0,
    decreases directions.len(),
{
    let end = square_bit(square + edge_distance(square, ending) * ending);
    if directions.len() > 0 {
        let front = directions.drop_last();
        assert forall|i: int| 0 <= i < front.len() implies is_ray_direction(
            #[trigger] front[i] as int,
        ) by {
            assert(front[i] == directions[i]);
        }
        lemma_end_not_relevant(front, square, ending);
        lemma_end_not_relevant_along(square, ending, directions.last() as int);
        let relevant_front = relevant_of(front, square);
        let relevant_last = sliding_relevant_of(square, directions.last() as int);
        assert((relevant_front | relevant_last) & end == 0) by (bit_vector)
            requires
                relevant_front & end == 0,
                relevant_last & end == 0,
        ;
    } else {
        lemma_empty_board(end);
    }
}

/// The last square of the ray along one of `directions` is attacked on an
/// empty board.
pub proof fn lemma_end_attacked(directions: Seq<i8>, square: int, which: int)
    requires
        is_square(square),
        all_ray_directions(directions),
        0 <= which < directions.len(),
        edge_distance(square, directions[which] as int) >= 1,
    ensures
        ({
            let ending = directions[which] as int;
            let end = square_bit(square + edge_distance(square, ending) * ending);
            attacks_of(directions, square, 0) & end == end
        }),
    decreases directions.len(),
{
    let ending = directions[which] as int;
    let reach = edge_distance(square, ending);
    let end = square_bit(square + reach * ending);
    let front = directions.drop_last();
    let attacks_front = attacks_of(front, square, 0);
    let attacks_last = sliding_attack_of(square, 0, directions.last() as int);
    if which == directions.len() - 1 {
        lemma_end_of_ray(square, ending, reach);
        lemma_empty_board_ray(square, ending, reach);
        lemma_span_holds_ray(square, ending, reach, square + reach * ending);
    } else {
        assert forall|i: int| 0 <= i < front.len() implies is_ray_direction(
            #[trigger] front[i] as int,
        ) by {
            assert(front[i] == directions[i]);
        }
        assert(front[which] == directions[which]);
        lemma_end_attacked(front, square, which);
    }
    assert((attacks_front | attacks_last) & end == end) by (bit_vector)
        requires
            attacks_front & end == end || attacks_last & end == end,
    ;
}

/// A ray attacks nothing off its squares.
pub proof fn lemma_attack_within_span(from: int, direction: int, occupancies: u64, steps: int)
    ensures
        ray_attack(from, direction, occupancies, steps) & !ray_span(from, direction, steps) == 0,
    decreases steps,
{
    if steps > 0 {
        lemma_attack_within_span(from + direction, direction, occupancies, steps - 1);
        let bit = square_bit(from + direction);
        let attacked = ray_attack(from + direction, direction, occupancies, steps - 1);
        let spanned = ray_span(from + direction, direction, steps - 1);
        assert(bit & !(bit | spanned) == 0 && (bit | attacked) & !(bit | spanned) == 0)
            by (bit_vector)
            requires
                attacked & !spanned == 0,
        ;
    } else {
        lemma_empty_board(0);
    }
}

/// A ray attacks the square of its step number `count` just when none of
/// the squares before it on the ray is occupied: the ray ends on the first
/// occupied square, and that square is attacked.
pub proof fn lemma_attack_reaches(
    from: int,
    direction: int,
    occupancies: u64,
    steps: int,
    count: int,
)
    requires
        is_square(from),
        is_ray_direction(direction),
        1 <= count <= steps <= edge_distance(from, direction),
    ensures
        ray_attack(from, direction, occupancies, steps) & square_bit(from + count * direction) != 0
            <==> ray_span(from, direction, count - 1) & occupancies == 0,
    decreases steps,
{
    let target = from + count * direction;
    let bit = square_bit(from + direction);
    let goal = square_bit(target);
    let attacked = ray_attack(from + direction, direction, occupancies, steps - 1);
    let before = ray_span(from + direction, direction, count - 2);
    lemma_step_on_board(from, direction);
    lemma_end_of_ray(from, direction, count);
    lemma_end_of_ray(from, direction, 1);
    lemma_bits_apart(from + direction, target);
    if count == 1 {
        assert(ray_span(from, direction, 0) == 0);
        assert(bit & bit != 0 && (bit | attacked) & bit != 0 && 0u64 & occupancies == 0)
            by (bit_vector)
            requires
                bit != 0,
        ;
    } else {
        assert(target == from + direction + (count - 1) * direction) by (nonlinear_arith)
            requires
                target == from + count * direction,
        ;
        lemma_attack_reaches(from + direction, direction, occupancies, steps - 1, count - 1);
        assert(bit & occupancies != 0 ==> (bit | before) & occupancies != 0) by (bit_vector);
        assert(bit & occupancies == 0 ==> (((bit | attacked) & goal != 0) <==> (attacked & goal
            != 0)) && (((bit | before) & occupancies == 0) <==> (before & occupancies == 0)))
            by (bit_vector)
            requires
                bit & goal == 0,
        ;
    }
}

/// Occupancies outside a mask that holds the ray without its last square do
/// not change what the ray attacks.
pub proof fn lemma_ray_reads_only_mask(
    from: int,
    direction: int,
    occupancies: u64,
    mask: u64,
    steps: int,
)
    requires
        ray_span(from, direction, steps - 1) & !mask == 0,
    ensures
        ray_attack(from, direction, occupancies, steps) == ray_attack(
            from,
            direction,
            occupancies & mask,
            steps,
        ),
    decreases steps,
{
    if steps > 0 {
        let bit = square_bit(from + direction);
        let rest = ray_span(from + direction, direction, steps - 2);
        if steps == 1 {
            assert(ray_attack(from + direction, direction, occupancies, 0) == 0);
            assert(ray_attack(from + direction, direction, occupancies & mask, 0) == 0);
            lemma_empty_board(bit);
        } else {
            assert(rest & !mask == 0 && ((bit & occupancies != 0) <==> (bit & (occupancies & mask)
                != 0))) by (bit_vector)
                requires
                    (bit | rest) & !mask == 0,
            ;
            lemma_ray_reads_only_mask(from + direction, direction, occupancies, mask, steps - 1);
        }
    }
}

/// Occupancies outside a mask that holds the relevant occupancies do not
/// change the attacks.
pub proof fn lemma_attacks_read_only_mask(
    directions: Seq<i8>,
    square: int,
    occupancies: u64,
    mask: u64,
)
    requires
        relevant_of(directions, square) & !mask == 0,
    ensures
        attacks_of(directions, square, occupancies) == attacks_of(
            directions,
            square,
            occupancies & mask,
        ),
    decreases directions.len(),
{
    if directions.len() > 0 {
        let direction = directions.last() as int;
        let relevant_front = relevant_of(directions.drop_last(), square);
        let relevant_last = sliding_relevant_of(square, direction);
        assert(relevant_front & !mask == 0 && relevant_last & !mask == 0) by (bit_vector)
            requires
                (relevant_front | relevant_last) & !mask == 0,
        ;
        lemma_attacks_read_only_mask(directions.drop_last(), square, occupancies, mask);
        lemma_ray_reads_only_mask(
            square,
            direction,
            occupancies,
            mask,
            edge_distance(square, direction),
        );
    }
}

/// Only the relevant occupancies matter to the attacks: squares outside
/// them may be occupied or not.
pub proof fn lemma_attacks_read_only_relevant(directions: Seq<i8>, square: int, occupancies: u64)
    ensures
        attacks_of(directions, square, occupancies) == attacks_of(
            directions,
            square,
            occupancies & relevant_of(directions, square),
        ),
{
    let mask = relevant_of(directions, square);
    lemma_empty_board(mask);
    lemma_attacks_read_only_mask(directions, square, occupancies, mask);
}

/// On every square, for the rays along ranks and files and for those along
/// diagonals, the relevant occupancies are a proper part of the attacks on
/// an empty board.
pub proof fn lemma_relevant_is_proper_part(square: int)
    requires
        is_square(square),
    ensures
        relevant_of(orthogonal_directions(), square) & !attacks_of(
            orthogonal_directions(),
            square,
            0,
        ) == 0,
        relevant_of(orthogonal_directions(), square) != attacks_of(
            orthogonal_directions(),
            square,
            0,
        ),
        relevant_of(diagonal_directions(), square) & !attacks_of(diagonal_directions(), square, 0)
            == 0,
        relevant_of(diagonal_directions(), square) != attacks_of(diagonal_directions(), square, 0),
{
    let straight = orthogonal_directions();
    let slanted = diagonal_directions();
    lemma_relevant_within_attacks(straight, square);
    lemma_relevant_within_attacks(slanted, square);
    let along: int = if file_of(square) < 7 {
        0
    } else {
        3
    };
    lemma_end_of_ray_not_relevant(straight, square, along);
    let across: int = if rank_of(square) < 7 {
        if file_of(square) > 0 {
            0
        } else {
            1
        }
    } else {
        if file_of(square) > 0 {
            2
        } else {
            3
        }
    };
    lemma_end_of_ray_not_relevant(slanted, square, across);
}

} // verus!
