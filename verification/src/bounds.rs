//! How many squares can be relevant: at most six on each of the four lines
//! through a square, whichever rays are asked for. So every table fits.

use vstd::prelude::*;
use vstd::arithmetic::power2::{lemma2_to64, lemma_pow2_strictly_increases};
use crate::attacks::{
    all_ray_directions,
    diagonal_directions,
    edge_distance,
    is_ray_direction,
    is_square,
    lemma_step_on_board,
    orthogonal_directions,
    ray_span,
    relevant_of,
    sliding_relevant_of,
    square_bit,
};
use crate::subsets::{
    lemma_empty_board,
    lemma_popcount_monotone,
    lemma_popcount_single,
    lemma_popcount_union,
    popcount,
    table_size,
};

verus! {

/// The most squares that can be relevant at once.
pub const MAX_RELEVANT: u32 = 24;

/// The most slots that a table can have: two to the power `MAX_RELEVANT`.
pub const MAX_TABLE_SIZE: usize = 0x100_0000;

/// The most squares that can be relevant along the rays of two lines.
pub const MAX_ON_TWO_LINES: u32 = 12;

/// The most slots of a table for the rays of two lines: two to the power
/// `MAX_ON_TWO_LINES`.
pub const MAX_SLIDER_TABLE_SIZE: usize = 0x1000;

/// The squares that are relevant along any of the eight rays.
pub open spec fn all_relevant(square: int) -> u64 {
    sliding_relevant_of(square, 1) | sliding_relevant_of(square, -1) | sliding_relevant_of(
        square,
        8,
    ) | sliding_relevant_of(square, -8) | sliding_relevant_of(square, 7) | sliding_relevant_of(
        square,
        -7,
    ) | sliding_relevant_of(square, 9) | sliding_relevant_of(square, -9)
}

/// A span has at most one square for each of its steps.
pub proof fn lemma_span_popcount(from: int, direction: int, steps: int)
    requires
        is_square(from),
        is_ray_direction(direction),
        steps <= edge_distance(from, direction),
    ensures
        popcount(ray_span(from, direction, steps)) <= if steps > 0 {
            steps
        } else {
            0
        },
    decreases steps,
{
    if steps > 0 {
        lemma_step_on_board(from, direction);
        lemma_span_popcount(from + direction, direction, steps - 1);
        lemma_popcount_single((from + direction) as u64);
        lemma_popcount_union(
            square_bit(from + direction),
            ray_span(from + direction, direction, steps - 1),
        );
    } else {
        assert(popcount(0) == 0);
    }
}

/// At most `MAX_RELEVANT` squares are relevant along the eight rays
/// together.
pub proof fn lemma_all_relevant_popcount(square: int)
    requires
        is_square(square),
    ensures
        popcount(all_relevant(square)) <= MAX_RELEVANT,
{
    let a = sliding_relevant_of(square, 1);
    let b = sliding_relevant_of(square, -1);
    let c = sliding_relevant_of(square, 8);
    let d = sliding_relevant_of(square, -8);
    let e = sliding_relevant_of(square, 7);
    let f = sliding_relevant_of(square, -7);
    let g = sliding_relevant_of(square, 9);
    let h = sliding_relevant_of(square, -9);
    lemma_span_popcount(square, 1, edge_distance(square, 1) - 1);
    lemma_span_popcount(square, -1, edge_distance(square, -1) - 1);
    lemma_span_popcount(square, 8, edge_distance(square, 8) - 1);
    lemma_span_popcount(square, -8, edge_distance(square, -8) - 1);
    lemma_span_popcount(square, 7, edge_distance(square, 7) - 1);
    lemma_span_popcount(square, -7, edge_distance(square, -7) - 1);
    lemma_span_popcount(square, 9, edge_distance(square, 9) - 1);
    lemma_span_popcount(square, -9, edge_distance(square, -9) - 1);
    assert(popcount(a) + popcount(b) <= 6);
    assert(popcount(c) + popcount(d) <= 6);
    assert(popcount(e) + popcount(f) <= 6);
    assert(popcount(g) + popcount(h) <= 6);
    lemma_popcount_union(a, b);
    lemma_popcount_union(a | b, c);
    lemma_popcount_union(a | b | c, d);
    lemma_popcount_union(a | b | c | d, e);
    lemma_popcount_union(a | b | c | d | e, f);
    lemma_popcount_union(a | b | c | d | e | f, g);
    lemma_popcount_union(a | b | c | d | e | f | g, h);
}

/// Where a board holds what is relevant along each of `directions`, it
/// holds what is relevant along all of them.
pub proof fn lemma_relevant_within(directions: Seq<i8>, square: int, cover: u64)
    requires
        forall|i: int|
            0 <= i < directions.len() ==> sliding_relevant_of(
                square,
                #[trigger] directions[i] as int,
            ) & !cover == 0,
    ensures
        relevant_of(directions, square) & !cover == 0,
    decreases directions.len(),
{
    if directions.len() > 0 {
        let front = directions.drop_last();
        assert forall|i: int| 0 <= i < front.len() implies sliding_relevant_of(
            square,
            #[trigger] front[i] as int,
        ) & !cover == 0 by {
            assert(front[i] == directions[i]);
        }
        lemma_relevant_within(front, square, cover);
        let last = sliding_relevant_of(square, directions.last() as int);
        let before = relevant_of(front, square);
        assert(last == sliding_relevant_of(square, directions[directions.len() - 1] as int));
        assert((before | last) & !cover == 0) by (bit_vector)
            requires
                before & !cover == 0,
                last & !cover == 0,
        ;
    } else {
        lemma_empty_board(cover);
    }
}

/// What is relevant along some rays is relevant along the eight.
pub proof fn lemma_relevant_within_all(directions: Seq<i8>, square: int)
    requires
        all_ray_directions(directions),
    ensures
        relevant_of(directions, square) & !all_relevant(square) == 0,
{
    let all = all_relevant(square);
    let a = sliding_relevant_of(square, 1);
    let b = sliding_relevant_of(square, -1);
    let c = sliding_relevant_of(square, 8);
    let d = sliding_relevant_of(square, -8);
    let e = sliding_relevant_of(square, 7);
    let f = sliding_relevant_of(square, -7);
    let g = sliding_relevant_of(square, 9);
    let h = sliding_relevant_of(square, -9);
    assert forall|i: int| 0 <= i < directions.len() implies sliding_relevant_of(
        square,
        #[trigger] directions[i] as int,
    ) & !all == 0 by {
        let one = sliding_relevant_of(square, directions[i] as int);
        assert(is_ray_direction(directions[i] as int));
        assert(one & !all == 0) by (bit_vector)
            requires
                all == a | b | c | d | e | f | g | h,
                one == a || one == b || one == c || one == d || one == e || one == f || one == g
                    || one == h,
        ;
    }
    lemma_relevant_within(directions, square, all);
}

/// Along ranks and files, and along diagonals, at most `MAX_ON_TWO_LINES`
/// squares are relevant, so a table of either kind has at most
/// `MAX_SLIDER_TABLE_SIZE` slots.
pub proof fn lemma_slider_popcount(square: int)
    requires
        is_square(square),
    ensures
        popcount(relevant_of(orthogonal_directions(), square)) <= MAX_ON_TWO_LINES,
        table_size(relevant_of(orthogonal_directions(), square)) <= MAX_SLIDER_TABLE_SIZE,
        popcount(relevant_of(diagonal_directions(), square)) <= MAX_ON_TWO_LINES,
        table_size(relevant_of(diagonal_directions(), square)) <= MAX_SLIDER_TABLE_SIZE,
{
    let a = sliding_relevant_of(square, 1);
    let b = sliding_relevant_of(square, -1);
    let c = sliding_relevant_of(square, 8);
    let d = sliding_relevant_of(square, -8);
    let e = sliding_relevant_of(square, 7);
    let f = sliding_relevant_of(square, -7);
    let g = sliding_relevant_of(square, 9);
    let h = sliding_relevant_of(square, -9);
    lemma_span_popcount(square, 1, edge_distance(square, 1) - 1);
    lemma_span_popcount(square, -1, edge_distance(square, -1) - 1);
    lemma_span_popcount(square, 8, edge_distance(square, 8) - 1);
    lemma_span_popcount(square, -8, edge_distance(square, -8) - 1);
    lemma_span_popcount(square, 7, edge_distance(square, 7) - 1);
    lemma_span_popcount(square, -7, edge_distance(square, -7) - 1);
    lemma_span_popcount(square, 9, edge_distance(square, 9) - 1);
    lemma_span_popcount(square, -9, edge_distance(square, -9) - 1);
    lemma_popcount_union(a, b);
    lemma_popcount_union(a | b, c);
    lemma_popcount_union(a | b | c, d);
    lemma_popcount_union(e, f);
    lemma_popcount_union(e | f, g);
    lemma_popcount_union(e | f | g, h);
    let straight = a | b | c | d;
    let slanted = e | f | g | h;
    assert(a & !straight == 0 && b & !straight == 0 && c & !straight == 0 && d & !straight == 0)
        by (bit_vector)
        requires
            straight == a | b | c | d,
    ;
    assert(e & !slanted == 0 && f & !slanted == 0 && g & !slanted == 0 && h & !slanted == 0)
        by (bit_vector)
        requires
            slanted == e | f | g | h,
    ;
    lemma_relevant_within(orthogonal_directions(), square, straight);
    lemma_relevant_within(diagonal_directions(), square, slanted);
    lemma_popcount_monotone(relevant_of(orthogonal_directions(), square), straight);
    lemma_popcount_monotone(relevant_of(diagonal_directions(), square), slanted);
    lemma2_to64();
    if popcount(relevant_of(orthogonal_directions(), square)) < 12 {
        lemma_pow2_strictly_increases(popcount(relevant_of(orthogonal_directions(), square)), 12);
    }
    if popcount(relevant_of(diagonal_directions(), square)) < 12 {
        lemma_pow2_strictly_increases(popcount(relevant_of(diagonal_directions(), square)), 12);
    }
}

/// At most `MAX_RELEVANT` squares are relevant, so a table has at most
/// `MAX_TABLE_SIZE` slots.
pub proof fn lemma_relevant_popcount(directions: Seq<i8>, square: int)
    requires
        is_square(square),
        all_ray_directions(directions),
    ensures
        popcount(relevant_of(directions, square)) <= MAX_RELEVANT,
        table_size(relevant_of(directions, square)) <= MAX_TABLE_SIZE,
{
    lemma_relevant_within_all(directions, square);
    lemma_popcount_monotone(relevant_of(directions, square), all_relevant(square));
    lemma_all_relevant_popcount(square);
    lemma2_to64();
    if popcount(relevant_of(directions, square)) < 24 {
        lemma_pow2_strictly_increases(popcount(relevant_of(directions, square)), 24);
    }
}

} // verus!
