use magic_numbers::attacks::get_relevant_occupancies;
use magic_numbers::bounds::{
    MAX_ON_TWO_LINES, MAX_RELEVANT, MAX_SLIDER_TABLE_SIZE, MAX_TABLE_SIZE,
};
use magic_numbers::subsets::count_ones;
use magic_numbers::table::{bishop_directions, rook_directions};

#[test]
fn count_ones_counts_the_set_bits() {
    assert_eq!(count_ones(0), 0);
    assert_eq!(count_ones(1), 1);
    assert_eq!(count_ones(0x8000_0000_0000_0000), 1);
    assert_eq!(count_ones(0xFF00_0000_0000_0000), 8);
    assert_eq!(count_ones(0x0001_0101_0101_017E), 12);
    assert_eq!(count_ones(u64::MAX), 64);
    let mut x = 0x9E37_79B9_7F4A_7C15u64;
    for _ in 0..1000 {
        assert_eq!(count_ones(x), x.count_ones());
        x = x.wrapping_mul(0x2545_F491_4F6C_DD1D).wrapping_add(1);
    }
}

#[test]
fn table_size_limits_are_powers_of_two() {
    assert_eq!(MAX_TABLE_SIZE, 1usize << MAX_RELEVANT);
    assert_eq!(MAX_SLIDER_TABLE_SIZE, 1usize << MAX_ON_TWO_LINES);
    assert_eq!(MAX_SLIDER_TABLE_SIZE, 4096);
}

#[test]
fn relevant_squares_stay_within_the_limits() {
    let all: [i8; 8] = [1, -1, 8, -8, 7, -7, 9, -9];
    let mut most_rook = 0;
    let mut most_bishop = 0;
    for square in 0..64i8 {
        let rook = count_ones(get_relevant_occupancies(&rook_directions(), square));
        let bishop = count_ones(get_relevant_occupancies(&bishop_directions(), square));
        let queen = count_ones(get_relevant_occupancies(&all, square));
        assert!(rook <= MAX_ON_TWO_LINES);
        assert!(bishop <= MAX_ON_TWO_LINES);
        assert_eq!(queen, rook + bishop);
        assert!(queen <= MAX_RELEVANT);
        most_rook = most_rook.max(rook);
        most_bishop = most_bishop.max(bishop);
    }
    assert_eq!(most_rook, 12);
    assert_eq!(most_bishop, 9);
}

#[test]
fn a_direction_given_twice_counts_once() {
    let once = get_relevant_occupancies(&[1, 8], 27);
    let twice = get_relevant_occupancies(&[1, 8, 1, 8, 8], 27);
    assert_eq!(once, twice);
}
