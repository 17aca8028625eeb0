use magic_numbers::attacks;
use magic_numbers::attacks::{
    distance_to_edge, get_attacks, get_relevant_occupancies, is_direction, rank, sliding_attack,
    sliding_relevant_occupancies,
};

const ROOK: [i8; 4] = [1, 8, -8, -1];
const BISHOP: [i8; 4] = [7, 9, -9, -7];

#[test]
fn rank_and_file_of_corners_and_centre() {
    assert_eq!((rank(0), attacks::file(0)), (0, 0));
    assert_eq!((rank(7), attacks::file(7)), (0, 7));
    assert_eq!((rank(27), attacks::file(27)), (3, 3));
    assert_eq!((rank(63), attacks::file(63)), (7, 7));
}

#[test]
fn only_the_eight_steps_are_directions() {
    let mut count = 0;
    for d in i8::MIN..=i8::MAX {
        if is_direction(d) {
            count += 1;
            assert!([1, 7, 8, 9].contains(&d.abs()));
        }
    }
    assert_eq!(count, 8);
}

#[test]
fn distance_to_edge_from_the_first_square() {
    assert_eq!(distance_to_edge(0, 1), 7);
    assert_eq!(distance_to_edge(0, -8), 0);
    assert_eq!(distance_to_edge(0, 8), 7);
    assert_eq!(distance_to_edge(0, -1), 0);
    assert_eq!(distance_to_edge(0, 9), 7);
    assert_eq!(distance_to_edge(0, 7), 0);
    assert_eq!(distance_to_edge(0, -7), 0);
    assert_eq!(distance_to_edge(0, -9), 0);
}

#[test]
fn distance_to_edge_takes_the_nearer_edge_on_diagonals() {
    // Square 27 is on rank 3, file 3.
    assert_eq!(distance_to_edge(27, 7), 3);
    assert_eq!(distance_to_edge(27, 9), 4);
    assert_eq!(distance_to_edge(27, -7), 3);
    assert_eq!(distance_to_edge(27, -9), 3);
    assert_eq!(distance_to_edge(63, 9), 0);
    assert_eq!(distance_to_edge(63, -9), 7);
}

#[test]
fn diagonal_attacks_from_the_corner_on_an_empty_board() {
    let attacks = get_attacks(&BISHOP, 0, 0);
    assert_eq!(attacks, 0x8040_2010_0804_0200);
    assert_eq!(attacks, sliding_attack(0, 0, 9));
    assert_eq!(sliding_attack(0, 0, 7), 0);
    assert_eq!(sliding_attack(0, 0, -7), 0);
    assert_eq!(sliding_attack(0, 0, -9), 0);
}

#[test]
fn a_ray_ends_on_the_first_occupied_square() {
    assert_eq!(sliding_attack(0, 1 << 3, 1), 0xE);
    assert_eq!(sliding_attack(0, (1 << 3) | (1 << 5), 1), 0xE);
    // What stands on the slider's own square does not stop it.
    assert_eq!(sliding_attack(0, 1, 1), 0xFE);
    let occupancies = (1u64 << 29) | (1 << 30) | (1 << 11);
    assert_eq!(get_attacks(&ROOK, 27, occupancies), 0x0808_0808_3708_0800);
}

#[test]
fn attacks_on_an_empty_board() {
    assert_eq!(get_attacks(&ROOK, 0, 0), 0x0101_0101_0101_01FE);
    assert_eq!(get_attacks(&ROOK, 27, 0), 0x0808_0808_F708_0808);
    assert_eq!(get_attacks(&BISHOP, 27, 0), 0x8041_2214_0014_2241);
    assert_eq!(get_attacks(&[], 27, 0), 0);
}

#[test]
fn relevant_occupancies_leave_out_the_last_square_of_each_ray() {
    assert_eq!(get_relevant_occupancies(&ROOK, 0), 0x0001_0101_0101_017E);
    assert_eq!(get_relevant_occupancies(&BISHOP, 0), 0x0040_2010_0804_0200);
    assert_eq!(get_relevant_occupancies(&ROOK, 27), 0x0008_0808_7608_0800);
    assert_eq!(get_relevant_occupancies(&BISHOP, 27), 0x0040_2214_0014_2200);
    assert_eq!(sliding_relevant_occupancies(0, 1), 0x7E);
    assert_eq!(sliding_relevant_occupancies(6, 1), 0);
    assert_eq!(sliding_relevant_occupancies(7, 1), 0);
    assert_eq!(get_relevant_occupancies(&[], 0), 0);
}

#[test]
fn relevant_occupancies_are_a_proper_part_of_the_empty_board_attacks() {
    for directions in [ROOK, BISHOP] {
        for square in 0..64i8 {
            let mask = get_relevant_occupancies(&directions, square);
            let attacks = get_attacks(&directions, square, 0);
            assert_eq!(mask & !attacks, 0);
            assert_ne!(mask, attacks);
            for direction in directions {
                let distance = distance_to_edge(square, direction);
                if distance > 0 {
                    let last = square + distance * direction;
                    assert_ne!(attacks & (1u64 << last), 0);
                    assert_eq!(mask & (1u64 << last), 0);
                }
            }
        }
    }
}

#[test]
fn occupancy_beyond_the_relevant_squares_changes_no_attack() {
    for directions in [ROOK, BISHOP] {
        for square in [0i8, 7, 27, 36, 56, 63] {
            let mask = get_relevant_occupancies(&directions, square);
            let occupancies = 0x1234_5678_9ABC_DEF0u64;
            assert_eq!(
                get_attacks(&directions, square, occupancies),
                get_attacks(&directions, square, occupancies & mask)
            );
        }
    }
}
