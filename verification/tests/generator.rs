use magic_numbers::attacks::{get_attacks, get_relevant_occupancies};
use magic_numbers::entry::MagicEntry;
use magic_numbers::generator::{
    generate_attacks, generate_magic_number, hash, is_collision_detected, try_magic_number,
    MagicNumberCollision, SearchError, ATTEMPTS, MIN_TOP_BITS, TOP_BYTE,
};
use magic_numbers::random::Random;

const ROOK: [i8; 4] = [1, 8, -8, -1];
const BISHOP: [i8; 4] = [7, 9, -9, -7];

fn subsets(mask: u64) -> Vec<u64> {
    let mut all = Vec::new();
    let mut occupancies = 0u64;
    for _ in 0..(1usize << mask.count_ones()) {
        all.push(occupancies);
        occupancies = occupancies.wrapping_sub(mask) & mask;
    }
    all
}

#[test]
fn entry_new_keeps_its_fields() {
    let entry = MagicEntry::new(0x7E, 0x1234, 58, 64);
    assert_eq!(entry.mask, 0x7E);
    assert_eq!(entry.magic, 0x1234);
    assert_eq!(entry.shift, 58);
    assert_eq!(entry.size, 64);
    assert_eq!(MagicEntry::default(), MagicEntry::new(0, 0, 0, 0));
}

#[test]
fn search_constants() {
    assert_eq!(ATTEMPTS, 1_000_000);
    assert_eq!(MIN_TOP_BITS, 6);
    assert_eq!(TOP_BYTE, 0xFF00_0000_0000_0000);
}

#[test]
fn hash_keeps_the_top_bits_of_the_wrapped_product() {
    assert_eq!(hash(3, 5, 0), 15);
    assert_eq!(hash(3, 5, 2), 3);
    assert_eq!(hash(u64::MAX, u64::MAX, 0), 1);
    assert_eq!(hash(u64::MAX, 2, 63), 1);
    assert_eq!(hash(0x8000_0000_0000_0000, 3, 60), 8);
    assert_eq!(hash(u64::MAX, 1, 64), 0);
    assert_eq!(hash(u64::MAX, 1, 100), 0);
}

#[test]
fn a_collision_is_a_taken_slot_with_other_attacks() {
    let actual = [0u64, 5, 9];
    assert!(!is_collision_detected(&actual, 0, 7));
    assert!(!is_collision_detected(&actual, 1, 5));
    assert!(is_collision_detected(&actual, 1, 7));
    assert!(is_collision_detected(&actual, 2, 0));
}

#[test]
fn the_walk_visits_each_subset_once_and_comes_back() {
    for directions in [ROOK, BISHOP] {
        for square in [0i8, 27, 63] {
            let mask = get_relevant_occupancies(&directions, square);
            let all = subsets(mask);
            assert_eq!(all.len(), 1usize << mask.count_ones());
            let mut sorted = all.clone();
            sorted.sort();
            sorted.dedup();
            assert_eq!(sorted.len(), all.len());
            assert!(all.iter().all(|s| s & !mask == 0));
            let last = *all.last().unwrap();
            assert_eq!(last, mask);
            assert_eq!(last.wrapping_sub(mask) & mask, 0);
        }
    }
}

#[test]
fn generated_attacks_follow_the_walk() {
    let mask = get_relevant_occupancies(&BISHOP, 0);
    let map = generate_attacks(64, &BISHOP, 0, mask);
    let all = subsets(mask);
    assert_eq!(map.len(), 64);
    for (i, occupancies) in all.iter().enumerate() {
        assert_eq!(map[i], get_attacks(&BISHOP, 0, *occupancies));
    }
    assert_eq!(map[0], 0x8040_2010_0804_0200);
    assert_eq!(map[1], 0x0200);
    assert_eq!(map[2], 0x0004_0200);
    assert_eq!(generate_attacks(0, &BISHOP, 0, mask), Vec::<u64>::new());
}

#[test]
fn try_magic_number_tells_magic_from_collision() {
    let mask = get_relevant_occupancies(&BISHOP, 0);
    let expected = generate_attacks(64, &BISHOP, 0, mask);
    assert_eq!(try_magic_number(mask, 0x4041_6208_0901_0010, &expected), Ok(()));
    // Under the multiplier zero every subset lands in slot zero.
    assert_eq!(try_magic_number(mask, 0, &expected), Err(MagicNumberCollision));
    assert_eq!(try_magic_number(mask, 1, &expected), Err(MagicNumberCollision));
}

#[test]
fn try_magic_number_accepts_equal_attacks_in_one_slot() {
    let mask = 0x0200u64;
    assert_eq!(try_magic_number(mask, 0, &[7, 7]), Ok(()));
    assert_eq!(try_magic_number(mask, 0, &[7, 8]), Err(MagicNumberCollision));
    // A slot that holds zero counts as free.
    assert_eq!(try_magic_number(mask, 0, &[0, 8]), Ok(()));
    assert_eq!(try_magic_number(0, 0xFFFF, &[9]), Ok(()));
}

#[test]
fn search_for_the_first_square_along_ranks_and_files() {
    let mut random = Random::new();
    let mut offset = 0usize;
    let entry = generate_magic_number(&ROOK, 0, &mut random).unwrap();
    offset += entry.size;
    let mask = get_relevant_occupancies(&ROOK, 0);
    assert_eq!(entry.mask, mask);
    assert_eq!(entry.mask, 0x0001_0101_0101_017E);
    assert_eq!(entry.size, 1usize << mask.count_ones());
    assert_eq!(entry.size, 4096);
    assert_eq!(entry.shift, 52);
    assert_eq!(entry.magic, 0x1080_0180_2270_4002);
    assert_eq!(offset, entry.size);
    // The stream goes on where the search left it.
    let next = generate_magic_number(&ROOK, 1, &mut random).unwrap();
    assert_eq!(next, MagicEntry::new(0x0002_0202_0202_027C, 0x8B40_00A0_0590_0840, 53, 2048));
}

#[test]
fn search_for_the_first_square_along_diagonals() {
    let mut random = Random::new();
    let entry = generate_magic_number(&BISHOP, 0, &mut random).unwrap();
    assert_eq!(entry, MagicEntry::new(0x0040_2010_0804_0200, 0x4041_6208_0901_0010, 58, 64));
    assert_eq!(random.next_u64(), {
        let mut x = 0xE961_FB7B_9F25_99FCu64;
        x ^= x << 13;
        x ^= x >> 17;
        x ^= x << 5;
        x
    });
}

#[test]
fn a_found_entry_hashes_without_true_collisions() {
    for (directions, square) in [(ROOK, 27i8), (BISHOP, 27), (BISHOP, 63)] {
        let mut random = Random::new();
        let entry = generate_magic_number(&directions, square, &mut random).unwrap();
        let all = subsets(entry.mask);
        assert_eq!(all.len(), entry.size);
        let mut table = vec![None; entry.size];
        for occupancies in all {
            let index = hash(occupancies, entry.magic, entry.shift) as usize;
            assert!(index < entry.size);
            assert_eq!(index, hash(occupancies, entry.magic, entry.shift) as usize);
            let attacks = get_attacks(&directions, square, occupancies);
            match table[index] {
                None => table[index] = Some(attacks),
                Some(held) => assert_eq!(held, attacks),
            }
        }
    }
}

#[test]
fn search_is_the_same_on_every_run() {
    let mut a = Random::new();
    let mut b = Random::new();
    for square in [0i8, 9, 18] {
        assert_eq!(
            generate_magic_number(&BISHOP, square, &mut a),
            generate_magic_number(&BISHOP, square, &mut b)
        );
    }
    assert_eq!(a.next_u64(), b.next_u64());
}

#[test]
fn search_without_relevant_squares_is_exhausted() {
    // With an empty mask the product is zero and no candidate passes the filter.
    let mut random = Random::new();
    assert_eq!(generate_magic_number(&[], 0, &mut random), Err(SearchError::SearchExhausted));
    let mut other = Random::new();
    for _ in 0..3_000_000 {
        other.next_u64();
    }
    assert_eq!(random.next_u64(), other.next_u64());
    assert_eq!(
        generate_magic_number(&[-1, -8], 0, &mut Random::new()),
        Err(SearchError::SearchExhausted)
    );
}
