use magic_numbers::generator::{generate_magic_number, SearchError};
use magic_numbers::random::Random;
use magic_numbers::table::{
    bishop_directions, generate_magics, rook_directions, TableEntry, SQUARES,
};

#[test]
fn the_two_sets_of_directions() {
    assert_eq!(rook_directions(), [1, 8, -8, -1]);
    assert_eq!(bishop_directions(), [7, 9, -9, -7]);
    assert_eq!(SQUARES, 64);
}

#[test]
fn a_run_over_no_square_is_empty() {
    let mut random = Random::new();
    let table = generate_magics(&rook_directions(), 0, &mut random).unwrap();
    assert!(table.entries.is_empty());
    assert_eq!(table.map_size, 0);
    assert_eq!(random.next_u64(), 0x8A76_2AF0_AC5E_6278);
}

#[test]
fn offset_after_the_first_square_is_its_table_size() {
    let mut random = Random::new();
    let entry = generate_magic_number(&rook_directions(), 0, &mut random).unwrap();
    let mut again = Random::new();
    let table = generate_magics(&rook_directions(), 1, &mut again).unwrap();
    assert_eq!(table.entries.len(), 1);
    assert_eq!(table.entries[0].offset, 0);
    assert_eq!(table.map_size, entry.size);
    assert_eq!(table.map_size, 1usize << entry.mask.count_ones());
    assert_eq!(random.next_u64(), again.next_u64());
}

#[test]
fn tables_along_ranks_and_files_follow_each_other() {
    let mut random = Random::new();
    let table = generate_magics(&rook_directions(), 3, &mut random).unwrap();
    assert_eq!(
        table.entries,
        vec![
            TableEntry {
                mask: 0x0001_0101_0101_017E,
                magic: 0x1080_0180_2270_4002,
                shift: 52,
                offset: 0
            },
            TableEntry {
                mask: 0x0002_0202_0202_027C,
                magic: 0x8B40_00A0_0590_0840,
                shift: 53,
                offset: 4096
            },
            TableEntry {
                mask: 0x0004_0404_0404_047A,
                magic: 0x0900_0A41_0020_0012,
                shift: 53,
                offset: 6144
            },
        ]
    );
    assert_eq!(table.map_size, 8192);
    let mut x = 0xDB00_CE6D_85FA_C65Eu64;
    x ^= x << 13;
    x ^= x >> 17;
    x ^= x << 5;
    assert_eq!(random.next_u64(), x);
}

#[test]
fn the_whole_table_along_diagonals() {
    let mut random = Random::new();
    let table = generate_magics(&bishop_directions(), SQUARES, &mut random).unwrap();
    assert_eq!(table.entries.len(), 64);
    assert_eq!(table.map_size, 5248);
    assert_eq!(
        table.entries[1],
        TableEntry { mask: 0x0000_4020_1008_0400, magic: 0x0010_5001_0120_2102, shift: 59, offset: 64 }
    );
    assert_eq!(
        table.entries[2],
        TableEntry { mask: 0x0000_0040_2010_0A00, magic: 0x0242_0200_4108_001A, shift: 59, offset: 96 }
    );
    assert_eq!(table.entries[63].magic, 0x0602_0404_1408_4202);
    assert_eq!(table.entries[63].offset, 5184);
    let mut offset = 0usize;
    for entry in &table.entries {
        assert_eq!(entry.offset, offset);
        offset += 1usize << entry.mask.count_ones();
    }
    assert_eq!(offset, table.map_size);
}

#[test]
fn a_run_stops_at_the_first_search_that_fails() {
    // From the first square no ray runs down or to the left.
    let mut random = Random::new();
    let failed = generate_magics(&[-1, -8], 2, &mut random);
    assert_eq!(failed.err(), Some(SearchError::SearchExhausted));
    let mut other = Random::new();
    for _ in 0..3_000_000 {
        other.next_u64();
    }
    assert_eq!(random.next_u64(), other.next_u64());
}
