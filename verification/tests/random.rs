use magic_numbers::random::{Random, SEED};

#[test]
fn the_seed_is_fixed() {
    assert_eq!(SEED, 0xFFAA_B58C_5833_FE89);
}

#[test]
fn first_words_of_a_new_stream() {
    let mut random = Random::new();
    assert_eq!(random.next_u64(), 0x8A76_2AF0_AC5E_6278);
    assert_eq!(random.next_u64(), 0xAA2B_0500_8A36_9C70);
    assert_eq!(random.next_u64(), 0x9BE5_5179_A0ED_A52C);
    assert_eq!(random.next_u64(), 0x0885_CDA5_F9BF_CE08);
}

#[test]
fn two_new_streams_yield_the_same_words() {
    let mut a = Random::new();
    let mut b = Random::new();
    for _ in 0..10_000 {
        assert_eq!(a.next_u64(), b.next_u64());
    }
}

#[test]
fn a_new_stream_yields_no_zero() {
    let mut random = Random::new();
    for _ in 0..100_000 {
        assert_ne!(random.next_u64(), 0);
    }
}
