use muaddib::workload::data::{checksum, fill_batch, reference_checksum, transform};
use muaddib::workload::rng::SplitMix64;

#[test]
fn fnv1a_matches_known_vectors() {
    assert_eq!(checksum(b""), 0xCBF2_9CE4_8422_2325);
    assert_eq!(checksum(b"a"), 0xAF63_DC4C_8601_EC8C);
}

#[test]
fn transforms_are_order_sensitive() {
    let mut a = vec![0; 64];
    fill_batch(1, 1, &mut a);
    let mut b = a.clone();
    transform(0, &mut a);
    transform(1, &mut a);
    transform(1, &mut b);
    transform(0, &mut b);
    assert_ne!(checksum(&a), checksum(&b));
}

#[test]
fn different_batches_get_different_data() {
    assert_ne!(
        reference_checksum(9, 0, 32, 2),
        reference_checksum(9, 1, 32, 2)
    );
}

#[test]
fn the_same_seed_gives_the_same_stream() {
    let mut a = SplitMix64::new(42);
    let mut b = SplitMix64::new(42);
    for _ in 0..100 {
        assert_eq!(a.next_u64(), b.next_u64());
    }
}

#[test]
fn matches_the_published_reference_stream() {
    // First outputs of SplitMix64 seeded with 0 (reference C
    // implementation by Vigna).
    let mut r = SplitMix64::new(0);
    assert_eq!(r.next_u64(), 0xE220_A839_7B1D_CDAF);
    assert_eq!(r.next_u64(), 0x6E78_9E6A_A1B9_65F4);
}

#[test]
fn below_stays_in_range() {
    let mut r = SplitMix64::new(7);
    for n in 1..50 {
        for _ in 0..20 {
            assert!(r.below(n) < n);
        }
    }
}

#[test]
fn transform_of_zero_stage_on_one_byte() {
    // key = 0x3B; acc = rotl3(0x3B) ^ 0 = 0xD9; byte = 0xD9 + 0x3B = 0x14.
    let mut b = vec![0u8];
    transform(0, &mut b);
    assert_eq!(b, vec![0x14]);
}

#[test]
fn reference_checksum_with_no_stages_is_the_checksum_of_the_filled_batch() {
    let mut buf = vec![0; 16];
    fill_batch(5, 3, &mut buf);
    assert_eq!(reference_checksum(5, 3, 16, 0), checksum(&buf));
}

#[test]
fn fill_writes_little_endian_draws_and_a_short_tail() {
    let mut r = SplitMix64::new(0);
    let mut buf = vec![0u8; 10];
    r.fill(&mut buf);
    assert_eq!(&buf[..8], &0xE220_A839_7B1D_CDAFu64.to_le_bytes());
    assert_eq!(&buf[8..], &0x6E78_9E6A_A1B9_65F4u64.to_le_bytes()[..2]);
}

#[test]
fn percent_hundred_always_holds_and_zero_never() {
    let mut r = SplitMix64::new(3);
    for _ in 0..50 {
        assert!(r.percent(100));
        assert!(!r.percent(0));
    }
}
