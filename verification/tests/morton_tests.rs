use universe_wasm::{morton_key_3d, spread_bits_10};

#[test]
fn spread_places_bit_k_at_3k() {
    assert_eq!(spread_bits_10(0), 0);
    assert_eq!(spread_bits_10(1), 1);
    assert_eq!(spread_bits_10(2), 8);
    assert_eq!(spread_bits_10(0b101), 0b1000001);
    assert_eq!(spread_bits_10(0x3FF), 0x0924_9249);
}

#[test]
fn spread_ignores_high_bits() {
    assert_eq!(spread_bits_10(0x400), 0);
    assert_eq!(spread_bits_10(0xFFFF_FFFF), 0x0924_9249);
}

#[test]
fn morton_unit_axes() {
    assert_eq!(morton_key_3d(1, 0, 0), 1);
    assert_eq!(morton_key_3d(0, 1, 0), 2);
    assert_eq!(morton_key_3d(0, 0, 1), 4);
    assert_eq!(morton_key_3d(1, 1, 1), 7);
    assert_eq!(morton_key_3d(2, 0, 0), 8);
    assert_eq!(morton_key_3d(3, 5, 6), 0b110_101_011);
}

#[test]
fn morton_full_range_and_bound() {
    assert_eq!(morton_key_3d(1023, 1023, 1023), 0x3FFF_FFFF);
    for (x, y, z) in [(7u32, 900u32, 13u32), (1023, 0, 512), (511, 511, 1)] {
        assert!(morton_key_3d(x, y, z) < (1 << 30));
    }
}

#[test]
fn morton_only_low_ten_bits_count() {
    assert_eq!(morton_key_3d(1024, 2048, 4096), 0);
    assert_eq!(morton_key_3d(1025 + 1024, 3 + 4096, 7 + 8192), morton_key_3d(1, 3, 7));
}

#[test]
fn morton_distinct_coordinates_distinct_keys() {
    let mut keys = Vec::new();
    for x in 0..6u32 {
        for y in 0..6u32 {
            for z in 0..6u32 {
                keys.push(morton_key_3d(x * 170, y * 170, z * 170));
            }
        }
    }
    let n = keys.len();
    keys.sort();
    keys.dedup();
    assert_eq!(keys.len(), n);
}

fn gather(r: u32, lane: u32) -> u32 {
    let mut v = 0u32;
    for k in 0..10u32 {
        v |= ((r >> (3 * k + lane)) & 1) << k;
    }
    v
}

#[test]
fn every_key_below_two_pow_thirty_is_reached() {
    for r in [0u32, 1, 2, 4, 7, 0x2AAA_AAAA, 0x1555_5555, 0x3FFF_FFFF, 123_456_789, 987_654_321] {
        let (x, y, z) = (gather(r, 0), gather(r, 1), gather(r, 2));
        assert!(x < 1024 && y < 1024 && z < 1024);
        assert_eq!(morton_key_3d(x, y, z), r);
    }
}
