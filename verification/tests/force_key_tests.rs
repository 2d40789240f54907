use universe_wasm::force_key::{pack_force_key, phi_bucket, phi_step, radius_bucket, PHI_OFFSET};

#[test]
fn key_layout() {
    assert_eq!(pack_force_key(0, 0, 0, 0), 0);
    assert_eq!(pack_force_key(1, 2, 3, 4), (1u64 << 30) | (2 << 20) | (3 << 10) | 4);
    assert_eq!(pack_force_key(u32::MAX, 1023, 1023, 1023), ((u32::MAX as u64) << 30) | 0x3FFF_FFFF);
}

#[test]
fn key_masks_buckets_to_ten_bits() {
    assert_eq!(pack_force_key(5, 1024 + 7, 2048 + 9, 4096 + 11), pack_force_key(5, 7, 9, 11));
    assert_ne!(pack_force_key(5, 7, 9, 11), pack_force_key(6, 7, 9, 11));
    assert_ne!(pack_force_key(5, 7, 9, 11), pack_force_key(5, 8, 9, 11));
    assert_ne!(pack_force_key(5, 7, 9, 11), pack_force_key(5, 7, 10, 11));
    assert_ne!(pack_force_key(5, 7, 9, 11), pack_force_key(5, 7, 9, 12));
}

#[test]
fn key_fields_read_back() {
    let k = pack_force_key(12345, 17, 31, 95);
    assert_eq!(k >> 30, 12345);
    assert_eq!((k >> 20) & 0x3FF, 17);
    assert_eq!((k >> 10) & 0x3FF, 31);
    assert_eq!(k & 0x3FF, 95);
}

#[test]
fn radius_bucket_is_at_least_one() {
    assert_eq!(radius_bucket(0), 1);
    assert_eq!(radius_bucket(1), 1);
    assert_eq!(radius_bucket(37), 37);
}

#[test]
fn phi_bucket_offsets_signed_steps() {
    assert_eq!(PHI_OFFSET, 64);
    assert_eq!(phi_bucket(0), 64);
    assert_eq!(phi_bucket(-31), 33);
    assert_eq!(phi_bucket(31), 95);
    assert_eq!(phi_bucket(-70), (-6i32) as u32);
}

#[test]
fn phi_step_undoes_phi_bucket() {
    for q in [-64i32, -31, -1, 0, 1, 31, 100] {
        assert_eq!(phi_step(phi_bucket(q)), q);
    }
    assert_eq!(phi_step(64), 0);
}
