//! Integer keys of quantized forces: a node id and three spherical buckets
//! (radius, polar angle, azimuth) packed into one `u64`.
use vstd::prelude::*;

verus! {

/// Offset added to the signed azimuth step so that its bucket is unsigned.
pub const PHI_OFFSET: i32 = 64;

/// Width mask of each bucket field in a key.
pub const BUCKET_MASK: u64 = 0x3FF;

/// The key of a node id and three buckets: the id above bit 30, then the
/// low ten bits of the radius, polar and azimuth buckets.
pub open spec fn force_key(node_id: u32, rad: u32, theta: u32, phi: u32) -> int {
    node_id * 0x4000_0000 + (rad % 1024) * 0x10_0000 + (theta % 1024) * 0x400 + phi % 1024
}

/// The radius bucket: the rounded radial step, at least 1.
pub fn radius_bucket(rounded: u32) -> (r: u32)
    ensures
        r == if rounded < 1 { 1 } else { rounded },
{
    if rounded < 1 {
        1
    } else {
        rounded
    }
}

/// The azimuth bucket of a rounded signed azimuth step.
pub fn phi_bucket(rounded: i32) -> (r: u32)
    requires
        rounded + PHI_OFFSET <= i32::MAX,
    ensures
        r == (rounded + PHI_OFFSET) as u32,
{
    (rounded + PHI_OFFSET) as u32
}

/// The signed azimuth step that an azimuth bucket stands for.
pub fn phi_step(bucket: u32) -> (r: i32)
    requires
        bucket as i32 - PHI_OFFSET >= i32::MIN,
    ensures
        r == bucket as i32 - PHI_OFFSET,
{
    bucket as i32 - PHI_OFFSET
}

/// The shifted and masked fields add up to the key.
proof fn lemma_pack(node_id: u32, rad: u32, theta: u32, phi: u32, k: u64)
    by (bit_vector)
    requires
        k == ((node_id as u64) << 30u64) | (((rad as u64) & 0x3FFu64) << 20u64) | (((theta as u64)
            & 0x3FFu64) << 10u64) | ((phi as u64) & 0x3FFu64),
    ensures
        k == (node_id as u64) * 0x4000_0000u64 + ((rad as u64) % 1024) * 0x10_0000u64 + ((
        theta as u64) % 1024) * 0x400u64 + (phi as u64) % 1024,
{
}

/// Packs a node id and three buckets into a cache key.
pub fn pack_force_key(node_id: u32, rad: u32, theta: u32, phi: u32) -> (k: u64)
    ensures
        k as int == force_key(node_id, rad, theta, phi),
{
    let k: u64 = ((node_id as u64) << 30) | ((rad as u64 & 0x3FF) << 20) | ((theta as u64 & 0x3FF)
        << 10) | (phi as u64 & 0x3FF);
    proof {
        lemma_pack(node_id, rad, theta, phi, k);
    }
    k
}


/// A key gives back its fields: the node id above bit 30 and the low ten
/// bits of each bucket below.
pub proof fn lemma_force_key_fields(node_id: u32, rad: u32, theta: u32, phi: u32)
    ensures
        force_key(node_id, rad, theta, phi) / 0x4000_0000 == node_id,
        (force_key(node_id, rad, theta, phi) / 0x10_0000) % 1024 == rad % 1024,
        (force_key(node_id, rad, theta, phi) / 0x400) % 1024 == theta % 1024,
        force_key(node_id, rad, theta, phi) % 1024 == phi % 1024,
{
    let k = force_key(node_id, rad, theta, phi);
    let (r, t, f) = ((rad % 1024) as int, (theta % 1024) as int, (phi % 1024) as int);
    assert(k == ((node_id * 1024 + r) * 1024 + t) * 1024 + f) by (nonlinear_arith)
        requires
            k == node_id * 0x4000_0000 + r * 0x10_0000 + t * 0x400 + f,
    ;
    lemma_digit(((node_id * 1024 + r) * 1024 + t), f);
    lemma_digit(node_id * 1024 + r, t);
    lemma_digit(node_id as int, r);
    assert(k / 0x400 == (node_id * 1024 + r) * 1024 + t);
    assert(k / 0x10_0000 == (k / 0x400) / 1024) by {
        vstd::arithmetic::div_mod::lemma_div_denominator(k, 1024, 1024);
    }
    assert(k / 0x4000_0000 == (k / 0x10_0000) / 1024) by {
        vstd::arithmetic::div_mod::lemma_div_denominator(k, 0x10_0000, 1024);
    }
}

/// Splitting off a base-1024 digit.
proof fn lemma_digit(hi: int, lo: int)
    requires
        hi >= 0,
        0 <= lo < 1024,
    ensures
        (hi * 1024 + lo) / 1024 == hi,
        (hi * 1024 + lo) % 1024 == lo,
{
    vstd::arithmetic::div_mod::lemma_fundamental_div_mod_converse(hi * 1024 + lo, 1024, hi, lo);
}

/// Two keys are equal exactly when their node ids are equal and their
/// buckets agree in the low ten bits.
pub proof fn lemma_force_key_injective(
    id1: u32,
    rad1: u32,
    theta1: u32,
    phi1: u32,
    id2: u32,
    rad2: u32,
    theta2: u32,
    phi2: u32,
)
    ensures
        (force_key(id1, rad1, theta1, phi1) == force_key(id2, rad2, theta2, phi2)) <==> (id1 == id2
            && rad1 % 1024 == rad2 % 1024 && theta1 % 1024 == theta2 % 1024 && phi1 % 1024 == phi2
            % 1024),
{
    lemma_force_key_fields(id1, rad1, theta1, phi1);
    lemma_force_key_fields(id2, rad2, theta2, phi2);
}

/// The azimuth step survives the round trip through its bucket.
pub proof fn lemma_phi_round_trip(rounded: i32)
    requires
        rounded + PHI_OFFSET <= i32::MAX,
    ensures
        ((rounded + PHI_OFFSET) as u32) as i32 - PHI_OFFSET == rounded,
{
    let s = (rounded + 64) as i32;
    assert(((s as u32) as i32) == s) by (bit_vector);
}

} // verus!
