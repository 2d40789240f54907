//! Morton (Z-order) encoding of three 10-bit coordinates.
use vstd::prelude::*;

verus! {

/// Bit `i` of `v` (bits past the width read as zero).
pub open spec fn bit(v: u32, i: u32) -> bool {
    (v >> i) & 1u32 == 1u32
}

/// `r` holds bit `k` of `v` at position `3k`, for `k < 10`, and nothing else.
pub open spec fn spreads(v: u32, r: u32) -> bool {
    forall|i: u32|
        #![trigger bit(r, i)]
        i < 32 ==> (bit(r, i) <==> (i < 30 && i % 3 == 0 && bit(v, i / 3)))
}

/// The four mask-and-shift rounds move bit `k` of `v` to bit `3k`.
proof fn lemma_spread_steps(v: u32, v0: u32, v1: u32, v2: u32, v3: u32, v4: u32)
    by (bit_vector)
    requires
        v0 == v & 0x3FFu32,
        v1 == (v0 | (v0 << 16u32)) & 0x030000FFu32,
        v2 == (v1 | (v1 << 8u32)) & 0x0300F00Fu32,
        v3 == (v2 | (v2 << 4u32)) & 0x030C30C3u32,
        v4 == (v3 | (v3 << 2u32)) & 0x09249249u32,
    ensures
        forall|i: u32| #![trigger (v4 >> i)] i < 32 ==>
            (((v4 >> i) & 1u32 == 1u32) <==> (i < 30 && i % 3 == 0 && ((v >> (i / 3)) & 1u32 == 1u32))),
        v4 & 0x09249249u32 == v4,
{
}

/// Spreads the low 10 bits of `v` so that bit `k` lands at bit `3k`.
pub fn spread_bits_10(v: u32) -> (r: u32)
    ensures
        spreads(v, r),
        r & 0x09249249u32 == r,
{
    let v0 = v & 0x3FF;
    let v1 = (v0 | (v0 << 16)) & 0x030000FF;
    let v2 = (v1 | (v1 << 8)) & 0x0300F00F;
    let v3 = (v2 | (v2 << 4)) & 0x030C30C3;
    let v4 = (v3 | (v3 << 2)) & 0x09249249;
    proof {
        lemma_spread_steps(v, v0, v1, v2, v3, v4);
    }
    v4
}

/// Which coordinate bit a Morton key holds at position `i`.
pub open spec fn interleaved_bit(x: u32, y: u32, z: u32, i: u32) -> bool {
    i < 30 && if i % 3 == 0 {
        bit(x, i / 3)
    } else if i % 3 == 1 {
        bit(y, i / 3)
    } else {
        bit(z, i / 3)
    }
}

/// `r` interleaves the low 10 bits of `x`, `y` and `z`: bit `3k` of `r` is
/// bit `k` of `x`, bit `3k + 1` is bit `k` of `y`, bit `3k + 2` is bit `k`
/// of `z`, and bits 30 and 31 are clear.
pub open spec fn interleaves(x: u32, y: u32, z: u32, r: u32) -> bool {
    forall|i: u32| #![trigger bit(r, i)] i < 32 ==> (bit(r, i) <==> interleaved_bit(x, y, z, i))
}

/// Or-ing three spread values shifted by 0, 1 and 2 interleaves their lanes.
proof fn lemma_merge_lanes(sx: u32, sy: u32, sz: u32, r: u32)
    by (bit_vector)
    requires
        sx & 0x09249249u32 == sx,
        sy & 0x09249249u32 == sy,
        sz & 0x09249249u32 == sz,
        r == sx | (sy << 1u32) | (sz << 2u32),
    ensures
        forall|i: u32| #![trigger (r >> i)] i < 32 ==>
            (((r >> i) & 1u32 == 1u32) <==> (
                (i % 3 == 0 && ((sx >> i) & 1u32 == 1u32))
                || (i % 3 == 1 && ((sy >> ((i - 1) as u32)) & 1u32 == 1u32))
                || (i % 3 == 2 && ((sz >> ((i - 2) as u32)) & 1u32 == 1u32)))),
{
}

/// The 30-bit Morton key of three 10-bit coordinates (higher bits of each
/// coordinate are ignored).
pub fn morton_key_3d(x: u32, y: u32, z: u32) -> (r: u32)
    ensures
        interleaves(x, y, z, r),
{
    let sx = spread_bits_10(x);
    let sy = spread_bits_10(y);
    let sz = spread_bits_10(z);
    let r = sx | (sy << 1) | (sz << 2);
    proof {
        lemma_merge_lanes(sx, sy, sz, r);
        assert forall|i: u32| i < 32 implies (bit(r, i) <==> interleaved_bit(x, y, z, i)) by {
            assert((r >> i) & 1u32 == 1u32 <==> bit(r, i));
            if i % 3 == 1 {
                let j = (i - 1) as u32;
                assert(bit(sy, j) <==> (j < 30 && j % 3 == 0 && bit(y, j / 3)));
                assert(j / 3 == i / 3);
            } else if i % 3 == 2 {
                let j = (i - 2) as u32;
                assert(bit(sz, j) <==> (j < 30 && j % 3 == 0 && bit(z, j / 3)));
                assert(j / 3 == i / 3);
            } else {
                assert(bit(sx, i) <==> (i < 30 && i % 3 == 0 && bit(x, i / 3)));
            }
        }
    }
    r
}

/// Two words that agree on each of their 32 bits are equal.
proof fn lemma_bits_determine_bv(a: u32, b: u32)
    by (bit_vector)
    requires
        (a >> 0u32) & 1u32 == (b >> 0u32) & 1u32,
        (a >> 1u32) & 1u32 == (b >> 1u32) & 1u32,
        (a >> 2u32) & 1u32 == (b >> 2u32) & 1u32,
        (a >> 3u32) & 1u32 == (b >> 3u32) & 1u32,
        (a >> 4u32) & 1u32 == (b >> 4u32) & 1u32,
        (a >> 5u32) & 1u32 == (b >> 5u32) & 1u32,
        (a >> 6u32) & 1u32 == (b >> 6u32) & 1u32,
        (a >> 7u32) & 1u32 == (b >> 7u32) & 1u32,
        (a >> 8u32) & 1u32 == (b >> 8u32) & 1u32,
        (a >> 9u32) & 1u32 == (b >> 9u32) & 1u32,
        (a >> 10u32) & 1u32 == (b >> 10u32) & 1u32,
        (a >> 11u32) & 1u32 == (b >> 11u32) & 1u32,
        (a >> 12u32) & 1u32 == (b >> 12u32) & 1u32,
        (a >> 13u32) & 1u32 == (b >> 13u32) & 1u32,
        (a >> 14u32) & 1u32 == (b >> 14u32) & 1u32,
        (a >> 15u32) & 1u32 == (b >> 15u32) & 1u32,
        (a >> 16u32) & 1u32 == (b >> 16u32) & 1u32,
        (a >> 17u32) & 1u32 == (b >> 17u32) & 1u32,
        (a >> 18u32) & 1u32 == (b >> 18u32) & 1u32,
        (a >> 19u32) & 1u32 == (b >> 19u32) & 1u32,
        (a >> 20u32) & 1u32 == (b >> 20u32) & 1u32,
        (a >> 21u32) & 1u32 == (b >> 21u32) & 1u32,
        (a >> 22u32) & 1u32 == (b >> 22u32) & 1u32,
        (a >> 23u32) & 1u32 == (b >> 23u32) & 1u32,
        (a >> 24u32) & 1u32 == (b >> 24u32) & 1u32,
        (a >> 25u32) & 1u32 == (b >> 25u32) & 1u32,
        (a >> 26u32) & 1u32 == (b >> 26u32) & 1u32,
        (a >> 27u32) & 1u32 == (b >> 27u32) & 1u32,
        (a >> 28u32) & 1u32 == (b >> 28u32) & 1u32,
        (a >> 29u32) & 1u32 == (b >> 29u32) & 1u32,
        (a >> 30u32) & 1u32 == (b >> 30u32) & 1u32,
        (a >> 31u32) & 1u32 == (b >> 31u32) & 1u32,
    ensures
        a == b,
{
}

/// A `u32` is determined by its 32 bits.
proof fn lemma_bits_determine(a: u32, b: u32)
    requires
        forall|i: u32| i < 32 ==> #[trigger] bit(a, i) == bit(b, i),
    ensures
        a == b,
{
    assert forall|i: u32| i < 32 implies (a >> i) & 1u32 == (b >> i) & 1u32 by {
        assert(bit(a, i) == bit(b, i));
        lemma_bit_value(a, i);
        lemma_bit_value(b, i);
    }
    lemma_bits_determine_bv(a, b);
}

proof fn lemma_bit_value(a: u32, i: u32)
    by (bit_vector)
    ensures
        (a >> i) & 1u32 == 0u32 || (a >> i) & 1u32 == 1u32,
{
}

/// A Morton key is determined by the coordinates it interleaves.
pub proof fn lemma_interleaves_unique(x: u32, y: u32, z: u32, r1: u32, r2: u32)
    requires
        interleaves(x, y, z, r1),
        interleaves(x, y, z, r2),
    ensures
        r1 == r2,
{
    assert forall|i: u32| i < 32 implies #[trigger] bit(r1, i) == bit(r2, i) by {
        assert(bit(r1, i) <==> interleaved_bit(x, y, z, i));
        assert(bit(r2, i) <==> interleaved_bit(x, y, z, i));
    }
    lemma_bits_determine(r1, r2);
}

proof fn lemma_low10(v: u32, k: u32)
    by (bit_vector)
    requires
        k < 10,
    ensures
        ((v & 0x3FFu32) >> k) & 1u32 == (v >> k) & 1u32,
{
}

proof fn lemma_high_clear(v: u32, k: u32)
    by (bit_vector)
    requires
        v < 1024,
        10 <= k < 32,
    ensures
        (v >> k) & 1u32 == 0u32,
{
}

/// Only the low ten bits of each coordinate reach the key: the key of
/// `x, y, z` is the key of `x & 0x3FF, y & 0x3FF, z & 0x3FF`.
pub proof fn lemma_morton_low_bits(x: u32, y: u32, z: u32, r: u32)
    requires
        interleaves(x, y, z, r),
    ensures
        interleaves(x & 0x3FFu32, y & 0x3FFu32, z & 0x3FFu32, r),
{
    assert forall|i: u32| i < 32 implies (#[trigger] bit(r, i) <==> interleaved_bit(
        x & 0x3FFu32,
        y & 0x3FFu32,
        z & 0x3FFu32,
        i,
    )) by {
        assert(bit(r, i) <==> interleaved_bit(x, y, z, i));
        if i < 30 {
            lemma_low10(x, i / 3);
            lemma_low10(y, i / 3);
            lemma_low10(z, i / 3);
        }
    }
}

/// A key lies below 2^30: bits 30 and 31 are clear.
pub proof fn lemma_morton_range(x: u32, y: u32, z: u32, r: u32)
    requires
        interleaves(x, y, z, r),
    ensures
        r < 0x4000_0000,
{
    assert(!bit(r, 30u32));
    assert(!bit(r, 31u32));
    lemma_top_clear(r);
}

proof fn lemma_top_clear(r: u32)
    by (bit_vector)
    requires
        (r >> 30u32) & 1u32 != 1u32,
        (r >> 31u32) & 1u32 != 1u32,
    ensures
        r < 0x4000_0000,
{
}

/// Distinct 10-bit coordinate triples have distinct keys.
pub proof fn lemma_morton_injective(
    x1: u32,
    y1: u32,
    z1: u32,
    x2: u32,
    y2: u32,
    z2: u32,
    r: u32,
)
    requires
        x1 < 1024 && y1 < 1024 && z1 < 1024,
        x2 < 1024 && y2 < 1024 && z2 < 1024,
        interleaves(x1, y1, z1, r),
        interleaves(x2, y2, z2, r),
    ensures
        x1 == x2,
        y1 == y2,
        z1 == z2,
{
    assert forall|k: u32| k < 32 implies #[trigger] bit(x1, k) == bit(x2, k) && bit(y1, k) == bit(
        y2,
        k,
    ) && bit(z1, k) == bit(z2, k) by {
        if k < 10 {
            let i0 = (3 * k) as u32;
            let i1 = (3 * k + 1) as u32;
            let i2 = (3 * k + 2) as u32;
            assert(bit(r, i0) <==> interleaved_bit(x1, y1, z1, i0));
            assert(bit(r, i0) <==> interleaved_bit(x2, y2, z2, i0));
            assert(bit(r, i1) <==> interleaved_bit(x1, y1, z1, i1));
            assert(bit(r, i1) <==> interleaved_bit(x2, y2, z2, i1));
            assert(bit(r, i2) <==> interleaved_bit(x1, y1, z1, i2));
            assert(bit(r, i2) <==> interleaved_bit(x2, y2, z2, i2));
        } else {
            lemma_high_clear(x1, k);
            lemma_high_clear(x2, k);
            lemma_high_clear(y1, k);
            lemma_high_clear(y2, k);
            lemma_high_clear(z1, k);
            lemma_high_clear(z2, k);
        }
    }
    assert forall|k: u32| k < 32 implies #[trigger] bit(x1, k) == bit(x2, k) by {}
    lemma_bits_determine(x1, x2);
    assert forall|k: u32| k < 32 implies #[trigger] bit(y1, k) == bit(y2, k) by {
        assert(bit(x1, k) == bit(x2, k) && bit(y1, k) == bit(y2, k));
    }
    lemma_bits_determine(y1, y2);
    assert forall|k: u32| k < 32 implies #[trigger] bit(z1, k) == bit(z2, k) by {
        assert(bit(x1, k) == bit(x2, k) && bit(z1, k) == bit(z2, k));
    }
    lemma_bits_determine(z1, z2);
}

/// Gathers bits `0, 3, 6, ..., 27` of `v` into bits `0 .. 10`: the inverse
/// of spreading.
pub open spec fn compact_bits(v: u32) -> u32 {
    let v0 = v & 0x09249249u32;
    let v1 = (v0 | (v0 >> 2u32)) & 0x030C30C3u32;
    let v2 = (v1 | (v1 >> 4u32)) & 0x0300F00Fu32;
    let v3 = (v2 | (v2 >> 8u32)) & 0x030000FFu32;
    (v3 | (v3 >> 16u32)) & 0x3FFu32
}

/// Bit `k` of the gathered value is bit `3k` of `v`, for `k < 10`.
proof fn lemma_compact(v: u32, x: u32)
    by (bit_vector)
    requires
        x == compact_bits(v),
    ensures
        x < 1024,
        forall|k: u32| #![trigger (x >> k)] k < 10 ==> (((x >> k) & 1u32 == 1u32) <==> ((v >> (3
            * k)) & 1u32 == 1u32)),
{
}

proof fn lemma_shift_bit(r: u32, s: u32, j: u32)
    by (bit_vector)
    requires
        s <= 2,
        j + s < 32,
    ensures
        ((r >> s) >> j) & 1u32 == (r >> (j + s)) & 1u32,
{
}

/// Every value below 2^30 is the Morton key of some 10-bit coordinates:
/// with injectivity, the keys are a one-to-one map of [0, 1024)^3 onto
/// [0, 2^30).
pub proof fn lemma_morton_onto(r: u32)
    requires
        r < 0x4000_0000,
    ensures
        exists|x: u32, y: u32, z: u32| x < 1024 && y < 1024 && z < 1024 && interleaves(x, y, z, r),
{
    let x = compact_bits(r);
    let y = compact_bits(r >> 1u32);
    let z = compact_bits(r >> 2u32);
    lemma_compact(r, x);
    lemma_compact(r >> 1u32, y);
    lemma_compact(r >> 2u32, z);
    assert forall|i: u32| i < 32 implies (#[trigger] bit(r, i) <==> interleaved_bit(x, y, z, i)) by {
        if i >= 30 {
            lemma_top_bits_clear(r, i);
        } else {
            let k = i / 3;
            if i % 3 == 0 {
                assert(3 * k == i);
                assert(((x >> k) & 1u32 == 1u32) <==> ((r >> (3 * k)) & 1u32 == 1u32));
            } else if i % 3 == 1 {
                assert(((y >> k) & 1u32 == 1u32) <==> (((r >> 1u32) >> (3 * k)) & 1u32 == 1u32));
                lemma_shift_bit(r, 1, (3 * k) as u32);
                assert(3 * k + 1 == i);
            } else {
                assert(((z >> k) & 1u32 == 1u32) <==> (((r >> 2u32) >> (3 * k)) & 1u32 == 1u32));
                lemma_shift_bit(r, 2, (3 * k) as u32);
                assert(3 * k + 2 == i);
            }
        }
    }
    assert(interleaves(x, y, z, r));
}

proof fn lemma_top_bits_clear(r: u32, i: u32)
    by (bit_vector)
    requires
        r < 0x4000_0000,
        30 <= i < 32,
    ensures
        (r >> i) & 1u32 != 1u32,
{
}

} // verus!
