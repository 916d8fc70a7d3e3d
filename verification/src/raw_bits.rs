//! Facts about shifts and masks on `u128` used by the path encoding.
use vstd::prelude::*;
use vstd::arithmetic::power2::{pow2, lemma_pow2_unfold, lemma_pow2_pos};
use vstd::arithmetic::div_mod::lemma_mod_breakdown;
use vstd::bits::lemma_u128_shr_is_div;
use crate::path_model::{pow8, lemma_pow8_is_pow2, lemma_pow8_pos, axis_bit, axis_weight};

verus! {

proof fn bv_unit_step(sh: u128)
    by (bit_vector)
    requires 3 <= sh < 128,
    ensures 1u128 << sh == (1u128 << ((sh - 3u128) as u128)) * 8,
{}

proof fn bv_shl_unit(v: u128, sh: u128)
    by (bit_vector)
    requires v < 8, sh <= 125,
    ensures v << sh == v * (1u128 << sh),
{}

proof fn bv_mask_step(x: u128, sh: u128)
    by (bit_vector)
    requires 1 <= sh < 128,
    ensures
        x & !(0xffff_ffff_ffff_ffff_ffff_ffff_ffff_ffffu128 << sh)
            == ((x >> 1u128) & !(0xffff_ffff_ffff_ffff_ffff_ffff_ffff_ffffu128 << ((sh - 1u128) as u128))) * 2
                + (x & 1),
{}

proof fn bv_mask_zero(x: u128)
    by (bit_vector)
    ensures x & !(0xffff_ffff_ffff_ffff_ffff_ffff_ffff_ffffu128 << 0u128) == 0,
{}

proof fn bv_low_bit(x: u128)
    by (bit_vector)
    ensures x & 1 == x % 2, x >> 1u128 == x / 2,
{}

proof fn bv_or_disjoint(x: u128, v: u128, sh: u128)
    by (bit_vector)
    requires v < 8, sh <= 125, x < (1u128 << sh),
    ensures x | (v << sh) == x + (v << sh),
{}

proof fn bv_low3(x: u128)
    by (bit_vector)
    ensures x & 7 == x % 8, x >> 3u128 == x / 8,
{}

/// `1 << 3k` is eight to the `k`.
pub proof fn lemma_unit(k: nat)
    requires k <= 42,
    ensures (1u128 << ((3 * k) as u128)) == pow8(k),
    decreases k,
{
    if k == 0 {
        assert(1u128 << 0u128 == 1) by (bit_vector);
    } else {
        lemma_unit((k - 1) as nat);
        bv_unit_step((3 * k) as u128);
        assert(((3 * k) as u128 - 3u128) as u128 == (3 * (k - 1)) as u128);
    }
}

/// Shifting an octant left by `3k` multiplies it by eight to the `k`.
pub proof fn lemma_shl_octant(v: u128, k: nat)
    requires v < 8, k <= 41,
    ensures (v << ((3 * k) as u128)) == v * pow8(k),
{
    lemma_unit(k);
    bv_shl_unit(v, (3 * k) as u128);
}

/// Shifting right by `3k` divides by eight to the `k`.
pub proof fn lemma_shr_octants(x: u128, k: nat)
    requires k <= 42,
    ensures (x >> ((3 * k) as u128)) == x as nat / pow8(k),
{
    lemma_u128_shr_is_div(x, (3 * k) as u128);
    lemma_pow8_is_pow2(k);
}

proof fn lemma_mask_pow2(x: u128, sh: u128)
    requires sh < 128,
    ensures x & !(0xffff_ffff_ffff_ffff_ffff_ffff_ffff_ffffu128 << sh) == x as nat % pow2(sh as nat),
    decreases sh,
{
    if sh == 0 {
        bv_mask_zero(x);
        assert(pow2(0) == 1) by { vstd::arithmetic::power2::lemma2_to64(); }
    } else {
        bv_mask_step(x, sh);
        lemma_mask_pow2(x >> 1u128, (sh - 1) as u128);
        bv_low_bit(x);
        lemma_pow2_pos((sh - 1) as nat);
        lemma_pow2_unfold(sh as nat);
        lemma_mod_breakdown(x as int, 2, pow2((sh - 1) as nat) as int);
    }
}

/// Masking off everything from bit `3k` up keeps the value modulo eight to the `k`.
pub proof fn lemma_mask_octants(x: u128, k: nat)
    requires k <= 42,
    ensures x & !(0xffff_ffff_ffff_ffff_ffff_ffff_ffff_ffffu128 << ((3 * k) as u128)) == x as nat % pow8(k),
{
    lemma_mask_pow2(x, (3 * k) as u128);
    lemma_pow8_is_pow2(k);
}

/// Or-ing an octant above a smaller value adds it.
pub proof fn lemma_or_octant(x: u128, v: u128, k: nat)
    requires v < 8, k <= 41, x < pow8(k),
    ensures (x | (v << ((3 * k) as u128))) == x + v * pow8(k),
{
    lemma_unit(k);
    lemma_shl_octant(v, k);
    bv_or_disjoint(x, v, (3 * k) as u128);
}

/// The lowest octant and the rest.
pub proof fn lemma_low_octant(x: u128)
    ensures x & 7 == x % 8, x >> 3u128 == x / 8,
{
    bv_low3(x);
}

proof fn bv_or_marker(x: u128, sh: u128)
    by (bit_vector)
    requires sh <= 126, x < (1u128 << sh),
    ensures x | (1u128 << sh) == x + (1u128 << sh),
{}

proof fn bv_shl_compose(x: u128, sh: u128)
    by (bit_vector)
    requires 3 <= sh < 128,
    ensures x << sh == (x << ((sh - 3u128) as u128)) << 3u128,
{}

proof fn bv_shl3(x: u128)
    by (bit_vector)
    requires x < 0x2000_0000_0000_0000_0000_0000_0000_0000u128,
    ensures x << 3u128 == x * 8,
{}

proof fn bv_append(x: u128, v: u128)
    by (bit_vector)
    requires x < 0x2000_0000_0000_0000_0000_0000_0000_0000u128, v < 8,
    ensures (x << 3u128) | v == x * 8 + v,
{}

/// Eight to the 41st, the weight of the deepest marker that still leaves room for one octant.
pub proof fn lemma_pow8_41()
    ensures pow8(41) == 0x0800_0000_0000_0000_0000_0000_0000_0000u128,
{
    lemma_unit(41);
    assert(1u128 << 123u128 == 0x0800_0000_0000_0000_0000_0000_0000_0000u128) by (bit_vector);
}

/// Or-ing a marker bit above a smaller value adds it.
pub proof fn lemma_or_marker(x: u128, k: nat)
    requires k <= 42, x < pow8(k),
    ensures (x | (1u128 << ((3 * k) as u128))) == x + pow8(k),
{
    lemma_unit(k);
    bv_or_marker(x, (3 * k) as u128);
}

/// Appending the octant `v` below `x`.
pub proof fn lemma_append_octant(x: u128, v: u128)
    requires x < 2 * pow8(41), v < 8,
    ensures ((x << 3u128) | v) == x * 8 + v,
{
    lemma_pow8_41();
    bv_append(x, v);
}

/// Shifting left by `3m` multiplies by eight to the `m` when nothing overflows.
pub proof fn lemma_shl_octants(x: u128, m: nat)
    requires m <= 41, x * pow8(m) < 2 * pow8(41),
    ensures (x << ((3 * m) as u128)) == x * pow8(m),
    decreases m,
{
    lemma_pow8_41();
    if m == 0 {
        assert(x << 0u128 == x) by (bit_vector);
        assert(pow8(0) == 1);
        assert(x * 1 == x);
    } else {
        let m1 = (m - 1) as nat;
        lemma_pow8_pos(m1);
        assert(pow8(m) == 8 * pow8(m1));
        assert(x * pow8(m1) <= x * pow8(m)) by (nonlinear_arith) requires pow8(m1) <= pow8(m);
        lemma_shl_octants(x, m1);
        bv_shl_compose(x, (3 * m) as u128);
        assert(((3 * m) as u128 - 3u128) as u128 == (3 * m1) as u128);
        let y = x << ((3 * m1) as u128);
        assert(y == x * pow8(m1));
        assert(y * 8 == x * pow8(m)) by (nonlinear_arith) requires y == x * pow8(m1), pow8(m) == 8 * pow8(m1);
        bv_shl3(y);
    }
}

proof fn bv_or_low(y: u128, z: u128, sh: u128)
    by (bit_vector)
    requires sh < 128, z < (1u128 << sh),
    ensures (y << sh) | z == (y << sh) + z,
{}

/// Or-ing a value below eight to the `m` into a value shifted left by `3m` adds it.
pub proof fn lemma_or_low(y: u128, z: u128, m: nat)
    requires m <= 42, z < pow8(m),
    ensures ((y << ((3 * m) as u128)) | z) == (y << ((3 * m) as u128)) + z,
{
    lemma_unit(m);
    bv_or_low(y, z, (3 * m) as u128);
}

proof fn bv_test_bits(y: u128)
    by (bit_vector)
    ensures
        ((y & 1u128) == 0) == ((y % 8) % 2 == 0),
        ((y & 2u128) == 0) == (((y % 8) / 2) % 2 == 0),
        ((y & 4u128) == 0) == (((y % 8) / 4) % 2 == 0),
{}

proof fn bv_set_bit(x: u128, b: u128, sh: u128)
    by (bit_vector)
    requires sh <= 125, b == 1 || b == 2 || b == 4, (x >> sh) & b == 0,
    ensures x | (b << sh) == x + (b << sh),
{}

proof fn bv_clear_bit(x: u128, b: u128, sh: u128)
    by (bit_vector)
    requires sh <= 125, b == 1 || b == 2 || b == 4, (x >> sh) & b != 0,
    ensures x & !(b << sh) == x - (b << sh), (b << sh) <= x,
{}

proof fn bv_axis_unit(i: u32)
    by (bit_vector)
    requires i < 3,
    ensures
        i == 0 ==> (1u128 << i) == 1,
        i == 1 ==> (1u128 << i) == 2,
        i == 2 ==> (1u128 << i) == 4,
{}

/// `1 << i` is the weight of axis `i` inside an octant.
pub proof fn lemma_axis_unit(i: u32)
    requires i < 3,
    ensures (1u128 << i) == axis_weight(i as nat),
{
    bv_axis_unit(i);
}

/// Testing the bit of axis `i` of the lowest octant of `y`.
pub proof fn lemma_test_axis(y: u128, i: nat)
    requires i < 3,
    ensures ((y & (axis_weight(i) as u128)) == 0) == (axis_bit((y % 8) as u8, i) == 0),
{
    bv_test_bits(y);
}

/// Setting a clear bit of the octant at position `k` from the deep end adds its weight.
pub proof fn lemma_set_axis(x: u128, b: u128, k: nat)
    requires k <= 41, b == 1 || b == 2 || b == 4, (x >> ((3 * k) as u128)) & b == 0,
    ensures x | (b << ((3 * k) as u128)) == x + b * pow8(k),
{
    bv_set_bit(x, b, (3 * k) as u128);
    lemma_shl_octant(b, k);
}

/// Clearing a set bit of the octant at position `k` from the deep end subtracts its weight.
pub proof fn lemma_clear_axis(x: u128, b: u128, k: nat)
    requires k <= 41, b == 1 || b == 2 || b == 4, (x >> ((3 * k) as u128)) & b != 0,
    ensures x & !(b << ((3 * k) as u128)) == x - b * pow8(k), b * pow8(k) <= x,
{
    bv_clear_bit(x, b, (3 * k) as u128);
    lemma_shl_octant(b, k);
}

} // verus!
