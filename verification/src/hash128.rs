//! Hashing for rows of 128 slots: coefficient and result rows, and the seeds that construction
//! tries in turn.

use crate::bits;
use crate::hash;
use crate::hash::COEFF_AND_RESULT_FACTOR;
use vstd::arithmetic::div_mod;
use vstd::arithmetic::mul;
use vstd::prelude::*;

pub use crate::hash::{ribbon_hash, start};

verus! {

/// Tells the low half of a coefficient row from its high half.
pub const COEFF_XOR: u64 = 0xc367_844a_6e52_731d;

/// High half of each byte of a seed: it is folded into the low half.
pub const SEED_MIX_MASK: u64 = 0xf0f0_f0f0_f0f0_f0f0;

/// Spreads ordinal seeds.
pub const TO_RAW_SEED_FACTOR: u64 = 0xc782_19a2_3eea_dd03;

/// The coefficient row of 128 slots: `a` in the high half, a variant of it in the low half, and
/// the first coefficient set.
pub open spec fn coeff_128_of(h: u64) -> u128 {
    let a: u64 = h.wrapping_mul(COEFF_AND_RESULT_FACTOR);
    (((a as u128) << 64u128) ^ ((a ^ COEFF_XOR) as u128)) | 1
}

/// The result row: the four high bytes of the spread hash, highest first.
pub open spec fn result_of(h: u64) -> u32 {
    let a: u64 = h.wrapping_mul(COEFF_AND_RESULT_FACTOR);
    ((a >> 56u64) & 0xff | ((a >> 48u64) & 0xff) << 8u64 | ((a >> 40u64) & 0xff) << 16u64 | ((a
        >> 32u64) & 0xff) << 24u64) as u32
}

/// The raw seed of an ordinal seed.
pub open spec fn raw_seed_of(ordinal: u32) -> u32 {
    let t: u64 = (ordinal as u64).wrapping_mul(TO_RAW_SEED_FACTOR);
    (t ^ ((t & SEED_MIX_MASK) >> 4u64)) as u32
}

/// The coefficient row of a key with hash `h`.
pub fn coeff_row_128(h: u64) -> (c: u128)
    ensures
        c == coeff_128_of(h),
        c & 1 == 1,
{
    proof {
        lemma_coeff_128_halves(h);
    }
    let a: u64 = h.wrapping_mul(COEFF_AND_RESULT_FACTOR);
    let c: u128 = ((a as u128) << 64u128) ^ ((a ^ COEFF_XOR) as u128);
    c | 1
}

/// The result row of a key with hash `h`.
pub fn result_row(h: u64) -> (r: u32)
    ensures
        r == result_of(h),
{
    let a: u64 = h.wrapping_mul(COEFF_AND_RESULT_FACTOR);
    let b0: u64 = (a >> 56u64) & 0xff;
    let b1: u64 = (a >> 48u64) & 0xff;
    let b2: u64 = (a >> 40u64) & 0xff;
    let b3: u64 = (a >> 32u64) & 0xff;
    (b0 | b1 << 8u64 | b2 << 16u64 | b3 << 24u64) as u32
}

/// The raw seed, used in hashing keys, of the seed number `ordinal`.
pub fn ordinal_to_raw_seed(ordinal: u32) -> (raw: u32)
    ensures
        raw == raw_seed_of(ordinal),
        ordinal == 0 ==> raw == 0,
{
    proof {
        lemma_raw_seed_zero();
    }
    let tmp: u64 = (ordinal as u64).wrapping_mul(TO_RAW_SEED_FACTOR);
    (tmp ^ ((tmp & SEED_MIX_MASK) >> 4u64)) as u32
}

/// The two halves of a coefficient row, and its first coefficient.
pub proof fn lemma_coeff_128_halves(h: u64)
    ensures
        ({
            let a: u64 = h.wrapping_mul(COEFF_AND_RESULT_FACTOR);
            &&& coeff_128_of(h) >> 64u128 == a as u128
            &&& coeff_128_of(h) as u64 == (a ^ COEFF_XOR) | 1
        }),
        coeff_128_of(h) & 1 == 1,
        bits::bit(coeff_128_of(h), 0),
{
    let a: u64 = h.wrapping_mul(COEFF_AND_RESULT_FACTOR);
    let b: u64 = a ^ COEFF_XOR;
    let c: u128 = (((a as u128) << 64u128) ^ (b as u128)) | 1;
    assert(c >> 64u128 == a as u128 && c as u64 == b | 1 && c & 1 == 1 && (c >> 0u128) & 1 == 1)
        by (bit_vector)
        requires
            c == (((a as u128) << 64u128) ^ (b as u128)) | 1,
    ;
}

/// Byte `k` of a result row is byte `7 - k` of the spread hash.
pub proof fn lemma_result_bytes(h: u64, k: u32)
    requires
        k < 4,
    ensures
        (result_of(h) >> ((8 * k) as u32)) & 0xff == ((h.wrapping_mul(COEFF_AND_RESULT_FACTOR) >> ((
        56 - 8 * k) as u64)) & 0xff) as u32,
{
    let a: u64 = h.wrapping_mul(COEFF_AND_RESULT_FACTOR);
    let r: u32 = result_of(h);
    let s: u32 = (8 * k) as u32;
    let t: u64 = (56 - 8 * k) as u64;
    assert((r >> s) & 0xff == ((a >> t) & 0xff) as u32) by (bit_vector)
        requires
            r == ((a >> 56u64) & 0xff | ((a >> 48u64) & 0xff) << 8u64 | ((a >> 40u64) & 0xff)
                << 16u64 | ((a >> 32u64) & 0xff) << 24u64) as u32,
            k < 4,
            s == 8 * k,
            t == 56 - 8 * k,
    ;
}

/// Seed number zero is the raw seed zero.
pub proof fn lemma_raw_seed_zero()
    ensures
        raw_seed_of(0) == 0,
{
    assert(0u64.wrapping_mul(TO_RAW_SEED_FACTOR) == 0);
    assert((0u64 ^ ((0u64 & SEED_MIX_MASK) >> 4u64)) as u32 == 0) by (bit_vector);
}

/// Different seed numbers have different raw seeds.
pub proof fn lemma_raw_seed_injective(i: u32, j: u32)
    requires
        raw_seed_of(i) == raw_seed_of(j),
    ensures
        i == j,
{
    let m: int = 0x1_0000_0000;
    let big: int = 0x1_0000_0000_0000_0000;
    let f: int = TO_RAW_SEED_FACTOR as int;
    let a: u64 = (i as u64).wrapping_mul(TO_RAW_SEED_FACTOR);
    let b: u64 = (j as u64).wrapping_mul(TO_RAW_SEED_FACTOR);
    assert(a % 0x1_0000_0000 == b % 0x1_0000_0000) by (bit_vector)
        requires
            (a ^ ((a & SEED_MIX_MASK) >> 4u64)) as u32 == (b ^ ((b & SEED_MIX_MASK) >> 4u64))
                as u32,
    ;
    assert(big == m * m);
    lemma_low_half(i * f, m);
    lemma_low_half(j * f, m);
    // The factor is odd, so it has an inverse modulo `m`.
    let inverse: int = 0x14b4_75ab;
    assert((f * inverse) % m == 1);
    hash::lemma_undo(i as int, f, inverse, m);
    hash::lemma_undo(j as int, f, inverse, m);
}

proof fn lemma_low_half(x: int, m: int)
    requires
        0 < m,
    ensures
        (x % (m * m)) % m == x % m,
{
    mul::lemma_mul_strictly_positive(m, m);
    div_mod::lemma_mod_mod(x, m, m);
}

/// The halves of a coefficient row, in numbers: the high half is the product of the hash and a fixed
/// factor; the low half is the same but for the bits of a fixed mask and the first coefficient,
/// which is set.
pub proof fn lemma_coeff_128_product(h: u64)
    ensures
        ({
            let product: int = (h * 0xc28f_8282_2b65_0bed) % 0x1_0000_0000_0000_0000;
            let low: u64 = (coeff_128_of(h) % 0x1_0000_0000_0000_0000) as u64;
            &&& coeff_128_of(h) as int / 0x1_0000_0000_0000_0000 == product
            &&& low % 2 == 1
            &&& (low ^ 0xc367_844a_6e52_731d) / 2 == (product as u64) / 2
        }),
{
    let a: u64 = h.wrapping_mul(COEFF_AND_RESULT_FACTOR);
    let b: u64 = a ^ COEFF_XOR;
    let c: u128 = (((a as u128) << 64u128) ^ (b as u128)) | 1;
    let low: u64 = c as u64;
    let mixed: u64 = low ^ 0xc367_844a_6e52_731d;
    let high: u128 = c >> 64u128;
    assert(c == high * 0x1_0000_0000_0000_0000 + low as u128 && high == a as u128) by (bit_vector)
        requires
            b == a ^ 0xc367_844a_6e52_731du64,
            c == (((a as u128) << 64u128) ^ (b as u128)) | 1u128,
            low == c as u64,
            high == c >> 64u128,
    ;
    assert(low % 2 == 1 && mixed / 2 == a / 2) by (bit_vector)
        requires
            b == a ^ 0xc367_844a_6e52_731du64,
            c == (((a as u128) << 64u128) ^ (b as u128)) | 1u128,
            low == c as u64,
            mixed == low ^ 0xc367_844a_6e52_731du64,
    ;
}

/// The raw seed can be undone: folding it once more gives the low half of a product, and the factor
/// has an inverse.
pub proof fn lemma_raw_seed_undone(ordinal: u32)
    ensures
        ({
            let raw: u32 = raw_seed_of(ordinal);
            let t: u32 = raw ^ ((raw & 0xf0f0_f0f0) >> 4u32);
            (t * 0x14b4_75ab) % 0x1_0000_0000 == ordinal
        }),
{
    let m: int = 0x1_0000_0000;
    let f: int = TO_RAW_SEED_FACTOR as int;
    let a: u64 = (ordinal as u64).wrapping_mul(TO_RAW_SEED_FACTOR);
    let raw: u32 = raw_seed_of(ordinal);
    let t: u32 = raw ^ ((raw & 0xf0f0_f0f0) >> 4u32);
    let low: u32 = a as u32;
    assert(t == low) by (bit_vector)
        requires
            raw == (a ^ ((a & 0xf0f0_f0f0_f0f0_f0f0u64) >> 4u64)) as u32,
            t == raw ^ ((raw & 0xf0f0_f0f0u32) >> 4u32),
            low == a as u32,
    ;
    assert(low == a % 0x1_0000_0000) by (bit_vector)
        requires
            low == a as u32,
    ;
    assert(0x1_0000_0000_0000_0000int == m * m);
    lemma_low_half(ordinal * f, m);
    assert((f * 0x14b4_75abint) % m == 1);
    hash::lemma_undo(ordinal as int, f, 0x14b4_75ab, m);
}

} // verus!
