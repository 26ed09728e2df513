//! Hashing of keys: the key hash, the start slot and the 64-bit coefficient row.

use crate::bits;
use vstd::arithmetic::div_mod;
use vstd::arithmetic::mul;
use vstd::prelude::*;

verus! {

/// Factor that spreads a key hash into coefficients and results.
pub const COEFF_AND_RESULT_FACTOR: u64 = 0xc28f_8282_2b65_0bed;

/// One round of the finalizer: fold the high bits into the low ones, then multiply.
pub open spec fn hash_round(h: u64, factor: u64) -> u64 {
    (h ^ (h >> 33u64)).wrapping_mul(factor)
}

/// The key hash: a murmur-style finalizer of `key + raw_seed`.
pub open spec fn hash_of(key: u64, raw_seed: u64) -> u64 {
    let h: u64 = hash_round(
        hash_round(key.wrapping_add(raw_seed), 0xff51_afd7_ed55_8ccd),
        0xc4ce_b9fe_1a85_ec53,
    );
    h ^ (h >> 33u64)
}

/// The start slot: `h`, as a fraction of its range, of `num_starts`.
pub open spec fn start_of(h: u64, num_starts: u64) -> int {
    (h * num_starts) / 0x1_0000_0000_0000_0000
}

/// The coefficient row of 64 slots; its first coefficient is always set.
pub open spec fn coeff_of(h: u64) -> u64 {
    h.wrapping_mul(COEFF_AND_RESULT_FACTOR) | 1
}

/// Hashes a key under a seed.
pub fn ribbon_hash(key: u64, raw_seed: u64) -> (h: u64)
    ensures
        h == hash_of(key, raw_seed),
{
    let mut h: u64 = key.wrapping_add(raw_seed);
    h = h ^ (h >> 33u64);
    h = h.wrapping_mul(0xff51_afd7_ed55_8ccd);
    h = h ^ (h >> 33u64);
    h = h.wrapping_mul(0xc4ce_b9fe_1a85_ec53);
    h ^ (h >> 33u64)
}

/// The slot at which a key with hash `h` starts, out of `num_starts`.
pub fn start(h: u64, num_starts: u64) -> (s: u64)
    ensures
        s == start_of(h, num_starts),
        s * 0x1_0000_0000_0000_0000 <= h * num_starts < (s + 1) * 0x1_0000_0000_0000_0000,
        num_starts > 0 ==> s < num_starts,
{
    proof {
        lemma_start_range(h, num_starts);
        lemma_start_share(h, num_starts);
    }
    let product: u128 = (h as u128) * (num_starts as u128);
    assert(product >> 64u128 == product / 0x1_0000_0000_0000_0000u128) by (bit_vector);
    (product >> 64u128) as u64
}

/// The coefficient row of a key with hash `h`.
pub fn coeff_row(h: u64) -> (c: u64)
    ensures
        c == coeff_of(h),
        c & 1 == 1,
{
    proof {
        lemma_coeff_first(h);
    }
    h.wrapping_mul(COEFF_AND_RESULT_FACTOR) | 1
}

/// A start slot lies in the range of start slots.
pub proof fn lemma_start_range(h: u64, num_starts: u64)
    ensures
        0 <= h * num_starts <= u128::MAX,
        0 <= start_of(h, num_starts) <= u64::MAX,
        num_starts > 0 ==> start_of(h, num_starts) < num_starts,
        num_starts == 0 ==> start_of(h, num_starts) == 0,
{
    let m: int = 0x1_0000_0000_0000_0000;
    let p: int = h * num_starts;
    assert(0 <= p <= h * 0xffff_ffff_ffff_ffff) by (nonlinear_arith)
        requires
            p == h * num_starts,
            num_starts <= 0xffff_ffff_ffff_ffff,
    ;
    if num_starts > 0 {
        assert(p < m * num_starts) by (nonlinear_arith)
            requires
                p == h * num_starts,
                h < m,
                0 < num_starts,
        ;
    } else {
        assert(p == 0) by (nonlinear_arith)
            requires
                p == h * num_starts,
                num_starts == 0,
        ;
    }
}

/// The first coefficient of a row is always set.
pub proof fn lemma_coeff_first(h: u64)
    ensures
        coeff_of(h) & 1 == 1,
        bits::bit(coeff_of(h) as u128, 0),
{
    let a: u64 = h.wrapping_mul(COEFF_AND_RESULT_FACTOR);
    assert((a | 1u64) & 1u64 == 1u64) by (bit_vector);
    bits::lemma_widen(a | 1, 0, 0);
    bits::lemma_shr_parts((a | 1) as u128, 0);
}

/// Multiplication by a factor that has an inverse can be undone.
pub proof fn lemma_undo(x: int, f: int, inverse: int, m: int)
    requires
        0 <= x < m,
        (f * inverse) % m == 1,
    ensures
        (((x * f) % m) * inverse) % m == x,
{
    div_mod::lemma_mul_mod_noop_left(x * f, inverse, m);
    mul::lemma_mul_is_associative(x, f, inverse);
    div_mod::lemma_mul_mod_noop_right(x, f * inverse, m);
    div_mod::lemma_small_mod(x as nat, m as nat);
}

/// The hash can be undone, step by step, down to the sum of the key and the seed: each fold is its
/// own inverse, and each factor has one.
pub proof fn lemma_hash_undone(key: u64, raw_seed: u64)
    ensures
        ({
            let h: u64 = hash_of(key, raw_seed);
            let a: u64 = h ^ (h >> 33u64);
            let b: u64 = ((a * 0x9cb4_b2f8_1293_37db) % 0x1_0000_0000_0000_0000) as u64;
            let c: u64 = b ^ (b >> 33u64);
            let d: u64 = ((c * 0x4f74_430c_22a5_4005) % 0x1_0000_0000_0000_0000) as u64;
            (d ^ (d >> 33u64)) == (key + raw_seed) % 0x1_0000_0000_0000_0000
        }),
{
    let m: int = 0x1_0000_0000_0000_0000;
    let x: u64 = key.wrapping_add(raw_seed);
    let x1: u64 = x ^ (x >> 33u64);
    let y: u64 = x1.wrapping_mul(0xff51_afd7_ed55_8ccd);
    let y1: u64 = y ^ (y >> 33u64);
    let z: u64 = y1.wrapping_mul(0xc4ce_b9fe_1a85_ec53);
    let h: u64 = z ^ (z >> 33u64);
    assert(h == hash_of(key, raw_seed));
    lemma_fold_undone(x);
    lemma_fold_undone(y);
    lemma_fold_undone(z);
    assert((0xc4ce_b9fe_1a85_ec53int * 0x9cb4_b2f8_1293_37dbint) % m == 1);
    assert((0xff51_afd7_ed55_8ccdint * 0x4f74_430c_22a5_4005int) % m == 1);
    lemma_undo(y1 as int, 0xc4ce_b9fe_1a85_ec53, 0x9cb4_b2f8_1293_37db, m);
    lemma_undo(x1 as int, 0xff51_afd7_ed55_8ccd, 0x4f74_430c_22a5_4005, m);
}

proof fn lemma_fold_undone(x: u64)
    ensures
        ({
            let y: u64 = x ^ (x >> 33u64);
            y ^ (y >> 33u64) == x
        }),
{
    let y: u64 = x ^ (x >> 33u64);
    assert(y ^ (y >> 33u64) == x) by (bit_vector)
        requires
            y == x ^ (x >> 33u64),
    ;
}

/// Under one seed different keys have different hashes; a key under a seed has the hash of another
/// key under another seed exactly if their sums agree.
pub proof fn lemma_hash_injective(a: u64, s: u64, b: u64, t: u64)
    ensures
        hash_of(a, s) == hash_of(b, t) <==> (a + s) % 0x1_0000_0000_0000_0000 == (b + t)
            % 0x1_0000_0000_0000_0000,
        hash_of(a, s) == hash_of(b, s) <==> a == b,
{
    if hash_of(a, s) == hash_of(b, t) {
        lemma_same_hash(a, s, b, t);
    }
    if (a + s) % 0x1_0000_0000_0000_0000 == (b + t) % 0x1_0000_0000_0000_0000 {
        assert(a.wrapping_add(s) == b.wrapping_add(t));
    }
    if hash_of(a, s) == hash_of(b, s) {
        lemma_same_hash(a, s, b, s);
    }
}

proof fn lemma_same_hash(a: u64, s: u64, b: u64, t: u64)
    requires
        hash_of(a, s) == hash_of(b, t),
    ensures
        (a + s) % 0x1_0000_0000_0000_0000 == (b + t) % 0x1_0000_0000_0000_0000,
{
    assert(undone(hash_of(a, s)) == (a + s) % 0x1_0000_0000_0000_0000) by {
        reveal(undone);
        lemma_hash_undone(a, s);
    }
    assert(undone(hash_of(b, t)) == (b + t) % 0x1_0000_0000_0000_0000) by {
        reveal(undone);
        lemma_hash_undone(b, t);
    }
}

#[verifier::opaque]
spec fn undone(h: u64) -> u64 {
    let a: u64 = h ^ (h >> 33u64);
    let b: u64 = ((a * 0x9cb4_b2f8_1293_37db) % 0x1_0000_0000_0000_0000) as u64;
    let c: u64 = b ^ (b >> 33u64);
    let d: u64 = ((c * 0x4f74_430c_22a5_4005) % 0x1_0000_0000_0000_0000) as u64;
    d ^ (d >> 33u64)
}

/// A start slot is the share of the table that the hash is of its range.
pub proof fn lemma_start_share(h: u64, num_starts: u64)
    ensures
        start_of(h, num_starts) * 0x1_0000_0000_0000_0000 <= h * num_starts,
        h * num_starts < (start_of(h, num_starts) + 1) * 0x1_0000_0000_0000_0000,
{
    div_mod::lemma_fundamental_div_mod(h * num_starts, 0x1_0000_0000_0000_0000);
    div_mod::lemma_mod_bound(h * num_starts, 0x1_0000_0000_0000_0000);
}

/// Larger hashes start no earlier, and the largest hash at the last start.
pub proof fn lemma_start_monotone(g: u64, h: u64, num_starts: u64)
    requires
        g <= h,
    ensures
        start_of(g, num_starts) <= start_of(h, num_starts),
        num_starts > 0 ==> start_of(u64::MAX, num_starts) == num_starts - 1,
        start_of(0, num_starts) == 0,
{
    let m: int = 0x1_0000_0000_0000_0000;
    lemma_start_share(g, num_starts);
    lemma_start_share(h, num_starts);
    lemma_start_share(u64::MAX, num_starts);
    lemma_start_share(0, num_starts);
    lemma_start_range(u64::MAX, num_starts);
    lemma_start_range(0, num_starts);
    assert(g * num_starts <= h * num_starts) by (nonlinear_arith)
        requires
            g <= h,
    ;
    assert(0 * num_starts == 0) by (nonlinear_arith);
    if num_starts > 0 {
        assert(u64::MAX * num_starts == m * num_starts - num_starts) by (nonlinear_arith)
            requires
                u64::MAX == m - 1,
        ;
    }
}

/// Every start slot is reached: this hash starts at `s`.
pub proof fn lemma_start_onto(num_starts: u64, s: u64) -> (h: u64)
    requires
        s < num_starts,
    ensures
        start_of(h, num_starts) == s,
{
    let m: int = 0x1_0000_0000_0000_0000;
    let n: int = num_starts as int;
    let top: int = s * m + n - 1;
    let h: int = top / n;
    div_mod::lemma_fundamental_div_mod(top, n);
    div_mod::lemma_mod_bound(top, n);
    mul::lemma_mul_is_commutative(n, h);
    assert(s * m <= h * n < s * m + n);
    assert(0 <= s * m && s * m + n <= n * m) by (nonlinear_arith)
        requires
            0 <= s < n,
            n < m,
    ;
    assert(0 <= h < m) by (nonlinear_arith)
        requires
            0 <= s * m <= h * n < n * m,
            0 < n,
    ;
    let r: u64 = h as u64;
    lemma_start_share(r, num_starts);
    assert(r * num_starts == h * n);
    r
}

/// Past its first coefficient, which is set, the row is the product of the hash and a fixed factor.
pub proof fn lemma_coeff_product(h: u64)
    ensures
        coeff_of(h) % 2 == 1,
        coeff_of(h) as int / 2 == ((h * 0xc28f_8282_2b65_0bed) % 0x1_0000_0000_0000_0000) / 2,
{
    let a: u64 = h.wrapping_mul(COEFF_AND_RESULT_FACTOR);
    let c: u64 = a | 1;
    assert(c % 2 == 1 && c / 2 == a / 2) by (bit_vector)
        requires
            c == a | 1,
    ;
}

} // verus!
