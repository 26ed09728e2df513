//! Bits of machine words, and parities of bit sums.
//!
//! Rows of a ribbon system are machine words, 64 or 128 bits wide. Everything said about them in
//! contracts is said bit by bit, through [`bit`], on their value as a `u128`.

use vstd::prelude::*;

verus! {

/// Bit `k` of `c`; false outside the word.
pub open spec fn bit(c: u128, k: int) -> bool {
    0 <= k < 128 && (c >> (k as u128)) & 1u128 == 1u128
}

/// The parity of the number of `k` in `0..n` with `f(k)`: a sum over GF(2).
pub open spec fn xsum(f: spec_fn(int) -> bool, n: nat) -> bool
    decreases n,
{
    if n == 0 {
        false
    } else {
        xsum(f, (n - 1) as nat) != f(n - 1)
    }
}

/// The parity of the set bits of `c`.
pub open spec fn parity(c: u128) -> bool {
    xsum(|k: int| bit(c, k), 128)
}

pub proof fn lemma_xsum_ext(f: spec_fn(int) -> bool, g: spec_fn(int) -> bool, n: nat)
    requires
        forall|k: int| 0 <= k < n ==> #[trigger] f(k) == g(k),
    ensures
        xsum(f, n) == xsum(g, n),
    decreases n,
{
    if n > 0 {
        lemma_xsum_ext(f, g, (n - 1) as nat);
        assert(f(n - 1) == g(n - 1));
    }
}

pub proof fn lemma_xsum_false(f: spec_fn(int) -> bool, n: nat)
    requires
        forall|k: int| 0 <= k < n ==> !#[trigger] f(k),
    ensures
        !xsum(f, n),
    decreases n,
{
    if n > 0 {
        lemma_xsum_false(f, (n - 1) as nat);
        assert(!f(n - 1));
    }
}

/// Sums add up term by term.
pub proof fn lemma_xsum_xor(
    f: spec_fn(int) -> bool,
    g: spec_fn(int) -> bool,
    h: spec_fn(int) -> bool,
    n: nat,
)
    requires
        forall|k: int| 0 <= k < n ==> #[trigger] h(k) == (f(k) != g(k)),
    ensures
        xsum(h, n) == (xsum(f, n) != xsum(g, n)),
    decreases n,
{
    if n > 0 {
        lemma_xsum_xor(f, g, h, (n - 1) as nat);
        assert(h(n - 1) == (f(n - 1) != g(n - 1)));
    }
}

/// A sum splits at any point.
pub proof fn lemma_xsum_split(f: spec_fn(int) -> bool, a: nat, b: nat)
    ensures
        xsum(f, a + b) == (xsum(f, a) != xsum(|k: int| f(a + k), b)),
    decreases b,
{
    if b > 0 {
        lemma_xsum_split(f, a, (b - 1) as nat);
        assert((a + b - 1) as nat == a + (b - 1) as nat);
    }
}

/// Terms past `m` that are all false may be dropped.
pub proof fn lemma_xsum_trim(f: spec_fn(int) -> bool, m: nat, n: nat)
    requires
        m <= n,
        forall|k: int| m <= k < n ==> !#[trigger] f(k),
    ensures
        xsum(f, n) == xsum(f, m),
    decreases n - m,
{
    if m < n {
        lemma_xsum_trim(f, m, (n - 1) as nat);
        assert(!f(n - 1));
    }
}

/// Only the lowest bit of one is set.
pub proof fn lemma_bit_one(k: int)
    ensures
        bit(1, k) == (k == 0),
{
    if 0 <= k < 128 {
        let j: u128 = k as u128;
        assert(((1u128 >> j) & 1u128 == 1u128) == (j == 0)) by (bit_vector)
            requires
                j < 128,
        ;
    }
}

/// The bits of a 32-bit word.
pub proof fn lemma_bit_u32(c: u32, k: u32)
    requires
        k < 32,
    ensures
        bit(c as u128, k as int) == ((c >> k) & 1 == 1),
{
    let j: u128 = k as u128;
    assert((((c as u128) >> j) & 1u128 == 1u128) == ((c >> k) & 1u32 == 1u32)) by (bit_vector)
        requires
            k < 32,
            j == k as u128,
    ;
}

pub proof fn lemma_bit_zero(k: int)
    ensures
        !bit(0, k),
{
    if 0 <= k < 128 {
        let j: u128 = k as u128;
        assert((0u128 >> j) & 1u128 != 1u128) by (bit_vector);
    }
}

/// The bits of a combination of words are the combined bits.
pub proof fn lemma_bit_combine(a: u128, b: u128, k: int)
    ensures
        bit(a ^ b, k) == (bit(a, k) != bit(b, k)),
        bit(a & b, k) == (bit(a, k) && bit(b, k)),
        bit(a | b, k) == (bit(a, k) || bit(b, k)),
{
    if 0 <= k < 128 {
        let j: u128 = k as u128;
        let p: bool = (a >> j) & 1u128 == 1u128;
        let q: bool = (b >> j) & 1u128 == 1u128;
        assert({
            &&& (((a ^ b) >> j) & 1u128 == 1u128) == (p != q)
            &&& (((a & b) >> j) & 1u128 == 1u128) == (p && q)
            &&& (((a | b) >> j) & 1u128 == 1u128) == (p || q)
        }) by (bit_vector)
            requires
                p == ((a >> j) & 1u128 == 1u128),
                q == ((b >> j) & 1u128 == 1u128),
        ;
    }
}

/// A right shift may be made in two.
pub proof fn lemma_shr_parts(c: u128, t: u128)
    requires
        t < 128,
    ensures
        c >> 0u128 == c,
        0 < t ==> c >> t == (c >> ((t - 1) as u128)) >> 1u128,
        0 < t ==> c >> t == (c >> 1u128) >> ((t - 1) as u128),
        c == 0 ==> c >> t == 0,
{
    let u: u128 = if t > 0 {
        (t - 1) as u128
    } else {
        0
    };
    assert({
        &&& c >> 0u128 == c
        &&& 0 < t ==> c >> t == (c >> u) >> 1u128
        &&& 0 < t ==> c >> t == (c >> 1u128) >> u
        &&& c == 0 ==> c >> t == 0
    }) by (bit_vector)
        requires
            t < 128,
            0 < t ==> t == u + 1,
    ;
}

pub proof fn lemma_bit_shr_one(c: u128, k: int)
    requires
        0 <= k,
    ensures
        bit(c >> 1u128, k) == bit(c, k + 1),
{
    if k < 128 {
        let j: u128 = k as u128;
        let s: u128 = (k + 1) as u128;
        assert({
            &&& j < 127 ==> (c >> 1u128) >> j == c >> s
            &&& ((c >> 1u128) >> 127u128) & 1u128 != 1u128
        }) by (bit_vector)
            requires
                j < 128,
                s == j + 1,
        ;
    }
}

pub proof fn lemma_bit_shr(c: u128, t: u128, k: int)
    requires
        t < 128,
        0 <= k,
    ensures
        bit(c >> t, k) == bit(c, k + t),
    decreases t,
{
    lemma_shr_parts(c, t);
    if t > 0 {
        let u: u128 = (t - 1) as u128;
        lemma_bit_shr_one(c >> u, k);
        lemma_bit_shr(c, u, k + 1);
    }
}

pub proof fn lemma_bit_shl(c: u128, t: u128, k: int)
    requires
        t < 128,
        0 <= k < 128,
    ensures
        bit(c << t, k) == (k >= t && bit(c, k - t)),
{
    let j: u128 = k as u128;
    let s: u128 = if k >= t {
        (k - t) as u128
    } else {
        0
    };
    assert({
        &&& j >= t ==> ((c << t) >> j) & 1u128 == (c >> s) & 1u128
        &&& j < t ==> ((c << t) >> j) & 1u128 != 1u128
    }) by (bit_vector)
        requires
            t < 128,
            j < 128,
            j >= t ==> j == s + t,
    ;
}

/// A nonzero word has a set bit.
pub proof fn lemma_bit_witness(c: u128) -> (k: int)
    requires
        c != 0,
    ensures
        0 <= k < 128,
        bit(c, k),
    decreases c,
{
    lemma_shr_parts(c, 0);
    if c & 1u128 == 1u128 {
        0
    } else {
        assert(c >> 1u128 < c && c >> 1u128 != 0) by (bit_vector)
            requires
                c != 0,
                c & 1u128 != 1u128,
        ;
        let k: int = lemma_bit_witness(c >> 1u128);
        lemma_bit_shr(c, 1, k);
        k + 1
    }
}

/// Words with the same bits are equal.
pub proof fn lemma_bit_ext(a: u128, b: u128)
    requires
        forall|k: int| 0 <= k < 128 ==> #[trigger] bit(a, k) == bit(b, k),
    ensures
        a == b,
{
    if a != b {
        assert(a ^ b != 0) by (bit_vector)
            requires
                a != b,
        ;
        let k: int = lemma_bit_witness(a ^ b);
        lemma_bit_combine(a, b, k);
        assert(bit(a, k) == bit(b, k));
    }
}

/// The bits of a 64-bit word, seen in 128 bits.
pub proof fn lemma_bit_narrow(c: u64, k: int)
    requires
        64 <= k,
    ensures
        !bit(c as u128, k),
{
    if k < 128 {
        let j: u128 = k as u128;
        assert(((c as u128) >> j) & 1u128 != 1u128) by (bit_vector)
            requires
                64 <= j < 128,
        ;
    }
}

/// Exclusive or and right shift do not depend on the width of the word.
pub proof fn lemma_widen(a: u64, b: u64, t: u64)
    requires
        t < 64,
    ensures
        (a ^ b) as u128 == (a as u128) ^ (b as u128),
        (a & b) as u128 == (a as u128) & (b as u128),
        (a | b) as u128 == (a as u128) | (b as u128),
        (a >> t) as u128 == (a as u128) >> (t as u128),
        (a & 1u64 == 1u64) == ((a as u128) & 1u128 == 1u128),
{
    assert({
        &&& (a ^ b) as u128 == (a as u128) ^ (b as u128)
        &&& (a & b) as u128 == (a as u128) & (b as u128)
        &&& (a | b) as u128 == (a as u128) | (b as u128)
        &&& (a >> t) as u128 == (a as u128) >> (t as u128)
        &&& (a & 1u64 == 1u64) == ((a as u128) & 1u128 == 1u128)
    }) by (bit_vector)
        requires
            t < 64,
    ;
}

/// A left shift in a 64-bit word drops what leaves the word.
pub proof fn lemma_bit_shl_64(c: u64, t: u64, k: int)
    requires
        t < 64,
        0 <= k < 64,
    ensures
        bit((c << t) as u128, k) == (k >= t && bit(c as u128, k - t)),
{
    let w: u128 = (c as u128) << (t as u128);
    let j: u128 = k as u128;
    assert((((c << t) as u128) >> j) & 1u128 == (w >> j) & 1u128) by (bit_vector)
        requires
            t < 64,
            j < 64,
            w == (c as u128) << (t as u128),
    ;
    lemma_bit_shl(c as u128, t as u128, k);
}

/// The two halves of a double word.
proof fn lemma_halves(c: u128)
    ensures
        c & 0xffff_ffff_ffff_ffff <= 0xffff_ffff_ffff_ffff,
        c >> 64u128 <= 0xffff_ffff_ffff_ffff,
        c != 0 && c & 0xffff_ffff_ffff_ffff == 0 ==> c >> 64u128 != 0,
        forall|k: int|
            0 <= k < 64 ==> #[trigger] bit(c, k) == bit(c & 0xffff_ffff_ffff_ffff, k),
{
    assert({
        &&& c & 0xffff_ffff_ffff_ffff <= 0xffff_ffff_ffff_ffff
        &&& c >> 64u128 <= 0xffff_ffff_ffff_ffff
        &&& c != 0 && c & 0xffff_ffff_ffff_ffff == 0 ==> c >> 64u128 != 0
    }) by (bit_vector);
    assert forall|k: int| 0 <= k < 64 implies #[trigger] bit(c, k) == bit(
        c & 0xffff_ffff_ffff_ffff,
        k,
    ) by {
        lemma_bit_combine(c, 0xffff_ffff_ffff_ffff, k);
        let j: u128 = k as u128;
        assert((0xffff_ffff_ffff_ffffu128 >> j) & 1u128 == 1u128) by (bit_vector)
            requires
                j < 64,
        ;
    }
}

/// The parity of the set bits of `c` below bit `n`.
pub open spec fn low_parity(c: u128, n: nat) -> bool {
    xsum(|k: int| bit(c, k), n)
}

/// Folding the upper half of the low bits into the lower half keeps their parity.
proof fn lemma_parity_fold(c: u128, m: u128)
    requires
        m <= 64,
    ensures
        low_parity(c, (m + m) as nat) == low_parity(c ^ (c >> m), m as nat),
{
    let f: spec_fn(int) -> bool = |k: int| bit(c, k);
    let g: spec_fn(int) -> bool = |k: int| f(m as nat + k);
    let h: spec_fn(int) -> bool = |k: int| bit(c ^ (c >> m), k);
    lemma_xsum_split(f, m as nat, m as nat);
    assert forall|k: int| 0 <= k < m implies #[trigger] h(k) == (f(k) != g(k)) by {
        lemma_bit_combine(c, c >> m, k);
        lemma_bit_shr(c, m, k);
    }
    lemma_xsum_xor(f, g, h, m as nat);
}

proof fn lemma_parity_fold_64(c: u64, m: u64)
    requires
        m <= 32,
    ensures
        low_parity(c as u128, (m + m) as nat) == low_parity((c ^ (c >> m)) as u128, m as nat),
{
    lemma_parity_fold(c as u128, m as u128);
    lemma_widen(c, c >> m, m);
    lemma_widen(c, c, m);
}

/// The parity of the set bits of a word.
pub fn parity_64(v: u64) -> (odd: bool)
    ensures
        odd == parity(v as u128),
{
    let a: u64 = v ^ (v >> 32u64);
    let b: u64 = a ^ (a >> 16u64);
    let c: u64 = b ^ (b >> 8u64);
    let d: u64 = c ^ (c >> 4u64);
    let e: u64 = d ^ (d >> 2u64);
    let f: u64 = e ^ (e >> 1u64);
    proof {
        let word: spec_fn(int) -> bool = |k: int| bit(v as u128, k);
        assert forall|k: int| 64 <= k < 128 implies !#[trigger] word(k) by {
            lemma_bit_narrow(v, k);
        }
        lemma_xsum_trim(word, 64, 128);
        lemma_parity_fold_64(v, 32);
        lemma_parity_fold_64(a, 16);
        lemma_parity_fold_64(b, 8);
        lemma_parity_fold_64(c, 4);
        lemma_parity_fold_64(d, 2);
        lemma_parity_fold_64(e, 1);
        let last: spec_fn(int) -> bool = |k: int| bit(f as u128, k);
        assert(xsum(last, 1) == (xsum(last, 0) != last(0)));
        lemma_widen(f, f, 0);
        lemma_shr_parts(f as u128, 0);
    }
    f & 1 == 1
}

/// The parity of the set bits of a double word.
pub fn parity_128(v: u128) -> (odd: bool)
    ensures
        odd == parity(v),
{
    let half: u64 = ((v ^ (v >> 64u128)) & 0xffff_ffff_ffff_ffff) as u64;
    proof {
        let folded: u128 = v ^ (v >> 64u128);
        let word: spec_fn(int) -> bool = |k: int| bit(folded, k);
        let low: spec_fn(int) -> bool = |k: int| bit(half as u128, k);
        lemma_parity_fold(v, 64);
        lemma_halves(folded);
        assert forall|k: int| 0 <= k < 64 implies #[trigger] word(k) == low(k) by {
            assert(bit(folded, k) == bit(folded & 0xffff_ffff_ffff_ffff, k));
        }
        lemma_xsum_ext(word, low, 64);
        assert forall|k: int| 64 <= k < 128 implies !#[trigger] low(k) by {
            lemma_bit_narrow(half, k);
        }
        lemma_xsum_trim(low, 64, 128);
    }
    parity_64(half)
}

/// The number of the lowest set bit of a nonzero word.
pub fn lowest_bit_64(c: u64) -> (t: u32)
    requires
        c != 0,
    ensures
        t < 64,
        bit(c as u128, t as int),
        forall|k: int| 0 <= k < t ==> !#[trigger] bit(c as u128, k),
{
    let t: u32 = c.trailing_zeros();
    proof {
        vstd::std_specs::bits::axiom_u64_trailing_zeros(c);
        let s: u64 = t as u64;
        lemma_widen(c, c, s);
        lemma_widen(c >> s, c, 0);
        assert forall|k: int| 0 <= k < t implies !#[trigger] bit(c as u128, k) by {
            let j: u64 = k as u64;
            lemma_widen(c, c, j);
            lemma_widen(c >> j, c, 0);
            assert((c >> j) & 1u64 == 0u64);
        }
    }
    t
}

/// The number of the lowest set bit of a nonzero double word.
pub fn lowest_bit_128(c: u128) -> (t: u32)
    requires
        c != 0,
    ensures
        t < 128,
        bit(c, t as int),
        forall|k: int| 0 <= k < t ==> !#[trigger] bit(c, k),
{
    let low: u64 = (c & 0xffff_ffff_ffff_ffff) as u64;
    let high: u64 = (c >> 64u128) as u64;
    proof {
        lemma_halves(c);
    }
    if low != 0 {
        lowest_bit_64(low)
    } else {
        let t: u32 = lowest_bit_64(high);
        proof {
            lemma_bit_shr(c, 64, t as int);
            assert forall|k: int| 0 <= k < t + 64 implies !#[trigger] bit(c, k) by {
                if k < 64 {
                    lemma_bit_zero(k);
                } else {
                    lemma_bit_shr(c, 64, k - 64);
                }
            }
        }
        t + 64
    }
}

} // verus!
