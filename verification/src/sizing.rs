//! How many slots a filter needs.
//!
//! The space overhead of a ribbon of `r` columns with rows of `w` slots is
//! `1 + (4 + r / 4) / w` slots per key. The slot count is this factor times the number of keys,
//! worked out in double precision and rounded up to whole blocks. Double precision keeps 53
//! significant bits of every intermediate value, so the factor and the product are computed here
//! as integers, over the common denominator `4 * w`, and rounded in the same places.

use vstd::arithmetic::div_mod;
use vstd::arithmetic::mul;
use vstd::prelude::*;

verus! {

/// Integers below this are exact in double precision.
pub const EXACT: u128 = 0x20_0000_0000_0000;

/// The distance between neighbouring double precision numbers around `x`.
pub open spec fn spacing(x: nat) -> nat
    decreases x,
{
    if x < EXACT {
        1
    } else {
        2 * spacing(x / 2)
    }
}

/// `x` in double precision: rounded to the nearest multiple of the spacing, ties to even.
pub open spec fn rounded(x: nat) -> nat {
    let u: nat = spacing(x);
    let q: nat = x / u;
    let rest: nat = x % u;
    if 2 * rest > u || (2 * rest == u && q % 2 == 1) {
        (q + 1) * u
    } else {
        q * u
    }
}

/// The overhead factor, times `4 * w`.
pub open spec fn overhead(r: nat, w: nat) -> nat {
    rounded(4 * w + rounded(16 + rounded(r)))
}

/// Overhead times keys, rounded down to whole slots.
pub open spec fn raw_slots(n: nat, r: nat, w: nat) -> nat {
    rounded(overhead(r, w) * rounded(n)) / (4 * w)
}

/// The number of slots for `n` keys: whole blocks of `w`, and no fewer than two.
pub open spec fn slots(n: nat, r: nat, w: nat) -> nat {
    let s: nat = ((raw_slots(n, r, w) + w - 1) as nat / w) * w;
    if s < 2 * w {
        2 * w
    } else {
        s
    }
}

pub proof fn lemma_spacing(x: nat)
    ensures
        spacing(x) >= 1,
        x < EXACT ==> spacing(x) == 1,
        x >= EXACT ==> spacing(x) * (EXACT / 2) <= x,
    decreases x,
{
    if x >= EXACT {
        lemma_spacing(x / 2);
        let half: int = spacing(x / 2) as int;
        assert((2 * half) * (EXACT / 2) == 2 * (half * (EXACT / 2))) by (nonlinear_arith);
        assert(spacing(x) == 2 * half);
        if x / 2 < EXACT {
            assert(half * (EXACT / 2) == EXACT / 2) by (nonlinear_arith)
                requires
                    half == 1,
            ;
        }
    }
}

/// Rounding changes a number by less than a third.
pub proof fn lemma_rounded(x: nat)
    ensures
        x < EXACT ==> rounded(x) == x,
        x <= 2 * rounded(x),
        2 * rounded(x) <= 3 * x,
{
    lemma_spacing(x);
    let u: int = spacing(x) as int;
    let q: int = x as int / u;
    let rest: int = x as int % u;
    div_mod::lemma_fundamental_div_mod(x as int, u);
    div_mod::lemma_mod_bound(x as int, u);
    mul::lemma_mul_is_commutative(u, q);
    if x < EXACT {
        assert(q * 1 == q);
        assert(x as int / 1 == x);
        assert(x as int % 1 == 0);
    } else {
        assert((q + 1) * u == q * u + u) by (nonlinear_arith);
        assert(2 * u <= x) by (nonlinear_arith)
            requires
                u * (EXACT / 2) <= x,
                u >= 1,
        ;
    }
}

/// Whole blocks, and no fewer than two.
pub proof fn lemma_slots_shape(n: nat, r: nat, w: nat)
    requires
        w > 0,
    ensures
        slots(n, r, w) % w == 0,
        slots(n, r, w) >= 2 * w,
        slots(n, r, w) >= raw_slots(n, r, w),
{
    let b: int = (raw_slots(n, r, w) + w - 1) / (w as int);
    div_mod::lemma_mod_multiples_basic(b, w as int);
    div_mod::lemma_mod_multiples_basic(2, w as int);
    div_mod::lemma_fundamental_div_mod((raw_slots(n, r, w) + w - 1) as int, w as int);
    div_mod::lemma_mod_bound((raw_slots(n, r, w) + w - 1) as int, w as int);
    mul::lemma_mul_is_commutative(w as int, b);
}

proof fn lemma_raw_slots(n: nat, r: nat, w: nat)
    requires
        w > 0,
    ensures
        ({
            let raw: nat = raw_slots(n, r, w);
            let p: nat = rounded(overhead(r, w) * rounded(n));
            (4 * w) * raw <= p < (4 * w) * (raw + 1)
        }),
{
    let raw: int = raw_slots(n, r, w) as int;
    let p: int = rounded(overhead(r, w) * rounded(n)) as int;
    let d: int = 4 * w as int;
    div_mod::lemma_fundamental_div_mod(p, d);
    div_mod::lemma_mod_bound(p, d);
    mul::lemma_mul_is_distributive_add(d, raw, 1);
}

/// Filters of up to 32 columns have room for any number of keys that a quarter of the address
/// space can hold.
pub proof fn lemma_slots_fit(n: nat, r: nat, w: nat)
    requires
        w == 64 || w == 128,
        r <= 32,
        n <= usize::MAX / 4,
    ensures
        slots(n, r, w) <= usize::MAX,
{
    lemma_rounded(r);
    lemma_rounded(16 + r);
    lemma_rounded(4 * w + (16 + r));
    lemma_rounded(n);
    let ov: nat = overhead(r, w);
    let p: nat = ov * rounded(n);
    lemma_rounded(p);
    assert(2 * ov <= 3 * (4 * w));
    assert(2 * p <= 3 * (4 * w) * rounded(n)) by (nonlinear_arith)
        requires
            p == ov * rounded(n),
            2 * ov <= 3 * (4 * w),
    ;
    assert(8 * rounded(p) <= 27 * (4 * w) * n) by (nonlinear_arith)
        requires
            2 * rounded(p) <= 3 * p,
            2 * p <= 3 * (4 * w) * rounded(n),
            2 * rounded(n) <= 3 * n,
    ;
    lemma_slots_shape(n, r, w);
    lemma_raw_slots(n, r, w);
    assert(8 * raw_slots(n, r, w) <= 27 * n) by (nonlinear_arith)
        requires
            (4 * w) * raw_slots(n, r, w) <= rounded(p),
            8 * rounded(p) <= 27 * (4 * w) * n,
            w > 0,
    ;
    let b: int = (raw_slots(n, r, w) + w - 1) / (w as int);
    assert(b * w <= raw_slots(n, r, w) + w - 1) by {
        div_mod::lemma_fundamental_div_mod((raw_slots(n, r, w) + w - 1) as int, w as int);
        div_mod::lemma_mod_bound((raw_slots(n, r, w) + w - 1) as int, w as int);
        mul::lemma_mul_is_commutative(w as int, b);
    }
}

/// `x` in double precision.
fn round(x: u128) -> (y: u128)
    requires
        x <= u128::MAX / 2,
    ensures
        y == rounded(x as nat),
{
    let mut q: u128 = x;
    let mut u: u128 = 1;
    proof {
        assert(x as int / 1 == x);
        lemma_rounded(x as nat);
    }
    while q >= EXACT
        invariant
            x <= u128::MAX / 2,
            u >= 1,
            q == x as nat / u as nat,
            spacing(x as nat) == u * spacing(q as nat),
            u * q <= x,
        decreases q,
    {
        proof {
            div_mod::lemma_div_denominator(x as int, u as int, 2);
            assert(u * q == q * u) by (nonlinear_arith);
            assert(2 * u <= u * q) by (nonlinear_arith)
                requires
                    q >= 2,
            ;
            let half: int = q as int / 2;
            assert(u * (2 * spacing((q / 2) as nat)) == (2 * u) * spacing((q / 2) as nat))
                by (nonlinear_arith);
            assert((2 * u) * half <= u * q) by (nonlinear_arith)
                requires
                    2 * half <= q,
                    u >= 1,
            ;
            assert(u * 2 == 2 * u);
        }
        q = q / 2;
        u = 2 * u;
    }
    proof {
        lemma_spacing(q as nat);
        assert(u * 1 == u);
        div_mod::lemma_fundamental_div_mod(x as int, u as int);
        div_mod::lemma_mod_bound(x as int, u as int);
        mul::lemma_mul_is_commutative(u as int, q as int);
        assert((q + 1) * u == q * u + u) by (nonlinear_arith);
        assert(u * q == q * u) by (nonlinear_arith);
    }
    let rest: u128 = x - q * u;
    if rest > u - rest || (rest == u - rest && q % 2 == 1) {
        q * u + u
    } else {
        q * u
    }
}

/// The number of slots for `n` keys.
pub fn slots_for(n: usize, r: usize, w: usize) -> (s: usize)
    requires
        w == 64 || w == 128,
        slots(n as nat, r as nat, w as nat) <= usize::MAX,
    ensures
        s == slots(n as nat, r as nat, w as nat),
        s as nat % w as nat == 0,
        s >= 2 * w,
{
    let width: u128 = w as u128;
    proof {
        lemma_rounded(r as nat);
        lemma_rounded((16 + rounded(r as nat)) as nat);
        lemma_rounded((4 * w + rounded((16 + rounded(r as nat)) as nat)) as nat);
        lemma_rounded(n as nat);
        let p: nat = overhead(r as nat, w as nat) * rounded(n as nat);
        lemma_rounded(p);
        lemma_slots_shape(n as nat, r as nat, w as nat);
        lemma_raw_slots(n as nat, r as nat, w as nat);
        assert((4 * w) * (raw_slots(n as nat, r as nat, w as nat) + 1) <= 512 * (usize::MAX + 1))
            by (nonlinear_arith)
            requires
                w <= 128,
                raw_slots(n as nat, r as nat, w as nat) <= usize::MAX,
        ;
        assert(p <= u128::MAX / 2);
    }
    let factor: u128 = round(4 * width + round(16 + round(r as u128)));
    let keys: u128 = round(n as u128);
    let raw: u128 = round(factor * keys) / (4 * width);
    let blocks: u128 = (raw + width - 1) / width;
    proof {
        div_mod::lemma_fundamental_div_mod((raw + width - 1) as int, width as int);
        div_mod::lemma_mod_bound((raw + width - 1) as int, width as int);
        mul::lemma_mul_is_commutative(width as int, blocks as int);
    }
    let s: u128 = blocks * width;
    if s < 2 * width {
        2 * w
    } else {
        s as usize
    }
}

/// Double precision is off by no more than one part in `2^53`.
pub proof fn lemma_rounded_near(x: nat)
    ensures
        0x20_0000_0000_0000 * rounded(x) <= 0x20_0000_0000_0001 * x,
        0x1f_ffff_ffff_ffff * x <= 0x20_0000_0000_0000 * rounded(x),
        x < 0x20_0000_0000_0000 ==> rounded(x) == x,
{
    lemma_rounded(x);
    if x >= EXACT {
        lemma_spacing(x);
        let u: int = spacing(x) as int;
        let q: int = x as int / u;
        let rest: int = x as int % u;
        div_mod::lemma_fundamental_div_mod(x as int, u);
        div_mod::lemma_mod_bound(x as int, u);
        mul::lemma_mul_is_commutative(u, q);
        assert((q + 1) * u == q * u + u) by (nonlinear_arith);
        let y: int = rounded(x) as int;
        assert(2 * (y - x) <= u && 2 * (x - y) <= u);
        assert(u * (EXACT / 2) <= x);
        assert(u * 0x10_0000_0000_0000 <= x);
    }
}

/// The number of slots, for up to some trillion keys: whole blocks of `w`, no fewer than two, with
/// room for `1 + (4 + r / 4) / w` slots per key, rounded down, and no block more than that takes.
pub proof fn lemma_slots_exact(n: nat, r: nat, w: nat)
    requires
        w == 64 || w == 128,
        r <= 32,
        (4 * w + 16 + r) * n < 0x20_0000_0000_0000,
    ensures
        ({
            let s: int = slots(n, r, w) as int;
            let need: int = ((4 * w + 16 + r) * n) as int;
            &&& s % (w as int) == 0
            &&& s >= 2 * w
            &&& 4 * w * (s + 1) > need
            &&& s > 2 * w ==> 4 * w * (s - w + 1) <= need
        }),
{
    lemma_rounded(r);
    lemma_rounded(16 + r);
    lemma_rounded(4 * w + (16 + r));
    let ov: int = overhead(r, w) as int;
    assert(ov == 4 * w + 16 + r);
    assert(n <= ov * n) by (nonlinear_arith)
        requires
            ov >= 1,
    ;
    lemma_rounded(n);
    assert(overhead(r, w) * rounded(n) == (4 * w + 16 + r) * n);
    lemma_rounded(((4 * w + 16 + r) * n) as nat);
    lemma_raw_slots(n, r, w);
    lemma_slots_tight(n, r, w);
}

/// The number of slots, for any number of keys: as for few keys, to within three parts in `2^53`.
pub proof fn lemma_slots_near(n: nat, r: nat, w: nat)
    requires
        w == 64 || w == 128,
        r <= 32,
    ensures
        ({
            let s: int = slots(n, r, w) as int;
            let need: int = ((4 * w + 16 + r) * n) as int;
            &&& s % (w as int) == 0
            &&& s >= 2 * w
            &&& 0x20_0000_0000_0000 * (4 * w * (s + 1)) > 0x1f_ffff_ffff_fffd * need
            &&& s > 2 * w ==> 0x20_0000_0000_0000 * (4 * w * (s - w + 1)) <= 0x20_0000_0000_0003
                * need
        }),
{
    let e: int = 0x20_0000_0000_0000;
    lemma_rounded(r);
    lemma_rounded(16 + r);
    lemma_rounded(4 * w + (16 + r));
    let ov: int = overhead(r, w) as int;
    assert(ov == 4 * w + 16 + r);
    lemma_rounded_near(n);
    let m: int = rounded(n) as int;
    let q: int = ov * n;
    let q1: int = ov * m;
    let p: int = rounded((overhead(r, w) * rounded(n)) as nat) as int;
    assert(overhead(r, w) * rounded(n) == q1);
    assert(0 <= q1 && e * q1 <= (e + 1) * q && (e - 1) * q <= e * q1) by (nonlinear_arith)
        requires
            q == ov * n,
            q1 == ov * m,
            0 <= m,
            0 <= n,
            0 < ov,
            e * m <= (e + 1) * n,
            (e - 1) * n <= e * m,
    ;
    lemma_rounded_near(q1 as nat);
    assert(e * p <= (e + 3) * q) by (nonlinear_arith)
        requires
            e == 0x20_0000_0000_0000,
            0 <= q,
            e * p <= (e + 1) * q1,
            e * q1 <= (e + 1) * q,
    ;
    assert((e - 3) * q <= e * p) by (nonlinear_arith)
        requires
            e == 0x20_0000_0000_0000,
            0 <= q,
            (e - 1) * q1 <= e * p,
            (e - 1) * q <= e * q1,
    ;
    lemma_raw_slots(n, r, w);
    lemma_slots_tight(n, r, w);
    let s: int = slots(n, r, w) as int;
    let raw: int = raw_slots(n, r, w) as int;
    assert((4 * w) * raw <= p < (4 * w) * (raw + 1));
    assert(4 * w * (s + 1) > p) by (nonlinear_arith)
        requires
            p < (4 * w) * (raw + 1),
            raw <= s,
            w > 0,
    ;
    if s > 2 * w {
        assert(4 * w * (s - w + 1) <= p) by (nonlinear_arith)
            requires
                (4 * w) * raw <= p,
                s - w + 1 <= raw,
                w > 0,
        ;
    }
}

/// The blocks are those that the slots take, and no more.
proof fn lemma_slots_tight(n: nat, r: nat, w: nat)
    requires
        w > 0,
    ensures
        slots(n, r, w) % w == 0,
        slots(n, r, w) >= 2 * w,
        slots(n, r, w) >= raw_slots(n, r, w),
        slots(n, r, w) > 2 * w ==> slots(n, r, w) - w + 1 <= raw_slots(n, r, w),
{
    lemma_slots_shape(n, r, w);
    let top: int = raw_slots(n, r, w) + w - 1;
    let b: int = top / (w as int);
    div_mod::lemma_fundamental_div_mod(top, w as int);
    div_mod::lemma_mod_bound(top, w as int);
    mul::lemma_mul_is_commutative(w as int, b);
}

/// What is in memory has a size in bytes, and the address space holds it.
pub(crate) fn in_memory<T>(items: &[T])
    ensures
        items@.len() * vstd::layout::size_of::<T>() <= usize::MAX,
{
    broadcast use vstd::layout::layout_of_slices;

    let _bytes: usize = core::mem::size_of_val(items);
}

/// There is room for the slots of keys that are in memory.
pub(crate) fn room_for_keys(keys: &[u64], r: usize, w: usize)
    requires
        w == 64 || w == 128,
        r <= 32,
    ensures
        slots(keys@.len(), r as nat, w as nat) <= usize::MAX,
{
    broadcast use vstd::layout::layout_of_primitives;

    in_memory(keys);
    proof {
        lemma_slots_fit(keys@.len(), r as nat, w as nat);
    }
}

} // verus!
