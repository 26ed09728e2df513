//! Bits and sums over bits, in whole numbers.
//!
//! The laws on what filters hold and answer are stated in these terms: the binary digits of a word,
//! and how many slots a row selects.

use crate::bits;
use crate::interleave;
use crate::linear;
use vstd::arithmetic::div_mod;
use vstd::arithmetic::mul;
use vstd::arithmetic::power2;
use vstd::prelude::*;

verus! {

/// Binary digit `k` of a number.
pub open spec fn digit(x: nat, k: nat) -> bool {
    (x / power2::pow2(k)) % 2 == 1
}

/// How many of `0..n` have the property.
pub open spec fn tally(f: spec_fn(int) -> bool, n: nat) -> nat
    decreases n,
{
    if n == 0 {
        0
    } else {
        tally(f, (n - 1) as nat) + if f(n - 1) {
            1nat
        } else {
            0nat
        }
    }
}

/// The bit of slot `p` in column `col`: digit `p % w` of word number `col` of block `p / w`, where
/// each block has `r` words.
pub open spec fn slot_bit(words: Seq<u128>, w: int, r: int, col: int, p: int) -> bool {
    digit(words[(p / w) * r + col] as nat, (p % w) as nat)
}

/// How many set slots of a column the first `w` coefficients of `c`, placed at slot `s`, select.
pub open spec fn hits(words: Seq<u128>, w: int, r: int, col: int, s: int, c: u128) -> nat {
    tally(|k: int| digit(c as nat, k as nat) && slot_bit(words, w, r, col, s + k), w as nat)
}

/// How many set slots of an assignment the first `w` coefficients of `c`, placed at slot `s`,
/// select.
pub open spec fn chosen(y: Seq<bool>, w: int, s: int, c: u128) -> nat {
    tally(|k: int| digit(c as nat, k as nat) && s + k < y.len() && y[s + k], w as nat)
}

/// A bit of a word is a digit of its value.
pub proof fn lemma_bit_digit(c: u128, k: int)
    requires
        0 <= k < 128,
    ensures
        bits::bit(c, k) == digit(c as nat, k as nat),
{
    vstd::bits::lemma_u128_shr_is_div(c, k as u128);
    let d: u128 = c >> (k as u128);
    assert((d & 1u128 == 1u128) == (d % 2 == 1)) by (bit_vector);
}

/// A sum of bits tells whether their number is odd.
pub proof fn lemma_sum_tally(f: spec_fn(int) -> bool, n: nat)
    ensures
        bits::xsum(f, n) == (tally(f, n) % 2 == 1),
    decreases n,
{
    if n > 0 {
        lemma_sum_tally(f, (n - 1) as nat);
    }
}

proof fn lemma_tally_ext(f: spec_fn(int) -> bool, g: spec_fn(int) -> bool, n: nat)
    requires
        forall|k: int| 0 <= k < n ==> #[trigger] f(k) == g(k),
    ensures
        tally(f, n) == tally(g, n),
    decreases n,
{
    if n > 0 {
        lemma_tally_ext(f, g, (n - 1) as nat);
        assert(f(n - 1) == g(n - 1));
    }
}

/// The parity of a word is that of the number of its digits that are one.
pub proof fn lemma_parity_tally(c: u128)
    ensures
        bits::parity(c) <==> tally(|k: int| digit(c as nat, k as nat), 128) % 2 == 1,
{
    let f: spec_fn(int) -> bool = |k: int| bits::bit(c, k);
    let g: spec_fn(int) -> bool = |k: int| digit(c as nat, k as nat);
    assert forall|k: int| 0 <= k < 128 implies #[trigger] f(k) == g(k) by {
        lemma_bit_digit(c, k);
    }
    lemma_tally_ext(f, g, 128);
    lemma_sum_tally(f, 128);
}

/// What a row sums to, over a column of the words: whether it selects an odd number of set slots.
pub proof fn lemma_dot_hits(words: Seq<u128>, w: int, r: int, col: int, s: int, c: u128)
    requires
        w == 64 || w == 128,
        0 <= col < r,
        0 <= s,
        (s / w + 1) * r <= words.len(),
        s % w != 0 ==> (s / w + 2) * r <= words.len(),
        forall|k: int| w <= k ==> !#[trigger] bits::bit(c, k),
    ensures
        linear::dot(c, interleave::column(words, w, r, col), s) == (hits(words, w, r, col, s, c) % 2
            == 1),
{
    let x: Seq<bool> = interleave::column(words, w, r, col);
    let f: spec_fn(int) -> bool = |k: int| bits::bit(c, k) && linear::at(x, s + k);
    let g: spec_fn(int) -> bool = |k: int|
        digit(c as nat, k as nat) && slot_bit(words, w, r, col, s + k);
    bits::lemma_xsum_trim(f, w as nat, 128);
    assert forall|k: int| 0 <= k < w implies #[trigger] f(k) == g(k) by {
        lemma_bit_digit(c, k);
        let b: int = (s + k) / w;
        let o: int = (s + k) % w;
        div_mod::lemma_fundamental_div_mod(s, w);
        div_mod::lemma_fundamental_div_mod(s + k, w);
        mul::lemma_mul_is_commutative(w, b);
        assert((b + 1) * r <= words.len() && 0 <= b) by {
            assert(b == s / w || (b == s / w + 1 && s % w != 0));
        }
        interleave::lemma_column_at(words, w, r, col, b, o);
        lemma_bit_digit(words[b * r + col], o);
    }
    lemma_tally_ext(f, g, w as nat);
    lemma_sum_tally(f, w as nat);
}

/// What a row sums to, over an assignment.
pub proof fn lemma_dot_chosen(y: Seq<bool>, w: int, s: int, c: u128)
    requires
        w == 64 || w == 128,
        0 <= s,
        forall|k: int| w <= k ==> !#[trigger] bits::bit(c, k),
    ensures
        linear::dot(c, y, s) == (chosen(y, w, s, c) % 2 == 1),
{
    let f: spec_fn(int) -> bool = |k: int| bits::bit(c, k) && linear::at(y, s + k);
    let g: spec_fn(int) -> bool = |k: int|
        digit(c as nat, k as nat) && s + k < y.len() && y[s + k];
    bits::lemma_xsum_trim(f, w as nat, 128);
    assert forall|k: int| 0 <= k < w implies #[trigger] f(k) == g(k) by {
        lemma_bit_digit(c, k);
    }
    lemma_tally_ext(f, g, w as nat);
    lemma_sum_tally(f, w as nat);
}

/// A slot of a stored column.
pub proof fn lemma_column_slot(words: Seq<u128>, w: int, r: int, col: int, p: int)
    requires
        w == 64 || w == 128,
        0 <= col < r,
        0 <= p,
        (p / w + 1) * r <= words.len(),
    ensures
        linear::at(interleave::column(words, w, r, col), p) == slot_bit(words, w, r, col, p),
{
    div_mod::lemma_fundamental_div_mod(p, w);
    mul::lemma_mul_is_commutative(w, p / w);
    interleave::lemma_column_at(words, w, r, col, p / w, p % w);
    lemma_bit_digit(words[(p / w) * r + col], p % w);
}

/// The slots of a stored column, `n` of them.
pub open spec fn stored(words: Seq<u128>, w: int, r: int, col: int, n: nat) -> Seq<bool> {
    Seq::new(n, |p: int| slot_bit(words, w, r, col, p))
}

/// Words for whole blocks store columns of as many slots.
pub proof fn lemma_stored(words: Seq<u128>, w: int, r: int, col: int, n: nat)
    requires
        w == 64 || w == 128,
        0 <= col < r,
        n % (w as nat) == 0,
        words.len() == (n as int / w) * r,
    ensures
        interleave::column(words, w, r, col) == stored(words, w, r, col, n),
{
    let x: Seq<bool> = interleave::column(words, w, r, col);
    let blocks: int = n as int / w;
    div_mod::lemma_div_by_multiple(blocks, r);
    div_mod::lemma_fundamental_div_mod(n as int, w);
    mul::lemma_mul_is_commutative(w, blocks);
    assert(words.len() as int / r == blocks);
    assert(x.len() == n);
    assert forall|p: int| 0 <= p < n implies #[trigger] x[p] == slot_bit(words, w, r, col, p) by {
        assert(p / w + 1 <= blocks);
        assert((p / w + 1) * r <= blocks * r) by (nonlinear_arith)
            requires
                p / w + 1 <= blocks,
                0 <= r,
        ;
        lemma_column_slot(words, w, r, col, p);
    }
    assert(x =~= stored(words, w, r, col, n));
}

} // verus!
