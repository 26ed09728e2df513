//! Little-endian byte strings and their fingerprint.

use crate::hash;
use vstd::arithmetic::div_mod;
use vstd::arithmetic::power;
use vstd::prelude::*;

verus! {

/// Start value of the FNV-1a hash.
pub const FNV_OFFSET: u64 = 0xcbf2_9ce4_8422_2325;

/// Multiplier of the FNV-1a hash.
pub const FNV_PRIME: u64 = 0x0000_0100_0000_01b3;

/// The lowest `n` bytes of a number, the lowest first.
pub open spec fn le_bytes(x: nat, n: nat) -> Seq<u8>
    decreases n,
{
    if n == 0 {
        seq![]
    } else {
        seq![(x % 256) as u8] + le_bytes(x / 256, (n - 1) as nat)
    }
}

/// The number that bytes stand for, the lowest byte first.
pub open spec fn le_value(bytes: Seq<u8>) -> nat
    decreases bytes.len(),
{
    if bytes.len() == 0 {
        0
    } else {
        bytes[0] as nat + 256 * le_value(bytes.skip(1))
    }
}

/// How many numbers `n` bytes can stand for.
pub open spec fn limit(n: nat) -> nat
    decreases n,
{
    if n == 0 {
        1
    } else {
        256 * limit((n - 1) as nat)
    }
}

/// Words one after the other, `size` bytes each.
pub open spec fn words_bytes(words: Seq<u128>, size: nat) -> Seq<u8>
    decreases words.len(),
{
    if words.len() == 0 {
        seq![]
    } else {
        le_bytes(words[0] as nat, size) + words_bytes(words.skip(1), size)
    }
}

/// Words, widened.
pub open spec fn widened(words: Seq<u64>) -> Seq<u128> {
    Seq::new(words.len(), |i: int| words[i] as u128)
}

/// The FNV-1a hash, continued from `h`.
pub open spec fn fnv_from(h: u64, bytes: Seq<u8>) -> u64
    decreases bytes.len(),
{
    if bytes.len() == 0 {
        h
    } else {
        fnv_from((h ^ bytes[0] as u64).wrapping_mul(FNV_PRIME), bytes.skip(1))
    }
}

/// The FNV-1a hash of a byte string.
pub open spec fn fnv_of(bytes: Seq<u8>) -> u64 {
    fnv_from(FNV_OFFSET, bytes)
}

pub proof fn lemma_le_len(x: nat, n: nat)
    ensures
        le_bytes(x, n).len() == n,
    decreases n,
{
    if n > 0 {
        lemma_le_len(x / 256, (n - 1) as nat);
    }
}

/// A number that fits is read back from its bytes.
pub proof fn lemma_le_read(x: nat, n: nat)
    requires
        x < limit(n),
    ensures
        le_value(le_bytes(x, n)) == x,
    decreases n,
{
    if n > 0 {
        let m: nat = (n - 1) as nat;
        lemma_le_read(x / 256, m);
        assert(le_bytes(x, n).skip(1) =~= le_bytes(x / 256, m));
    }
}

/// Bytes are the bytes of the number that they stand for.
pub proof fn lemma_le_write(bytes: Seq<u8>)
    ensures
        le_bytes(le_value(bytes), bytes.len()) == bytes,
        le_value(bytes) < limit(bytes.len()),
    decreases bytes.len(),
{
    if bytes.len() > 0 {
        let rest: Seq<u8> = bytes.skip(1);
        lemma_le_write(rest);
        let v: nat = le_value(bytes);
        assert(v % 256 == bytes[0]);
        assert(v / 256 == le_value(rest));
        assert(seq![bytes[0]] + rest =~= bytes);
    } else {
        assert(le_bytes(0, 0) =~= bytes);
    }
}

/// Byte `i` of a number is its digit in base 256 that counts `256^i`.
pub proof fn lemma_le_digit(x: nat, n: nat, i: nat)
    requires
        i < n,
    ensures
        le_bytes(x, n).len() == n,
        le_bytes(x, n)[i as int] == (x as int / power::pow(256, i)) % 256,
    decreases n,
{
    lemma_le_len(x, n);
    reveal(power::pow);
    if i == 0 {
        assert(power::pow(256, 0) == 1);
        assert(x as int / 1 == x);
    } else {
        let j: nat = (i - 1) as nat;
        lemma_le_digit(x / 256, (n - 1) as nat, j);
        power::lemma_pow_positive(256, j);
        assert(power::pow(256, i) == 256 * power::pow(256, j));
        div_mod::lemma_div_denominator(x as int, 256, power::pow(256, j));
    }
}

/// Byte `j` of word `i` stands at place `i * size + j`.
pub proof fn lemma_words_digit(words: Seq<u128>, size: nat, i: int, j: nat)
    requires
        0 <= i < words.len(),
        j < size,
    ensures
        words_bytes(words, size).len() == words.len() * size,
        0 <= i * size + j < words.len() * size,
        words_bytes(words, size)[i * size + j] == (words[i] as int / power::pow(256, j)) % 256,
    decreases i,
{
    lemma_words_len(words, size);
    lemma_le_len(words[0] as nat, size);
    assert(0 <= i * size && i * size + size <= words.len() * size) by (nonlinear_arith)
        requires
            0 <= i,
            i + 1 <= words.len(),
    ;
    if i == 0 {
        assert(0 * size == 0) by (nonlinear_arith);
        lemma_le_digit(words[0] as nat, size, j);
    } else {
        lemma_words_digit(words.skip(1), size, i - 1, j);
        assert((i - 1) * size == i * size - size) by (nonlinear_arith);
    }
}

/// The hash, byte by byte: of no bytes it is a fixed number, and one byte more is combined with the
/// hash so far, which is then multiplied by a fixed factor.
pub proof fn lemma_fnv_next(bytes: Seq<u8>, b: u8)
    ensures
        fnv_of(Seq::<u8>::empty()) == 0xcbf2_9ce4_8422_2325,
        fnv_of(bytes.push(b)) == ((fnv_of(bytes) ^ b as u64) * 0x0000_0100_0000_01b3)
            % 0x1_0000_0000_0000_0000,
{
    assert(bytes.push(b) =~= bytes + seq![b]);
    lemma_fnv_join(FNV_OFFSET, bytes, seq![b]);
    let h: u64 = fnv_of(bytes);
    let next: u64 = (h ^ b as u64).wrapping_mul(FNV_PRIME);
    assert(seq![b].skip(1) =~= Seq::<u8>::empty());
    assert(fnv_from(next, seq![b].skip(1)) == next);
    assert(fnv_from(h, seq![b]) == next);
}

/// The number that eight bytes stand for.
pub proof fn lemma_value_8(bytes: Seq<u8>)
    requires
        bytes.len() == 8,
    ensures
        le_value(bytes) == bytes[0] + 0x100 * bytes[1] + 0x1_0000 * bytes[2] + 0x100_0000 * bytes[3]
            + 0x1_0000_0000 * bytes[4] + 0x100_0000_0000 * bytes[5] + 0x1_0000_0000_0000 * bytes[6]
            + 0x100_0000_0000_0000 * bytes[7],
{
    assert(le_value(bytes.skip(1).skip(1).skip(1).skip(1).skip(1).skip(1).skip(1).skip(1)) == 0);
    reveal_with_fuel(le_value, 9);
}

pub proof fn lemma_limits()
    ensures
        limit(8) == 0x1_0000_0000_0000_0000,
        limit(16) == 0x1_0000_0000_0000_0000_0000_0000_0000_0000,
{
    reveal_with_fuel(limit, 17);
}

pub proof fn lemma_words_len(words: Seq<u128>, size: nat)
    ensures
        words_bytes(words, size).len() == words.len() * size,
    decreases words.len(),
{
    if words.len() > 0 {
        lemma_words_len(words.skip(1), size);
        lemma_le_len(words[0] as nat, size);
        assert(words.len() * size == size + (words.len() - 1) * size) by (nonlinear_arith)
            requires
                words.len() > 0,
        ;
    } else {
        assert(0 * size == 0) by (nonlinear_arith);
    }
}

pub proof fn lemma_words_push(words: Seq<u128>, w: u128, size: nat)
    ensures
        words_bytes(words.push(w), size) == words_bytes(words, size) + le_bytes(w as nat, size),
    decreases words.len(),
{
    let more: Seq<u128> = words.push(w);
    if words.len() > 0 {
        lemma_words_push(words.skip(1), w, size);
        assert(more.skip(1) =~= words.skip(1).push(w));
        assert(words_bytes(more, size) =~= words_bytes(words, size) + le_bytes(w as nat, size));
    } else {
        assert(more.skip(1) =~= Seq::<u128>::empty());
        assert(words_bytes(more.skip(1), size) =~= Seq::<u8>::empty());
        assert(words_bytes(more, size) =~= le_bytes(w as nat, size));
        assert(words_bytes(words, size) + le_bytes(w as nat, size) =~= le_bytes(w as nat, size));
    }
}

/// Words that fit are told apart by their bytes.
pub proof fn lemma_words_unique(a: Seq<u128>, b: Seq<u128>, size: nat)
    requires
        size > 0,
        words_bytes(a, size) == words_bytes(b, size),
        forall|i: int| 0 <= i < a.len() ==> (#[trigger] a[i]) < limit(size),
        forall|i: int| 0 <= i < b.len() ==> (#[trigger] b[i]) < limit(size),
    ensures
        a == b,
    decreases a.len(),
{
    lemma_words_len(a, size);
    lemma_words_len(b, size);
    assert(a.len() == b.len()) by (nonlinear_arith)
        requires
            a.len() * size == b.len() * size,
            size > 0,
    ;
    if a.len() > 0 {
        let u: Seq<u8> = words_bytes(a, size);
        let va: Seq<u8> = le_bytes(a[0] as nat, size);
        let vb: Seq<u8> = le_bytes(b[0] as nat, size);
        lemma_le_len(a[0] as nat, size);
        lemma_le_len(b[0] as nat, size);
        assert(u.take(size as int) =~= va);
        assert(u.take(size as int) =~= vb);
        lemma_le_read(a[0] as nat, size);
        lemma_le_read(b[0] as nat, size);
        assert(u.skip(size as int) =~= words_bytes(a.skip(1), size));
        assert(u.skip(size as int) =~= words_bytes(b.skip(1), size));
        lemma_words_unique(a.skip(1), b.skip(1), size);
        assert(a =~= seq![a[0]] + a.skip(1));
        assert(b =~= seq![b[0]] + b.skip(1));
    } else {
        assert(a =~= b);
    }
}

pub proof fn lemma_fnv_join(h: u64, a: Seq<u8>, b: Seq<u8>)
    ensures
        fnv_from(h, a + b) == fnv_from(fnv_from(h, a), b),
    decreases a.len(),
{
    if a.len() == 0 {
        assert(a + b =~= b);
    } else {
        assert((a + b).skip(1) =~= a.skip(1) + b);
        lemma_fnv_join((h ^ a[0] as u64).wrapping_mul(FNV_PRIME), a.skip(1), b);
    }
}

/// The multiplier is odd, so different states stay different.
proof fn lemma_fnv_factor(h: u64, g: u64)
    requires
        h.wrapping_mul(FNV_PRIME) == g.wrapping_mul(FNV_PRIME),
    ensures
        h == g,
{
    let m: int = 0x1_0000_0000_0000_0000;
    let f: int = FNV_PRIME as int;
    let inverse: int = 0xce96_5057_aff6_957b;
    assert((f * inverse) % m == 1);
    hash::lemma_undo(h as int, f, inverse, m);
    hash::lemma_undo(g as int, f, inverse, m);
}

/// Different states stay different over the same bytes.
proof fn lemma_fnv_apart(h: u64, g: u64, bytes: Seq<u8>)
    requires
        h != g,
    ensures
        fnv_from(h, bytes) != fnv_from(g, bytes),
    decreases bytes.len(),
{
    if bytes.len() > 0 {
        let b: u64 = bytes[0] as u64;
        let nh: u64 = (h ^ b).wrapping_mul(FNV_PRIME);
        let ng: u64 = (g ^ b).wrapping_mul(FNV_PRIME);
        assert(h ^ b != g ^ b) by (bit_vector)
            requires
                h != g,
        ;
        if nh == ng {
            lemma_fnv_factor(h ^ b, g ^ b);
        }
        lemma_fnv_apart(nh, ng, bytes.skip(1));
    }
}

/// Byte strings that differ in one byte have different hashes.
pub proof fn lemma_fnv_byte(h: u64, bytes: Seq<u8>, i: int, b: u8)
    requires
        0 <= i < bytes.len(),
        b != bytes[i],
    ensures
        fnv_from(h, bytes.update(i, b)) != fnv_from(h, bytes),
    decreases i,
{
    let other: Seq<u8> = bytes.update(i, b);
    if i == 0 {
        let x: u64 = b as u64;
        let y: u64 = bytes[0] as u64;
        assert(h ^ x != h ^ y) by (bit_vector)
            requires
                x != y,
        ;
        if (h ^ x).wrapping_mul(FNV_PRIME) == (h ^ y).wrapping_mul(FNV_PRIME) {
            lemma_fnv_factor(h ^ x, h ^ y);
        }
        assert(other.skip(1) =~= bytes.skip(1));
        lemma_fnv_apart(
            (h ^ x).wrapping_mul(FNV_PRIME),
            (h ^ y).wrapping_mul(FNV_PRIME),
            bytes.skip(1),
        );
    } else {
        assert(other.skip(1) =~= bytes.skip(1).update(i - 1, b));
        lemma_fnv_byte(
            (h ^ bytes[0] as u64).wrapping_mul(FNV_PRIME),
            bytes.skip(1),
            i - 1,
            b,
        );
    }
}

/// The FNV-1a hash of a byte string.
pub fn fnv1a(bytes: &[u8]) -> (h: u64)
    ensures
        h == fnv_of(bytes@),
{
    let mut h: u64 = FNV_OFFSET;
    let mut i: usize = 0;
    assert(bytes@.skip(0) =~= bytes@);
    while i < bytes.len()
        invariant
            i <= bytes@.len(),
            fnv_of(bytes@) == fnv_from(h, bytes@.skip(i as int)),
        decreases bytes.len() - i,
    {
        assert(bytes@.skip(i as int).skip(1) =~= bytes@.skip(i + 1));
        h = (h ^ bytes[i] as u64).wrapping_mul(FNV_PRIME);
        i = i + 1;
    }
    h
}

/// The FNV-1a hash, continued over the lowest `n` bytes of a word.
pub(crate) fn fnv_word(h: u64, word: u128, n: usize) -> (next: u64)
    ensures
        next == fnv_from(h, le_bytes(word as nat, n as nat)),
{
    let mut next: u64 = h;
    let mut rest: u128 = word;
    let mut left: usize = n;
    while left > 0
        invariant
            fnv_from(h, le_bytes(word as nat, n as nat)) == fnv_from(
                next,
                le_bytes(rest as nat, left as nat),
            ),
        decreases left,
    {
        proof {
            let tail: Seq<u8> = le_bytes(rest as nat / 256, (left - 1) as nat);
            assert(le_bytes(rest as nat, left as nat).skip(1) =~= tail);
        }
        next = (next ^ (rest % 256) as u64).wrapping_mul(FNV_PRIME);
        rest = rest / 256;
        left = left - 1;
    }
    next
}

/// Appends the lowest `n` bytes of a word.
pub(crate) fn put_word(out: &mut Vec<u8>, word: u128, n: usize)
    ensures
        final(out)@ == old(out)@ + le_bytes(word as nat, n as nat),
{
    let ghost whole: Seq<u8> = out@ + le_bytes(word as nat, n as nat);
    let mut rest: u128 = word;
    let mut left: usize = n;
    while left > 0
        invariant
            out@ + le_bytes(rest as nat, left as nat) == whole,
        decreases left,
    {
        let ghost before: Seq<u8> = out@;
        out.push((rest % 256) as u8);
        proof {
            let tail: Seq<u8> = le_bytes(rest as nat / 256, (left - 1) as nat);
            assert(out@ + tail =~= before + le_bytes(rest as nat, left as nat));
        }
        rest = rest / 256;
        left = left - 1;
    }
    assert(out@ + le_bytes(rest as nat, 0) =~= out@);
}

/// The number that the bytes from `at` on stand for, `n` of them.
pub(crate) fn get_word(bytes: &[u8], at: usize, n: usize) -> (word: u128)
    requires
        at + n <= bytes@.len(),
        n <= 16,
    ensures
        word == le_value(bytes@.subrange(at as int, at + n)),
{
    let mut word: u128 = 0;
    let mut i: usize = n;
    proof {
        lemma_limits();
        lemma_limit_grows(n as nat, 16);
    }
    while i > 0
        invariant
            at + n <= bytes.len(),
            bytes@.len() == bytes.len(),
            i <= n,
            limit(n as nat) <= limit(16),
            limit(16) == 0x1_0000_0000_0000_0000_0000_0000_0000_0000,
            word == le_value(bytes@.subrange(at + i, at + n)),
        decreases i,
    {
        proof {
            let rest: Seq<u8> = bytes@.subrange(at + i, at + n);
            let more: Seq<u8> = bytes@.subrange(at + i - 1, at + n);
            assert(more.skip(1) =~= rest);
            lemma_le_write(more);
            lemma_limit_grows(more.len(), n as nat);
        }
        i = i - 1;
        word = word * 256 + bytes[at + i] as u128;
    }
    word
}

proof fn lemma_limit_grows(m: nat, n: nat)
    requires
        m <= n,
    ensures
        0 < limit(m) <= limit(n),
    decreases n,
{
    if m < n {
        lemma_limit_grows(m, (n - 1) as nat);
    } else if n > 0 {
        lemma_limit_grows((m - 1) as nat, (n - 1) as nat);
    }
}

/// The number that eight bytes from `at` on stand for.
pub(crate) fn get_u64(bytes: &[u8], at: usize) -> (x: u64)
    requires
        at + 8 <= bytes@.len(),
    ensures
        x == le_value(bytes@.subrange(at as int, at + 8)),
{
    proof {
        lemma_limits();
        lemma_le_write(bytes@.subrange(at as int, at + 8));
    }
    get_word(bytes, at, 8) as u64
}

/// Appends words, eight bytes each.
pub(crate) fn put_words(out: &mut Vec<u8>, words: &[u64])
    ensures
        final(out)@ == old(out)@ + words_bytes(widened(words@), 8),
{
    let ghost all: Seq<u128> = widened(words@);
    let ghost start: Seq<u8> = out@;
    let mut i: usize = 0;
    assert(start + words_bytes(all.take(0), 8) =~= start);
    while i < words.len()
        invariant
            i <= words@.len(),
            all == widened(words@),
            out@ == start + words_bytes(all.take(i as int), 8),
        decreases words.len() - i,
    {
        let ghost before: Seq<u8> = out@;
        put_word(out, words[i] as u128, 8);
        proof {
            lemma_words_push(all.take(i as int), all[i as int], 8);
            assert(all.take(i + 1) =~= all.take(i as int).push(all[i as int]));
            assert(out@ =~= start + words_bytes(all.take(i + 1), 8));
        }
        i = i + 1;
    }
    assert(all.take(i as int) =~= all);
}

/// Appends wide words, sixteen bytes each.
pub(crate) fn put_wide_words(out: &mut Vec<u8>, words: &[u128])
    ensures
        final(out)@ == old(out)@ + words_bytes(words@, 16),
{
    let ghost start: Seq<u8> = out@;
    let mut i: usize = 0;
    assert(start + words_bytes(words@.take(0), 16) =~= start);
    while i < words.len()
        invariant
            i <= words@.len(),
            out@ == start + words_bytes(words@.take(i as int), 16),
        decreases words.len() - i,
    {
        put_word(out, words[i], 16);
        proof {
            lemma_words_push(words@.take(i as int), words@[i as int], 16);
            assert(words@.take(i + 1) =~= words@.take(i as int).push(words@[i as int]));
            assert(out@ =~= start + words_bytes(words@.take(i + 1), 16));
        }
        i = i + 1;
    }
    assert(words@.take(i as int) =~= words@);
}

/// The words that bytes stand for, eight bytes each.
pub(crate) fn get_words(bytes: &[u8]) -> (words: Vec<u64>)
    requires
        bytes@.len() % 8 == 0,
    ensures
        words_bytes(widened(words@), 8) == bytes@,
        words@.len() == bytes@.len() / 8,
{
    let mut words: Vec<u64> = Vec::new();
    let mut at: usize = 0;
    assert(words_bytes(widened(words@), 8) =~= bytes@.take(0));
    while at < bytes.len()
        invariant
            at <= bytes@.len(),
            bytes@.len() % 8 == 0,
            at % 8 == 0,
            words@.len() == at / 8,
            words_bytes(widened(words@), 8) == bytes@.take(at as int),
        decreases bytes.len() - at,
    {
        let word: u64 = get_u64(bytes, at);
        let ghost before: Seq<u64> = words@;
        words.push(word);
        proof {
            let part: Seq<u8> = bytes@.subrange(at as int, at + 8);
            lemma_le_write(part);
            lemma_words_push(widened(before), word as u128, 8);
            assert(widened(words@) =~= widened(before).push(word as u128));
            assert(bytes@.take(at + 8) =~= bytes@.take(at as int) + part);
        }
        at = at + 8;
    }
    assert(bytes@.take(at as int) =~= bytes@);
    words
}

/// The wide words that bytes stand for, sixteen bytes each.
pub(crate) fn get_wide_words(bytes: &[u8]) -> (words: Vec<u128>)
    requires
        bytes@.len() % 16 == 0,
    ensures
        words_bytes(words@, 16) == bytes@,
        words@.len() == bytes@.len() / 16,
{
    let mut words: Vec<u128> = Vec::new();
    let mut at: usize = 0;
    assert(words_bytes(words@, 16) =~= bytes@.take(0));
    while at < bytes.len()
        invariant
            at <= bytes@.len(),
            bytes@.len() % 16 == 0,
            at % 16 == 0,
            words@.len() == at / 16,
            words_bytes(words@, 16) == bytes@.take(at as int),
        decreases bytes.len() - at,
    {
        let word: u128 = get_word(bytes, at, 16);
        proof {
            let part: Seq<u8> = bytes@.subrange(at as int, at + 16);
            lemma_le_write(part);
            lemma_words_push(words@, word, 16);
            assert(bytes@.take(at + 16) =~= bytes@.take(at as int) + part);
        }
        words.push(word);
        at = at + 16;
    }
    assert(bytes@.take(at as int) =~= bytes@);
    words
}

} // verus!
