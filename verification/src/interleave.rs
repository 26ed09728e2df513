//! The interleaved layout of a solution.
//!
//! A solution has `r` columns of one bit per slot. It is stored in words of `w` bits: slots are
//! grouped into blocks of `w`, and each block holds one word per column, column after column.

use crate::bits;
use crate::linear;
use vstd::arithmetic::div_mod;
use vstd::arithmetic::mul;
use vstd::prelude::*;

verus! {

/// Column `col` of the solution that the words `words` store.
pub open spec fn column(words: Seq<u128>, w: int, r: int, col: int) -> Seq<bool> {
    Seq::new(
        ((words.len() as int / r) * w) as nat,
        |p: int| bits::bit(words[(p / w) * r + col], p % w),
    )
}

/// Every start slot has the words that a query reads: those of its block, and those of the next
/// block where the start is not at a block boundary.
pub open spec fn covers(words: int, w: int, r: int, num_starts: int) -> bool {
    (last_block(w, num_starts) + 1) * r <= words
}

/// The last block that a query may read from.
pub open spec fn last_block(w: int, num_starts: int) -> int {
    if num_starts <= 1 {
        0
    } else {
        (num_starts - 1 + w - 1) / w
    }
}

/// Where slot `p` is found: in block `b`, at bit `o`.
pub proof fn lemma_place(w: int, b: int, o: int)
    requires
        0 <= o < w,
    ensures
        (b * w + o) / w == b,
        (b * w + o) % w == o,
{
    div_mod::lemma_fundamental_div_mod_converse(b * w + o, w, b, o);
}

/// A slot of a column, found by its block and its place in the block.
pub proof fn lemma_column_at(words: Seq<u128>, w: int, r: int, col: int, b: int, o: int)
    requires
        0 < r,
        0 <= o < w,
        0 <= b,
        (b + 1) * r <= words.len(),
    ensures
        linear::at(column(words, w, r, col), b * w + o) == bits::bit(words[b * r + col], o),
{
    lemma_place(w, b, o);
    let blocks: int = words.len() as int / r;
    assert(b + 1 <= blocks) by {
        div_mod::lemma_div_is_ordered((b + 1) * r, words.len() as int, r);
        div_mod::lemma_div_by_multiple(b + 1, r);
    }
    assert(0 <= b * w + o < blocks * w) by (nonlinear_arith)
        requires
            0 <= b,
            b + 1 <= blocks,
            0 <= o < w,
    ;
}

/// A reachable start slot is covered.
pub proof fn lemma_covered(words: int, w: int, r: int, num_starts: int, s: int)
    requires
        covers(words, w, r, num_starts),
        0 <= s,
        s < num_starts || s == 0,
        0 < w,
        0 <= r,
    ensures
        (s / w + 1) * r <= words,
        s % w != 0 ==> (s / w + 2) * r <= words,
{
    let m: int = last_block(w, num_starts);
    if num_starts > 1 {
        div_mod::lemma_div_is_ordered(s, num_starts - 1 + w - 1, w);
        if s % w != 0 {
            div_mod::lemma_fundamental_div_mod(s, w);
            lemma_place(w, s / w + 1, 0);
            mul::lemma_mul_is_distributive_add_other_way(w, s / w, 1);
            mul::lemma_mul_is_commutative(w, s / w);
            div_mod::lemma_div_is_ordered((s / w + 1) * w, num_starts - 1 + w - 1, w);
            assert(s / w + 1 <= m);
        }
    } else {
        div_mod::lemma_div_basics(w);
        assert(0int / w == 0);
        assert(0int % w == 0) by {
            div_mod::lemma_small_mod(0, w as nat);
        }
    }
    assert((s / w + 1) * r <= (m + 1) * r) by (nonlinear_arith)
        requires
            s / w <= m,
            0 <= r,
    ;
    if s % w != 0 {
        assert((s / w + 2) * r <= (m + 1) * r) by (nonlinear_arith)
            requires
                s / w + 1 <= m,
                0 <= r,
        ;
    }
}

/// Slots that fill whole blocks cover the start slots that leave room for a row of `w`.
pub proof fn lemma_covers_blocks(blocks: int, w: int, r: int)
    requires
        0 < blocks,
        0 < w,
        0 <= r,
    ensures
        covers(blocks * r, w, r, blocks * w - w + 1),
{
    let n: int = blocks * w - w + 1;
    assert(blocks * w == (blocks - 1) * w + w) by (nonlinear_arith);
    assert((blocks - 1) * w >= 0) by (nonlinear_arith)
        requires
            0 < blocks,
            0 < w,
    ;
    if n > 1 {
        lemma_place(w, blocks - 1, w - 1);
        assert(last_block(w, n) == blocks - 1);
    } else {
        assert(last_block(w, n) == 0);
        assert(r <= blocks * r) by (nonlinear_arith)
            requires
                0 < blocks,
                0 <= r,
        ;
    }
}

/// The word that a query forms from the words of two blocks has the parity of the row's sum.
pub proof fn lemma_query(words: Seq<u128>, w: int, r: int, col: int, c: u128, s: int, found: u128)
    requires
        0 < r,
        0 <= col < r,
        0 < w <= 128,
        0 <= s,
        (s / w + 1) * r <= words.len(),
        s % w != 0 ==> (s / w + 2) * r <= words.len(),
        forall|k: int| w <= k ==> !#[trigger] bits::bit(c, k),
        forall|m: int| w <= m ==> !#[trigger] bits::bit(found, m),
        forall|m: int|
            s % w <= m < w ==> #[trigger] bits::bit(found, m) == (bits::bit(
                words[(s / w) * r + col],
                m,
            ) && bits::bit(c, m - s % w)),
        forall|m: int|
            0 <= m < s % w ==> #[trigger] bits::bit(found, m) == (bits::bit(
                words[(s / w + 1) * r + col],
                m,
            ) && bits::bit(c, m + w - s % w)),
    ensures
        bits::parity(found) == linear::dot(c, column(words, w, r, col), s),
{
    let x: Seq<bool> = column(words, w, r, col);
    let b: int = s / w;
    let o: int = s % w;
    let f: spec_fn(int) -> bool = |m: int| bits::bit(found, m);
    let g: spec_fn(int) -> bool = |k: int| bits::bit(c, k) && linear::at(x, s + k);
    div_mod::lemma_fundamental_div_mod(s, w);
    div_mod::lemma_mod_bound(s, w);
    div_mod::lemma_div_pos_is_pos(s, w);
    mul::lemma_mul_is_commutative(w, b);
    bits::lemma_xsum_trim(f, w as nat, 128);
    bits::lemma_xsum_trim(g, w as nat, 128);
    let rest: int = w - o;
    bits::lemma_xsum_split(f, o as nat, rest as nat);
    bits::lemma_xsum_split(g, rest as nat, o as nat);
    let f_high: spec_fn(int) -> bool = |k: int| f(o as nat + k);
    let g_high: spec_fn(int) -> bool = |k: int| g(rest as nat + k);
    assert forall|k: int| 0 <= k < rest implies #[trigger] f_high(k) == g(k) by {
        lemma_column_at(words, w, r, col, b, o + k);
        assert(bits::bit(found, o + k) == (bits::bit(words[b * r + col], o + k) && bits::bit(c, k)));
    }
    bits::lemma_xsum_ext(f_high, g, rest as nat);
    assert forall|m: int| 0 <= m < o implies #[trigger] f(m) == g_high(m) by {
        assert((b + 1) * w == b * w + w) by (nonlinear_arith);
        lemma_column_at(words, w, r, col, b + 1, m);
        assert(s + (rest + m) == (b + 1) * w + m);
    }
    bits::lemma_xsum_ext(f, g_high, o as nat);
}

/// The first words of a block's columns are within the words.
pub proof fn lemma_word_index(b: int, r: int, col: int, words: int)
    requires
        0 <= b,
        0 <= col < r,
        (b + 1) * r <= words,
    ensures
        0 <= b * r,
        0 <= b * r + col < words,
        b * r + r <= words,
{
    assert(b * r + r == (b + 1) * r) by (nonlinear_arith);
    assert(0 <= b * r) by (nonlinear_arith)
        requires
            0 <= b,
            0 <= r,
    ;
}

/// A block's words are within the words.
pub proof fn lemma_block_index(b: int, r: int, blocks: int)
    requires
        0 <= b < blocks,
        0 <= r,
    ensures
        0 <= b * r,
        b * r + r <= blocks * r,
{
    assert(0 <= b * r && b * r + r <= blocks * r) by (nonlinear_arith)
        requires
            0 <= b,
            b + 1 <= blocks,
            0 <= r,
    ;
}

/// The words store, column by column, the solution of the rows that fills empty slots with
/// `fills(column, slot)`.
pub open spec fn encodes(
    rows: Seq<linear::Row>,
    fills: spec_fn(int, int) -> bool,
    w: int,
    r: int,
    words: Seq<u128>,
) -> bool {
    &&& words.len() == (rows.len() as int / w) * r
    &&& forall|col: int| 0 <= col < r ==> #[trigger] encodes_column(rows, fills, w, r, words, col)
}

pub open spec fn encodes_column(
    rows: Seq<linear::Row>,
    fills: spec_fn(int, int) -> bool,
    w: int,
    r: int,
    words: Seq<u128>,
    col: int,
) -> bool {
    linear::is_solution(rows, col, |p: int| fills(col, p), column(words, w, r, col))
}

/// Slot `p` of column `col` of the solution, solved down to slot `i`.
pub open spec fn solved(
    rows: Seq<linear::Row>,
    fills: spec_fn(int, int) -> bool,
    col: int,
    i: int,
    p: int,
) -> bool {
    linear::at(linear::solve_from(rows, col, |q: int| fills(col, q), i), p)
}

/// Bit `k` of column `col` of block `b`.
pub open spec fn stored(words: Seq<u128>, r: int, b: int, col: int, k: int) -> bool {
    bits::bit(words[b * r + col], k)
}

/// The word of column `col` in the state of back-substitution at slot `i`: slots `i..i + w`.
pub open spec fn holds_window(
    rows: Seq<linear::Row>,
    fills: spec_fn(int, int) -> bool,
    w: int,
    word: u128,
    col: int,
    i: int,
) -> bool {
    forall|k: int| 0 <= k < w ==> #[trigger] bits::bit(word, k) == solved(rows, fills, col, i, i + k)
}

/// The state of back-substitution at slot `i`, in every column.
pub open spec fn is_window(
    rows: Seq<linear::Row>,
    fills: spec_fn(int, int) -> bool,
    w: int,
    state: Seq<u128>,
    i: int,
) -> bool {
    forall|col: int|
        0 <= col < state.len() ==> holds_window(rows, fills, w, #[trigger] state[col], col, i)
}

/// Blocks `first..blocks` of the solution are stored.
pub open spec fn stored_from(
    rows: Seq<linear::Row>,
    fills: spec_fn(int, int) -> bool,
    w: int,
    r: int,
    words: Seq<u128>,
    first: int,
    blocks: int,
) -> bool {
    forall|b: int, col: int, k: int|
        first <= b < blocks && 0 <= col < r && 0 <= k < w ==> #[trigger] stored(
            words,
            r,
            b,
            col,
            k,
        ) == solved(rows, fills, col, 0, b * w + k)
}

/// Back-substitution starts past the last slot, with nothing.
pub proof fn lemma_window_start(
    rows: Seq<linear::Row>,
    fills: spec_fn(int, int) -> bool,
    w: int,
    state: Seq<u128>,
)
    requires
        forall|col: int| 0 <= col < state.len() ==> #[trigger] state[col] == 0,
    ensures
        is_window(rows, fills, w, state, rows.len() as int),
{
    assert forall|col: int| 0 <= col < state.len() implies holds_window(
        rows,
        fills,
        w,
        #[trigger] state[col],
        col,
        rows.len() as int,
    ) by {
        assert forall|k: int| 0 <= k < w implies #[trigger] bits::bit(state[col], k) == solved(
            rows,
            fills,
            col,
            rows.len() as int,
            rows.len() + k,
        ) by {
            bits::lemma_bit_zero(k);
        }
    }
}

/// One step of back-substitution: the word of a column moves down to slot `i`.
pub proof fn lemma_shift_in(
    rows: Seq<linear::Row>,
    fills: spec_fn(int, int) -> bool,
    w: int,
    col: int,
    i: int,
    before: u128,
    shifted: u128,
    odd: bool,
    after: u128,
)
    requires
        linear::banded(rows, 0, rows.len() as int),
        0 <= i < rows.len(),
        0 < w <= 128,
        holds_window(rows, fills, w, before, col, i + 1),
        forall|k: int| w <= k ==> !#[trigger] bits::bit(rows[i].coeff, k),
        forall|k: int|
            0 <= k < w ==> #[trigger] bits::bit(shifted, k) == (1 <= k && bits::bit(before, k - 1)),
        odd == (bits::parity(shifted & rows[i].coeff) != if rows[i].coeff == 0 {
            fills(col, i)
        } else {
            bits::bit(rows[i].result as u128, col)
        }),
        forall|k: int|
            0 <= k < w ==> #[trigger] bits::bit(after, k) == if k == 0 {
                odd
            } else {
                bits::bit(shifted, k)
            },
    ensures
        holds_window(rows, fills, w, after, col, i),
{
    let f: spec_fn(int) -> bool = |q: int| fills(col, q);
    let c: u128 = rows[i].coeff;
    let above: Seq<bool> = linear::solve_from(rows, col, f, i + 1);
    let here: Seq<bool> = linear::solve_from(rows, col, f, i);
    linear::lemma_solve_from(rows, rows.len() as int, col, f, i + 1);
    assert forall|k: int| 0 <= k < w implies #[trigger] bits::bit(shifted, k) == linear::at(
        above,
        i + k,
    ) by {
        if k >= 1 {
            assert(bits::bit(before, k - 1) == solved(rows, fills, col, i + 1, i + 1 + (k - 1)));
        }
    }
    let p: spec_fn(int) -> bool = |k: int| bits::bit(shifted & c, k);
    let d: spec_fn(int) -> bool = |k: int| bits::bit(c, k) && linear::at(above, i + k);
    assert forall|k: int| 0 <= k < 128 implies #[trigger] p(k) == d(k) by {
        bits::lemma_bit_combine(shifted, c, k);
    }
    bits::lemma_xsum_ext(p, d, 128);
    if c == 0 {
        assert forall|k: int| 0 <= k < 128 implies !#[trigger] d(k) by {
            bits::lemma_bit_zero(k);
        }
        bits::lemma_xsum_false(d, 128);
    }
    assert(here == above.update(i, odd));
    assert forall|k: int| 0 <= k < w implies #[trigger] bits::bit(after, k) == solved(
        rows,
        fills,
        col,
        i,
        i + k,
    ) by {
        if k > 0 {
            assert(bits::bit(shifted, k) == linear::at(above, i + k));
        }
    }
}

/// Solving further down does not change what is solved already.
proof fn lemma_solved_above(
    rows: Seq<linear::Row>,
    fills: spec_fn(int, int) -> bool,
    col: int,
    i: int,
    m: int,
    p: int,
)
    requires
        0 <= i <= m <= p,
    ensures
        solved(rows, fills, col, i, p) == solved(rows, fills, col, m, p),
    decreases m - i,
{
    if i < m {
        linear::lemma_solve_len(rows, col, |q: int| fills(col, q), i + 1);
        lemma_solved_above(rows, fills, col, i + 1, m, p);
    }
}

/// The state at the first slot of a block is the block.
pub proof fn lemma_store_block(
    rows: Seq<linear::Row>,
    fills: spec_fn(int, int) -> bool,
    w: int,
    r: int,
    before: Seq<u128>,
    words: Seq<u128>,
    state: Seq<u128>,
    b: int,
    blocks: int,
)
    requires
        0 < w,
        0 <= b < blocks,
        state.len() == r,
        words.len() == blocks * r,
        before.len() == blocks * r,
        is_window(rows, fills, w, state, b * w),
        stored_from(rows, fills, w, r, before, b + 1, blocks),
        forall|m: int| b * r <= m < b * r + r ==> #[trigger] words[m] == state[m - b * r],
        forall|m: int| b * r + r <= m < words.len() ==> #[trigger] words[m] == before[m],
    ensures
        stored_from(rows, fills, w, r, words, b, blocks),
{
    assert forall|c: int, col: int, k: int|
        b <= c < blocks && 0 <= col < r && 0 <= k < w implies #[trigger] stored(words, r, c, col, k)
        == solved(rows, fills, col, 0, c * w + k) by {
        assert(c * r + r <= blocks * r) by (nonlinear_arith)
            requires
                c + 1 <= blocks,
                0 <= r,
        ;
        if c == b {
            assert(0 <= b * w) by (nonlinear_arith)
                requires
                    0 <= b,
                    0 < w,
            ;
            assert(words[b * r + col] == state[col]);
            assert(bits::bit(state[col], k) == solved(rows, fills, col, b * w, b * w + k));
            lemma_solved_above(rows, fills, col, 0, b * w, b * w + k);
        } else {
            assert(b * r + r <= c * r) by (nonlinear_arith)
                requires
                    b + 1 <= c,
                    0 <= r,
            ;
            assert(words[c * r + col] == before[c * r + col]);
            assert(stored(before, r, c, col, k) == solved(rows, fills, col, 0, c * w + k));
        }
    }
}

/// When all blocks are stored, the words are the solution.
pub proof fn lemma_encodes(
    rows: Seq<linear::Row>,
    fills: spec_fn(int, int) -> bool,
    w: int,
    r: int,
    words: Seq<u128>,
    blocks: int,
)
    requires
        0 < w,
        0 <= r,
        0 <= blocks,
        rows.len() == blocks * w,
        words.len() == blocks * r,
        linear::banded(rows, 0, rows.len() as int),
        stored_from(rows, fills, w, r, words, 0, blocks),
    ensures
        encodes(rows, fills, w, r, words),
{
    div_mod::lemma_div_by_multiple(blocks, w);
    assert forall|col: int| 0 <= col < r implies #[trigger] encodes_column(
        rows,
        fills,
        w,
        r,
        words,
        col,
    ) by {
        let f: spec_fn(int) -> bool = |q: int| fills(col, q);
        let x: Seq<bool> = linear::solve_from(rows, col, f, 0);
        linear::lemma_solve_from(rows, rows.len() as int, col, f, 0);
        div_mod::lemma_div_by_multiple(blocks, r);
        assert(column(words, w, r, col) =~= x) by {
            assert forall|p: int| 0 <= p < x.len() implies #[trigger] x[p] == column(
                words,
                w,
                r,
                col,
            )[p] by {
                let b: int = p / w;
                let k: int = p % w;
                div_mod::lemma_fundamental_div_mod(p, w);
                div_mod::lemma_mod_bound(p, w);
                div_mod::lemma_div_pos_is_pos(p, w);
                mul::lemma_mul_is_commutative(w, b);
                assert(b < blocks) by (nonlinear_arith)
                    requires
                        b * w + k < blocks * w,
                        0 <= k,
                        0 < w,
                ;
                assert(stored(words, r, b, col, k) == solved(rows, fills, col, 0, b * w + k));
            }
        }
    }
}

/// Bands of the same equations are solved by the same words.
pub proof fn lemma_same_encoding(
    a: Seq<linear::Row>,
    ea: Seq<linear::Equation>,
    b: Seq<linear::Row>,
    eb: Seq<linear::Equation>,
    n: int,
    fills: spec_fn(int, int) -> bool,
    w: int,
    r: int,
    words: Seq<u128>,
)
    requires
        linear::banded(a, 0, n),
        linear::banded(b, 0, n),
        a.len() == b.len(),
        linear::equivalent(a, ea),
        linear::equivalent(b, eb),
        linear::same_equations(ea, eb),
        encodes(a, fills, w, r, words),
    ensures
        encodes(b, fills, w, r, words),
{
    assert forall|col: int| 0 <= col < r implies #[trigger] encodes_column(
        b,
        fills,
        w,
        r,
        words,
        col,
    ) by {
        assert(encodes_column(a, fills, w, r, words, col));
        linear::lemma_same_solution(
            a,
            ea,
            b,
            eb,
            n,
            col,
            |p: int| fills(col, p),
            column(words, w, r, col),
        );
    }
}

/// A band is solved by no more than one list of words.
pub proof fn lemma_encoding_unique(
    rows: Seq<linear::Row>,
    n: int,
    fills: spec_fn(int, int) -> bool,
    w: int,
    r: int,
    u: Seq<u128>,
    v: Seq<u128>,
)
    requires
        linear::banded(rows, 0, n),
        0 < w <= 128,
        0 <= r,
        encodes(rows, fills, w, r, u),
        encodes(rows, fills, w, r, v),
        forall|m: int, k: int| 0 <= m < u.len() && w <= k ==> !#[trigger] bits::bit(u[m], k),
        forall|m: int, k: int| 0 <= m < v.len() && w <= k ==> !#[trigger] bits::bit(v[m], k),
    ensures
        u == v,
{
    let blocks: int = rows.len() as int / w;
    assert forall|m: int| 0 <= m < u.len() implies #[trigger] u[m] == v[m] by {
        assert(0 < r) by (nonlinear_arith)
            requires
                0 <= r,
                0 <= m < blocks * r,
        ;
        let b: int = m / r;
        let col: int = m % r;
        div_mod::lemma_fundamental_div_mod(m, r);
        div_mod::lemma_mod_bound(m, r);
        div_mod::lemma_div_pos_is_pos(m, r);
        mul::lemma_mul_is_commutative(r, b);
        assert(b < blocks) by (nonlinear_arith)
            requires
                b * r + col < blocks * r,
                0 <= col,
                0 < r,
        ;
        lemma_block_index(b, r, blocks);
        assert((b + 1) * r == b * r + r) by (nonlinear_arith);
        assert(encodes_column(rows, fills, w, r, u, col));
        assert(encodes_column(rows, fills, w, r, v, col));
        linear::lemma_solution_unique(
            rows,
            n,
            col,
            |p: int| fills(col, p),
            column(u, w, r, col),
            column(v, w, r, col),
        );
        assert forall|k: int| 0 <= k < 128 implies #[trigger] bits::bit(u[m], k) == bits::bit(
            v[m],
            k,
        ) by {
            if k < w {
                lemma_column_at(u, w, r, col, b, k);
                lemma_column_at(v, w, r, col, b, k);
            }
        }
        bits::lemma_bit_ext(u[m], v[m]);
    }
    assert(u =~= v);
}

} // verus!
