//! Banded linear systems over GF(2).
//!
//! A ribbon filter is the solution of a system with one unknown bit per slot and column. Each key
//! contributes one equation: the bits of its coefficient row select a short run of slots, and the
//! selected unknowns sum to a bit of its result row. Banding brings such equations to echelon
//! form, one row per slot, and back-substitution solves the result.
//!
//! The solution does not depend on the order in which the equations are banded. The proof goes
//! through solution sets: a band has the same solutions as the equations it was made from, and
//! the set of solutions determines both which slots are free and the solution itself.

use crate::bits;
use vstd::prelude::*;

verus! {

/// A row of a band: coefficients, bit `k` of them for the slot `k` places past the row's own, and
/// one result bit per column. A row without coefficients is an empty slot.
pub struct Row {
    pub coeff: u128,
    pub result: u32,
}

/// The equation that `key` contributes: `row`, placed at slot `at`.
pub struct Equation {
    pub key: u64,
    pub at: int,
    pub row: Row,
}

/// Slot `p` of an assignment; false outside it.
pub open spec fn at(x: Seq<bool>, p: int) -> bool {
    0 <= p < x.len() && x[p]
}

/// The sum of the slots of `x` that `c`, placed at slot `p`, selects.
pub open spec fn dot(c: u128, x: Seq<bool>, p: int) -> bool {
    bits::xsum(|k: int| bits::bit(c, k) && at(x, p + k), 128)
}

/// Column `col` of `row`, placed at slot `p`, holds of the assignment `x`.
pub open spec fn holds(row: Row, p: int, col: int, x: Seq<bool>) -> bool {
    dot(row.coeff, x, p) == bits::bit(row.result as u128, col)
}

/// Column `col` of every occupied row holds of `x`; the rows start at slot `base`.
pub open spec fn satisfies(rows: Seq<Row>, base: int, col: int, x: Seq<bool>) -> bool {
    forall|p: int|
        0 <= p < rows.len() && rows[p].coeff != 0 ==> holds(#[trigger] rows[p], base + p, col, x)
}

/// Column `col` of every equation holds of `x`.
pub open spec fn all_hold(eqs: Seq<Equation>, col: int, x: Seq<bool>) -> bool {
    forall|i: int| 0 <= i < eqs.len() ==> holds((#[trigger] eqs[i]).row, eqs[i].at, col, x)
}

/// The coefficients `c`, placed at slot `p`, select no slot past `n`.
pub open spec fn fits(c: u128, p: int, n: int) -> bool {
    forall|k: int| #[trigger] bits::bit(c, k) ==> p + k < n
}

/// Every equation has its first coefficient set and stays within `n` slots.
pub open spec fn placed(eqs: Seq<Equation>, n: int) -> bool {
    forall|i: int|
        0 <= i < eqs.len() ==> 0 <= (#[trigger] eqs[i]).at && bits::bit(eqs[i].row.coeff, 0) && fits(
            eqs[i].row.coeff,
            eqs[i].at,
            n,
        )
}

/// The form that banding keeps: an occupied row has its first coefficient set, no row selects a
/// slot past `n`, and an empty slot has no result.
pub open spec fn banded(rows: Seq<Row>, base: int, n: int) -> bool {
    forall|p: int|
        0 <= p < rows.len() ==> if (#[trigger] rows[p]).coeff == 0 {
            rows[p].result == 0
        } else {
            bits::bit(rows[p].coeff, 0) && fits(rows[p].coeff, base + p, n)
        }
}

/// A band without rows.
pub open spec fn empty_rows(n: nat) -> Seq<Row> {
    Seq::new(n, |i: int| Row { coeff: 0, result: 0 })
}

/// What becomes of a row that is reduced by a band.
pub enum Outcome {
    /// It came to an empty slot, reduced to these coefficients and this result.
    Stored { slot: int, row: Row },
    /// Its coefficients vanished and left this result.
    Redundant { result: u32 },
    /// It left the band.
    Escaped,
}

/// Gaussian reduction of a row, placed at slot `i` of the band, by the rows of the band.
pub open spec fn reduce(rows: Seq<Row>, i: int, c: u128, r: u32) -> Outcome
    decreases rows.len() - i,
{
    if c == 0 {
        Outcome::Redundant { result: r }
    } else if i < 0 || i >= rows.len() {
        Outcome::Escaped
    } else if !bits::bit(c, 0) {
        reduce(rows, i + 1, c >> 1u128, r)
    } else if rows[i].coeff == 0 {
        Outcome::Stored { slot: i, row: Row { coeff: c, result: r } }
    } else {
        reduce(rows, i + 1, (c ^ rows[i].coeff) >> 1u128, r ^ rows[i].result)
    }
}

/// A band in the making: its rows, the keys whose rows left it, in order, and whether every row
/// was consistent with those before it.
pub struct Progress {
    pub rows: Seq<Row>,
    pub escaped: Seq<u64>,
    pub consistent: bool,
}

/// A band before its first equation.
pub open spec fn begin(rows: Seq<Row>) -> Progress {
    Progress { rows, escaped: seq![], consistent: true }
}

/// One more equation. Nothing happens once an inconsistency has been met.
pub open spec fn step(s: Progress, base: int, eq: Equation) -> Progress {
    if !s.consistent {
        s
    } else {
        match reduce(s.rows, eq.at - base, eq.row.coeff, eq.row.result) {
            Outcome::Stored { slot, row } => Progress { rows: s.rows.update(slot, row), ..s },
            Outcome::Redundant { result } => Progress { consistent: result == 0, ..s },
            Outcome::Escaped => Progress { escaped: s.escaped.push(eq.key), ..s },
        }
    }
}

/// The equations `eqs`, banded one after the other into `rows`, which start at slot `base`.
pub open spec fn band(rows: Seq<Row>, base: int, eqs: Seq<Equation>) -> Progress
    decreases eqs.len(),
{
    if eqs.len() == 0 {
        begin(rows)
    } else {
        step(band(rows, base, eqs.drop_last()), base, eqs.last())
    }
}

/// The equations of `eqs` that stayed in the band.
pub open spec fn kept(rows: Seq<Row>, base: int, eqs: Seq<Equation>) -> Seq<Equation>
    decreases eqs.len(),
{
    if eqs.len() == 0 {
        seq![]
    } else {
        let before: Progress = band(rows, base, eqs.drop_last());
        if step(before, base, eqs.last()).escaped == before.escaped {
            kept(rows, base, eqs.drop_last()).push(eqs.last())
        } else {
            kept(rows, base, eqs.drop_last())
        }
    }
}

/// The solution of a band in column `col` that gives each empty slot `p` the bit `fill(p)`.
pub open spec fn is_solution(
    rows: Seq<Row>,
    col: int,
    fill: spec_fn(int) -> bool,
    x: Seq<bool>,
) -> bool {
    &&& x.len() == rows.len()
    &&& forall|p: int|
        0 <= p < rows.len() ==> if (#[trigger] rows[p]).coeff == 0 {
            x[p] == fill(p)
        } else {
            holds(rows[p], p, col, x)
        }
}

/// The solution above slot `i`, with nothing in the slots before.
pub open spec fn solve_from(
    rows: Seq<Row>,
    col: int,
    fill: spec_fn(int) -> bool,
    i: int,
) -> Seq<bool>
    decreases rows.len() - i,
{
    if i < 0 || i >= rows.len() {
        Seq::new(rows.len(), |p: int| false)
    } else {
        let above: Seq<bool> = solve_from(rows, col, fill, i + 1);
        let value: bool = if rows[i].coeff == 0 {
            fill(i)
        } else {
            dot(rows[i].coeff, above, i) != bits::bit(rows[i].result as u128, col)
        };
        above.update(i, value)
    }
}

/// Rows and equations with the same solutions, in every column.
pub open spec fn equivalent(rows: Seq<Row>, eqs: Seq<Equation>) -> bool {
    forall|col: int, x: Seq<bool>|
        #![trigger satisfies(rows, 0, col, x)]
        #![trigger all_hold(eqs, col, x)]
        satisfies(rows, 0, col, x) <==> all_hold(eqs, col, x)
}

/// The two lists hold the same equations, whatever their order and number.
pub open spec fn same_equations(a: Seq<Equation>, b: Seq<Equation>) -> bool {
    forall|e: Equation| #[trigger] a.contains(e) <==> b.contains(e)
}

/// The system can be solved in every column of the result.
pub open spec fn solvable(eqs: Seq<Equation>) -> bool {
    forall|col: int| 0 <= col < 32 ==> #[trigger] solvable_in(eqs, col)
}

pub open spec fn solvable_in(eqs: Seq<Equation>, col: int) -> bool {
    exists|x: Seq<bool>| all_hold(eqs, col, x)
}

proof fn lemma_dot_zero(x: Seq<bool>, p: int)
    ensures
        !dot(0, x, p),
{
    let f: spec_fn(int) -> bool = |k: int| bits::bit(0, k) && at(x, p + k);
    assert forall|k: int| 0 <= k < 128 implies !#[trigger] f(k) by {
        bits::lemma_bit_zero(k);
    }
    bits::lemma_xsum_false(f, 128);
}

proof fn lemma_dot_xor(c: u128, d: u128, x: Seq<bool>, p: int)
    ensures
        dot(c ^ d, x, p) == (dot(c, x, p) != dot(d, x, p)),
{
    let f: spec_fn(int) -> bool = |k: int| bits::bit(c, k) && at(x, p + k);
    let g: spec_fn(int) -> bool = |k: int| bits::bit(d, k) && at(x, p + k);
    let h: spec_fn(int) -> bool = |k: int| bits::bit(c ^ d, k) && at(x, p + k);
    assert forall|k: int| 0 <= k < 128 implies #[trigger] h(k) == (f(k) != g(k)) by {
        bits::lemma_bit_combine(c, d, k);
    }
    bits::lemma_xsum_xor(f, g, h, 128);
}

proof fn lemma_dot_shift(c: u128, x: Seq<bool>, p: int)
    requires
        !bits::bit(c, 0),
    ensures
        dot(c >> 1u128, x, p + 1) == dot(c, x, p),
{
    let f: spec_fn(int) -> bool = |k: int| bits::bit(c, k) && at(x, p + k);
    let g: spec_fn(int) -> bool = |k: int| bits::bit(c >> 1u128, k) && at(x, p + 1 + k);
    let t: spec_fn(int) -> bool = |k: int| f(1 + k);
    bits::lemma_xsum_split(f, 1, 127);
    assert(bits::xsum(f, 1) == (bits::xsum(f, 0) != f(0)));
    bits::lemma_bit_shr_one(c, 127);
    bits::lemma_xsum_trim(g, 127, 128);
    assert forall|k: int| 0 <= k < 127 implies #[trigger] t(k) == g(k) by {
        bits::lemma_bit_shr_one(c, k);
    }
    bits::lemma_xsum_ext(t, g, 127);
}

/// Slots before `p` do not matter to a row placed at `p`.
proof fn lemma_dot_ext(c: u128, x: Seq<bool>, y: Seq<bool>, p: int)
    requires
        forall|q: int| p <= q ==> #[trigger] at(x, q) == at(y, q),
    ensures
        dot(c, x, p) == dot(c, y, p),
{
    let f: spec_fn(int) -> bool = |k: int| bits::bit(c, k) && at(x, p + k);
    let g: spec_fn(int) -> bool = |k: int| bits::bit(c, k) && at(y, p + k);
    assert forall|k: int| 0 <= k < 128 implies #[trigger] f(k) == g(k) by {
        assert(at(x, p + k) == at(y, p + k));
    }
    bits::lemma_xsum_ext(f, g, 128);
}

/// A row whose first coefficient is set sums to its own slot and the later ones.
proof fn lemma_dot_first(c: u128, x: Seq<bool>, y: Seq<bool>, p: int)
    requires
        bits::bit(c, 0),
        forall|q: int| p < q ==> #[trigger] at(x, q) == at(y, q),
    ensures
        (dot(c, x, p) == dot(c, y, p)) <==> at(x, p) == at(y, p),
{
    let f: spec_fn(int) -> bool = |k: int| bits::bit(c, k) && at(x, p + k);
    let g: spec_fn(int) -> bool = |k: int| bits::bit(c, k) && at(y, p + k);
    let ft: spec_fn(int) -> bool = |k: int| f(1 + k);
    let gt: spec_fn(int) -> bool = |k: int| g(1 + k);
    bits::lemma_xsum_split(f, 1, 127);
    bits::lemma_xsum_split(g, 1, 127);
    assert(bits::xsum(f, 1) == (bits::xsum(f, 0) != f(0)));
    assert(bits::xsum(g, 1) == (bits::xsum(g, 0) != g(0)));
    assert forall|k: int| 0 <= k < 127 implies #[trigger] ft(k) == gt(k) by {
        assert(at(x, p + (1 + k)) == at(y, p + (1 + k)));
    }
    bits::lemma_xsum_ext(ft, gt, 127);
}

proof fn lemma_result_xor(a: u32, b: u32, col: int)
    ensures
        bits::bit((a ^ b) as u128, col) == (bits::bit(a as u128, col) != bits::bit(b as u128, col)),
{
    assert((a ^ b) as u128 == (a as u128) ^ (b as u128)) by (bit_vector);
    bits::lemma_bit_combine(a as u128, b as u128, col);
}

/// The columns past the last one have no results: they are the system with zero on the right.
pub proof fn lemma_no_result(r: u32, col: int)
    requires
        32 <= col,
    ensures
        !bits::bit(r as u128, col),
{
    if col < 128 {
        let j: u128 = col as u128;
        assert(((r as u128) >> j) & 1u128 != 1u128) by (bit_vector)
            requires
                32 <= j < 128,
        ;
    }
}

proof fn lemma_fits_shift(c: u128, p: int, n: int)
    requires
        fits(c, p, n),
    ensures
        fits(c >> 1u128, p + 1, n),
{
    assert forall|k: int| #[trigger] bits::bit(c >> 1u128, k) implies p + 1 + k < n by {
        bits::lemma_bit_shr_one(c, k);
        assert(bits::bit(c, k + 1));
    }
}

pub proof fn lemma_fits_shr(c: u128, p: int, n: int, t: u128)
    requires
        fits(c, p, n),
        t < 128,
    ensures
        fits(c >> t, p + t, n),
{
    assert forall|k: int| #[trigger] bits::bit(c >> t, k) implies p + t + k < n by {
        bits::lemma_bit_shr(c, t, k);
        assert(bits::bit(c, k + t));
    }
}

/// A row whose first coefficient is set is placed at a slot of its own.
pub proof fn lemma_fits_here(c: u128, p: int, n: int)
    requires
        fits(c, p, n),
        bits::bit(c, 0),
    ensures
        p < n,
{
    assert(p + 0 < n);
}

pub proof fn lemma_fits_xor(c: u128, d: u128, p: int, n: int)
    requires
        fits(c, p, n),
        fits(d, p, n),
    ensures
        fits(c ^ d, p, n),
{
    assert forall|k: int| #[trigger] bits::bit(c ^ d, k) implies p + k < n by {
        bits::lemma_bit_combine(c, d, k);
    }
}

/// Where a reduction ends: in an empty slot, with the form that banding keeps; or outside the
/// band, which a band of all `n` slots rules out.
pub proof fn lemma_reduce_form(rows: Seq<Row>, base: int, n: int, i: int, c: u128, r: u32)
    requires
        banded(rows, base, n),
        fits(c, base + i, n),
        0 <= i,
    ensures
        match reduce(rows, i, c, r) {
            Outcome::Stored { slot, row } => {
                &&& i <= slot < rows.len()
                &&& rows[slot].coeff == 0
                &&& row.coeff != 0
                &&& bits::bit(row.coeff, 0)
                &&& fits(row.coeff, base + slot, n)
            },
            Outcome::Redundant { result } => true,
            Outcome::Escaped => base + rows.len() < n,
        },
    decreases rows.len() - i,
{
    if c == 0 {
    } else if i >= rows.len() {
        let k: int = bits::lemma_bit_witness(c);
        assert(base + i + k < n);
    } else if !bits::bit(c, 0) {
        lemma_fits_shift(c, base + i, n);
        lemma_reduce_form(rows, base, n, i + 1, c >> 1u128, r);
    } else if rows[i].coeff != 0 {
        lemma_fits_xor(c, rows[i].coeff, base + i, n);
        lemma_fits_shift(c ^ rows[i].coeff, base + i, n);
        lemma_reduce_form(
            rows,
            base,
            n,
            i + 1,
            (c ^ rows[i].coeff) >> 1u128,
            r ^ rows[i].result,
        );
    }
}

/// A reduction keeps the meaning of the row, for every assignment that the band admits.
pub proof fn lemma_reduce_meaning(
    rows: Seq<Row>,
    base: int,
    n: int,
    i: int,
    c: u128,
    r: u32,
    col: int,
    x: Seq<bool>,
)
    requires
        banded(rows, base, n),
        0 <= i,
        satisfies(rows, base, col, x),
    ensures
        match reduce(rows, i, c, r) {
            Outcome::Stored { slot, row } => holds(Row { coeff: c, result: r }, base + i, col, x)
                <==> holds(row, base + slot, col, x),
            Outcome::Redundant { result } => holds(Row { coeff: c, result: r }, base + i, col, x)
                <==> !bits::bit(result as u128, col),
            Outcome::Escaped => true,
        },
    decreases rows.len() - i,
{
    if c == 0 {
        lemma_dot_zero(x, base + i);
    } else if i >= rows.len() {
    } else if !bits::bit(c, 0) {
        lemma_dot_shift(c, x, base + i);
        lemma_reduce_meaning(rows, base, n, i + 1, c >> 1u128, r, col, x);
    } else if rows[i].coeff != 0 {
        let d: u128 = c ^ rows[i].coeff;
        lemma_dot_xor(c, rows[i].coeff, x, base + i);
        lemma_result_xor(r, rows[i].result, col);
        assert(holds(rows[i], base + i, col, x));
        bits::lemma_bit_combine(c, rows[i].coeff, 0);
        lemma_dot_shift(d, x, base + i);
        lemma_reduce_meaning(rows, base, n, i + 1, d >> 1u128, r ^ rows[i].result, col, x);
    }
}

/// A reduction passes over the leading zeros of a row.
pub proof fn lemma_reduce_skip(rows: Seq<Row>, i: int, c: u128, r: u32, t: u128)
    requires
        0 <= i,
        t < 128,
        c >> t != 0,
        forall|k: int| 0 <= k < t ==> !#[trigger] bits::bit(c, k),
    ensures
        reduce(rows, i, c, r) == reduce(rows, i + t, c >> t, r),
    decreases t,
{
    bits::lemma_shr_parts(c, t);
    if t > 0 {
        let u: u128 = (t - 1) as u128;
        bits::lemma_shr_parts(c >> u, 1);
        lemma_reduce_skip(rows, i, c, r, u);
        bits::lemma_bit_shr(c, u, 0);
        assert(!bits::bit(c, u as int));
    }
}

/// One elimination: the row at an occupied slot is added, and the reduction goes on at the next
/// coefficient that is left.
pub proof fn lemma_reduce_eliminate(rows: Seq<Row>, i: int, c: u128, r: u32, t: u128)
    requires
        0 <= i < rows.len(),
        bits::bit(c, 0),
        rows[i].coeff != 0,
        bits::bit(rows[i].coeff, 0),
        c ^ rows[i].coeff != 0 ==> t < 128 && bits::bit(c ^ rows[i].coeff, t as int),
        forall|k: int| 0 <= k < t ==> !#[trigger] bits::bit(c ^ rows[i].coeff, k),
    ensures
        c != 0,
        c ^ rows[i].coeff == 0 ==> reduce(rows, i, c, r) == (Outcome::Redundant {
            result: r ^ rows[i].result,
        }),
        c ^ rows[i].coeff != 0 ==> 0 < t && reduce(rows, i, c, r) == reduce(
            rows,
            i + t,
            (c ^ rows[i].coeff) >> t,
            r ^ rows[i].result,
        ),
{
    bits::lemma_bit_zero(0);
    let d: u128 = c ^ rows[i].coeff;
    bits::lemma_bit_combine(c, rows[i].coeff, 0);
    if d == 0 {
        bits::lemma_shr_parts(0, 1);
        assert(reduce(rows, i + 1, 0, r ^ rows[i].result) == (Outcome::Redundant {
            result: r ^ rows[i].result,
        }));
    } else {
        bits::lemma_bit_shr(d, t, 0);
        bits::lemma_bit_zero(0);
        let u: u128 = (t - 1) as u128;
        bits::lemma_shr_parts(d, t);
        assert forall|k: int| 0 <= k < u implies !#[trigger] bits::bit(d >> 1u128, k) by {
            bits::lemma_bit_shr_one(d, k);
            assert(!bits::bit(d, k + 1));
        }
        lemma_reduce_skip(rows, i + 1, d >> 1u128, r ^ rows[i].result, u);
    }
}

/// Where a reduction ends at once: a row whose first coefficient is set is stored, as it is, at an
/// empty slot; past the end of the band it leaves it; and without coefficients it is redundant. At
/// an occupied slot it goes on, as [`lemma_reduce_eliminate`] says.
pub proof fn lemma_reduce_ends(rows: Seq<Row>, i: int, c: u128, r: u32)
    requires
        0 <= i,
    ensures
        i < rows.len() && c % 2 == 1 && rows[i].coeff == 0 ==> reduce(rows, i, c, r) == (
        Outcome::Stored { slot: i, row: Row { coeff: c, result: r } }),
        i >= rows.len() && c != 0 ==> reduce(rows, i, c, r) == Outcome::Escaped,
        reduce(rows, i, 0, r) == (Outcome::Redundant { result: r }),
{
    bits::lemma_shr_parts(c, 0);
    assert((c & 1u128 == 1u128) == (c % 2 == 1)) by (bit_vector);
}

/// Banding one more equation keeps the form of the rows.
pub proof fn lemma_step_form(s: Progress, base: int, n: int, eq: Equation)
    requires
        banded(s.rows, base, n),
        base <= eq.at,
        fits(eq.row.coeff, eq.at, n),
    ensures
        step(s, base, eq).rows.len() == s.rows.len(),
        banded(step(s, base, eq).rows, base, n),
        base + s.rows.len() >= n ==> step(s, base, eq).escaped == s.escaped,
{
    lemma_reduce_form(s.rows, base, n, eq.at - base, eq.row.coeff, eq.row.result);
}

/// The rows after one more equation say what the rows before said, and the equation besides,
/// unless it left the band.
pub proof fn lemma_step_meaning(
    s: Progress,
    base: int,
    n: int,
    eq: Equation,
    col: int,
    x: Seq<bool>,
)
    requires
        banded(s.rows, base, n),
        base <= eq.at,
        fits(eq.row.coeff, eq.at, n),
        s.consistent,
        step(s, base, eq).consistent,
    ensures
        step(s, base, eq).escaped == s.escaped ==> (satisfies(step(s, base, eq).rows, base, col, x)
            <==> satisfies(s.rows, base, col, x) && holds(eq.row, eq.at, col, x)),
        step(s, base, eq).escaped != s.escaped ==> step(s, base, eq).rows == s.rows,
{
    let i: int = eq.at - base;
    let rows: Seq<Row> = s.rows;
    lemma_reduce_form(rows, base, n, i, eq.row.coeff, eq.row.result);
    assert(eq.row == Row { coeff: eq.row.coeff, result: eq.row.result });
    match reduce(rows, i, eq.row.coeff, eq.row.result) {
        Outcome::Stored { slot, row } => {
            let next: Seq<Row> = rows.update(slot, row);
            if satisfies(next, base, col, x) {
                assert forall|p: int| 0 <= p < rows.len() && rows[p].coeff != 0 implies holds(
                    #[trigger] rows[p],
                    base + p,
                    col,
                    x,
                ) by {
                    assert(next[p] == rows[p]);
                }
                assert(next[slot] == row);
                lemma_reduce_meaning(rows, base, n, i, eq.row.coeff, eq.row.result, col, x);
            }
            if satisfies(rows, base, col, x) && holds(eq.row, eq.at, col, x) {
                lemma_reduce_meaning(rows, base, n, i, eq.row.coeff, eq.row.result, col, x);
                assert forall|p: int| 0 <= p < next.len() && next[p].coeff != 0 implies holds(
                    #[trigger] next[p],
                    base + p,
                    col,
                    x,
                ) by {
                    if p != slot {
                        assert(next[p] == rows[p]);
                    }
                }
            }
        },
        Outcome::Redundant { result } => {
            bits::lemma_bit_zero(col);
            if satisfies(rows, base, col, x) {
                lemma_reduce_meaning(rows, base, n, i, eq.row.coeff, eq.row.result, col, x);
            }
        },
        Outcome::Escaped => {
            assert(s.escaped.push(eq.key).len() != s.escaped.len());
        },
    }
}

/// An equation that makes a band inconsistent contradicts its rows in some column.
pub proof fn lemma_step_conflict(s: Progress, base: int, n: int, eq: Equation) -> (col: int)
    requires
        banded(s.rows, base, n),
        base <= eq.at,
        s.consistent,
        !step(s, base, eq).consistent,
    ensures
        0 <= col < 32,
        forall|x: Seq<bool>| #[trigger]
            satisfies(s.rows, base, col, x) ==> !holds(eq.row, eq.at, col, x),
{
    let i: int = eq.at - base;
    let r: u32 = reduce(s.rows, i, eq.row.coeff, eq.row.result)->Redundant_result;
    assert(r as u128 != 0);
    let col: int = bits::lemma_bit_witness(r as u128);
    if col >= 32 {
        lemma_no_result(r, col);
    }
    assert(eq.row == Row { coeff: eq.row.coeff, result: eq.row.result });
    assert forall|x: Seq<bool>| #[trigger] satisfies(s.rows, base, col, x) implies !holds(
        eq.row,
        eq.at,
        col,
        x,
    ) by {
        lemma_reduce_meaning(s.rows, base, n, i, eq.row.coeff, eq.row.result, col, x);
    }
    col
}

/// Equations without a result are always consistent.
pub proof fn lemma_step_homogeneous(s: Progress, base: int, n: int, eq: Equation)
    requires
        forall|p: int| 0 <= p < s.rows.len() ==> (#[trigger] s.rows[p]).result == 0,
        eq.row.result == 0,
        s.consistent,
        base <= eq.at,
    ensures
        step(s, base, eq).consistent,
        forall|p: int|
            0 <= p < s.rows.len() ==> (#[trigger] step(s, base, eq).rows[p]).result == 0,
        step(s, base, eq).rows.len() == s.rows.len(),
{
    let next: Progress = step(s, base, eq);
    lemma_reduce_homogeneous(s.rows, eq.at - base, eq.row.coeff);
}

proof fn lemma_reduce_homogeneous(rows: Seq<Row>, i: int, c: u128)
    requires
        forall|p: int| 0 <= p < rows.len() ==> (#[trigger] rows[p]).result == 0,
    ensures
        match reduce(rows, i, c, 0) {
            Outcome::Stored { slot, row } => 0 <= slot < rows.len() && row.result == 0,
            Outcome::Redundant { result } => result == 0,
            Outcome::Escaped => true,
        },
    decreases rows.len() - i,
{
    if c == 0 || i < 0 || i >= rows.len() {
    } else if !bits::bit(c, 0) {
        lemma_reduce_homogeneous(rows, i + 1, c >> 1u128);
    } else if rows[i].coeff != 0 {
        assert(0u32 ^ 0u32 == 0u32) by (bit_vector);
        lemma_reduce_homogeneous(rows, i + 1, (c ^ rows[i].coeff) >> 1u128);
    }
}

/// Banding a single equation.
pub proof fn lemma_band_one(rows: Seq<Row>, base: int, eq: Equation)
    ensures
        band(rows, base, seq![eq]) == step(begin(rows), base, eq),
{
    assert(seq![eq].drop_last() =~= Seq::<Equation>::empty());
    assert(band(rows, base, Seq::<Equation>::empty()) == begin(rows));
}

/// Banding keeps the form of the rows. No row leaves a band that has all `n` slots.
pub proof fn lemma_band_form(rows: Seq<Row>, base: int, n: int, eqs: Seq<Equation>)
    requires
        banded(rows, base, n),
        placed(eqs, n),
        forall|i: int| 0 <= i < eqs.len() ==> base <= (#[trigger] eqs[i]).at,
    ensures
        band(rows, base, eqs).rows.len() == rows.len(),
        banded(band(rows, base, eqs).rows, base, n),
        base + rows.len() >= n ==> band(rows, base, eqs).escaped.len() == 0 && kept(rows, base, eqs)
            == eqs,
    decreases eqs.len(),
{
    if eqs.len() > 0 {
        let front: Seq<Equation> = eqs.drop_last();
        assert forall|i: int| 0 <= i < front.len() implies 0 <= (#[trigger] front[i]).at
            && bits::bit(front[i].row.coeff, 0) && fits(front[i].row.coeff, front[i].at, n) && base
            <= front[i].at by {
            assert(front[i] == eqs[i]);
        }
        lemma_band_form(rows, base, n, front);
        assert(eqs.last() == eqs[eqs.len() - 1]);
        lemma_step_form(band(rows, base, front), base, n, eqs.last());
        if base + rows.len() >= n {
            assert(front.push(eqs.last()) =~= eqs);
        }
    }
}

/// The rows of a band have the solutions that the rows before and the equations that stayed have
/// in common.
pub proof fn lemma_band_meaning(
    rows: Seq<Row>,
    base: int,
    n: int,
    eqs: Seq<Equation>,
    col: int,
    x: Seq<bool>,
)
    requires
        banded(rows, base, n),
        placed(eqs, n),
        forall|i: int| 0 <= i < eqs.len() ==> base <= (#[trigger] eqs[i]).at,
        band(rows, base, eqs).consistent,
    ensures
        satisfies(band(rows, base, eqs).rows, base, col, x) <==> satisfies(rows, base, col, x)
            && all_hold(kept(rows, base, eqs), col, x),
    decreases eqs.len(),
{
    if eqs.len() > 0 {
        let front: Seq<Equation> = eqs.drop_last();
        assert forall|i: int| 0 <= i < front.len() implies 0 <= (#[trigger] front[i]).at
            && bits::bit(front[i].row.coeff, 0) && fits(front[i].row.coeff, front[i].at, n) && base
            <= front[i].at by {
            assert(front[i] == eqs[i]);
        }
        assert(eqs.last() == eqs[eqs.len() - 1]);
        lemma_band_form(rows, base, n, front);
        lemma_band_meaning(rows, base, n, front, col, x);
        lemma_step_meaning(band(rows, base, front), base, n, eqs.last(), col, x);
        let k: Seq<Equation> = kept(rows, base, front);
        let all: Seq<Equation> = k.push(eqs.last());
        assert(all_hold(all, col, x) <==> all_hold(k, col, x) && holds(
            eqs.last().row,
            eqs.last().at,
            col,
            x,
        )) by {
            if all_hold(all, col, x) {
                assert(all[k.len() as int] == eqs.last());
                assert forall|i: int| 0 <= i < k.len() implies holds(
                    (#[trigger] k[i]).row,
                    k[i].at,
                    col,
                    x,
                ) by {
                    assert(all[i] == k[i]);
                }
            }
        }
    }
}

/// Once inconsistent, a band stays so.
pub proof fn lemma_consistent_before(rows: Seq<Row>, base: int, eqs: Seq<Equation>, i: int)
    requires
        band(rows, base, eqs).consistent,
        0 <= i <= eqs.len(),
    ensures
        band(rows, base, eqs.take(i)).consistent,
    decreases eqs.len() - i,
{
    if i < eqs.len() {
        lemma_consistent_before(rows, base, eqs, i + 1);
        assert(eqs.take(i + 1).drop_last() =~= eqs.take(i));
    } else {
        assert(eqs.take(i) =~= eqs);
    }
}

/// Banding equation number `i`, after a consistent start: the band before it has the form that
/// banding keeps, and the equation does to it what it does to a band of these rows alone.
pub proof fn lemma_band_next(rows: Seq<Row>, base: int, n: int, eqs: Seq<Equation>, i: int)
    requires
        banded(rows, base, n),
        placed(eqs, n),
        forall|j: int| 0 <= j < eqs.len() ==> base <= (#[trigger] eqs[j]).at,
        0 <= i < eqs.len(),
        band(rows, base, eqs.take(i)).consistent,
    ensures
        ({
            let before: Progress = band(rows, base, eqs.take(i));
            let next: Progress = band(rows, base, eqs.take(i + 1));
            let alone: Progress = step(begin(before.rows), base, eqs[i]);
            &&& before.rows.len() == rows.len()
            &&& banded(before.rows, base, n)
            &&& next.rows == alone.rows
            &&& next.consistent == alone.consistent
            &&& alone.escaped == Seq::<u64>::empty() ==> next.escaped == before.escaped
            &&& alone.escaped != Seq::<u64>::empty() ==> next.escaped == before.escaped.push(
                eqs[i].key,
            )
        }),
{
    let front: Seq<Equation> = eqs.take(i);
    assert(eqs.take(i + 1).drop_last() =~= front);
    assert(eqs.take(i + 1).last() == eqs[i]);
    assert forall|j: int| 0 <= j < front.len() implies 0 <= (#[trigger] front[j]).at && bits::bit(
        front[j].row.coeff,
        0,
    ) && fits(front[j].row.coeff, front[j].at, n) && base <= front[j].at by {
        assert(front[j] == eqs[j]);
    }
    lemma_band_form(rows, base, n, front);
    let before: Progress = band(rows, base, front);
    assert(begin(before.rows).escaped =~= Seq::<u64>::empty());
    assert(begin(before.rows).escaped.push(eqs[i].key).len() == 1);
}

/// Every equation stayed in the band, or its key is among those that left it; and neither holds
/// anything else.
pub proof fn lemma_band_parts(rows: Seq<Row>, base: int, eqs: Seq<Equation>)
    requires
        band(rows, base, eqs).consistent,
    ensures
        forall|e: Equation| #[trigger] kept(rows, base, eqs).contains(e) ==> eqs.contains(e),
        forall|i: int|
            0 <= i < eqs.len() ==> kept(rows, base, eqs).contains(#[trigger] eqs[i]) || band(
                rows,
                base,
                eqs,
            ).escaped.contains(eqs[i].key),
        forall|k: u64| #[trigger]
            band(rows, base, eqs).escaped.contains(k) ==> exists|i: int|
                0 <= i < eqs.len() && (#[trigger] eqs[i]).key == k,
    decreases eqs.len(),
{
    if eqs.len() > 0 {
        let front: Seq<Equation> = eqs.drop_last();
        let last: Equation = eqs.last();
        lemma_band_parts(rows, base, front);
        let k0: Seq<Equation> = kept(rows, base, front);
        let k1: Seq<Equation> = kept(rows, base, eqs);
        let e0: Seq<u64> = band(rows, base, front).escaped;
        let e1: Seq<u64> = band(rows, base, eqs).escaped;
        assert(eqs[eqs.len() - 1] == last);
        assert(k1 == k0 && e1 == e0.push(last.key) || k1 == k0.push(last) && e1 == e0);
        assert forall|e: Equation| #[trigger] k1.contains(e) implies eqs.contains(e) by {
            let j: int = choose|j: int| 0 <= j < k1.len() && k1[j] == e;
            if j < k0.len() {
                assert(k0[j] == e);
                assert(k0.contains(e));
                assert(front.contains(e));
                let m: int = choose|m: int| 0 <= m < front.len() && front[m] == e;
                assert(eqs[m] == e);
            } else {
                assert(e == last);
            }
        }
        assert forall|i: int| 0 <= i < eqs.len() implies k1.contains(#[trigger] eqs[i])
            || e1.contains(eqs[i].key) by {
            if i < front.len() {
                assert(front[i] == eqs[i]);
                if k0.contains(front[i]) {
                    let j: int = choose|j: int| 0 <= j < k0.len() && k0[j] == front[i];
                    assert(k1[j] == front[i]);
                } else {
                    let j: int = choose|j: int| 0 <= j < e0.len() && e0[j] == front[i].key;
                    assert(e1[j] == front[i].key);
                }
            } else if k1 == k0.push(last) {
                assert(k1[k0.len() as int] == last);
            } else {
                assert(e1[e0.len() as int] == last.key);
            }
        }
        assert forall|k: u64| #[trigger] e1.contains(k) implies exists|i: int|
            0 <= i < eqs.len() && (#[trigger] eqs[i]).key == k by {
            let j: int = choose|j: int| 0 <= j < e1.len() && e1[j] == k;
            if j < e0.len() {
                assert(e0[j] == k);
                assert(e0.contains(k));
                let m: int = choose|m: int| 0 <= m < front.len() && (#[trigger] front[m]).key == k;
                assert(eqs[m] == front[m]);
            }
        }
    }
}

/// Equations that cannot be banded consistently contradict each other and the rows before them in
/// some column.
pub proof fn lemma_band_conflict(rows: Seq<Row>, base: int, n: int, eqs: Seq<Equation>) -> (col:
    int)
    requires
        banded(rows, base, n),
        placed(eqs, n),
        forall|i: int| 0 <= i < eqs.len() ==> base <= (#[trigger] eqs[i]).at,
        !band(rows, base, eqs).consistent,
    ensures
        0 <= col < 32,
        forall|x: Seq<bool>| #[trigger]
            all_hold(eqs, col, x) ==> !satisfies(rows, base, col, x),
    decreases eqs.len(),
{
    let front: Seq<Equation> = eqs.drop_last();
    let before: Progress = band(rows, base, front);
    assert forall|i: int| 0 <= i < front.len() implies 0 <= (#[trigger] front[i]).at && bits::bit(
        front[i].row.coeff,
        0,
    ) && fits(front[i].row.coeff, front[i].at, n) && base <= front[i].at by {
        assert(front[i] == eqs[i]);
    }
    assert(eqs.last() == eqs[eqs.len() - 1]);
    let col: int = if before.consistent {
        lemma_band_form(rows, base, n, front);
        lemma_step_conflict(before, base, n, eqs.last())
    } else {
        lemma_band_conflict(rows, base, n, front)
    };
    assert forall|x: Seq<bool>| #[trigger] all_hold(eqs, col, x) implies !satisfies(
        rows,
        base,
        col,
        x,
    ) by {
        assert forall|i: int| 0 <= i < front.len() implies holds(
            (#[trigger] front[i]).row,
            front[i].at,
            col,
            x,
        ) by {
            assert(front[i] == eqs[i]);
        }
        assert(all_hold(front, col, x));
        if before.consistent {
            lemma_band_parts(rows, base, front);
            lemma_fewer_hold(kept(rows, base, front), front, col, x);
            lemma_band_meaning(rows, base, n, front, col, x);
        }
    }
    col
}

/// Where banding some equations fails, after a band that stands for some others, all of them
/// together cannot be solved.
pub proof fn lemma_conflict_unsolvable(
    rows: Seq<Row>,
    base: int,
    n: int,
    done: Seq<Equation>,
    eqs: Seq<Equation>,
    all: Seq<Equation>,
)
    requires
        banded(rows, base, n),
        placed(eqs, n),
        forall|i: int| 0 <= i < eqs.len() ==> base <= (#[trigger] eqs[i]).at,
        !band(rows, base, eqs).consistent,
        forall|col: int, x: Seq<bool>| #[trigger]
            all_hold(done, col, x) ==> satisfies(rows, base, col, x),
        forall|e: Equation| #[trigger] done.contains(e) ==> all.contains(e),
        forall|e: Equation| #[trigger] eqs.contains(e) ==> all.contains(e),
    ensures
        !solvable(all),
{
    let col: int = lemma_band_conflict(rows, base, n, eqs);
    if solvable(all) {
        assert(solvable_in(all, col));
        let x: Seq<bool> = choose|x: Seq<bool>| all_hold(all, col, x);
        lemma_fewer_hold(done, all, col, x);
        lemma_fewer_hold(eqs, all, col, x);
        assert(satisfies(rows, base, col, x));
    }
}

/// What holds of a list of equations holds of every list that is made of some of them.
pub proof fn lemma_fewer_hold(a: Seq<Equation>, b: Seq<Equation>, col: int, x: Seq<bool>)
    requires
        forall|e: Equation| #[trigger] a.contains(e) ==> b.contains(e),
        all_hold(b, col, x),
    ensures
        all_hold(a, col, x),
{
    assert forall|i: int| 0 <= i < a.len() implies holds(
        (#[trigger] a[i]).row,
        a[i].at,
        col,
        x,
    ) by {
        assert(a.contains(a[i]));
        let j: int = choose|j: int| 0 <= j < b.len() && b[j] == a[i];
        assert(holds(b[j].row, b[j].at, col, x));
    }
}

proof fn lemma_both_hold(a: Seq<Equation>, b: Seq<Equation>, col: int, x: Seq<bool>)
    ensures
        all_hold(a + b, col, x) <==> all_hold(a, col, x) && all_hold(b, col, x),
{
    let c: Seq<Equation> = a + b;
    if all_hold(c, col, x) {
        assert forall|i: int| 0 <= i < a.len() implies holds(
            (#[trigger] a[i]).row,
            a[i].at,
            col,
            x,
        ) by {
            assert(c[i] == a[i]);
        }
        assert forall|i: int| 0 <= i < b.len() implies holds(
            (#[trigger] b[i]).row,
            b[i].at,
            col,
            x,
        ) by {
            assert(c[a.len() + i] == b[i]);
        }
    }
}

/// Banding more equations into a band that stands for some.
pub proof fn lemma_band_more(rows: Seq<Row>, n: int, done: Seq<Equation>, eqs: Seq<Equation>)
    requires
        banded(rows, 0, n),
        rows.len() >= n,
        equivalent(rows, done),
        placed(eqs, n),
        band(rows, 0, eqs).consistent,
    ensures
        band(rows, 0, eqs).rows.len() == rows.len(),
        banded(band(rows, 0, eqs).rows, 0, n),
        equivalent(band(rows, 0, eqs).rows, done + eqs),
{
    lemma_band_form(rows, 0, n, eqs);
    let next: Seq<Row> = band(rows, 0, eqs).rows;
    assert forall|col: int, x: Seq<bool>|
        #![trigger satisfies(next, 0, col, x)]
        #![trigger all_hold(done + eqs, col, x)]
        satisfies(next, 0, col, x) <==> all_hold(done + eqs, col, x) by {
        lemma_band_meaning(rows, 0, n, eqs, col, x);
        lemma_both_hold(done, eqs, col, x);
        assert(satisfies(rows, 0, col, x) <==> all_hold(done, col, x));
    }
}

/// A band with some of its rows replaced.
pub open spec fn spliced(rows: Seq<Row>, lo: int, hi: int, part: Seq<Row>) -> Seq<Row> {
    rows.take(lo) + part + rows.skip(hi)
}

/// Banding equations into an empty range of a band that stands for some others. The equations
/// that leave the range are left out.
pub proof fn lemma_band_range(
    rows: Seq<Row>,
    lo: int,
    hi: int,
    n: int,
    done: Seq<Equation>,
    eqs: Seq<Equation>,
)
    requires
        banded(rows, 0, n),
        0 <= lo <= hi <= rows.len(),
        forall|p: int| lo <= p < hi ==> (#[trigger] rows[p]).coeff == 0,
        equivalent(rows, done),
        placed(eqs, n),
        forall|i: int| 0 <= i < eqs.len() ==> lo <= (#[trigger] eqs[i]).at,
        band(rows.subrange(lo, hi), lo, eqs).consistent,
    ensures
        ({
            let part: Seq<Row> = rows.subrange(lo, hi);
            let next: Seq<Row> = spliced(rows, lo, hi, band(part, lo, eqs).rows);
            &&& next.len() == rows.len()
            &&& banded(next, 0, n)
            &&& equivalent(next, done + kept(part, lo, eqs))
            &&& forall|p: int| hi <= p < rows.len() ==> #[trigger] next[p] == rows[p]
        }),
{
    let part: Seq<Row> = rows.subrange(lo, hi);
    assert forall|p: int| 0 <= p < part.len() implies if (#[trigger] part[p]).coeff == 0 {
        part[p].result == 0
    } else {
        bits::bit(part[p].coeff, 0) && fits(part[p].coeff, lo + p, n)
    } by {
        assert(part[p] == rows[lo + p]);
    }
    lemma_band_form(part, lo, n, eqs);
    let made: Seq<Row> = band(part, lo, eqs).rows;
    let next: Seq<Row> = spliced(rows, lo, hi, made);
    let stay: Seq<Equation> = kept(part, lo, eqs);
    assert forall|p: int| 0 <= p < next.len() implies if (#[trigger] next[p]).coeff == 0 {
        next[p].result == 0
    } else {
        bits::bit(next[p].coeff, 0) && fits(next[p].coeff, 0 + p, n)
    } by {
        if p < lo {
            assert(next[p] == rows[p]);
        } else if p < hi {
            assert(next[p] == made[p - lo]);
        } else {
            assert(next[p] == rows[p]);
        }
    }
    assert forall|col: int, x: Seq<bool>|
        #![trigger satisfies(next, 0, col, x)]
        #![trigger all_hold(done + stay, col, x)]
        satisfies(next, 0, col, x) <==> all_hold(done + stay, col, x) by {
        assert(satisfies(part, lo, col, x));
        lemma_band_meaning(part, lo, n, eqs, col, x);
        lemma_both_hold(done, stay, col, x);
        assert(satisfies(rows, 0, col, x) <==> all_hold(done, col, x));
        if satisfies(next, 0, col, x) {
            assert forall|p: int| 0 <= p < rows.len() && rows[p].coeff != 0 implies holds(
                #[trigger] rows[p],
                0 + p,
                col,
                x,
            ) by {
                assert(next[p] == rows[p]);
            }
            assert forall|p: int| 0 <= p < made.len() && made[p].coeff != 0 implies holds(
                #[trigger] made[p],
                lo + p,
                col,
                x,
            ) by {
                assert(next[lo + p] == made[p]);
                assert(holds(next[lo + p], 0 + (lo + p), col, x));
            }
        }
        if satisfies(rows, 0, col, x) && satisfies(made, lo, col, x) {
            assert forall|p: int| 0 <= p < next.len() && next[p].coeff != 0 implies holds(
                #[trigger] next[p],
                0 + p,
                col,
                x,
            ) by {
                if lo <= p < hi {
                    assert(next[p] == made[p - lo]);
                    assert(holds(made[p - lo], lo + (p - lo), col, x));
                } else {
                    assert(next[p] == rows[p]);
                    assert(holds(rows[p], 0 + p, col, x));
                }
            }
        }
    }
}

/// Equations without a result are consistent, whatever they are.
pub proof fn lemma_band_homogeneous(rows: Seq<Row>, base: int, eqs: Seq<Equation>)
    requires
        forall|p: int| 0 <= p < rows.len() ==> (#[trigger] rows[p]).result == 0,
        forall|i: int|
            0 <= i < eqs.len() ==> base <= (#[trigger] eqs[i]).at && eqs[i].row.result == 0,
    ensures
        band(rows, base, eqs).consistent,
        band(rows, base, eqs).rows.len() == rows.len(),
        forall|p: int|
            0 <= p < rows.len() ==> (#[trigger] band(rows, base, eqs).rows[p]).result == 0,
    decreases eqs.len(),
{
    if eqs.len() > 0 {
        let front: Seq<Equation> = eqs.drop_last();
        assert forall|i: int| 0 <= i < front.len() implies base <= (#[trigger] front[i]).at
            && front[i].row.result == 0 by {
            assert(front[i] == eqs[i]);
        }
        assert(eqs.last() == eqs[eqs.len() - 1]);
        lemma_band_homogeneous(rows, base, front);
        lemma_step_homogeneous(band(rows, base, front), base, 0, eqs.last());
    }
}

pub proof fn lemma_solve_len(rows: Seq<Row>, col: int, fill: spec_fn(int) -> bool, i: int)
    ensures
        solve_from(rows, col, fill, i).len() == rows.len(),
    decreases rows.len() - i,
{
    if 0 <= i < rows.len() {
        lemma_solve_len(rows, col, fill, i + 1);
    }
}

/// What is solved so far holds, and the slots before hold nothing.
pub proof fn lemma_solve_from(rows: Seq<Row>, n: int, col: int, fill: spec_fn(int) -> bool, i: int)
    requires
        banded(rows, 0, n),
        0 <= i <= rows.len(),
    ensures
        solve_from(rows, col, fill, i).len() == rows.len(),
        forall|p: int| 0 <= p < i ==> !#[trigger] solve_from(rows, col, fill, i)[p],
        forall|p: int|
            i <= p < rows.len() ==> if (#[trigger] rows[p]).coeff == 0 {
                solve_from(rows, col, fill, i)[p] == fill(p)
            } else {
                holds(rows[p], p, col, solve_from(rows, col, fill, i))
            },
    decreases rows.len() - i,
{
    if i < rows.len() {
        lemma_solve_from(rows, n, col, fill, i + 1);
        let y: Seq<bool> = solve_from(rows, col, fill, i + 1);
        let x: Seq<bool> = solve_from(rows, col, fill, i);
        assert forall|p: int| i <= p < rows.len() implies if (#[trigger] rows[p]).coeff == 0 {
            x[p] == fill(p)
        } else {
            holds(rows[p], p, col, x)
        } by {
            if rows[p].coeff != 0 {
                if p == i {
                    lemma_dot_first(rows[p].coeff, x, y, p);
                } else {
                    lemma_dot_ext(rows[p].coeff, x, y, p);
                }
            }
        }
    }
}

/// Every band has a solution, whatever its empty slots are filled with.
pub proof fn lemma_solution_exists(
    rows: Seq<Row>,
    n: int,
    col: int,
    fill: spec_fn(int) -> bool,
) -> (x: Seq<bool>)
    requires
        banded(rows, 0, n),
    ensures
        is_solution(rows, col, fill, x),
        satisfies(rows, 0, col, x),
{
    lemma_solve_from(rows, n, col, fill, 0);
    solve_from(rows, col, fill, 0)
}

/// A band has no more than one solution with given bits in its empty slots.
pub proof fn lemma_solution_unique(
    rows: Seq<Row>,
    n: int,
    col: int,
    fill: spec_fn(int) -> bool,
    x: Seq<bool>,
    y: Seq<bool>,
)
    requires
        banded(rows, 0, n),
        is_solution(rows, col, fill, x),
        is_solution(rows, col, fill, y),
    ensures
        x == y,
{
    lemma_solution_agrees(rows, n, col, fill, x, y, 0);
    assert(x =~= y);
}

proof fn lemma_solution_agrees(
    rows: Seq<Row>,
    n: int,
    col: int,
    fill: spec_fn(int) -> bool,
    x: Seq<bool>,
    y: Seq<bool>,
    i: int,
)
    requires
        banded(rows, 0, n),
        is_solution(rows, col, fill, x),
        is_solution(rows, col, fill, y),
        0 <= i <= rows.len(),
    ensures
        forall|p: int| i <= p < rows.len() ==> #[trigger] x[p] == y[p],
    decreases rows.len() - i,
{
    if i < rows.len() {
        lemma_solution_agrees(rows, n, col, fill, x, y, i + 1);
        if rows[i].coeff != 0 {
            assert(holds(rows[i], i, col, x));
            assert(holds(rows[i], i, col, y));
            lemma_dot_first(rows[i].coeff, x, y, i);
        }
    }
}

/// With zero on the right and nothing above slot `i`, an occupied slot `i` holds nothing.
pub proof fn lemma_occupied_slot(rows: Seq<Row>, n: int, i: int, x: Seq<bool>)
    requires
        banded(rows, 0, n),
        0 <= i < rows.len(),
        rows[i].coeff != 0,
        satisfies(rows, 0, 32, x),
        forall|p: int| i < p ==> !#[trigger] at(x, p),
    ensures
        !at(x, i),
{
    let zero: Seq<bool> = Seq::new(x.len(), |p: int| false);
    let f: spec_fn(int) -> bool = |k: int| bits::bit(rows[i].coeff, k) && at(zero, i + k);
    bits::lemma_xsum_false(f, 128);
    lemma_no_result(rows[i].result, 32);
    assert(holds(rows[i], 0 + i, 32, x));
    lemma_dot_first(rows[i].coeff, x, zero, i);
}

/// With zero on the right, an empty slot `i` admits a solution with nothing above it but itself.
proof fn lemma_empty_slot(rows: Seq<Row>, n: int, i: int) -> (x: Seq<bool>)
    requires
        banded(rows, 0, n),
        0 <= i < rows.len(),
        rows[i].coeff == 0,
    ensures
        satisfies(rows, 0, 32, x),
        forall|p: int| i < p ==> !#[trigger] at(x, p),
        at(x, i),
{
    let fill: spec_fn(int) -> bool = |p: int| p == i;
    let x: Seq<bool> = lemma_solution_exists(rows, n, 32, fill);
    lemma_nothing_above(rows, n, i, x, i + 1);
    assert(x[i] == fill(i));
    x
}

proof fn lemma_nothing_above(rows: Seq<Row>, n: int, i: int, x: Seq<bool>, q: int)
    requires
        banded(rows, 0, n),
        is_solution(rows, 32, |p: int| p == i, x),
        satisfies(rows, 0, 32, x),
        i < q,
        0 <= q <= rows.len(),
    ensures
        forall|p: int| q <= p ==> !#[trigger] at(x, p),
    decreases rows.len() - q,
{
    if q < rows.len() {
        lemma_nothing_above(rows, n, i, x, q + 1);
        if rows[q].coeff != 0 {
            lemma_occupied_slot(rows, n, q, x);
        }
        assert(!at(x, q));
    }
}

/// Bands with the same solutions occupy the same slots.
pub proof fn lemma_same_slots(a: Seq<Row>, b: Seq<Row>, n: int)
    requires
        banded(a, 0, n),
        banded(b, 0, n),
        a.len() == b.len(),
        forall|x: Seq<bool>| #[trigger] satisfies(a, 0, 32, x) <==> satisfies(b, 0, 32, x),
    ensures
        forall|i: int| 0 <= i < a.len() ==> ((#[trigger] a[i]).coeff == 0 <==> b[i].coeff == 0),
{
    assert forall|i: int| 0 <= i < a.len() implies ((#[trigger] a[i]).coeff == 0 <==> b[i].coeff
        == 0) by {
        if a[i].coeff == 0 && b[i].coeff != 0 {
            let x: Seq<bool> = lemma_empty_slot(a, n, i);
            lemma_occupied_slot(b, n, i, x);
        }
        if a[i].coeff != 0 && b[i].coeff == 0 {
            let x: Seq<bool> = lemma_empty_slot(b, n, i);
            assert(satisfies(a, 0, 32, x) <==> satisfies(b, 0, 32, x));
            lemma_occupied_slot(a, n, i, x);
        }
    }
}

pub proof fn lemma_same_equations_hold(
    a: Seq<Equation>,
    b: Seq<Equation>,
    col: int,
    x: Seq<bool>,
)
    requires
        same_equations(a, b),
    ensures
        all_hold(a, col, x) <==> all_hold(b, col, x),
{
    if all_hold(a, col, x) {
        assert forall|i: int| 0 <= i < b.len() implies holds(
            (#[trigger] b[i]).row,
            b[i].at,
            col,
            x,
        ) by {
            assert(b.contains(b[i]));
            assert(a.contains(b[i]));
            let j: int = choose|j: int| 0 <= j < a.len() && a[j] == b[i];
            assert(holds(a[j].row, a[j].at, col, x));
        }
    }
    if all_hold(b, col, x) {
        assert forall|i: int| 0 <= i < a.len() implies holds(
            (#[trigger] a[i]).row,
            a[i].at,
            col,
            x,
        ) by {
            assert(a.contains(a[i]));
            assert(b.contains(a[i]));
            let j: int = choose|j: int| 0 <= j < b.len() && b[j] == a[i];
            assert(holds(b[j].row, b[j].at, col, x));
        }
    }
}

/// Order does not matter: bands of the same equations, however they were made, have the same
/// solution.
pub proof fn lemma_same_solution(
    a: Seq<Row>,
    ea: Seq<Equation>,
    b: Seq<Row>,
    eb: Seq<Equation>,
    n: int,
    col: int,
    fill: spec_fn(int) -> bool,
    x: Seq<bool>,
)
    requires
        banded(a, 0, n),
        banded(b, 0, n),
        a.len() == b.len(),
        equivalent(a, ea),
        equivalent(b, eb),
        same_equations(ea, eb),
        is_solution(a, col, fill, x),
    ensures
        is_solution(b, col, fill, x),
{
    assert forall|y: Seq<bool>| #[trigger] satisfies(a, 0, 32, y) <==> satisfies(b, 0, 32, y) by {
        lemma_same_equations_hold(ea, eb, 32, y);
        assert(satisfies(a, 0, 32, y) <==> all_hold(ea, 32, y));
        assert(satisfies(b, 0, 32, y) <==> all_hold(eb, 32, y));
    }
    lemma_same_slots(a, b, n);
    assert(satisfies(a, 0, col, x));
    lemma_same_equations_hold(ea, eb, col, x);
    assert(satisfies(b, 0, col, x));
    assert forall|p: int| 0 <= p < b.len() implies if (#[trigger] b[p]).coeff == 0 {
        x[p] == fill(p)
    } else {
        holds(b[p], p, col, x)
    } by {
        assert(a[p].coeff == 0 <==> b[p].coeff == 0);
        if b[p].coeff != 0 {
            assert(holds(b[p], 0 + p, col, x));
        }
    }
}

/// Equations that can be banded consistently into an empty band are equivalent to it.
pub proof fn lemma_band_equivalent(n: nat, eqs: Seq<Equation>)
    requires
        placed(eqs, n as int),
        band(empty_rows(n), 0, eqs).consistent,
    ensures
        banded(band(empty_rows(n), 0, eqs).rows, 0, n as int),
        band(empty_rows(n), 0, eqs).rows.len() == n,
        equivalent(band(empty_rows(n), 0, eqs).rows, eqs),
{
    let rows: Seq<Row> = empty_rows(n);
    assert forall|i: int| 0 <= i < eqs.len() implies 0 <= (#[trigger] eqs[i]).at by {}
    lemma_band_form(rows, 0, n as int, eqs);
    assert forall|col: int, x: Seq<bool>|
        satisfies(band(rows, 0, eqs).rows, 0, col, x) <==> all_hold(eqs, col, x) by {
        lemma_band_meaning(rows, 0, n as int, eqs, col, x);
        assert(satisfies(rows, 0, col, x));
    }
}

/// Equations can be banded consistently exactly when they can be solved, in whatever order they
/// come.
pub proof fn lemma_consistent_iff_solvable(n: nat, eqs: Seq<Equation>)
    requires
        placed(eqs, n as int),
    ensures
        band(empty_rows(n), 0, eqs).consistent <==> solvable(eqs),
{
    let rows: Seq<Row> = empty_rows(n);
    if band(rows, 0, eqs).consistent {
        lemma_band_equivalent(n, eqs);
        assert forall|col: int| 0 <= col < 32 implies #[trigger] solvable_in(eqs, col) by {
            let x: Seq<bool> = lemma_solution_exists(
                band(rows, 0, eqs).rows,
                n as int,
                col,
                |p: int| false,
            );
            assert(all_hold(eqs, col, x));
        }
    } else {
        let col: int = lemma_band_conflict(rows, 0, n as int, eqs);
        if solvable(eqs) {
            assert(solvable_in(eqs, col));
            let x: Seq<bool> = choose|x: Seq<bool>| all_hold(eqs, col, x);
            assert(satisfies(rows, 0, col, x));
        }
    }
}

/// Nothing changes once an inconsistency has been met.
pub proof fn lemma_band_stops(rows: Seq<Row>, base: int, eqs: Seq<Equation>, i: int)
    requires
        0 <= i <= eqs.len(),
        !band(rows, base, eqs.take(i)).consistent,
    ensures
        band(rows, base, eqs) == band(rows, base, eqs.take(i)),
    decreases eqs.len() - i,
{
    if i < eqs.len() {
        assert(eqs.take(i + 1).drop_last() =~= eqs.take(i));
        assert(band(rows, base, eqs.take(i + 1)) == band(rows, base, eqs.take(i)));
        lemma_band_stops(rows, base, eqs, i + 1);
    } else {
        assert(eqs.take(i) =~= eqs);
    }
}

/// Whether equations can be solved does not depend on their order.
pub proof fn lemma_same_equations_solvable(a: Seq<Equation>, b: Seq<Equation>)
    requires
        same_equations(a, b),
    ensures
        solvable(a) <==> solvable(b),
{
    assert forall|col: int|
        #![trigger solvable_in(a, col)]
        #![trigger solvable_in(b, col)]
        solvable_in(a, col) <==> solvable_in(b, col) by {
        if solvable_in(a, col) {
            let x: Seq<bool> = choose|x: Seq<bool>| all_hold(a, col, x);
            lemma_same_equations_hold(a, b, col, x);
            assert(all_hold(b, col, x));
        }
        if solvable_in(b, col) {
            let x: Seq<bool> = choose|x: Seq<bool>| all_hold(b, col, x);
            lemma_same_equations_hold(a, b, col, x);
            assert(all_hold(a, col, x));
        }
    }
}

pub proof fn lemma_same_equations_equivalent(rows: Seq<Row>, a: Seq<Equation>, b: Seq<Equation>)
    requires
        equivalent(rows, a),
        same_equations(a, b),
    ensures
        equivalent(rows, b),
{
    assert forall|col: int, x: Seq<bool>| satisfies(rows, 0, col, x) <==> all_hold(b, col, x) by {
        lemma_same_equations_hold(a, b, col, x);
        assert(satisfies(rows, 0, col, x) <==> all_hold(a, col, x));
    }
}

} // verus!
