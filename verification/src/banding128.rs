//! Standard ribbon banding, back-substitution and queries, with rows of 128 slots.
//!
//! Every key has a result of its own, so a set of keys may have no solution under a given seed.
//! Construction tries seed after seed until one solves.

use crate::bits;
use crate::bits::{lowest_bit_128, parity_128};
use crate::bytes;
use crate::bytes::{fnv_word, FNV_OFFSET};
use crate::hash;
use crate::hash128;
use crate::hash128::{coeff_row_128, ordinal_to_raw_seed, result_row, ribbon_hash, start};
use crate::interleave;
use crate::linear;
use crate::linear::{Equation, Progress, Row};
pub use crate::parallel128::build_std128_parallel;
use crate::plan;
use crate::plan::PleatPlan;
use crate::sizing;
use crate::tally;
use vstd::prelude::*;

verus! {

/// Slots per row and per block.
pub const W128: usize = 128;

/// How many seeds construction tries.
pub const SEED_COUNT: u32 = 64;

/// The coefficient and result words of a band, as rows.
pub open spec fn rows_of(coeffs: Seq<u128>, results: Seq<u32>) -> Seq<Row> {
    Seq::new(coeffs.len(), |i: int| Row { coeff: coeffs[i], result: results[i] })
}

/// The equation of a key: its coefficients sum to its result, column by column.
pub open spec fn equation(key: u64, raw_seed: u32, num_starts: u64) -> Equation {
    let h: u64 = hash::hash_of(key, raw_seed as u64);
    Equation {
        key,
        at: hash::start_of(h, num_starts),
        row: Row { coeff: hash128::coeff_128_of(h), result: hash128::result_of(h) },
    }
}

pub open spec fn equations(keys: Seq<u64>, raw_seed: u32, num_starts: u64) -> Seq<Equation> {
    Seq::new(keys.len(), |i: int| equation(keys[i], raw_seed, num_starts))
}

/// Empty slots hold nothing.
pub open spec fn fills() -> spec_fn(int, int) -> bool {
    |col: int, slot: int| false
}

/// The words store the solution of the rows, with nothing in empty slots.
pub open spec fn is_solved(rows: Seq<Row>, words: Seq<u128>, r: int) -> bool {
    interleave::encodes(rows, fills(), 128, r, words)
}

/// Seed number `ordinal` solves the keys: their equations under it have a common solution.
pub open spec fn seed_solves(keys: Seq<u64>, num_starts: u64, ordinal: u32) -> bool {
    linear::solvable(equations(keys, hash128::raw_seed_of(ordinal), num_starts))
}

/// Seed number `ordinal` is the first that solves the keys.
pub open spec fn is_first_seed(keys: Seq<u64>, num_starts: u64, ordinal: u32) -> bool {
    &&& ordinal < SEED_COUNT
    &&& seed_solves(keys, num_starts, ordinal)
    &&& forall|o: u32| o < ordinal ==> !#[trigger] seed_solves(keys, num_starts, o)
}

/// No seed that construction tries solves the keys.
pub open spec fn no_seed(keys: Seq<u64>, num_starts: u64) -> bool {
    forall|o: u32| o < SEED_COUNT ==> !#[trigger] seed_solves(keys, num_starts, o)
}

/// The banding matrix of a standard ribbon over `R` columns.
pub struct Banding128<const R: usize> {
    coeff_rows: Vec<u128>,
    result_rows: Vec<u32>,
    num_starts: u64,
    raw_seed: u32,
    ordinal_seed: u32,
}

impl<const R: usize> Banding128<R> {
    /// The coefficient rows, one per slot; zero for an empty slot.
    pub closed spec fn coeffs(&self) -> Seq<u128> {
        self.coeff_rows@
    }

    /// The result rows, one per slot.
    pub closed spec fn results(&self) -> Seq<u32> {
        self.result_rows@
    }

    pub closed spec fn starts(&self) -> u64 {
        self.num_starts
    }

    pub closed spec fn seed(&self) -> u32 {
        self.raw_seed
    }

    pub closed spec fn ordinal(&self) -> u32 {
        self.ordinal_seed
    }

    pub open spec fn rows(&self) -> Seq<Row> {
        rows_of(self.coeffs(), self.results())
    }

    /// Whole blocks of slots, as many starts as leave room for a row, the seed of the seed
    /// number, and as many results as coefficients.
    pub open spec fn shaped(&self) -> bool {
        &&& self.coeffs().len() % 128 == 0
        &&& self.coeffs().len() >= 128
        &&& self.coeffs().len() <= usize::MAX
        &&& self.results().len() == self.coeffs().len()
        &&& self.starts() == self.coeffs().len() - 127
        &&& self.seed() == hash128::raw_seed_of(self.ordinal())
    }

    /// A band in shape, with its rows in band form.
    pub open spec fn wf(&self) -> bool {
        &&& self.shaped()
        &&& linear::banded(self.rows(), 0, self.coeffs().len() as int)
    }

    /// The same band but for its rows.
    pub open spec fn same_shape(&self, other: &Self) -> bool {
        &&& self.coeffs().len() == other.coeffs().len()
        &&& self.starts() == other.starts()
        &&& self.seed() == other.seed()
        &&& self.ordinal() == other.ordinal()
    }

    /// The band says what the equations of `keys` say.
    pub open spec fn bands(&self, keys: Seq<u64>) -> bool {
        &&& self.wf()
        &&& linear::equivalent(self.rows(), equations(keys, self.seed(), self.starts()))
    }

    /// An empty band under seed number zero. `num_slots` is a multiple of 128, and not zero.
    pub fn new(num_slots: usize) -> (b: Self)
        requires
            num_slots % 128 == 0,
            num_slots >= 128,
        ensures
            b.wf(),
            b.rows() == linear::empty_rows(num_slots as nat),
            b.coeffs().len() == num_slots,
            b.ordinal() == 0,
    {
        proof {
            hash128::lemma_raw_seed_zero();
        }
        let b: Self = Banding128 {
            coeff_rows: vec![0u128; num_slots],
            result_rows: vec![0u32; num_slots],
            num_starts: (num_slots - W128 + 1) as u64,
            raw_seed: 0,
            ordinal_seed: 0,
        };
        assert(b.rows() =~= linear::empty_rows(num_slots as nat));
        b
    }

    /// Empties the band and takes up seed number `ordinal`.
    pub fn reset(&mut self, ordinal: u32)
        requires
            old(self).shaped(),
        ensures
            final(self).wf(),
            final(self).rows() == linear::empty_rows(old(self).coeffs().len()),
            final(self).coeffs().len() == old(self).coeffs().len(),
            final(self).starts() == old(self).starts(),
            final(self).ordinal() == ordinal,
    {
        let n: usize = self.coeff_rows.len();
        let mut i: usize = 0;
        while i < n
            invariant
                i <= n,
                n == self.coeff_rows@.len(),
                n == self.result_rows@.len(),
                self.num_starts == old(self).num_starts,
                n == old(self).coeff_rows@.len(),
                forall|j: int| 0 <= j < i ==> #[trigger] self.coeff_rows@[j] == 0,
                forall|j: int| 0 <= j < i ==> #[trigger] self.result_rows@[j] == 0,
            decreases n - i,
        {
            self.coeff_rows[i] = 0;
            self.result_rows[i] = 0;
            i = i + 1;
        }
        self.ordinal_seed = ordinal;
        self.raw_seed = ordinal_to_raw_seed(ordinal);
        assert(self.rows() =~= linear::empty_rows(n as nat));
    }

    /// Empties the band and takes up the next seed. False, with nothing changed, if there is none.
    pub fn next_seed(&mut self) -> (more: bool)
        requires
            old(self).shaped(),
        ensures
            more <==> old(self).ordinal() + 1 < SEED_COUNT,
            more ==> final(self).wf() && final(self).ordinal() == old(self).ordinal() + 1,
            more ==> final(self).rows() == linear::empty_rows(old(self).coeffs().len()),
            more ==> final(self).coeffs().len() == old(self).coeffs().len(),
            more ==> final(self).starts() == old(self).starts(),
            !more ==> *final(self) == *old(self),
    {
        if self.ordinal_seed >= SEED_COUNT - 1 {
            return false;
        }
        self.reset(self.ordinal_seed + 1);
        true
    }

    pub fn num_starts(&self) -> (n: u64)
        ensures
            n == self.starts(),
    {
        self.num_starts
    }

    pub fn raw_seed(&self) -> (seed: u32)
        ensures
            seed == self.seed(),
    {
        self.raw_seed
    }

    /// The coefficient and result rows, for a builder that splits them into ranges of slots.
    pub fn coeff_result_mut(&mut self) -> (rows: (&mut [u128], &mut [u32]))
        ensures
            rows.0@ == old(self).coeffs(),
            rows.1@ == old(self).results(),
            final(self).coeffs() == final(rows.0)@,
            final(self).results() == final(rows.1)@,
            final(self).starts() == old(self).starts(),
            final(self).seed() == old(self).seed(),
            final(self).ordinal() == old(self).ordinal(),
    {
        (self.coeff_rows.as_mut_slice(), self.result_rows.as_mut_slice())
    }

    /// Bands one key. Fails where its row vanishes and leaves a result: it contradicts the rows
    /// before it.
    pub fn add(&mut self, key: u64) -> (consistent: bool)
        requires
            old(self).wf(),
        ensures
            final(self).wf(),
            final(self).same_shape(old(self)),
            ({
                let eq: Equation = equation(key, old(self).seed(), old(self).starts());
                let next: Progress = linear::band(old(self).rows(), 0, seq![eq]);
                &&& consistent == next.consistent
                &&& final(self).rows() == next.rows
            }),
    {
        let ghost rows: Seq<Row> = self.rows();
        let ghost n: int = self.coeffs().len() as int;
        let ghost eq: Equation = equation(key, self.raw_seed, self.num_starts);
        let h: u64 = ribbon_hash(key, self.raw_seed as u64);
        let mut i: usize = start(h, self.num_starts) as usize;
        let mut cr: u128 = coeff_row_128(h);
        let mut rr: u32 = result_row(h);
        proof {
            lemma_equation(key, self.raw_seed, self.num_starts);
            linear::lemma_band_one(rows, 0, eq);
            linear::lemma_step_form(linear::begin(rows), 0, n, eq);
            linear::lemma_fits_here(cr, i as int, n);
        }
        loop
            invariant
                0 <= i < n,
                n == self.coeff_rows@.len(),
                n == self.result_rows@.len(),
                n <= usize::MAX,
                *self == *old(self),
                rows == self.rows(),
                linear::banded(rows, 0, n),
                bits::bit(cr, 0),
                linear::fits(cr, i as int, n),
                eq == equation(key, self.raw_seed, self.num_starts),
                linear::reduce(rows, i as int, cr, rr) == linear::reduce(
                    rows,
                    eq.at,
                    eq.row.coeff,
                    eq.row.result,
                ),
                linear::band(rows, 0, seq![eq]) == linear::step(linear::begin(rows), 0, eq),
                linear::banded(linear::step(linear::begin(rows), 0, eq).rows, 0, n),
                old(self).wf(),
            decreases n - i,
        {
            let cr_at_i: u128 = self.coeff_rows[i];
            let rr_at_i: u32 = self.result_rows[i];
            assert(rows[i as int] == Row { coeff: cr_at_i, result: rr_at_i });
            proof {
                bits::lemma_bit_zero(0);
            }
            if cr_at_i == 0 {
                self.coeff_rows[i] = cr;
                self.result_rows[i] = rr;
                assert(self.rows() =~= rows.update(i as int, Row { coeff: cr, result: rr }));
                return true;
            }
            let ghost before: u128 = cr;
            let ghost result_before: u32 = rr;
            cr = cr ^ cr_at_i;
            rr = rr ^ rr_at_i;
            proof {
                linear::lemma_fits_xor(before, cr_at_i, i as int, n);
            }
            if cr == 0 {
                proof {
                    linear::lemma_reduce_eliminate(rows, i as int, before, result_before, 0);
                }
                return rr == 0;
            }
            let tz: u32 = lowest_bit_128(cr);
            proof {
                linear::lemma_reduce_eliminate(
                    rows,
                    i as int,
                    before,
                    result_before,
                    tz as u128,
                );
                linear::lemma_fits_shr(cr, i as int, n, tz as u128);
                bits::lemma_bit_shr(cr, tz as u128, 0);
                linear::lemma_fits_here(cr >> (tz as u128), i + tz, n);
            }
            i = i + tz as usize;
            cr = cr >> (tz as u128);
        }
    }

    /// Bands keys in the order in which they come, up to the first that contradicts those before.
    pub fn add_all(&mut self, keys: &[u64]) -> (consistent: bool)
        requires
            old(self).wf(),
        ensures
            final(self).wf(),
            final(self).same_shape(old(self)),
            ({
                let next: Progress = linear::band(
                    old(self).rows(),
                    0,
                    equations(keys@, old(self).seed(), old(self).starts()),
                );
                &&& consistent == next.consistent
                &&& final(self).rows() == next.rows
            }),
    {
        let ghost eqs: Seq<Equation> = equations(keys@, self.seed(), self.starts());
        let mut i: usize = 0;
        while i < keys.len()
            invariant
                i <= keys@.len(),
                self.wf(),
                self.same_shape(old(self)),
                eqs == equations(keys@, self.seed(), self.starts()),
                linear::band(old(self).rows(), 0, eqs.take(i as int)).consistent,
                self.rows() == linear::band(old(self).rows(), 0, eqs.take(i as int)).rows,
            decreases keys.len() - i,
        {
            proof {
                assert(eqs.take(i + 1).drop_last() =~= eqs.take(i as int));
                linear::lemma_band_one(self.rows(), 0, eqs[i as int]);
            }
            if !self.add(keys[i]) {
                proof {
                    linear::lemma_band_stops(old(self).rows(), 0, eqs, i + 1);
                }
                return false;
            }
            i = i + 1;
        }
        assert(eqs.take(i as int) =~= eqs);
        true
    }

    /// Tries seed after seed, until one solves the keys, in arrival order.
    pub fn find_seed(num_slots: usize, keys: &[u64]) -> (found: Option<Self>)
        requires
            num_slots % 128 == 0,
            num_slots >= 128,
        ensures
            match found {
                Some(b) => {
                    &&& b.bands(keys@)
                    &&& b.coeffs().len() == num_slots
                    &&& is_first_seed(keys@, b.starts(), b.ordinal())
                },
                None => no_seed(keys@, (num_slots - 127) as u64),
            },
    {
        let mut b: Self = Banding128::new(num_slots);
        let mut ordinal: u32 = 0;
        while ordinal < SEED_COUNT
            invariant
                ordinal <= SEED_COUNT,
                b.shaped(),
                b.coeffs().len() == num_slots,
                forall|o: u32| o < ordinal ==> !#[trigger] seed_solves(keys@, b.starts(), o),
            decreases SEED_COUNT - ordinal,
        {
            b.reset(ordinal);
            proof {
                lemma_seed_solves(keys@, b.starts(), ordinal);
            }
            if b.add_all(keys) {
                return Some(b);
            }
            ordinal = ordinal + 1;
        }
        None
    }

    /// Tries seed after seed, until one solves the keys. Under each seed the keys are pleated
    /// before they are banded.
    pub fn find_seed_pleated(num_slots: usize, keys: &[u64], window_shift: u32) -> (found: Option<
        Self,
    >)
        requires
            num_slots % 128 == 0,
            num_slots >= 128,
            window_shift < 64,
        ensures
            match found {
                Some(b) => {
                    &&& b.bands(keys@)
                    &&& b.coeffs().len() == num_slots
                    &&& is_first_seed(keys@, b.starts(), b.ordinal())
                },
                None => no_seed(keys@, (num_slots - 127) as u64),
            },
    {
        let mut b: Self = Banding128::new(num_slots);
        let num_starts: u64 = b.num_starts;
        let plan: PleatPlan = PleatPlan::new(num_starts, window_shift);
        let mut scratch: Vec<u64> = vec![0u64; keys.len()];
        let mut ordinal: u32 = 0;
        while ordinal < SEED_COUNT
            invariant
                ordinal <= SEED_COUNT,
                b.shaped(),
                b.coeffs().len() == num_slots,
                num_starts == b.starts(),
                window_shift < 64,
                plan.num_starts == num_starts,
                plan.shift == window_shift,
                scratch@.len() == keys@.len(),
                forall|o: u32| o < ordinal ==> !#[trigger] seed_solves(keys@, num_starts, o),
            decreases SEED_COUNT - ordinal,
        {
            b.reset(ordinal);
            let raw: u64 = b.raw_seed as u64;
            let start_of = |k: u64| -> (s: u64)
                ensures
                    s == hash::start_of(hash::hash_of(k, raw), num_starts),
                    s < num_starts || num_starts == 0,
                { start(ribbon_hash(k, raw), num_starts) };
            proof {
                plan::lemma_window_mono(plan);
            }
            let counts: Vec<usize> = plan.pleat_into(keys, start_of, scratch.as_mut_slice());
            proof {
                plan::lemma_grouped_permutes(
                    keys@,
                    plan::window_of(start_of, window_shift),
                    plan.windows(),
                    scratch@,
                    counts@,
                );
                lemma_seed_solves(scratch@, num_starts, ordinal);
                lemma_same_keys(scratch@, keys@, b.seed(), num_starts);
                linear::lemma_same_equations_solvable(
                    equations(scratch@, b.seed(), num_starts),
                    equations(keys@, b.seed(), num_starts),
                );
            }
            if b.add_all(scratch.as_slice()) {
                proof {
                    linear::lemma_same_equations_equivalent(
                        b.rows(),
                        equations(scratch@, b.seed(), num_starts),
                        equations(keys@, b.seed(), num_starts),
                    );
                }
                return Some(b);
            }
            ordinal = ordinal + 1;
        }
        None
    }

    /// Interleaved back-substitution, from the last slot to the first. An occupied slot gets the
    /// bits that make its row hold, an empty slot nothing.
    pub fn back_substitute(&self) -> (words: Vec<u128>)
        requires
            self.wf(),
            R <= 32,
        ensures
            is_solved(self.rows(), words@, R as int),
    {
        let ghost rows: Seq<Row> = self.rows();
        let num_slots: usize = self.coeff_rows.len();
        let num_blocks: usize = num_slots / W128;
        assert(num_blocks * R <= num_blocks * 32) by (nonlinear_arith)
            requires
                R <= 32,
        ;
        let mut data: Vec<u128> = vec![0u128; num_blocks * R];
        let mut state: Vec<u128> = vec![0u128; R];
        let mut block: usize = num_blocks;
        proof {
            interleave::lemma_window_start(rows, fills(), 128, state@);
        }
        while block > 0
            invariant
                self.wf(),
                rows == self.rows(),
                R <= 32,
                num_slots == rows.len(),
                num_slots == num_blocks * 128,
                block <= num_blocks,
                num_blocks * R <= usize::MAX,
                data@.len() == num_blocks * R,
                state@.len() == R,
                interleave::is_window(rows, fills(), 128, state@, block * 128),
                interleave::stored_from(
                    rows,
                    fills(),
                    128,
                    R as int,
                    data@,
                    block as int,
                    num_blocks as int,
                ),
            decreases block,
        {
            block = block - 1;
            let first: usize = block * W128;
            let mut i: usize = first + W128;
            while i > first
                invariant
                    self.wf(),
                    rows == self.rows(),
                    R <= 32,
                    num_slots == rows.len(),
                    num_slots == num_blocks * 128,
                    block < num_blocks,
                    first == block * 128,
                    first <= i <= first + 128,
                    state@.len() == R,
                    interleave::is_window(rows, fills(), 128, state@, i as int),
                decreases i,
            {
                i = i - 1;
                self.shift_in(i, &mut state);
            }
            let ghost before: Seq<u128> = data@;
            proof {
                interleave::lemma_block_index(block as int, R as int, num_blocks as int);
            }
            let mut j: usize = 0;
            while j < R
                invariant
                    data@.len() == num_blocks * R,
                    num_blocks * R <= usize::MAX,
                    before.len() == data@.len(),
                    state@.len() == R,
                    j <= R,
                    0 <= block * R,
                    block * R + R <= data@.len(),
                    forall|m: int|
                        block * R <= m < block * R + j ==> #[trigger] data@[m] == state@[m - block
                            * R],
                    forall|m: int|
                        block * R + R <= m < data@.len() ==> #[trigger] data@[m] == before[m],
                decreases R - j,
            {
                data[block * R + j] = state[j];
                j = j + 1;
            }
            proof {
                interleave::lemma_store_block(
                    rows,
                    fills(),
                    128,
                    R as int,
                    before,
                    data@,
                    state@,
                    block as int,
                    num_blocks as int,
                );
            }
        }
        proof {
            interleave::lemma_encodes(
                rows,
                fills(),
                128,
                R as int,
                data@,
                num_blocks as int,
            );
        }
        data
    }

    /// One slot of back-substitution: the state moves down to slot `i`, in every column.
    fn shift_in(&self, i: usize, state: &mut Vec<u128>)
        requires
            self.wf(),
            R <= 32,
            i < self.coeffs().len(),
            old(state)@.len() == R,
            interleave::is_window(self.rows(), fills(), 128, old(state)@, i + 1),
        ensures
            final(state)@.len() == R,
            interleave::is_window(self.rows(), fills(), 128, final(state)@, i as int),
    {
        let ghost rows: Seq<Row> = self.rows();
        let ghost before: Seq<u128> = state@;
        let cr: u128 = self.coeff_rows[i];
        let rr: u32 = self.result_rows[i];
        let mut j: usize = 0;
        while j < R
            invariant
                self.wf(),
                R <= 32,
                rows == self.rows(),
                i < rows.len(),
                rows[i as int] == (Row { coeff: cr, result: rr }),
                state@.len() == R,
                before.len() == R,
                j <= R,
                interleave::is_window(rows, fills(), 128, before, i + 1),
                forall|m: int|
                    0 <= m < j ==> interleave::holds_window(
                        rows,
                        fills(),
                        128,
                        #[trigger] state@[m],
                        m,
                        i as int,
                    ),
                forall|m: int| j <= m < R ==> #[trigger] state@[m] == before[m],
            decreases R - j,
        {
            let old_word: u128 = state[j];
            let tmp: u128 = old_word << 1u128;
            let odd: bool = parity_128(tmp & cr) != ((rr >> (j as u32)) & 1 == 1);
            let word: u128 = if odd {
                tmp | 1
            } else {
                tmp
            };
            state[j] = word;
            proof {
                assert(before[j as int] == old_word);
                bits::lemma_bit_u32(rr, j as u32);
                bits::lemma_bit_zero(j as int);
                assert forall|k: int| 0 <= k < 128 implies #[trigger] bits::bit(tmp, k) == (1 <= k
                    && bits::bit(old_word, k - 1)) by {
                    bits::lemma_bit_shl(old_word, 1, k);
                }
                assert forall|k: int| 0 <= k < 128 implies #[trigger] bits::bit(word, k) == if k
                    == 0 {
                    odd
                } else {
                    bits::bit(tmp, k)
                } by {
                    bits::lemma_bit_combine(tmp, 1, k);
                    bits::lemma_bit_one(k);
                    assert(bits::bit(tmp, k) == (1 <= k && bits::bit(old_word, k - 1)));
                }
                interleave::lemma_shift_in(
                    rows,
                    fills(),
                    128,
                    j as int,
                    i as int,
                    old_word,
                    tmp,
                    odd,
                    word,
                );
            }
            j = j + 1;
        }
    }

    /// Back-substitution into a solution that can be queried.
    pub fn into_solution(self) -> (s: Solution128<R>)
        requires
            self.wf(),
            R <= 32,
        ensures
            s.wf(),
            is_solved(self.rows(), s.words(), R as int),
            s.starts() == self.starts(),
            s.ordinal() == self.ordinal(),
    {
        let segments: Vec<u128> = self.back_substitute();
        proof {
            let n: int = self.coeffs().len() as int;
            interleave::lemma_covers_blocks(n / 128, 128, R as int);
        }
        Solution128 {
            segments,
            num_starts: self.num_starts,
            raw_seed: self.raw_seed,
            ordinal_seed: self.ordinal_seed,
        }
    }
}

/// A solved standard ribbon with `R` columns, ready for queries.
#[derive(Debug)]
pub struct Solution128<const R: usize> {
    segments: Vec<u128>,
    num_starts: u64,
    raw_seed: u32,
    ordinal_seed: u32,
}

/// A key is reported present: the slots that its row selects sum to its result, in every column.
pub open spec fn reports(words: Seq<u128>, num_starts: u64, raw_seed: u32, r: int, key: u64) -> bool {
    forall|col: int|
        0 <= col < r ==> #[trigger] reports_in(words, num_starts, raw_seed, r, key, col)
}

pub open spec fn reports_in(
    words: Seq<u128>,
    num_starts: u64,
    raw_seed: u32,
    r: int,
    key: u64,
    col: int,
) -> bool {
    let eq: Equation = equation(key, raw_seed, num_starts);
    linear::holds(eq.row, eq.at, col, interleave::column(words, 128, r, col))
}

impl<const R: usize> Solution128<R> {
    /// The words of the solution, block by block and column by column.
    pub closed spec fn words(&self) -> Seq<u128> {
        self.segments@
    }

    pub closed spec fn starts(&self) -> u64 {
        self.num_starts
    }

    pub closed spec fn seed(&self) -> u32 {
        self.raw_seed
    }

    pub closed spec fn ordinal(&self) -> u32 {
        self.ordinal_seed
    }

    /// Every key can be queried, under the seed of the seed number.
    pub open spec fn wf(&self) -> bool {
        &&& interleave::covers(self.words().len() as int, 128, R as int, self.starts() as int)
        &&& self.seed() == hash128::raw_seed_of(self.ordinal())
        &&& R <= 32
    }

    pub open spec fn reports(&self, key: u64) -> bool {
        reports(self.words(), self.starts(), self.seed(), R as int, key)
    }

    pub fn segments(&self) -> (words: &[u128])
        ensures
            words@ == self.words(),
    {
        self.segments.as_slice()
    }

    pub fn ordinal_seed(&self) -> (ordinal: u32)
        ensures
            ordinal == self.ordinal(),
    {
        self.ordinal_seed
    }

    /// The number of starts, the seed number and the words.
    pub fn parts(&self) -> (p: (u64, u32, &[u128]))
        ensures
            p.0 == self.starts(),
            p.1 == self.ordinal(),
            p.2@ == self.words(),
    {
        (self.num_starts, self.ordinal_seed, self.segments.as_slice())
    }

    /// A solution put together from its parts. It can be queried if they are well-formed.
    pub fn from_parts(num_starts: u64, ordinal_seed: u32, segments: Vec<u128>) -> (s: Self)
        ensures
            s.starts() == num_starts,
            s.ordinal() == ordinal_seed,
            s.seed() == hash128::raw_seed_of(ordinal_seed),
            s.words() == segments@,
    {
        Solution128 {
            segments,
            num_starts,
            raw_seed: ordinal_to_raw_seed(ordinal_seed),
            ordinal_seed,
        }
    }

    /// Queries many keys at once.
    pub fn contains_batch(&self, keys: &[u64], out: &mut [bool])
        requires
            self.wf(),
            keys@.len() == old(out)@.len(),
        ensures
            final(out)@.len() == keys@.len(),
            forall|i: int|
                0 <= i < keys@.len() ==> #[trigger] final(out)@[i] == self.reports(keys@[i]),
    {
        let mut i: usize = 0;
        while i < keys.len()
            invariant
                self.wf(),
                i <= keys@.len(),
                out@.len() == keys@.len(),
                forall|j: int| 0 <= j < i ==> #[trigger] out@[j] == self.reports(keys@[j]),
            decreases keys.len() - i,
        {
            out[i] = self.contains(keys[i]);
            i = i + 1;
        }
    }

    /// Is `key` possibly a member? A key that was banded always is.
    pub fn contains(&self, key: u64) -> (present: bool)
        requires
            self.wf(),
        ensures
            present == self.reports(key),
    {
        let ghost words: Seq<u128> = self.segments@;
        let h: u64 = ribbon_hash(key, self.raw_seed as u64);
        let start_slot: u64 = start(h, self.num_starts);
        let start_bit: u64 = start_slot % 128;
        let cr: u128 = coeff_row_128(h);
        let expected: u32 = result_row(h);
        let cr_left: u128 = cr << (start_bit as u128);
        let cr_right: u128 = cr >> (((128 - start_bit) % 128) as u128);
        if R == 0 {
            return true;
        }
        proof {
            assert(words.len() == self.segments.len());
            hash::lemma_start_range(h, self.num_starts);
            interleave::lemma_covered(
                words.len() as int,
                128,
                R as int,
                self.num_starts as int,
                start_slot as int,
            );
            interleave::lemma_word_index(start_slot as int / 128, R as int, 0, words.len() as int);
            assert(start_slot as int / 128 <= (start_slot as int / 128) * R) by (nonlinear_arith)
                requires
                    R >= 1,
            ;
        }
        let segment_num: usize = (start_slot / 128) as usize * R;
        let maybe: usize = if start_bit != 0 {
            R
        } else {
            0
        };
        let mut i: usize = 0;
        while i < R
            invariant
                0 < R <= 32,
                i <= R,
                words == self.segments@,
                words.len() <= usize::MAX,
                start_bit == start_slot % 128,
                start_slot == hash::start_of(h, self.num_starts),
                h == hash::hash_of(key, self.raw_seed as u64),
                cr == hash128::coeff_128_of(h),
                expected == hash128::result_of(h),
                cr_left == cr << (start_bit as u128),
                cr_right == cr >> (((128 - start_bit) % 128) as u128),
                segment_num == (start_slot as int / 128) * R,
                maybe == if start_bit != 0 {
                    R
                } else {
                    0
                },
                (start_slot as int / 128 + 1) * R <= words.len(),
                start_bit != 0 ==> (start_slot as int / 128 + 2) * R <= words.len(),
                forall|col: int|
                    0 <= col < i ==> #[trigger] reports_in(
                        self.words(),
                        self.num_starts,
                        self.raw_seed,
                        R as int,
                        key,
                        col,
                    ),
            decreases R - i,
        {
            let ghost b: int = start_slot as int / 128;
            proof {
                interleave::lemma_word_index(b, R as int, i as int, words.len() as int);
                if start_bit != 0 {
                    interleave::lemma_word_index(b + 1, R as int, i as int, words.len() as int);
                    assert((b + 1) * R == b * R + R) by (nonlinear_arith);
                }
            }
            let left: u128 = self.segments[segment_num + i];
            let right: u128 = self.segments[segment_num + maybe + i];
            let found: u128 = (left & cr_left) | (right & cr_right);
            proof {
                lemma_found(left, right, cr, start_bit as u128, found);
                interleave::lemma_query(
                    words,
                    128,
                    R as int,
                    i as int,
                    cr,
                    start_slot as int,
                    found,
                );
                bits::lemma_bit_u32(expected, i as u32);
            }
            if parity_128(found) != ((expected >> (i as u32)) & 1 == 1) {
                assert(!reports_in(
                    self.words(),
                    self.num_starts,
                    self.raw_seed,
                    R as int,
                    key,
                    i as int,
                ));
                return false;
            }
            i = i + 1;
        }
        true
    }
}

/// The bits of the word that a query forms: the row, moved to its place in two blocks, selects
/// from both.
proof fn lemma_found(left: u128, right: u128, cr: u128, o: u128, found: u128)
    requires
        o < 128,
        o == 0 ==> left == right,
        found == (left & (cr << o)) | (right & (cr >> ((128 - o) as u128 % 128))),
    ensures
        forall|m: int|
            o <= m < 128 ==> #[trigger] bits::bit(found, m) == (bits::bit(left, m) && bits::bit(
                cr,
                m - o,
            )),
        forall|m: int|
            0 <= m < o ==> #[trigger] bits::bit(found, m) == (bits::bit(right, m) && bits::bit(
                cr,
                m + 128 - o,
            )),
{
    let t: u128 = ((128 - o) as u128) % 128;
    let a: u128 = left & (cr << o);
    let b: u128 = right & (cr >> t);
    assert forall|m: int| 0 <= m < 128 implies #[trigger] bits::bit(found, m) == if m >= o {
        bits::bit(left, m) && bits::bit(cr, m - o)
    } else {
        bits::bit(right, m) && bits::bit(cr, m + 128 - o)
    } by {
        bits::lemma_bit_combine(a, b, m);
        bits::lemma_bit_combine(left, cr << o, m);
        bits::lemma_bit_combine(right, cr >> t, m);
        bits::lemma_bit_shl(cr, o, m);
        bits::lemma_bit_shr(cr, t, m);
    }
}

/// The equation of a key starts within the band, has its first coefficient set, and stays within
/// the band.
pub proof fn lemma_equation(key: u64, raw_seed: u32, num_starts: u64)
    requires
        num_starts > 0,
    ensures
        0 <= equation(key, raw_seed, num_starts).at < num_starts,
        bits::bit(equation(key, raw_seed, num_starts).row.coeff, 0),
        linear::fits(
            equation(key, raw_seed, num_starts).row.coeff,
            equation(key, raw_seed, num_starts).at,
            num_starts + 127,
        ),
{
    let h: u64 = hash::hash_of(key, raw_seed as u64);
    hash::lemma_start_range(h, num_starts);
    hash128::lemma_coeff_128_halves(h);
}

/// The equations of keys are placed within the band.
pub proof fn lemma_placed(keys: Seq<u64>, raw_seed: u32, num_starts: u64)
    requires
        num_starts > 0,
    ensures
        linear::placed(equations(keys, raw_seed, num_starts), num_starts + 127),
{
    let eqs: Seq<Equation> = equations(keys, raw_seed, num_starts);
    let n: int = num_starts + 127;
    assert forall|i: int| 0 <= i < eqs.len() implies 0 <= (#[trigger] eqs[i]).at && bits::bit(
        eqs[i].row.coeff,
        0,
    ) && linear::fits(eqs[i].row.coeff, eqs[i].at, n) by {
        lemma_equation(keys[i], raw_seed, num_starts);
    }
}

/// A seed solves the keys exactly when they can be banded under it, and the band then says what
/// their equations say.
pub proof fn lemma_seed_solves(keys: Seq<u64>, num_starts: u64, ordinal: u32)
    requires
        num_starts > 0,
    ensures
        ({
            let n: nat = (num_starts + 127) as nat;
            let eqs: Seq<Equation> = equations(keys, hash128::raw_seed_of(ordinal), num_starts);
            let made: Progress = linear::band(linear::empty_rows(n), 0, eqs);
            &&& seed_solves(keys, num_starts, ordinal) <==> made.consistent
            &&& made.consistent ==> made.rows.len() == n && linear::banded(made.rows, 0, n as int)
                && linear::equivalent(made.rows, eqs)
        }),
{
    let n: nat = (num_starts + 127) as nat;
    let eqs: Seq<Equation> = equations(keys, hash128::raw_seed_of(ordinal), num_starts);
    lemma_placed(keys, hash128::raw_seed_of(ordinal), num_starts);
    linear::lemma_consistent_iff_solvable(n, eqs);
    if linear::band(linear::empty_rows(n), 0, eqs).consistent {
        linear::lemma_band_equivalent(n, eqs);
    }
}

pub proof fn lemma_same_keys(a: Seq<u64>, b: Seq<u64>, raw_seed: u32, num_starts: u64)
    requires
        forall|k: u64| #[trigger] a.contains(k) <==> b.contains(k),
    ensures
        linear::same_equations(
            equations(a, raw_seed, num_starts),
            equations(b, raw_seed, num_starts),
        ),
{
    let ea: Seq<Equation> = equations(a, raw_seed, num_starts);
    let eb: Seq<Equation> = equations(b, raw_seed, num_starts);
    assert forall|e: Equation| #[trigger] ea.contains(e) implies eb.contains(e) by {
        let i: int = choose|i: int| 0 <= i < ea.len() && ea[i] == e;
        assert(a.contains(a[i]));
        assert(b.contains(a[i]));
        let j: int = choose|j: int| 0 <= j < b.len() && b[j] == a[i];
        assert(eb[j] == e);
    }
    assert forall|e: Equation| #[trigger] eb.contains(e) implies ea.contains(e) by {
        let i: int = choose|i: int| 0 <= i < eb.len() && eb[i] == e;
        assert(b.contains(b[i]));
        assert(a.contains(b[i]));
        let j: int = choose|j: int| 0 <= j < a.len() && a[j] == b[i];
        assert(ea[j] == e);
    }
}

/// The words are the ribbon of `keys` under seed number `ordinal`: the first seed that solves
/// them, and the solution of the band that they make under it, one after the other.
pub open spec fn is_ribbon(
    words: Seq<u128>,
    ordinal: u32,
    keys: Seq<u64>,
    num_starts: u64,
    r: int,
) -> bool {
    &&& is_first_seed(keys, num_starts, ordinal)
    &&& is_solved(
        linear::band(
            linear::empty_rows((num_starts + 127) as nat),
            0,
            equations(keys, hash128::raw_seed_of(ordinal), num_starts),
        ).rows,
        words,
        r,
    )
}

/// The outcome of construction: the ribbon of the keys, or nothing where no seed solves them.
pub open spec fn is_build<const R: usize>(found: Option<Solution128<R>>, keys: Seq<u64>) -> bool {
    let num_starts: u64 = (sizing::slots(keys.len(), R as nat, 128) - 127) as u64;
    &&& sizing::slots(keys.len(), R as nat, 128) <= usize::MAX
    &&& match found {
        Some(s) => {
            &&& s.wf()
            &&& s.starts() == num_starts
            &&& is_ribbon(s.words(), s.ordinal(), keys, num_starts, R as int)
            &&& forall|k: u64| #[trigger] keys.contains(k) ==> s.reports(k)
        },
        None => no_seed(keys, num_starts),
    }
}

/// However a band of the keys was made under their first seed, its solution is their ribbon.
pub proof fn lemma_ribbon_however_banded(
    rows: Seq<Row>,
    words: Seq<u128>,
    ordinal: u32,
    keys: Seq<u64>,
    num_starts: u64,
    r: int,
)
    requires
        num_starts > 0,
        is_first_seed(keys, num_starts, ordinal),
        rows.len() == num_starts + 127,
        linear::banded(rows, 0, num_starts + 127),
        linear::equivalent(rows, equations(keys, hash128::raw_seed_of(ordinal), num_starts)),
        is_solved(rows, words, r),
    ensures
        is_ribbon(words, ordinal, keys, num_starts, r),
{
    lemma_seed_solves(keys, num_starts, ordinal);
    let n: int = num_starts + 127;
    let eqs: Seq<Equation> = equations(keys, hash128::raw_seed_of(ordinal), num_starts);
    interleave::lemma_same_encoding(
        rows,
        eqs,
        linear::band(linear::empty_rows(n as nat), 0, eqs).rows,
        eqs,
        n,
        fills(),
        128,
        r,
        words,
    );
}

/// No false negatives: a ribbon reports every one of its keys.
pub proof fn lemma_members_reported(
    words: Seq<u128>,
    ordinal: u32,
    keys: Seq<u64>,
    num_starts: u64,
    r: int,
    key: u64,
)
    requires
        num_starts > 0,
        is_ribbon(words, ordinal, keys, num_starts, r),
        keys.contains(key),
    ensures
        reports(words, num_starts, hash128::raw_seed_of(ordinal), r, key),
{
    lemma_seed_solves(keys, num_starts, ordinal);
    let seed: u32 = hash128::raw_seed_of(ordinal);
    let n: int = num_starts + 127;
    let eqs: Seq<Equation> = equations(keys, seed, num_starts);
    let rows: Seq<Row> = linear::band(linear::empty_rows(n as nat), 0, eqs).rows;
    let i: int = choose|i: int| 0 <= i < keys.len() && keys[i] == key;
    assert forall|col: int| 0 <= col < r implies #[trigger] reports_in(
        words,
        num_starts,
        seed,
        r,
        key,
        col,
    ) by {
        let x: Seq<bool> = interleave::column(words, 128, r, col);
        assert(interleave::encodes_column(rows, fills(), 128, r, words, col));
        assert(linear::satisfies(rows, 0, col, x));
        assert(linear::all_hold(eqs, col, x));
        assert(linear::holds(eqs[i].row, eqs[i].at, col, x));
    }
}

/// Whether a seed solves keys does not depend on their order.
pub proof fn lemma_seed_order_free(a: Seq<u64>, b: Seq<u64>, num_starts: u64, ordinal: u32)
    requires
        forall|k: u64| #[trigger] a.contains(k) <==> b.contains(k),
    ensures
        seed_solves(a, num_starts, ordinal) <==> seed_solves(b, num_starts, ordinal),
{
    let seed: u32 = hash128::raw_seed_of(ordinal);
    lemma_same_keys(a, b, seed, num_starts);
    linear::lemma_same_equations_solvable(
        equations(a, seed, num_starts),
        equations(b, seed, num_starts),
    );
}

/// Order does not matter: ribbons of the same keys have the same seed and are bit-identical.
pub proof fn lemma_ribbon_order_free(
    u: Seq<u128>,
    i: u32,
    a: Seq<u64>,
    v: Seq<u128>,
    j: u32,
    b: Seq<u64>,
    num_starts: u64,
    r: int,
)
    requires
        num_starts > 0,
        0 <= r,
        is_ribbon(u, i, a, num_starts, r),
        is_ribbon(v, j, b, num_starts, r),
        forall|k: u64| #[trigger] a.contains(k) <==> b.contains(k),
    ensures
        i == j,
        u == v,
{
    lemma_seed_order_free(a, b, num_starts, i);
    lemma_seed_order_free(a, b, num_starts, j);
    assert(i == j);
    let seed: u32 = hash128::raw_seed_of(i);
    lemma_seed_solves(a, num_starts, i);
    lemma_seed_solves(b, num_starts, i);
    lemma_same_keys(a, b, seed, num_starts);
    let n: int = num_starts + 127;
    let ea: Seq<Equation> = equations(a, seed, num_starts);
    let eb: Seq<Equation> = equations(b, seed, num_starts);
    let ra: Seq<Row> = linear::band(linear::empty_rows(n as nat), 0, ea).rows;
    let rb: Seq<Row> = linear::band(linear::empty_rows(n as nat), 0, eb).rows;
    interleave::lemma_same_encoding(ra, ea, rb, eb, n, fills(), 128, r, u);
    interleave::lemma_encoding_unique(rb, n, fills(), 128, r, u, v);
}

/// However they are built, ribbons of the same keys are the same, under the same seed, and one is
/// found exactly if the other is.
pub proof fn lemma_same_build<const R: usize>(
    s: Option<Solution128<R>>,
    a: Seq<u64>,
    t: Option<Solution128<R>>,
    b: Seq<u64>,
)
    requires
        is_build(s, a),
        is_build(t, b),
        a.len() == b.len(),
        forall|k: u64| #[trigger] a.contains(k) <==> b.contains(k),
    ensures
        s is Some <==> t is Some,
        s is Some ==> s->0.words() == t->0.words() && s->0.starts() == t->0.starts()
            && s->0.ordinal() == t->0.ordinal(),
        s is Some ==> forall|k: u64| #[trigger] s->0.reports(k) == t->0.reports(k),
{
    sizing::lemma_slots_shape(a.len(), R as nat, 128);
    let num_starts: u64 = (sizing::slots(a.len(), R as nat, 128) - 127) as u64;
    if s is Some && t is Some {
        lemma_ribbon_order_free(
            s->0.words(),
            s->0.ordinal(),
            a,
            t->0.words(),
            t->0.ordinal(),
            b,
            num_starts,
            R as int,
        );
    } else if s is Some {
        lemma_seed_order_free(a, b, num_starts, s->0.ordinal());
    } else if t is Some {
        lemma_seed_order_free(a, b, num_starts, t->0.ordinal());
    }
}

/// The size of a ribbon depends on the number of its keys alone, and its seed is one that
/// construction tries.
pub proof fn lemma_build_size<const R: usize>(s: Solution128<R>, keys: Seq<u64>)
    requires
        is_build(Some(s), keys),
    ensures
        s.starts() + 127 == sizing::slots(keys.len(), R as nat, 128),
        s.words().len() == sizing::slots(keys.len(), R as nat, 128) as int / 128 * R,
        s.ordinal() < SEED_COUNT,
{
    sizing::lemma_slots_shape(keys.len(), R as nat, 128);
    lemma_seed_solves(keys, s.starts(), s.ordinal());
}

/// What an answer says of the words: a key is reported exactly if, in each of the columns, the
/// number of set slots that its row selects is odd where the column's digit of its result is one,
/// and even where it is zero. So it is refused as soon as one column disagrees.
pub proof fn lemma_answer<const R: usize>(s: Solution128<R>, key: u64)
    requires
        s.wf(),
    ensures
        s.reports(key) <==> forall|col: int|
            0 <= col < R ==> (#[trigger] tally::hits(
                s.words(),
                128,
                R as int,
                col,
                hash::start_of(hash::hash_of(key, s.seed() as u64), s.starts()),
                hash128::coeff_128_of(hash::hash_of(key, s.seed() as u64)),
            ) % 2 == 1) == tally::digit(
                hash128::result_of(hash::hash_of(key, s.seed() as u64)) as nat,
                col as nat,
            ),
        s.seed() == hash128::raw_seed_of(s.ordinal()),
{
    let words: Seq<u128> = s.words();
    let r: int = R as int;
    let h: u64 = hash::hash_of(key, s.seed() as u64);
    let at: int = hash::start_of(h, s.starts());
    let c: u128 = hash128::coeff_128_of(h);
    let result: u32 = hash128::result_of(h);
    hash::lemma_start_range(h, s.starts());
    assert forall|col: int| 0 <= col < r implies #[trigger] reports_in(
        words,
        s.starts(),
        s.seed(),
        r,
        key,
        col,
    ) == ((tally::hits(words, 128, r, col, at, c) % 2 == 1) == tally::digit(
        result as nat,
        col as nat,
    )) by {
        interleave::lemma_covered(words.len() as int, 128, r, s.starts() as int, at);
        tally::lemma_dot_hits(words, 128, r, col, at, c);
        tally::lemma_bit_digit(result as u128, col);
    }
    if s.reports(key) {
        assert forall|col: int| 0 <= col < r implies (#[trigger] tally::hits(
            words,
            128,
            r,
            col,
            at,
            c,
        ) % 2 == 1) == tally::digit(result as nat, col as nat) by {
            assert(reports_in(words, s.starts(), s.seed(), r, key, col));
        }
    }
}

/// What a solved band holds, slot by slot: an empty slot nothing; and the row of an occupied slot
/// selects an odd number of set slots exactly in the columns in which its result has a one.
pub proof fn lemma_solved_slot(rows: Seq<Row>, words: Seq<u128>, r: int, p: int, col: int)
    requires
        is_solved(rows, words, r),
        rows.len() % 128 == 0,
        0 <= p < rows.len(),
        0 <= col < r <= 32,
    ensures
        rows[p].coeff == 0 ==> !tally::slot_bit(words, 128, r, col, p),
        rows[p].coeff != 0 ==> (tally::chosen(
            tally::stored(words, 128, r, col, rows.len()),
            128,
            p,
            rows[p].coeff,
        ) % 2 == 1) == tally::digit(rows[p].result as nat, col as nat),
{
    let x: Seq<bool> = interleave::column(words, 128, r, col);
    tally::lemma_stored(words, 128, r, col, rows.len());
    assert(interleave::encodes_column(rows, fills(), 128, r, words, col));
    if rows[p].coeff == 0 {
        assert(x[p] == fills()(col, p));
    } else {
        assert(linear::holds(rows[p], p, col, x));
        tally::lemma_dot_chosen(x, 128, p, rows[p].coeff);
        tally::lemma_bit_digit(rows[p].result as u128, col);
    }
}

/// An assignment that suits the keys in a column: the row of each selects an odd number of set slots
/// exactly if the column's digit of its result is one.
pub open spec fn suits(
    keys: Seq<u64>,
    raw_seed: u32,
    num_starts: u64,
    col: int,
    y: Seq<bool>,
) -> bool {
    forall|k: u64| #[trigger]
        keys.contains(k) ==> (tally::chosen(
            y,
            128,
            hash::start_of(hash::hash_of(k, raw_seed as u64), num_starts),
            hash128::coeff_128_of(hash::hash_of(k, raw_seed as u64)),
        ) % 2 == 1) == tally::digit(
            hash128::result_of(hash::hash_of(k, raw_seed as u64)) as nat,
            col as nat,
        )
}

/// Some assignment suits the keys in a column.
pub open spec fn suitable(keys: Seq<u64>, raw_seed: u32, num_starts: u64, col: int) -> bool {
    exists|y: Seq<bool>| suits(keys, raw_seed, num_starts, col, y)
}

proof fn lemma_suits(keys: Seq<u64>, raw_seed: u32, num_starts: u64, col: int, y: Seq<bool>)
    requires
        0 <= col < 128,
    ensures
        suits(keys, raw_seed, num_starts, col, y) <==> linear::all_hold(
            equations(keys, raw_seed, num_starts),
            col,
            y,
        ),
{
    let eqs: Seq<Equation> = equations(keys, raw_seed, num_starts);
    assert forall|i: int| 0 <= i < keys.len() implies linear::holds(
        (#[trigger] eqs[i]).row,
        eqs[i].at,
        col,
        y,
    ) == ((tally::chosen(
        y,
        128,
        hash::start_of(hash::hash_of(keys[i], raw_seed as u64), num_starts),
        hash128::coeff_128_of(hash::hash_of(keys[i], raw_seed as u64)),
    ) % 2 == 1) == tally::digit(
        hash128::result_of(hash::hash_of(keys[i], raw_seed as u64)) as nat,
        col as nat,
    )) by {
        let h: u64 = hash::hash_of(keys[i], raw_seed as u64);
        hash::lemma_start_range(h, num_starts);
        tally::lemma_dot_chosen(
            y,
            128,
            hash::start_of(h, num_starts),
            hash128::coeff_128_of(h),
        );
        tally::lemma_bit_digit(hash128::result_of(h) as u128, col);
    }
    if suits(keys, raw_seed, num_starts, col, y) {
        assert forall|i: int| 0 <= i < eqs.len() implies linear::holds(
            (#[trigger] eqs[i]).row,
            eqs[i].at,
            col,
            y,
        ) by {
            assert(keys.contains(keys[i]));
        }
    }
    if linear::all_hold(eqs, col, y) {
        assert forall|k: u64| #[trigger] keys.contains(k) implies (tally::chosen(
            y,
            128,
            hash::start_of(hash::hash_of(k, raw_seed as u64), num_starts),
            hash128::coeff_128_of(hash::hash_of(k, raw_seed as u64)),
        ) % 2 == 1) == tally::digit(
            hash128::result_of(hash::hash_of(k, raw_seed as u64)) as nat,
            col as nat,
        ) by {
            let i: int = choose|i: int| 0 <= i < keys.len() && keys[i] == k;
            assert(linear::holds(eqs[i].row, eqs[i].at, col, y));
        }
    }
}

/// When a seed solves: exactly if each of the 32 columns of the results has an assignment that suits
/// every key.
pub proof fn lemma_seed_meaning(keys: Seq<u64>, num_starts: u64, ordinal: u32)
    ensures
        seed_solves(keys, num_starts, ordinal) <==> forall|col: int|
            0 <= col < 32 ==> #[trigger] suitable(
                keys,
                hash128::raw_seed_of(ordinal),
                num_starts,
                col,
            ),
{
    let raw: u32 = hash128::raw_seed_of(ordinal);
    let eqs: Seq<Equation> = equations(keys, raw, num_starts);
    assert forall|col: int| 0 <= col < 32 implies #[trigger] suitable(keys, raw, num_starts, col)
        == linear::solvable_in(eqs, col) by {
        if linear::solvable_in(eqs, col) {
            let y: Seq<bool> = choose|y: Seq<bool>| linear::all_hold(eqs, col, y);
            lemma_suits(keys, raw, num_starts, col, y);
        }
        if suitable(keys, raw, num_starts, col) {
            let y: Seq<bool> = choose|y: Seq<bool>| #[trigger]
                suits(keys, raw, num_starts, col, y);
            lemma_suits(keys, raw, num_starts, col, y);
            assert(linear::all_hold(eqs, col, y));
        }
    }
    if seed_solves(keys, num_starts, ordinal) {
        assert forall|col: int| 0 <= col < 32 implies #[trigger] suitable(
            keys,
            raw,
            num_starts,
            col,
        ) by {
            assert(linear::solvable_in(eqs, col));
        }
    }
    if forall|col: int| 0 <= col < 32 ==> #[trigger] suitable(keys, raw, num_starts, col) {
        assert forall|col: int| 0 <= col < 32 implies #[trigger] linear::solvable_in(eqs, col) by {
            assert(suitable(keys, raw, num_starts, col));
        }
    }
}

/// Construction passes a seed over, or gives up, only for cause: under each seed before the one
/// taken, and under all 64 where none is, some column has no assignment that suits every key. Under
/// the seed taken each has one.
pub proof fn lemma_first_seed<const R: usize>(
    found: Option<Solution128<R>>,
    keys: Seq<u64>,
    ordinal: u32,
)
    requires
        is_build(found, keys),
        ordinal < 64,
    ensures
        ({
            let raw: u32 = hash128::raw_seed_of(ordinal);
            let num_starts: u64 = (sizing::slots(keys.len(), R as nat, 128) - 127) as u64;
            let each: bool = forall|col: int|
                0 <= col < 32 ==> #[trigger] suitable(keys, raw, num_starts, col);
            &&& found is None ==> !each
            &&& found is Some && ordinal < found->0.ordinal() ==> !each
            &&& found is Some && ordinal == found->0.ordinal() ==> each
            &&& found is Some ==> found->0.ordinal() < 64
        }),
{
    let num_starts: u64 = (sizing::slots(keys.len(), R as nat, 128) - 127) as u64;
    lemma_seed_meaning(keys, num_starts, ordinal);
}

/// Slots that the keys leave free hold nothing. A slot is free if some assignment, in which every
/// key's row selects an even number of set slots, has it as its last set slot. Together with the
/// answers for the keys, this determines the words.
pub proof fn lemma_free_slot<const R: usize>(
    s: Solution128<R>,
    keys: Seq<u64>,
    y: Seq<bool>,
    p: int,
    col: int,
)
    requires
        is_build(Some(s), keys),
        0 <= col < R,
        y.len() == sizing::slots(keys.len(), R as nat, 128),
        0 <= p < y.len(),
        y[p],
        forall|q: int| p < q < y.len() ==> !#[trigger] y[q],
        forall|k: u64| #[trigger]
            keys.contains(k) ==> tally::chosen(
                y,
                128,
                hash::start_of(hash::hash_of(k, s.seed() as u64), s.starts()),
                hash128::coeff_128_of(hash::hash_of(k, s.seed() as u64)),
            ) % 2 == 0,
    ensures
        !tally::slot_bit(s.words(), 128, R as int, col, p),
{
    sizing::lemma_slots_shape(keys.len(), R as nat, 128);
    let n: int = s.starts() + 127;
    let raw: u32 = s.seed();
    let eqs: Seq<Equation> = equations(keys, raw, s.starts());
    let rows: Seq<Row> = linear::band(linear::empty_rows(n as nat), 0, eqs).rows;
    lemma_seed_solves(keys, s.starts(), s.ordinal());
    assert forall|i: int| 0 <= i < eqs.len() implies linear::holds(
        (#[trigger] eqs[i]).row,
        eqs[i].at,
        32,
        y,
    ) by {
        assert(keys.contains(keys[i]));
        let h: u64 = hash::hash_of(keys[i], raw as u64);
        hash::lemma_start_range(h, s.starts());
        tally::lemma_dot_chosen(
            y,
            128,
            hash::start_of(h, s.starts()),
            hash128::coeff_128_of(h),
        );
        linear::lemma_no_result(hash128::result_of(h), 32);
    }
    assert(linear::all_hold(eqs, 32, y));
    assert(linear::satisfies(rows, 0, 32, y));
    if rows[p].coeff != 0 {
        linear::lemma_occupied_slot(rows, n, p, y);
    }
    lemma_solved_slot(rows, s.words(), R as int, p, col);
}

/// The number of slots for `n` keys at `r` columns: whole blocks of 128, and no fewer than two.
pub fn num_slots_for_128(n: usize, r: usize) -> (s: usize)
    requires
        sizing::slots(n as nat, r as nat, 128) <= usize::MAX,
    ensures
        s == sizing::slots(n as nat, r as nat, 128),
        s % 128 == 0,
        s >= 256,
{
    sizing::slots_for(n, r, W128)
}

/// Solves a band that was found for the keys.
pub(crate) fn finish_build<const R: usize>(found: Option<Banding128<R>>, keys: &[u64]) -> (s: Option<
    Solution128<R>,
>)
    requires
        R <= 32,
        sizing::slots(keys@.len(), R as nat, 128) <= usize::MAX,
        match found {
            Some(b) => {
                &&& b.bands(keys@)
                &&& b.coeffs().len() == sizing::slots(keys@.len(), R as nat, 128)
                &&& is_first_seed(keys@, b.starts(), b.ordinal())
            },
            None => no_seed(
                keys@,
                (sizing::slots(keys@.len(), R as nat, 128) - 127) as u64,
            ),
        },
    ensures
        is_build(s, keys@),
{
    match found {
        Some(b) => {
            let s: Solution128<R> = b.into_solution();
            proof {
                lemma_ribbon_however_banded(
                    b.rows(),
                    s.words(),
                    s.ordinal(),
                    keys@,
                    s.starts(),
                    R as int,
                );
                assert forall|k: u64| #[trigger] keys@.contains(k) implies s.reports(k) by {
                    lemma_members_reported(
                        s.words(),
                        s.ordinal(),
                        keys@,
                        s.starts(),
                        R as int,
                        k,
                    );
                }
            }
            Some(s)
        },
        None => None,
    }
}

/// Builds a standard ribbon in arrival order, under the first seed that solves the keys.
pub fn build_std128<const R: usize>(keys: &[u64]) -> (s: Option<Solution128<R>>)
    requires
        R <= 32,
    ensures
        is_build(s, keys@),
{
    sizing::room_for_keys(keys, R, W128);
    let num_slots: usize = num_slots_for_128(keys.len(), R);
    let found: Option<Banding128<R>> = Banding128::<R>::find_seed(num_slots, keys);
    finish_build(found, keys)
}

/// Builds a standard ribbon with pleated construction: the same seed, the same solution.
pub fn build_std128_pleated<const R: usize>(keys: &[u64], window_shift: u32) -> (s: Option<
    Solution128<R>,
>)
    requires
        R <= 32,
        window_shift < usize::BITS,
    ensures
        is_build(s, keys@),
{
    sizing::room_for_keys(keys, R, W128);
    let num_slots: usize = num_slots_for_128(keys.len(), R);
    let found: Option<Banding128<R>> = Banding128::<R>::find_seed_pleated(
        num_slots,
        keys,
        window_shift,
    );
    finish_build(found, keys)
}

/// The fingerprint of a solution: the FNV-1a hash of its words, sixteen bytes each.
pub fn solution_fnv_128(segments: &[u128]) -> (fnv: u64)
    ensures
        fnv == bytes::fnv_of(bytes::words_bytes(segments@, 16)),
{
    let mut fnv: u64 = FNV_OFFSET;
    let mut i: usize = 0;
    while i < segments.len()
        invariant
            i <= segments@.len(),
            fnv == bytes::fnv_of(bytes::words_bytes(segments@.take(i as int), 16)),
        decreases segments.len() - i,
    {
        proof {
            let front: Seq<u128> = segments@.take(i as int);
            let word: u128 = segments@[i as int];
            bytes::lemma_words_push(front, word, 16);
            assert(segments@.take(i + 1) =~= front.push(word));
            bytes::lemma_fnv_join(
                FNV_OFFSET,
                bytes::words_bytes(front, 16),
                bytes::le_bytes(word as nat, 16),
            );
        }
        fnv = fnv_word(fnv, segments[i], 16);
        i = i + 1;
    }
    assert(segments@.take(i as int) =~= segments@);
    fnv
}

} // verus!
