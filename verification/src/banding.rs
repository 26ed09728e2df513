//! Homogeneous ribbon banding and interleaved back-substitution, with rows of 64 slots.
//!
//! Members have a result of zero in every column, so any set of keys can be banded. The number of
//! slots is a multiple of 64, and a key may start at any slot that leaves room for its row.

use crate::bits;
use crate::bits::{lowest_bit_64, parity_64};
use crate::bytes;
use crate::bytes::{fnv_word, FNV_OFFSET};
use crate::hash;
use crate::hash::{coeff_row, ribbon_hash, start};
use crate::interleave;
use crate::linear;
use crate::linear::{Equation, Row};
use crate::sizing;
use crate::tally;
use vstd::prelude::*;

verus! {

/// Slots per row and per block.
pub const W: usize = 64;

/// Spreads slot numbers over the bits of empty slots.
pub const FILL_FACTOR: u64 = 0x9E37_79B1_85EB_CA87;

/// The words of a homogeneous band, as rows without results.
pub open spec fn rows_of(coeffs: Seq<u64>) -> Seq<Row> {
    Seq::new(coeffs.len(), |i: int| Row { coeff: coeffs[i] as u128, result: 0 })
}

/// The equation of a key: its coefficients sum to zero in every column.
pub open spec fn equation(key: u64, seed: u64, num_starts: u64) -> Equation {
    let h: u64 = hash::hash_of(key, seed);
    Equation {
        key,
        at: hash::start_of(h, num_starts),
        row: Row { coeff: hash::coeff_of(h) as u128, result: 0 },
    }
}

pub open spec fn equations(keys: Seq<u64>, seed: u64, num_starts: u64) -> Seq<Equation> {
    Seq::new(keys.len(), |i: int| equation(keys[i], seed, num_starts))
}

/// The pseudorandom bits that an empty slot holds, one per column.
pub open spec fn fill_of(slot: int) -> u32 {
    (slot as u64).wrapping_mul(FILL_FACTOR) as u32
}

/// The fill of an empty slot in a column.
pub open spec fn fills() -> spec_fn(int, int) -> bool {
    |col: int, slot: int| bits::bit(fill_of(slot) as u128, col)
}

/// The words store the solution of the rows, with pseudorandom bits in empty slots.
pub open spec fn is_solved(rows: Seq<Row>, words: Seq<u64>, r: int) -> bool {
    interleave::encodes(rows, fills(), 64, r, bytes::widened(words))
}

/// The banding matrix of a homogeneous ribbon over `R` columns.
pub struct Banding<const R: usize> {
    coeff_rows: Vec<u64>,
    num_starts: u64,
    raw_seed: u64,
}

impl<const R: usize> Banding<R> {
    /// The coefficient rows, one per slot; zero for an empty slot.
    pub closed spec fn coeffs(&self) -> Seq<u64> {
        self.coeff_rows@
    }

    pub closed spec fn starts(&self) -> u64 {
        self.num_starts
    }

    pub closed spec fn seed(&self) -> u64 {
        self.raw_seed
    }

    pub open spec fn rows(&self) -> Seq<Row> {
        rows_of(self.coeffs())
    }

    /// Whole blocks of slots, as many starts as leave room for a row, and rows in band form.
    pub open spec fn wf(&self) -> bool {
        &&& self.coeffs().len() % 64 == 0
        &&& self.coeffs().len() >= 64
        &&& self.coeffs().len() <= usize::MAX
        &&& self.starts() == self.coeffs().len() - 63
        &&& linear::banded(self.rows(), 0, self.coeffs().len() as int)
    }

    /// An empty band. `num_slots` is a multiple of 64, and not zero.
    pub fn new(num_slots: usize, raw_seed: u64) -> (b: Self)
        requires
            num_slots % 64 == 0,
            num_slots >= 64,
        ensures
            b.wf(),
            b.rows() == linear::empty_rows(num_slots as nat),
            b.coeffs().len() == num_slots,
            b.seed() == raw_seed,
    {
        let b: Self = Banding {
            coeff_rows: vec![0u64; num_slots],
            num_starts: (num_slots - W + 1) as u64,
            raw_seed,
        };
        assert(b.rows() =~= linear::empty_rows(num_slots as nat));
        b
    }

    pub fn num_slots(&self) -> (n: usize)
        ensures
            n == self.coeffs().len(),
    {
        self.coeff_rows.len()
    }

    pub fn num_starts(&self) -> (n: u64)
        ensures
            n == self.starts(),
    {
        self.num_starts
    }

    pub fn raw_seed(&self) -> (seed: u64)
        ensures
            seed == self.seed(),
    {
        self.raw_seed
    }

    /// The coefficient rows, for a builder that splits them into ranges of slots.
    pub fn coeff_rows_mut(&mut self) -> (rows: &mut [u64])
        ensures
            rows@ == old(self).coeffs(),
            final(self).coeffs() == final(rows)@,
            final(self).starts() == old(self).starts(),
            final(self).seed() == old(self).seed(),
    {
        self.coeff_rows.as_mut_slice()
    }

    /// Bands one key. A row that depends on those before it is dropped, so this never fails.
    pub fn add(&mut self, key: u64) -> (added: bool)
        requires
            old(self).wf(),
        ensures
            added,
            final(self).wf(),
            final(self).rows() == linear::band(
                old(self).rows(),
                0,
                seq![equation(key, old(self).seed(), old(self).starts())],
            ).rows,
            final(self).coeffs().len() == old(self).coeffs().len(),
            final(self).starts() == old(self).starts(),
            final(self).seed() == old(self).seed(),
    {
        let ghost rows: Seq<Row> = self.rows();
        let ghost n: int = self.coeffs().len() as int;
        let ghost eq: Equation = equation(key, self.raw_seed, self.num_starts);
        let h: u64 = ribbon_hash(key, self.raw_seed);
        let mut i: usize = start(h, self.num_starts) as usize;
        let mut cr: u64 = coeff_row(h);
        proof {
            lemma_equation(key, self.raw_seed, self.num_starts);
            linear::lemma_band_one(rows, 0, eq);
            linear::lemma_step_form(linear::begin(rows), 0, n, eq);
            linear::lemma_fits_here(cr as u128, i as int, n);
        }
        loop
            invariant
                0 <= i < n,
                n == self.coeff_rows@.len(),
                n <= usize::MAX,
                *self == *old(self),
                rows == self.rows(),
                linear::banded(rows, 0, n),
                bits::bit(cr as u128, 0),
                linear::fits(cr as u128, i as int, n),
                eq == equation(key, self.raw_seed, self.num_starts),
                linear::reduce(rows, i as int, cr as u128, 0) == linear::reduce(
                    rows,
                    eq.at,
                    eq.row.coeff,
                    0,
                ),
                linear::band(rows, 0, seq![eq]) == linear::step(linear::begin(rows), 0, eq),
                linear::banded(linear::step(linear::begin(rows), 0, eq).rows, 0, n),
                old(self).wf(),
            decreases n - i,
        {
            let cr_at_i: u64 = self.coeff_rows[i];
            assert(rows[i as int] == Row { coeff: cr_at_i as u128, result: 0 });
            proof {
                bits::lemma_bit_zero(0);
            }
            if cr_at_i == 0 {
                self.coeff_rows[i] = cr;
                assert(self.rows() =~= rows.update(
                    i as int,
                    Row { coeff: cr as u128, result: 0 },
                ));
                return true;
            }
            let ghost before: u64 = cr;
            cr = cr ^ cr_at_i;
            proof {
                bits::lemma_widen(before, cr_at_i, 0);
                assert(0u32 ^ 0u32 == 0u32) by (bit_vector);
                linear::lemma_fits_xor(before as u128, cr_at_i as u128, i as int, n);
            }
            if cr == 0 {
                proof {
                    linear::lemma_reduce_eliminate(rows, i as int, before as u128, 0, 0);
                }
                return true;
            }
            let tz: u32 = lowest_bit_64(cr);
            proof {
                linear::lemma_reduce_eliminate(rows, i as int, before as u128, 0, tz as u128);
                bits::lemma_widen(cr, cr, tz as u64);
                linear::lemma_fits_shr(cr as u128, i as int, n, tz as u128);
                bits::lemma_bit_shr(cr as u128, tz as u128, 0);
                linear::lemma_fits_here((cr >> (tz as u64)) as u128, i + tz, n);
            }
            i = i + tz as usize;
            cr = cr >> (tz as u64);
        }
    }

    /// Bands keys in the order in which they come.
    pub fn add_all(&mut self, keys: &[u64])
        requires
            old(self).wf(),
        ensures
            final(self).wf(),
            final(self).rows() == linear::band(
                old(self).rows(),
                0,
                equations(keys@, old(self).seed(), old(self).starts()),
            ).rows,
            final(self).coeffs().len() == old(self).coeffs().len(),
            final(self).starts() == old(self).starts(),
            final(self).seed() == old(self).seed(),
    {
        let ghost eqs: Seq<Equation> = equations(keys@, self.seed(), self.starts());
        let mut i: usize = 0;
        while i < keys.len()
            invariant
                i <= keys@.len(),
                self.wf(),
                self.coeffs().len() == old(self).coeffs().len(),
                self.starts() == old(self).starts(),
                self.seed() == old(self).seed(),
                eqs == equations(keys@, self.seed(), self.starts()),
                self.rows() == linear::band(old(self).rows(), 0, eqs.take(i as int)).rows,
            decreases keys.len() - i,
        {
            proof {
                assert(eqs.take(i + 1).drop_last() =~= eqs.take(i as int));
                lemma_homogeneous(old(self).coeffs(), eqs.take(i as int), keys@, self.seed(), self.starts());
                linear::lemma_band_one(self.rows(), 0, eqs[i as int]);
            }
            self.add(keys[i]);
            i = i + 1;
        }
        assert(eqs.take(i as int) =~= eqs);
    }

    /// Back-substitution into a solution that can be queried.
    pub fn solve(&self) -> (s: Solution<R>)
        requires
            self.wf(),
            R <= 32,
        ensures
            s.wf(),
            is_solved(self.rows(), s.words(), R as int),
            s.starts() == self.starts(),
            s.seed() == self.seed(),
    {
        let segments: Vec<u64> = self.back_substitute();
        proof {
            let n: int = self.coeffs().len() as int;
            interleave::lemma_covers_blocks(n / 64, 64, R as int);
        }
        Solution { segments, num_starts: self.num_starts, raw_seed: self.raw_seed }
    }

    /// Interleaved back-substitution, from the last slot to the first. An occupied slot gets the
    /// bits that make its row hold, an empty slot pseudorandom ones.
    pub fn back_substitute(&self) -> (words: Vec<u64>)
        requires
            self.wf(),
            R <= 32,
        ensures
            is_solved(self.rows(), words@, R as int),
    {
        let ghost rows: Seq<Row> = self.rows();
        let num_slots: usize = self.coeff_rows.len();
        let num_blocks: usize = num_slots / W;
        assert(num_blocks * R <= num_blocks * 32) by (nonlinear_arith)
            requires
                R <= 32,
        ;
        let mut data: Vec<u64> = vec![0u64; num_blocks * R];
        let mut state: Vec<u64> = vec![0u64; R];
        let mut block: usize = num_blocks;
        proof {
            interleave::lemma_window_start(rows, fills(), 64, bytes::widened(state@));
        }
        while block > 0
            invariant
                self.wf(),
                rows == self.rows(),
                R <= 32,
                num_slots == rows.len(),
                num_slots == num_blocks * 64,
                block <= num_blocks,
                num_blocks * R <= usize::MAX,
                data@.len() == num_blocks * R,
                state@.len() == R,
                interleave::is_window(rows, fills(), 64, bytes::widened(state@), block * 64),
                interleave::stored_from(
                    rows,
                    fills(),
                    64,
                    R as int,
                    bytes::widened(data@),
                    block as int,
                    num_blocks as int,
                ),
            decreases block,
        {
            block = block - 1;
            let first: usize = block * W;
            let mut i: usize = first + W;
            while i > first
                invariant
                    self.wf(),
                    rows == self.rows(),
                    R <= 32,
                    num_slots == rows.len(),
                    num_slots == num_blocks * 64,
                    block < num_blocks,
                    first == block * 64,
                    first <= i <= first + 64,
                    state@.len() == R,
                    interleave::is_window(rows, fills(), 64, bytes::widened(state@), i as int),
                decreases i,
            {
                i = i - 1;
                self.shift_in(i, &mut state);
            }
            let ghost before: Seq<u64> = data@;
            proof {
                interleave::lemma_block_index(block as int, R as int, num_blocks as int);
            }
            let mut j: usize = 0;
            while j < R
                invariant
                    data@.len() == num_blocks * R,
                    num_blocks * R <= usize::MAX,
                    before.len() == data@.len(),
                    state@.len() == R,
                    j <= R,
                    0 <= block * R,
                    block * R + R <= data@.len(),
                    forall|m: int|
                        block * R <= m < block * R + j ==> #[trigger] data@[m] == state@[m - block
                            * R],
                    forall|m: int|
                        block * R + R <= m < data@.len() ==> #[trigger] data@[m] == before[m],
                decreases R - j,
            {
                data[block * R + j] = state[j];
                j = j + 1;
            }
            proof {
                interleave::lemma_store_block(
                    rows,
                    fills(),
                    64,
                    R as int,
                    bytes::widened(before),
                    bytes::widened(data@),
                    bytes::widened(state@),
                    block as int,
                    num_blocks as int,
                );
            }
        }
        proof {
            interleave::lemma_encodes(
                rows,
                fills(),
                64,
                R as int,
                bytes::widened(data@),
                num_blocks as int,
            );
        }
        data
    }

    /// One slot of back-substitution: the state moves down to slot `i`, in every column.
    fn shift_in(&self, i: usize, state: &mut Vec<u64>)
        requires
            self.wf(),
            R <= 32,
            i < self.coeffs().len(),
            old(state)@.len() == R,
            interleave::is_window(self.rows(), fills(), 64, bytes::widened(old(state)@), i + 1),
        ensures
            final(state)@.len() == R,
            interleave::is_window(self.rows(), fills(), 64, bytes::widened(final(state)@), i as int),
    {
        let ghost rows: Seq<Row> = self.rows();
        let ghost before: Seq<u64> = state@;
        let cr: u64 = self.coeff_rows[i];
        let rr: u32 = if cr == 0 {
            (i as u64).wrapping_mul(FILL_FACTOR) as u32
        } else {
            0
        };
        let mut j: usize = 0;
        while j < R
            invariant
                self.wf(),
                R <= 32,
                rows == self.rows(),
                i < rows.len(),
                rows[i as int] == (Row { coeff: cr as u128, result: 0 }),
                rr == if cr == 0 {
                    fill_of(i as int)
                } else {
                    0
                },
                state@.len() == R,
                before.len() == R,
                j <= R,
                interleave::is_window(rows, fills(), 64, bytes::widened(before), i + 1),
                forall|m: int|
                    0 <= m < j ==> interleave::holds_window(
                        rows,
                        fills(),
                        64,
                        #[trigger] state@[m] as u128,
                        m,
                        i as int,
                    ),
                forall|m: int| j <= m < R ==> #[trigger] state@[m] == before[m],
            decreases R - j,
        {
            let old_word: u64 = state[j];
            let tmp: u64 = old_word << 1u64;
            let odd: bool = parity_64(tmp & cr) != ((rr >> (j as u32)) & 1 == 1);
            let word: u64 = if odd {
                tmp | 1
            } else {
                tmp
            };
            state[j] = word;
            proof {
                assert(bytes::widened(before)[j as int] == old_word as u128);
                bits::lemma_widen(tmp, cr, 0);
                bits::lemma_widen(tmp, 1, 0);
                bits::lemma_bit_u32(rr, j as u32);
                bits::lemma_bit_zero(j as int);
                assert forall|k: int| 0 <= k < 64 implies #[trigger] bits::bit(tmp as u128, k) == (1
                    <= k && bits::bit(old_word as u128, k - 1)) by {
                    bits::lemma_bit_shl_64(old_word, 1, k);
                }
                assert forall|k: int| 0 <= k < 64 implies #[trigger] bits::bit(word as u128, k)
                    == if k == 0 {
                    odd
                } else {
                    bits::bit(tmp as u128, k)
                } by {
                    bits::lemma_bit_combine(tmp as u128, 1, k);
                    bits::lemma_bit_one(k);
                    assert(bits::bit(tmp as u128, k) == (1 <= k && bits::bit(
                        old_word as u128,
                        k - 1,
                    )));
                }
                assert forall|k: int| 64 <= k implies !#[trigger] bits::bit(
                    rows[i as int].coeff,
                    k,
                ) by {
                    bits::lemma_bit_narrow(cr, k);
                }
                interleave::lemma_shift_in(
                    rows,
                    fills(),
                    64,
                    j as int,
                    i as int,
                    old_word as u128,
                    tmp as u128,
                    odd,
                    word as u128,
                );
            }
            j = j + 1;
        }
    }
}

/// A solved homogeneous ribbon with `R` columns, ready for queries.
#[derive(Debug)]
pub struct Solution<const R: usize> {
    segments: Vec<u64>,
    num_starts: u64,
    raw_seed: u64,
}

/// A key is reported present: the slots that its row selects sum to zero in every column.
pub open spec fn reports(words: Seq<u64>, num_starts: u64, seed: u64, r: int, key: u64) -> bool {
    forall|col: int| 0 <= col < r ==> #[trigger] reports_in(words, num_starts, seed, r, key, col)
}

pub open spec fn reports_in(
    words: Seq<u64>,
    num_starts: u64,
    seed: u64,
    r: int,
    key: u64,
    col: int,
) -> bool {
    let eq: Equation = equation(key, seed, num_starts);
    linear::holds(eq.row, eq.at, col, interleave::column(bytes::widened(words), 64, r, col))
}

impl<const R: usize> Solution<R> {
    /// The words of the solution, block by block and column by column.
    pub closed spec fn words(&self) -> Seq<u64> {
        self.segments@
    }

    pub closed spec fn starts(&self) -> u64 {
        self.num_starts
    }

    pub closed spec fn seed(&self) -> u64 {
        self.raw_seed
    }

    /// Every key can be queried.
    pub open spec fn wf(&self) -> bool {
        interleave::covers(self.words().len() as int, 64, R as int, self.starts() as int)
    }

    pub open spec fn reports(&self, key: u64) -> bool {
        reports(self.words(), self.starts(), self.seed(), R as int, key)
    }

    pub fn segments(&self) -> (words: &[u64])
        ensures
            words@ == self.words(),
    {
        self.segments.as_slice()
    }

    /// The number of starts, the seed and the words.
    pub fn parts(&self) -> (p: (u64, u64, &[u64]))
        ensures
            p.0 == self.starts(),
            p.1 == self.seed(),
            p.2@ == self.words(),
    {
        (self.num_starts, self.raw_seed, self.segments.as_slice())
    }

    /// A solution put together from its parts. It can be queried if they are well-formed.
    pub fn from_parts(num_starts: u64, raw_seed: u64, segments: Vec<u64>) -> (s: Self)
        ensures
            s.starts() == num_starts,
            s.seed() == raw_seed,
            s.words() == segments@,
    {
        Solution { segments, num_starts, raw_seed }
    }

    /// Queries many keys at once.
    pub fn contains_batch(&self, keys: &[u64], out: &mut [bool])
        requires
            self.wf(),
            keys@.len() == old(out)@.len(),
        ensures
            final(out)@.len() == keys@.len(),
            forall|i: int|
                0 <= i < keys@.len() ==> #[trigger] final(out)@[i] == self.reports(keys@[i]),
    {
        let mut i: usize = 0;
        while i < keys.len()
            invariant
                self.wf(),
                i <= keys@.len(),
                out@.len() == keys@.len(),
                forall|j: int| 0 <= j < i ==> #[trigger] out@[j] == self.reports(keys@[j]),
            decreases keys.len() - i,
        {
            out[i] = self.contains(keys[i]);
            i = i + 1;
        }
    }

    /// Is `key` possibly a member? A key that was banded always is.
    pub fn contains(&self, key: u64) -> (present: bool)
        requires
            self.wf(),
        ensures
            present == self.reports(key),
    {
        let ghost words: Seq<u128> = bytes::widened(self.segments@);
        let h: u64 = ribbon_hash(key, self.raw_seed);
        let start_slot: u64 = start(h, self.num_starts);
        let start_bit: u64 = start_slot % 64;
        let cr: u64 = coeff_row(h);
        let cr_left: u64 = cr << start_bit;
        let cr_right: u64 = cr >> ((64 - start_bit) % 64);
        if R == 0 {
            return true;
        }
        proof {
            assert(words.len() == self.segments.len());
            hash::lemma_start_range(h, self.num_starts);
            interleave::lemma_covered(
                words.len() as int,
                64,
                R as int,
                self.num_starts as int,
                start_slot as int,
            );
            interleave::lemma_word_index(start_slot as int / 64, R as int, 0, words.len() as int);
            assert(start_slot as int / 64 <= (start_slot as int / 64) * R) by (nonlinear_arith)
                requires
                    R >= 1,
            ;
        }
        let segment_num: usize = (start_slot / 64) as usize * R;
        let maybe: usize = if start_bit != 0 {
            R
        } else {
            0
        };
        let mut i: usize = 0;
        while i < R
            invariant
                R > 0,
                i <= R,
                words == bytes::widened(self.segments@),
                words.len() <= usize::MAX,
                start_bit == start_slot % 64,
                start_slot == hash::start_of(h, self.num_starts),
                h == hash::hash_of(key, self.raw_seed),
                cr == hash::coeff_of(h),
                cr_left == cr << start_bit,
                cr_right == cr >> ((64 - start_bit) % 64),
                segment_num == (start_slot as int / 64) * R,
                maybe == if start_bit != 0 {
                    R
                } else {
                    0
                },
                (start_slot as int / 64 + 1) * R <= words.len(),
                start_bit != 0 ==> (start_slot as int / 64 + 2) * R <= words.len(),
                forall|col: int|
                    0 <= col < i ==> #[trigger] reports_in(
                        self.words(),
                        self.num_starts,
                        self.raw_seed,
                        R as int,
                        key,
                        col,
                    ),
            decreases R - i,
        {
            let ghost b: int = start_slot as int / 64;
            proof {
                interleave::lemma_word_index(b, R as int, i as int, words.len() as int);
                if start_bit != 0 {
                    interleave::lemma_word_index(b + 1, R as int, i as int, words.len() as int);
                    assert((b + 1) * R == b * R + R) by (nonlinear_arith);
                }
            }
            let left: u64 = self.segments[segment_num + i];
            let right: u64 = self.segments[segment_num + maybe + i];
            let found: u64 = (left & cr_left) | (right & cr_right);
            proof {
                lemma_found(left, right, cr, start_bit, found);
                assert forall|k: int| 64 <= k implies !#[trigger] bits::bit(cr as u128, k) by {
                    bits::lemma_bit_narrow(cr, k);
                }
                assert forall|k: int| 64 <= k implies !#[trigger] bits::bit(found as u128, k) by {
                    bits::lemma_bit_narrow(found, k);
                }
                interleave::lemma_query(
                    words,
                    64,
                    R as int,
                    i as int,
                    cr as u128,
                    start_slot as int,
                    found as u128,
                );
                bits::lemma_bit_zero(i as int);
            }
            if parity_64(found) {
                assert(!reports_in(
                    self.words(),
                    self.num_starts,
                    self.raw_seed,
                    R as int,
                    key,
                    i as int,
                ));
                return false;
            }
            i = i + 1;
        }
        true
    }
}

/// The bits of the word that a query forms: the row, moved to its place in two blocks, selects
/// from both.
proof fn lemma_found(left: u64, right: u64, cr: u64, o: u64, found: u64)
    requires
        o < 64,
        o == 0 ==> left == right,
        found == (left & (cr << o)) | (right & (cr >> ((64 - o) as u64 % 64))),
    ensures
        forall|m: int|
            o <= m < 64 ==> #[trigger] bits::bit(found as u128, m) == (bits::bit(left as u128, m)
                && bits::bit(cr as u128, m - o)),
        forall|m: int|
            0 <= m < o ==> #[trigger] bits::bit(found as u128, m) == (bits::bit(right as u128, m)
                && bits::bit(cr as u128, m + 64 - o)),
{
    let t: u64 = ((64 - o) as u64) % 64;
    let a: u64 = left & (cr << o);
    let b: u64 = right & (cr >> t);
    bits::lemma_widen(a, b, 0);
    bits::lemma_widen(left, cr << o, 0);
    bits::lemma_widen(right, cr >> t, 0);
    bits::lemma_widen(cr, cr, t);
    assert forall|m: int| 0 <= m < 64 implies #[trigger] bits::bit(found as u128, m) == if m >= o {
        bits::bit(left as u128, m) && bits::bit(cr as u128, m - o)
    } else {
        bits::bit(right as u128, m) && bits::bit(cr as u128, m + 64 - o)
    } by {
        bits::lemma_bit_combine(a as u128, b as u128, m);
        bits::lemma_bit_combine(left as u128, (cr << o) as u128, m);
        bits::lemma_bit_combine(right as u128, (cr >> t) as u128, m);
        bits::lemma_bit_shl_64(cr, o, m);
        bits::lemma_bit_shr(cr as u128, t as u128, m);
        if m + 64 - o >= 64 {
            bits::lemma_bit_narrow(cr, m + 64 - o);
        }
    }
}

/// The equation of a key starts within the band, has its first coefficient set, and stays within
/// the band.
pub proof fn lemma_equation(key: u64, seed: u64, num_starts: u64)
    requires
        num_starts > 0,
    ensures
        0 <= equation(key, seed, num_starts).at < num_starts,
        bits::bit(equation(key, seed, num_starts).row.coeff, 0),
        linear::fits(
            equation(key, seed, num_starts).row.coeff,
            equation(key, seed, num_starts).at,
            num_starts + 63,
        ),
{
    let h: u64 = hash::hash_of(key, seed);
    hash::lemma_start_range(h, num_starts);
    hash::lemma_coeff_first(h);
    let c: u64 = hash::coeff_of(h);
    assert forall|k: int| #[trigger] bits::bit(c as u128, k) implies hash::start_of(h, num_starts)
        + k < num_starts + 63 by {
        if k >= 64 {
            bits::lemma_bit_narrow(c, k);
        }
    }
}

/// Homogeneous equations are consistent with a homogeneous band.
pub proof fn lemma_homogeneous(coeffs: Seq<u64>, eqs: Seq<Equation>, keys: Seq<u64>, seed: u64, num_starts: u64)
    requires
        num_starts > 0,
        exists|m: int| 0 <= m <= keys.len() && eqs == #[trigger] equations(keys, seed, num_starts).take(m),
    ensures
        linear::band(rows_of(coeffs), 0, eqs).consistent,
{
    assert forall|i: int| 0 <= i < eqs.len() implies 0 <= (#[trigger] eqs[i]).at
        && eqs[i].row.result == 0 by {
        lemma_equation(keys[i], seed, num_starts);
    }
    linear::lemma_band_homogeneous(rows_of(coeffs), 0, eqs);
}

/// The words are the ribbon of `keys`: the solution of the band that they make, one after the
/// other, out of an empty one.
pub open spec fn is_ribbon(
    words: Seq<u64>,
    keys: Seq<u64>,
    seed: u64,
    num_starts: u64,
    r: int,
) -> bool {
    is_solved(
        linear::band(
            linear::empty_rows((num_starts + 63) as nat),
            0,
            equations(keys, seed, num_starts),
        ).rows,
        words,
        r,
    )
}

/// The two lists hold the same keys, whatever their order and number.
pub open spec fn same_keys(a: Seq<u64>, b: Seq<u64>) -> bool {
    forall|k: u64| #[trigger] a.contains(k) <==> b.contains(k)
}

/// The band that keys make has the solutions of their equations.
pub proof fn lemma_band_of_keys(keys: Seq<u64>, seed: u64, num_starts: u64)
    requires
        num_starts > 0,
    ensures
        ({
            let n: int = num_starts + 63;
            let eqs: Seq<Equation> = equations(keys, seed, num_starts);
            let rows: Seq<Row> = linear::band(linear::empty_rows(n as nat), 0, eqs).rows;
            &&& linear::placed(eqs, n)
            &&& rows.len() == n
            &&& linear::banded(rows, 0, n)
            &&& linear::equivalent(rows, eqs)
        }),
{
    let n: int = num_starts + 63;
    let eqs: Seq<Equation> = equations(keys, seed, num_starts);
    assert forall|i: int| 0 <= i < eqs.len() implies 0 <= (#[trigger] eqs[i]).at && bits::bit(
        eqs[i].row.coeff,
        0,
    ) && linear::fits(eqs[i].row.coeff, eqs[i].at, n) && eqs[i].row.result == 0 by {
        lemma_equation(keys[i], seed, num_starts);
    }
    linear::lemma_band_homogeneous(linear::empty_rows(n as nat), 0, eqs);
    linear::lemma_band_equivalent(n as nat, eqs);
}

pub proof fn lemma_same_keys(a: Seq<u64>, b: Seq<u64>, seed: u64, num_starts: u64)
    requires
        same_keys(a, b),
    ensures
        linear::same_equations(equations(a, seed, num_starts), equations(b, seed, num_starts)),
{
    let ea: Seq<Equation> = equations(a, seed, num_starts);
    let eb: Seq<Equation> = equations(b, seed, num_starts);
    assert forall|e: Equation| #[trigger] ea.contains(e) implies eb.contains(e) by {
        let i: int = choose|i: int| 0 <= i < ea.len() && ea[i] == e;
        assert(a.contains(a[i]));
        assert(b.contains(a[i]));
        let j: int = choose|j: int| 0 <= j < b.len() && b[j] == a[i];
        assert(eb[j] == e);
    }
    assert forall|e: Equation| #[trigger] eb.contains(e) implies ea.contains(e) by {
        let i: int = choose|i: int| 0 <= i < eb.len() && eb[i] == e;
        assert(b.contains(b[i]));
        assert(a.contains(b[i]));
        let j: int = choose|j: int| 0 <= j < a.len() && a[j] == b[i];
        assert(ea[j] == e);
    }
}

/// However a band of the keys was made, its solution is the ribbon of the keys.
pub proof fn lemma_ribbon_however_banded(
    rows: Seq<Row>,
    words: Seq<u64>,
    keys: Seq<u64>,
    seed: u64,
    num_starts: u64,
    r: int,
)
    requires
        num_starts > 0,
        rows.len() == num_starts + 63,
        linear::banded(rows, 0, num_starts + 63),
        linear::equivalent(rows, equations(keys, seed, num_starts)),
        is_solved(rows, words, r),
    ensures
        is_ribbon(words, keys, seed, num_starts, r),
{
    lemma_band_of_keys(keys, seed, num_starts);
    let n: int = num_starts + 63;
    let eqs: Seq<Equation> = equations(keys, seed, num_starts);
    interleave::lemma_same_encoding(
        rows,
        eqs,
        linear::band(linear::empty_rows(n as nat), 0, eqs).rows,
        eqs,
        n,
        fills(),
        64,
        r,
        bytes::widened(words),
    );
}

/// No false negatives: a ribbon reports every one of its keys.
pub proof fn lemma_members_reported(
    words: Seq<u64>,
    keys: Seq<u64>,
    seed: u64,
    num_starts: u64,
    r: int,
    key: u64,
)
    requires
        num_starts > 0,
        is_ribbon(words, keys, seed, num_starts, r),
        keys.contains(key),
    ensures
        reports(words, num_starts, seed, r, key),
{
    lemma_band_of_keys(keys, seed, num_starts);
    let n: int = num_starts + 63;
    let eqs: Seq<Equation> = equations(keys, seed, num_starts);
    let rows: Seq<Row> = linear::band(linear::empty_rows(n as nat), 0, eqs).rows;
    let i: int = choose|i: int| 0 <= i < keys.len() && keys[i] == key;
    assert forall|col: int| 0 <= col < r implies #[trigger] reports_in(
        words,
        num_starts,
        seed,
        r,
        key,
        col,
    ) by {
        let x: Seq<bool> = interleave::column(bytes::widened(words), 64, r, col);
        assert(interleave::encodes_column(rows, fills(), 64, r, bytes::widened(words), col));
        assert(linear::satisfies(rows, 0, col, x));
        assert(linear::all_hold(eqs, col, x));
        assert(linear::holds(eqs[i].row, eqs[i].at, col, x));
    }
}

/// The outcome of construction: the ribbon of the keys under a seed, at the size that their
/// number asks for. It reports every one of them.
pub open spec fn is_build<const R: usize>(s: Solution<R>, keys: Seq<u64>, seed: u64) -> bool {
    let num_starts: u64 = (sizing::slots(keys.len(), R as nat, 64) - 63) as u64;
    &&& sizing::slots(keys.len(), R as nat, 64) <= usize::MAX
    &&& s.wf()
    &&& s.starts() == num_starts
    &&& s.seed() == seed
    &&& is_ribbon(s.words(), keys, seed, num_starts, R as int)
    &&& forall|k: u64| #[trigger] keys.contains(k) ==> s.reports(k)
}

/// Solving a band of the keys, however it was made, builds their ribbon.
pub proof fn lemma_build<const R: usize>(rows: Seq<Row>, s: Solution<R>, keys: Seq<u64>, seed: u64)
    requires
        sizing::slots(keys.len(), R as nat, 64) <= usize::MAX,
        s.wf(),
        s.starts() == sizing::slots(keys.len(), R as nat, 64) - 63,
        s.seed() == seed,
        rows.len() == s.starts() + 63,
        linear::banded(rows, 0, s.starts() + 63),
        linear::equivalent(rows, equations(keys, seed, s.starts())),
        is_solved(rows, s.words(), R as int),
    ensures
        is_build(s, keys, seed),
{
    sizing::lemma_slots_shape(keys.len(), R as nat, 64);
    lemma_ribbon_however_banded(rows, s.words(), keys, seed, s.starts(), R as int);
    assert forall|k: u64| #[trigger] keys.contains(k) implies s.reports(k) by {
        lemma_members_reported(s.words(), keys, seed, s.starts(), R as int, k);
    }
}

/// Order does not matter: ribbons of the same keys are bit-identical.
pub proof fn lemma_ribbon_order_free(
    u: Seq<u64>,
    a: Seq<u64>,
    v: Seq<u64>,
    b: Seq<u64>,
    seed: u64,
    num_starts: u64,
    r: int,
)
    requires
        num_starts > 0,
        0 <= r,
        is_ribbon(u, a, seed, num_starts, r),
        is_ribbon(v, b, seed, num_starts, r),
        same_keys(a, b),
    ensures
        u == v,
{
    lemma_band_of_keys(a, seed, num_starts);
    lemma_band_of_keys(b, seed, num_starts);
    lemma_same_keys(a, b, seed, num_starts);
    let n: int = num_starts + 63;
    let ea: Seq<Equation> = equations(a, seed, num_starts);
    let eb: Seq<Equation> = equations(b, seed, num_starts);
    let ra: Seq<Row> = linear::band(linear::empty_rows(n as nat), 0, ea).rows;
    let rb: Seq<Row> = linear::band(linear::empty_rows(n as nat), 0, eb).rows;
    interleave::lemma_same_encoding(ra, ea, rb, eb, n, fills(), 64, r, bytes::widened(u));
    assert forall|m: int, k: int| 0 <= m < bytes::widened(u).len() && 64 <= k implies !#[trigger] bits::bit(
        bytes::widened(u)[m],
        k,
    ) by {
        bits::lemma_bit_narrow(u[m], k);
    }
    assert forall|m: int, k: int| 0 <= m < bytes::widened(v).len() && 64 <= k implies !#[trigger] bits::bit(
        bytes::widened(v)[m],
        k,
    ) by {
        bits::lemma_bit_narrow(v[m], k);
    }
    interleave::lemma_encoding_unique(rb, n, fills(), 64, r, bytes::widened(u), bytes::widened(v));
    assert forall|m: int| 0 <= m < u.len() implies #[trigger] u[m] == v[m] by {
        assert(bytes::widened(u)[m] == bytes::widened(v)[m]);
    }
    assert(u =~= v);
}

/// However they are built, ribbons of the same keys are the same.
pub proof fn lemma_same_build<const R: usize>(
    s: Solution<R>,
    a: Seq<u64>,
    t: Solution<R>,
    b: Seq<u64>,
    seed: u64,
)
    requires
        is_build(s, a, seed),
        is_build(t, b, seed),
        a.len() == b.len(),
        same_keys(a, b),
    ensures
        s.words() == t.words(),
        s.starts() == t.starts(),
        s.seed() == t.seed(),
        forall|k: u64| #[trigger] s.reports(k) == t.reports(k),
{
    sizing::lemma_slots_shape(a.len(), R as nat, 64);
    lemma_ribbon_order_free(s.words(), a, t.words(), b, seed, s.starts(), R as int);
}

/// The size of a ribbon depends on the number of its keys alone.
pub proof fn lemma_build_size<const R: usize>(s: Solution<R>, keys: Seq<u64>, seed: u64)
    requires
        is_build(s, keys, seed),
    ensures
        s.seed() == seed,
        s.starts() + 63 == sizing::slots(keys.len(), R as nat, 64),
        s.words().len() == sizing::slots(keys.len(), R as nat, 64) as int / 64 * R,
{
    sizing::lemma_slots_shape(keys.len(), R as nat, 64);
    lemma_band_of_keys(keys, seed, s.starts());
}

/// What an answer says of the words: a key is reported exactly if its row selects an even number of
/// set slots in each of the columns. So it is refused as soon as one column has an odd number.
pub proof fn lemma_answer<const R: usize>(s: Solution<R>, key: u64)
    requires
        s.wf(),
    ensures
        s.reports(key) <==> forall|col: int|
            0 <= col < R ==> #[trigger] tally::hits(
                bytes::widened(s.words()),
                64,
                R as int,
                col,
                hash::start_of(hash::hash_of(key, s.seed()), s.starts()),
                hash::coeff_of(hash::hash_of(key, s.seed())) as u128,
            ) % 2 == 0,
{
    let words: Seq<u128> = bytes::widened(s.words());
    let r: int = R as int;
    let h: u64 = hash::hash_of(key, s.seed());
    let at: int = hash::start_of(h, s.starts());
    let c: u64 = hash::coeff_of(h);
    hash::lemma_start_range(h, s.starts());
    assert forall|k: int| 64 <= k implies !#[trigger] bits::bit(c as u128, k) by {
        bits::lemma_bit_narrow(c, k);
    }
    assert forall|col: int| 0 <= col < r implies #[trigger] reports_in(
        s.words(),
        s.starts(),
        s.seed(),
        r,
        key,
        col,
    ) == (tally::hits(words, 64, r, col, at, c as u128) % 2 == 0) by {
        interleave::lemma_covered(words.len() as int, 64, r, s.starts() as int, at);
        tally::lemma_dot_hits(words, 64, r, col, at, c as u128);
        bits::lemma_bit_zero(col);
    }
    if s.reports(key) {
        assert forall|col: int| 0 <= col < r implies #[trigger] tally::hits(
            words,
            64,
            r,
            col,
            at,
            c as u128,
        ) % 2 == 0 by {
            assert(reports_in(s.words(), s.starts(), s.seed(), r, key, col));
        }
    }
}

/// What a solved band holds, slot by slot: an empty slot the digits of the slot number times a fixed
/// factor; and the row of an occupied slot selects an even number of set slots.
pub proof fn lemma_solved_slot(rows: Seq<Row>, words: Seq<u64>, r: int, p: int, col: int)
    requires
        is_solved(rows, words, r),
        rows.len() % 64 == 0,
        rows.len() <= u64::MAX,
        0 <= p < rows.len(),
        0 <= col < r <= 32,
    ensures
        rows[p].coeff == 0 ==> tally::slot_bit(bytes::widened(words), 64, r, col, p)
            == tally::digit(
            ((p * 0x9E37_79B1_85EB_CA87) % 0x1_0000_0000_0000_0000) as nat,
            col as nat,
        ),
        rows[p].coeff != 0 && rows[p].result == 0 && (forall|k: int|
            64 <= k ==> !#[trigger] bits::bit(rows[p].coeff, k)) ==> tally::chosen(
            tally::stored(bytes::widened(words), 64, r, col, rows.len()),
            64,
            p,
            rows[p].coeff,
        ) % 2 == 0,
{
    let wide: Seq<u128> = bytes::widened(words);
    let x: Seq<bool> = interleave::column(wide, 64, r, col);
    tally::lemma_stored(wide, 64, r, col, rows.len());
    assert(interleave::encodes_column(rows, fills(), 64, r, wide, col));
    if rows[p].coeff == 0 {
        assert(x[p] == fills()(col, p));
        lemma_fill_digits(p, col);
    } else if rows[p].result == 0 && (forall|k: int|
        64 <= k ==> !#[trigger] bits::bit(rows[p].coeff, k)) {
        assert(linear::holds(rows[p], p, col, x));
        bits::lemma_bit_zero(col);
        tally::lemma_dot_chosen(x, 64, p, rows[p].coeff);
    }
}

/// The pseudorandom bits of an empty slot, in numbers.
pub proof fn lemma_fill_digits(slot: int, col: int)
    requires
        0 <= slot <= u64::MAX,
        0 <= col < 32,
    ensures
        fills()(col, slot) == tally::digit(
            ((slot * 0x9E37_79B1_85EB_CA87) % 0x1_0000_0000_0000_0000) as nat,
            col as nat,
        ),
{
    let x: u64 = (slot as u64).wrapping_mul(FILL_FACTOR);
    assert(x == (slot * 0x9E37_79B1_85EB_CA87) % 0x1_0000_0000_0000_0000);
    let y: u32 = x as u32;
    let j: u128 = col as u128;
    assert((((y as u128) >> j) & 1u128 == 1u128) == (((x as u128) >> j) & 1u128 == 1u128))
        by (bit_vector)
        requires
            y == x as u32,
            j < 32,
    ;
    tally::lemma_bit_digit(x as u128, col);
}

/// An assignment in which every key's row selects an even number of set slots.
pub open spec fn evens(keys: Seq<u64>, seed: u64, num_starts: u64, y: Seq<bool>) -> bool {
    forall|k: u64| #[trigger]
        keys.contains(k) ==> tally::chosen(
            y,
            64,
            hash::start_of(hash::hash_of(k, seed), num_starts),
            hash::coeff_of(hash::hash_of(k, seed)) as u128,
        ) % 2 == 0
}

/// Slots that the keys leave free are pseudorandom. A slot is free if some assignment that suits
/// every key has it as its last set slot. Together with every key's row selecting an even number of
/// set slots, this determines the words.
pub proof fn lemma_free_slot<const R: usize>(
    s: Solution<R>,
    keys: Seq<u64>,
    seed: u64,
    y: Seq<bool>,
    p: int,
    col: int,
)
    requires
        is_build(s, keys, seed),
        0 <= col < R <= 32,
        y.len() == sizing::slots(keys.len(), R as nat, 64),
        0 <= p < y.len(),
        y[p],
        forall|q: int| p < q < y.len() ==> !#[trigger] y[q],
        evens(keys, seed, s.starts(), y),
    ensures
        tally::slot_bit(bytes::widened(s.words()), 64, R as int, col, p) == tally::digit(
            ((p * 0x9E37_79B1_85EB_CA87) % 0x1_0000_0000_0000_0000) as nat,
            col as nat,
        ),
{
    sizing::lemma_slots_shape(keys.len(), R as nat, 64);
    let n: int = s.starts() + 63;
    let eqs: Seq<Equation> = equations(keys, seed, s.starts());
    let rows: Seq<Row> = linear::band(linear::empty_rows(n as nat), 0, eqs).rows;
    lemma_band_of_keys(keys, seed, s.starts());
    assert forall|i: int| 0 <= i < eqs.len() implies linear::holds(
        (#[trigger] eqs[i]).row,
        eqs[i].at,
        32,
        y,
    ) by {
        assert(keys.contains(keys[i]));
        let h: u64 = hash::hash_of(keys[i], seed);
        let c: u64 = hash::coeff_of(h);
        hash::lemma_start_range(h, s.starts());
        assert forall|k: int| 64 <= k implies !#[trigger] bits::bit(c as u128, k) by {
            bits::lemma_bit_narrow(c, k);
        }
        tally::lemma_dot_chosen(y, 64, hash::start_of(h, s.starts()), c as u128);
        bits::lemma_bit_zero(32);
    }
    assert(linear::all_hold(eqs, 32, y));
    assert(linear::satisfies(rows, 0, 32, y));
    if rows[p].coeff != 0 {
        linear::lemma_occupied_slot(rows, n, p, y);
    }
    lemma_solved_slot(rows, s.words(), R as int, p, col);
}

/// The fingerprint of a solution: the FNV-1a hash of its words, eight bytes each.
pub fn solution_fnv(segments: &[u64]) -> (fnv: u64)
    ensures
        fnv == bytes::fnv_of(bytes::words_bytes(bytes::widened(segments@), 8)),
{
    let ghost all: Seq<u128> = bytes::widened(segments@);
    let mut fnv: u64 = FNV_OFFSET;
    let mut i: usize = 0;
    while i < segments.len()
        invariant
            i <= segments@.len(),
            all == bytes::widened(segments@),
            fnv == bytes::fnv_of(bytes::words_bytes(all.take(i as int), 8)),
        decreases segments.len() - i,
    {
        proof {
            let before: Seq<u8> = bytes::words_bytes(all.take(i as int), 8);
            bytes::lemma_words_push(all.take(i as int), all[i as int], 8);
            assert(all.take(i + 1) =~= all.take(i as int).push(all[i as int]));
            bytes::lemma_fnv_join(FNV_OFFSET, before, bytes::le_bytes(all[i as int] as nat, 8));
        }
        fnv = fnv_word(fnv, segments[i] as u128, 8);
        i = i + 1;
    }
    assert(all.take(i as int) =~= all);
    fnv
}

} // verus!
