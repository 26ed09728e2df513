//! Banding by ranges of slots, for standard ribbons.
//!
//! As for homogeneous ribbons, but banding can fail: where the keys of a range, or the keys that
//! are banded last, contradict each other, the seed is given up and the next one is tried.

use crate::banding128;
use crate::banding128::{
    build_std128_pleated, finish_build, num_slots_for_128, Banding128, Solution128, SEED_COUNT, W128,
};
use crate::bits;
use crate::bits::lowest_bit_128;
use crate::filter::window_size;
use crate::hash128;
use crate::hash128::{coeff_row_128, result_row, ribbon_hash, start};
use crate::linear;
use crate::linear::{Equation, Progress, Row};
use crate::ranges;
use crate::ranges::{bucket_keys, range_bounds, tail_keys};
use crate::sizing;
use vstd::prelude::*;

verus! {

/// What became of a key that was banded into a range.
enum Fate {
    /// Its row was stored, or adds nothing.
    Stays,
    /// Its reduction left the range.
    Leaves,
    /// It contradicts the rows before it.
    Conflicts,
}

/// Bands one key into the slots from `base` on that the slices hold.
fn band_key_128(
    coeff: &mut [u128],
    result: &mut [u32],
    base: usize,
    num_starts: u64,
    raw_seed: u32,
    key: u64,
) -> (fate: Fate)
    requires
        0 < num_starts,
        num_starts + 127 <= usize::MAX,
        old(coeff)@.len() == old(result)@.len(),
        linear::banded(
            banding128::rows_of(old(coeff)@, old(result)@),
            base as int,
            num_starts + 127,
        ),
        base <= banding128::equation(key, raw_seed, num_starts).at,
    ensures
        final(coeff)@.len() == old(coeff)@.len(),
        final(result)@.len() == old(result)@.len(),
        ({
            let next: Progress = linear::step(
                linear::begin(banding128::rows_of(old(coeff)@, old(result)@)),
                base as int,
                banding128::equation(key, raw_seed, num_starts),
            );
            &&& banding128::rows_of(final(coeff)@, final(result)@) == next.rows
            &&& fate is Leaves <==> next.escaped != Seq::<u64>::empty()
            &&& fate is Conflicts <==> !next.consistent
        }),
{
    let ghost rows: Seq<Row> = banding128::rows_of(coeff@, result@);
    let ghost n: int = num_starts + 127;
    let ghost eq: Equation = banding128::equation(key, raw_seed, num_starts);
    let h: u64 = ribbon_hash(key, raw_seed as u64);
    let mut i: usize = start(h, num_starts) as usize - base;
    let mut cr: u128 = coeff_row_128(h);
    let mut rr: u32 = result_row(h);
    proof {
        banding128::lemma_equation(key, raw_seed, num_starts);
        bits::lemma_bit_zero(0);
    }
    while i < coeff.len()
        invariant
            n == num_starts + 127,
            n <= usize::MAX,
            base + i < n,
            coeff@ == old(coeff)@,
            result@ == old(result)@,
            coeff@.len() == result@.len(),
            rows == banding128::rows_of(coeff@, result@),
            linear::banded(rows, base as int, n),
            cr != 0,
            bits::bit(cr, 0),
            linear::fits(cr, base + i, n),
            eq == banding128::equation(key, raw_seed, num_starts),
            linear::reduce(rows, i as int, cr, rr) == linear::reduce(
                rows,
                eq.at - base,
                eq.row.coeff,
                eq.row.result,
            ),
        decreases n - i,
    {
        let cr_at_i: u128 = coeff[i];
        let rr_at_i: u32 = result[i];
        assert(rows[i as int] == Row { coeff: cr_at_i, result: rr_at_i });
        proof {
            bits::lemma_bit_zero(0);
        }
        if cr_at_i == 0 {
            coeff[i] = cr;
            result[i] = rr;
            assert(banding128::rows_of(coeff@, result@) =~= rows.update(
                i as int,
                Row { coeff: cr, result: rr },
            ));
            return Fate::Stays;
        }
        let ghost before: u128 = cr;
        let ghost result_before: u32 = rr;
        cr = cr ^ cr_at_i;
        rr = rr ^ rr_at_i;
        proof {
            linear::lemma_fits_xor(before, cr_at_i, base + i, n);
        }
        if cr == 0 {
            proof {
                linear::lemma_reduce_eliminate(rows, i as int, before, result_before, 0);
            }
            if rr != 0 {
                return Fate::Conflicts;
            }
            return Fate::Stays;
        }
        let tz: u32 = lowest_bit_128(cr);
        proof {
            linear::lemma_reduce_eliminate(rows, i as int, before, result_before, tz as u128);
            linear::lemma_fits_shr(cr, base + i, n, tz as u128);
            bits::lemma_bit_shr(cr, tz as u128, 0);
            linear::lemma_fits_here(cr >> (tz as u128), base + i + tz, n);
        }
        i = i + tz as usize;
        cr = cr >> (tz as u128);
    }
    assert(linear::begin(rows).escaped.push(key).len() == 1);
    Fate::Leaves
}

/// Bands keys into the slots from `base` on that the slices hold, up to the first key that
/// contradicts those before. Returns the keys whose reduction leaves the slots, in order, or
/// nothing where there is a contradiction.
pub fn band_range_128(
    coeff: &mut [u128],
    result: &mut [u32],
    base: usize,
    num_starts: u64,
    raw_seed: u32,
    keys: &[u64],
) -> (spilled: Option<Vec<u64>>)
    requires
        0 < num_starts,
        num_starts + 127 <= usize::MAX,
        old(coeff)@.len() == old(result)@.len(),
        linear::banded(
            banding128::rows_of(old(coeff)@, old(result)@),
            base as int,
            num_starts + 127,
        ),
        forall|i: int|
            0 <= i < keys@.len() ==> base <= ranges::start_slot(
                #[trigger] keys@[i],
                raw_seed as u64,
                num_starts,
            ),
    ensures
        final(coeff)@.len() == old(coeff)@.len(),
        final(result)@.len() == old(result)@.len(),
        ({
            let made: Progress = linear::band(
                banding128::rows_of(old(coeff)@, old(result)@),
                base as int,
                banding128::equations(keys@, raw_seed, num_starts),
            );
            &&& banding128::rows_of(final(coeff)@, final(result)@) == made.rows
            &&& match spilled {
                Some(left) => made.consistent && left@ == made.escaped,
                None => !made.consistent,
            }
        }),
{
    let ghost rows: Seq<Row> = banding128::rows_of(coeff@, result@);
    let ghost n: int = num_starts + 127;
    let ghost eqs: Seq<Equation> = banding128::equations(keys@, raw_seed, num_starts);
    let mut spilled: Vec<u64> = Vec::new();
    let mut i: usize = 0;
    proof {
        banding128::lemma_placed(keys@, raw_seed, num_starts);
        assert forall|j: int| 0 <= j < eqs.len() implies base <= (#[trigger] eqs[j]).at by {
            assert(base <= ranges::start_slot(keys@[j], raw_seed as u64, num_starts));
        }
    }
    while i < keys.len()
        invariant
            i <= keys@.len(),
            0 < num_starts,
            n == num_starts + 127,
            n <= usize::MAX,
            coeff@.len() == old(coeff)@.len(),
            result@.len() == old(result)@.len(),
            coeff@.len() == result@.len(),
            rows == banding128::rows_of(old(coeff)@, old(result)@),
            linear::banded(rows, base as int, n),
            eqs == banding128::equations(keys@, raw_seed, num_starts),
            linear::placed(eqs, n),
            forall|j: int| 0 <= j < eqs.len() ==> base <= (#[trigger] eqs[j]).at,
            ({
                let made: Progress = linear::band(rows, base as int, eqs.take(i as int));
                &&& made.consistent
                &&& banding128::rows_of(coeff@, result@) == made.rows
                &&& spilled@ == made.escaped
            }),
        decreases keys.len() - i,
    {
        proof {
            linear::lemma_band_next(rows, base as int, n, eqs, i as int);
            assert(eqs[i as int] == banding128::equation(keys@[i as int], raw_seed, num_starts));
        }
        let k: u64 = keys[i];
        match band_key_128(coeff, result, base, num_starts, raw_seed, k) {
            Fate::Stays => {},
            Fate::Leaves => {
                spilled.push(k);
            },
            Fate::Conflicts => {
                proof {
                    linear::lemma_band_stops(rows, base as int, eqs, i + 1);
                }
                return None;
            },
        }
        i = i + 1;
    }
    assert(eqs.take(i as int) =~= eqs);
    Some(spilled)
}

/// Bands keys into the slots `lo..hi` of a band, up to the first key that contradicts those
/// before. Returns the keys whose reduction leaves the slots, in order, or nothing where there is
/// a contradiction.
fn band_range<const R: usize>(
    b: &mut Banding128<R>,
    lo: usize,
    hi: usize,
    keys: &[u64],
) -> (spilled: Option<Vec<u64>>)
    requires
        old(b).wf(),
        lo <= hi <= old(b).coeffs().len(),
        forall|i: int|
            0 <= i < keys@.len() ==> lo <= ranges::start_slot(
                #[trigger] keys@[i],
                old(b).seed() as u64,
                old(b).starts(),
            ),
    ensures
        final(b).shaped(),
        final(b).same_shape(old(b)),
        ({
            let made: Progress = linear::band(
                old(b).rows().subrange(lo as int, hi as int),
                lo as int,
                banding128::equations(keys@, old(b).seed(), old(b).starts()),
            );
            &&& final(b).rows() == linear::spliced(old(b).rows(), lo as int, hi as int, made.rows)
            &&& match spilled {
                Some(left) => made.consistent && left@ == made.escaped,
                None => !made.consistent,
            }
        }),
{
    let raw: u32 = b.raw_seed();
    let num_starts: u64 = b.num_starts();
    let ghost rows: Seq<Row> = b.rows();
    let ghost coeffs: Seq<u128> = b.coeffs();
    let ghost results: Seq<u32> = b.results();
    let (coeff_all, result_all) = b.coeff_result_mut();
    let (coeff_below, coeff_above) = coeff_all.split_at_mut(lo);
    let (coeff, coeff_beyond) = coeff_above.split_at_mut(hi - lo);
    let (result_below, result_above) = result_all.split_at_mut(lo);
    let (result, result_beyond) = result_above.split_at_mut(hi - lo);
    proof {
        let part: Seq<Row> = banding128::rows_of(coeff@, result@);
        assert(coeff@ =~= coeffs.subrange(lo as int, hi as int));
        assert(result@ =~= results.subrange(lo as int, hi as int));
        assert(part =~= rows.subrange(lo as int, hi as int));
        assert forall|p: int| 0 <= p < part.len() implies if (#[trigger] part[p]).coeff == 0 {
            part[p].result == 0
        } else {
            bits::bit(part[p].coeff, 0) && linear::fits(part[p].coeff, lo + p, num_starts + 127)
        } by {
            assert(part[p] == rows[lo + p]);
        }
    }
    let spilled: Option<Vec<u64>> = band_range_128(coeff, result, lo, num_starts, raw, keys);
    let ghost new_coeff: Seq<u128> = coeff@;
    let ghost new_result: Seq<u32> = result@;
    proof {
        let made_coeff: Seq<u128> = coeffs.take(lo as int) + new_coeff + coeffs.skip(hi as int);
        let made_result: Seq<u32> = results.take(lo as int) + new_result + results.skip(hi as int);
        assert(banding128::rows_of(made_coeff, made_result) =~= linear::spliced(
            rows,
            lo as int,
            hi as int,
            banding128::rows_of(new_coeff, new_result),
        ));
    }
    assert(b.coeffs() =~= coeffs.take(lo as int) + new_coeff + coeffs.skip(hi as int));
    assert(b.results() =~= results.take(lo as int) + new_result + results.skip(hi as int));
    spilled
}

/// Bands keys by ranges of slots into an empty band, under its seed. False if the seed does not
/// solve them.
#[verifier::spinoff_prover]
fn band_seed<const R: usize>(b: &mut Banding128<R>, keys: &[u64], bounds: &Vec<usize>) -> (solves:
    bool)
    requires
        old(b).wf(),
        old(b).rows() == linear::empty_rows(old(b).coeffs().len()),
        ranges::ordered(bounds@),
        bounds@[bounds@.len() - 1] == old(b).coeffs().len(),
    ensures
        final(b).shaped(),
        final(b).same_shape(old(b)),
        solves == banding128::seed_solves(keys@, old(b).starts(), old(b).ordinal()),
        solves ==> final(b).bands(keys@),
{
    let raw: u32 = b.raw_seed();
    let num_starts: u64 = b.num_starts();
    let ghost n: int = b.coeffs().len() as int;
    let ghost eqs: Seq<Equation> = banding128::equations(keys@, raw, num_starts);
    let (buckets, deferred) = bucket_keys(keys, raw as u64, num_starts, bounds);
    let mut spilled: Vec<Vec<u64>> = Vec::new();
    let ghost mut tail: Seq<u64> = deferred@;
    let ghost f: spec_fn(u64) -> Equation = |k: u64| banding128::equation(k, raw, num_starts);
    let ghost mut done: Seq<Equation> = Seq::empty();
    let mut t: usize = 0;
    proof {
        assert(eqs =~= ranges::equations_by(f, keys@));
        ranges::lemma_dealt(keys@, raw as u64, num_starts, bounds@, buckets@, deferred@);
    }
    while t < buckets.len()
        invariant
            t <= buckets@.len(),
            n == num_starts + 127,
            num_starts > 0,
            b.wf(),
            b.coeffs().len() == n,
            b.starts() == num_starts,
            b.seed() == raw,
            b.same_shape(old(b)),
            raw == hash128::raw_seed_of(old(b).ordinal()),
            eqs == ranges::equations_by(f, keys@),
            eqs == banding128::equations(keys@, raw, num_starts),
            ranges::ordered(bounds@),
            bounds@.len() == buckets@.len() + 1,
            bounds@[bounds@.len() - 1] == n,
            f == (|k: u64| banding128::equation(k, raw, num_starts)),
            forall|u: int, k: u64|
                0 <= u < buckets@.len() && #[trigger] buckets@[u]@.contains(k) ==> keys@.contains(
                    k,
                ),
            forall|u: int, i: int|
                0 <= u < buckets@.len() && 0 <= i < buckets@[u]@.len() ==> bounds@[u]
                    <= ranges::start_slot(#[trigger] buckets@[u]@[i], raw as u64, num_starts),
            linear::equivalent(b.rows(), done),
            forall|p: int| bounds@[t as int] <= p < n ==> (#[trigger] b.rows()[p]).coeff == 0,
            ranges::made_of(f, keys@, done),
            tail == ranges::tail_of(deferred@, spilled@),
            ranges::among(tail, keys@),
            ranges::among(deferred@, tail),
            forall|u: int|
                0 <= u < t ==> ranges::accounted(f, (#[trigger] buckets@[u])@, done, tail),
        decreases buckets.len() - t,
    {
        let ghost rows: Seq<Row> = b.rows();
        let lo: usize = bounds[t];
        let hi: usize = bounds[t + 1];
        let ghost part: Seq<Row> = rows.subrange(lo as int, hi as int);
        let ghost own: Seq<Equation> = banding128::equations(
            buckets@[t as int]@,
            raw,
            num_starts,
        );
        proof {
            assert(own =~= ranges::equations_by(f, buckets@[t as int]@));
            banding128::lemma_placed(buckets@[t as int]@, raw, num_starts);
            assert forall|i: int| 0 <= i < own.len() implies lo <= (#[trigger] own[i]).at by {
                assert(bounds@[t as int] <= ranges::start_slot(
                    buckets@[t as int]@[i],
                    raw as u64,
                    num_starts,
                ));
            }
        }
        match band_range(b, lo, hi, buckets[t].as_slice()) {
            Some(left) => {
                proof {
                    linear::lemma_band_range(rows, lo as int, hi as int, n, done, own);
                    ranges::lemma_range_banded(
                        f,
                        keys@,
                        buckets@[t as int]@,
                        part,
                        lo as int,
                        done,
                        tail,
                    );
                    done = done + linear::kept(part, lo as int, own);
                    tail = tail + left@;
                    assert(spilled@.push(left).drop_last() =~= spilled@);
                }
                spilled.push(left);
            },
            None => {
                proof {
                    assert forall|p: int| 0 <= p < part.len() implies (#[trigger] part[p]).coeff == 0
                        && part[p].result == 0 by {
                        assert(part[p] == rows[lo + p]);
                    }
                    ranges::lemma_among_equations(f, buckets@[t as int]@, keys@);
                    linear::lemma_conflict_unsolvable(
                        part,
                        lo as int,
                        n,
                        Seq::empty(),
                        own,
                        eqs,
                    );
                }
                return false;
            },
        }
        t = t + 1;
    }
    let ghost rows: Seq<Row> = b.rows();
    let ghost last: Seq<Equation> = banding128::equations(tail, raw, num_starts);
    proof {
        assert(last =~= ranges::equations_by(f, tail));
        banding128::lemma_placed(tail, raw, num_starts);
        ranges::lemma_all_banded(f, keys@, buckets@, deferred@, done, tail);
    }
    let last_keys: Vec<u64> = tail_keys(deferred, &spilled);
    if b.add_all(last_keys.as_slice()) {
        proof {
            linear::lemma_band_more(rows, n, done, last);
            linear::lemma_same_equations_equivalent(b.rows(), done + last, eqs);
            assert forall|col: int| 0 <= col < 32 implies #[trigger] linear::solvable_in(
                eqs,
                col,
            ) by {
                let x: Seq<bool> = linear::lemma_solution_exists(b.rows(), n, col, |p: int| false);
                assert(linear::all_hold(eqs, col, x));
            }
        }
        true
    } else {
        proof {
            ranges::lemma_among_equations(f, tail, keys@);
            assert forall|e: Equation| #[trigger] done.contains(e) implies eqs.contains(e) by {
                let j: int = choose|j: int| 0 <= j < done.len() && done[j] == e;
                assert((done + last)[j] == e);
                assert((done + last).contains(e));
            }
            linear::lemma_conflict_unsolvable(rows, 0, n, done, last, eqs);
        }
        false
    }
}

/// Builds a standard ribbon by ranges of slots, one for each of `threads` workers, under the
/// first seed that solves the keys: the same seed, the same solution.
pub fn build_std128_parallel<const R: usize>(
    keys: &[u64],
    window_shift: u32,
    threads: usize,
) -> (s: Option<Solution128<R>>)
    requires
        R <= 32,
        window_shift < usize::BITS,
    ensures
        banding128::is_build(s, keys@),
{
    sizing::room_for_keys(keys, R, W128);
    let num_slots: usize = num_slots_for_128(keys.len(), R);
    if threads <= 1 || num_slots / W128 < 2 {
        return build_std128_pleated::<R>(keys, window_shift);
    }
    let bounds: Vec<usize> = range_bounds(num_slots, window_size(window_shift), threads);
    let mut b: Banding128<R> = Banding128::new(num_slots);
    loop
        invariant
            R <= 32,
            num_slots == sizing::slots(keys@.len(), R as nat, 128),
            b.wf(),
            b.rows() == linear::empty_rows(num_slots as nat),
            b.coeffs().len() == num_slots,
            b.ordinal() < SEED_COUNT,
            ranges::ordered(bounds@),
            bounds@[bounds@.len() - 1] == num_slots,
            forall|o: u32|
                o < b.ordinal() ==> !#[trigger] banding128::seed_solves(keys@, b.starts(), o),
        decreases SEED_COUNT - b.ordinal(),
    {
        if band_seed(&mut b, keys, &bounds) {
            return finish_build(Some(b), keys);
        }
        if !b.next_seed() {
            return finish_build(None, keys);
        }
    }
}

} // verus!
