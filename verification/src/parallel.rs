//! Banding by ranges of slots, for homogeneous ribbons.
//!
//! The matrix is split into ranges. Each range is banded on its own, with the keys that start in
//! it and not close to its end. The keys that were deferred, and those whose reduction left their
//! range after all, are banded last, against the whole matrix. As the order of banding does not
//! matter, the result is bit-identical to that of banding in arrival order.

use crate::banding;
use crate::banding::{Banding, Solution, W};
use crate::bits;
use crate::bits::lowest_bit_64;
use crate::filter::{num_slots_for, window_size};
use crate::hash::{coeff_row, ribbon_hash, start};
use crate::linear;
use crate::linear::{Equation, Progress, Row};
use crate::ranges;
use crate::ranges::{bucket_keys, range_bounds, tail_keys};
use crate::sizing;
use vstd::prelude::*;

verus! {

/// How many workers share a band: as many as asked for, but at least one, and no more than there
/// are blocks.
pub fn worker_count(num_slots: usize, threads: usize) -> (workers: usize)
    requires
        num_slots >= 64,
    ensures
        workers == if threads > num_slots as int / 64 {
            num_slots as int / 64
        } else if threads < 1 {
            1
        } else {
            threads as int
        },
{
    let blocks: usize = num_slots / W;
    if threads > blocks {
        blocks
    } else if threads < 1 {
        1
    } else {
        threads
    }
}

/// Bands one key into the slots from `base` on that `slice` holds. False if its reduction leaves
/// them; they are then unchanged.
fn band_key(slice: &mut [u64], base: usize, num_starts: u64, seed: u64, key: u64) -> (stays: bool)
    requires
        0 < num_starts,
        num_starts + 63 <= usize::MAX,
        linear::banded(banding::rows_of(old(slice)@), base as int, num_starts + 63),
        base <= banding::equation(key, seed, num_starts).at,
    ensures
        final(slice)@.len() == old(slice)@.len(),
        ({
            let next: Progress = linear::step(
                linear::begin(banding::rows_of(old(slice)@)),
                base as int,
                banding::equation(key, seed, num_starts),
            );
            &&& banding::rows_of(final(slice)@) == next.rows
            &&& stays <==> next.escaped == Seq::<u64>::empty()
        }),
{
    let ghost rows: Seq<Row> = banding::rows_of(slice@);
    let ghost n: int = num_starts + 63;
    let ghost eq: Equation = banding::equation(key, seed, num_starts);
    let h: u64 = ribbon_hash(key, seed);
    let mut i: usize = start(h, num_starts) as usize - base;
    let mut cr: u64 = coeff_row(h);
    proof {
        banding::lemma_equation(key, seed, num_starts);
        bits::lemma_bit_zero(0);
    }
    while i < slice.len()
        invariant
            n == num_starts + 63,
            n <= usize::MAX,
            base + i < n,
            slice@ == old(slice)@,
            rows == banding::rows_of(slice@),
            linear::banded(rows, base as int, n),
            cr != 0,
            bits::bit(cr as u128, 0),
            linear::fits(cr as u128, base + i, n),
            eq == banding::equation(key, seed, num_starts),
            linear::reduce(rows, i as int, cr as u128, 0) == linear::reduce(
                rows,
                eq.at - base,
                eq.row.coeff,
                0,
            ),
        decreases n - i,
    {
        let cr_at_i: u64 = slice[i];
        assert(rows[i as int] == Row { coeff: cr_at_i as u128, result: 0 });
        proof {
            bits::lemma_bit_zero(0);
        }
        if cr_at_i == 0 {
            slice[i] = cr;
            assert(banding::rows_of(slice@) =~= rows.update(
                i as int,
                Row { coeff: cr as u128, result: 0 },
            ));
            return true;
        }
        let ghost before: u64 = cr;
        cr = cr ^ cr_at_i;
        proof {
            bits::lemma_widen(before, cr_at_i, 0);
            assert(0u32 ^ 0u32 == 0u32) by (bit_vector);
            linear::lemma_fits_xor(before as u128, cr_at_i as u128, base + i, n);
        }
        if cr == 0 {
            proof {
                linear::lemma_reduce_eliminate(rows, i as int, before as u128, 0, 0);
            }
            return true;
        }
        let tz: u32 = lowest_bit_64(cr);
        proof {
            linear::lemma_reduce_eliminate(rows, i as int, before as u128, 0, tz as u128);
            bits::lemma_widen(cr, cr, tz as u64);
            linear::lemma_fits_shr(cr as u128, base + i, n, tz as u128);
            bits::lemma_bit_shr(cr as u128, tz as u128, 0);
            linear::lemma_fits_here((cr >> (tz as u64)) as u128, base + i + tz, n);
        }
        i = i + tz as usize;
        cr = cr >> (tz as u64);
    }
    assert(linear::begin(rows).escaped.push(key).len() == 1);
    false
}

/// Bands keys into the slots from `base` on that `slice` holds. The keys whose reduction leaves
/// them are returned, in order.
pub fn band_slice(slice: &mut [u64], base: usize, num_starts: u64, seed: u64, keys: &[u64]) -> (spilled:
    Vec<u64>)
    requires
        0 < num_starts,
        num_starts + 63 <= usize::MAX,
        linear::banded(banding::rows_of(old(slice)@), base as int, num_starts + 63),
        forall|i: int|
            0 <= i < keys@.len() ==> base <= ranges::start_slot(
                #[trigger] keys@[i],
                seed,
                num_starts,
            ),
    ensures
        final(slice)@.len() == old(slice)@.len(),
        ({
            let made: Progress = linear::band(
                banding::rows_of(old(slice)@),
                base as int,
                banding::equations(keys@, seed, num_starts),
            );
            &&& made.consistent
            &&& banding::rows_of(final(slice)@) == made.rows
            &&& spilled@ == made.escaped
        }),
{
    let ghost rows: Seq<Row> = banding::rows_of(slice@);
    let ghost n: int = num_starts + 63;
    let ghost eqs: Seq<Equation> = banding::equations(keys@, seed, num_starts);
    let mut spilled: Vec<u64> = Vec::new();
    let mut i: usize = 0;
    proof {
        assert forall|j: int| 0 <= j < eqs.len() implies base <= (#[trigger] eqs[j]).at
            && eqs[j].row.result == 0 && 0 <= eqs[j].at && bits::bit(eqs[j].row.coeff, 0)
            && linear::fits(eqs[j].row.coeff, eqs[j].at, n) by {
            assert(base <= ranges::start_slot(keys@[j], seed, num_starts));
            banding::lemma_equation(keys@[j], seed, num_starts);
        }
        linear::lemma_band_homogeneous(rows, base as int, eqs);
    }
    while i < keys.len()
        invariant
            i <= keys@.len(),
            0 < num_starts,
            n == num_starts + 63,
            n <= usize::MAX,
            slice@.len() == old(slice)@.len(),
            rows == banding::rows_of(old(slice)@),
            linear::banded(rows, base as int, n),
            eqs == banding::equations(keys@, seed, num_starts),
            linear::placed(eqs, n),
            forall|j: int| 0 <= j < eqs.len() ==> base <= (#[trigger] eqs[j]).at,
            linear::band(rows, base as int, eqs).consistent,
            ({
                let made: Progress = linear::band(rows, base as int, eqs.take(i as int));
                &&& banding::rows_of(slice@) == made.rows
                &&& spilled@ == made.escaped
            }),
        decreases keys.len() - i,
    {
        proof {
            linear::lemma_consistent_before(rows, base as int, eqs, i as int);
            linear::lemma_band_next(rows, base as int, n, eqs, i as int);
            assert(eqs[i as int] == banding::equation(keys@[i as int], seed, num_starts));
        }
        if !band_key(slice, base, num_starts, seed, keys[i]) {
            spilled.push(keys[i]);
        }
        i = i + 1;
    }
    assert(eqs.take(i as int) =~= eqs);
    spilled
}

/// Bands keys into the slots `lo..hi` of a band. The keys whose reduction leaves them are
/// returned, in order.
fn band_range<const R: usize>(band: &mut Banding<R>, lo: usize, hi: usize, keys: &[u64]) -> (spilled:
    Vec<u64>)
    requires
        old(band).wf(),
        lo <= hi <= old(band).coeffs().len(),
        forall|i: int|
            0 <= i < keys@.len() ==> lo <= ranges::start_slot(
                #[trigger] keys@[i],
                old(band).seed(),
                old(band).starts(),
            ),
    ensures
        final(band).coeffs().len() == old(band).coeffs().len(),
        final(band).starts() == old(band).starts(),
        final(band).seed() == old(band).seed(),
        ({
            let made: Progress = linear::band(
                old(band).rows().subrange(lo as int, hi as int),
                lo as int,
                banding::equations(keys@, old(band).seed(), old(band).starts()),
            );
            &&& made.consistent
            &&& final(band).rows() == linear::spliced(
                old(band).rows(),
                lo as int,
                hi as int,
                made.rows,
            )
            &&& spilled@ == made.escaped
        }),
{
    let seed: u64 = band.raw_seed();
    let num_starts: u64 = band.num_starts();
    let ghost rows: Seq<Row> = band.rows();
    let ghost coeffs: Seq<u64> = band.coeffs();
    let all: &mut [u64] = band.coeff_rows_mut();
    let (below, above) = all.split_at_mut(lo);
    let (part, beyond) = above.split_at_mut(hi - lo);
    proof {
        assert(part@ =~= coeffs.subrange(lo as int, hi as int));
        assert(banding::rows_of(part@) =~= rows.subrange(lo as int, hi as int));
        assert forall|p: int| 0 <= p < part@.len() implies if (#[trigger] banding::rows_of(
            part@,
        )[p]).coeff == 0 {
            banding::rows_of(part@)[p].result == 0
        } else {
            bits::bit(banding::rows_of(part@)[p].coeff, 0) && linear::fits(
                banding::rows_of(part@)[p].coeff,
                lo + p,
                num_starts + 63,
            )
        } by {
            assert(banding::rows_of(part@)[p] == rows[lo + p]);
        }
    }
    let spilled: Vec<u64> = band_slice(part, lo, num_starts, seed, keys);
    let ghost after: Seq<u64> = part@;
    proof {
        let made: Seq<u64> = coeffs.take(lo as int) + after + coeffs.skip(hi as int);
        assert(banding::rows_of(made) =~= linear::spliced(
            rows,
            lo as int,
            hi as int,
            banding::rows_of(after),
        ));
    }
    assert(band.coeffs() =~= coeffs.take(lo as int) + after + coeffs.skip(hi as int));
    spilled
}

/// Builds the ribbon of the keys by ranges of slots: one for each of `threads` workers, in whole
/// windows.
#[verifier::spinoff_prover]
pub fn from_keys_parallel_seeded<const R: usize>(
    keys: &[u64],
    seed: u64,
    window_shift: u32,
    threads: usize,
) -> (s: Solution<R>)
    requires
        R <= 32,
        threads > 1 ==> window_shift < usize::BITS,
    ensures
        banding::is_build(s, keys@, seed),
{
    sizing::room_for_keys(keys, R, W);
    let num_slots: usize = num_slots_for(keys.len(), R);
    let mut band: Banding<R> = Banding::new(num_slots, seed);
    let num_starts: u64 = band.num_starts();
    let workers: usize = worker_count(num_slots, threads);
    let ghost eqs: Seq<Equation> = banding::equations(keys@, seed, num_starts);
    proof {
        banding::lemma_band_of_keys(keys@, seed, num_starts);
    }
    if workers <= 1 {
        band.add_all(keys);
        let s: Solution<R> = band.solve();
        proof {
            banding::lemma_build(band.rows(), s, keys@, seed);
        }
        return s;
    }
    let bounds: Vec<usize> = range_bounds(num_slots, window_size(window_shift), workers);
    let (buckets, deferred) = bucket_keys(keys, seed, num_starts, &bounds);
    let mut spilled: Vec<Vec<u64>> = Vec::new();
    let ghost mut tail: Seq<u64> = deferred@;
    let ghost f: spec_fn(u64) -> Equation = |k: u64| banding::equation(k, seed, num_starts);
    let ghost mut done: Seq<Equation> = Seq::empty();
    let mut t: usize = 0;
    proof {
        ranges::lemma_dealt(keys@, seed, num_starts, bounds@, buckets@, deferred@);
    }
    while t < buckets.len()
        invariant
            t <= buckets@.len(),
            num_slots == num_starts + 63,
            num_starts > 0,
            band.wf(),
            band.coeffs().len() == num_slots,
            band.starts() == num_starts,
            band.seed() == seed,
            ranges::ordered(bounds@),
            bounds@.len() == buckets@.len() + 1,
            bounds@[bounds@.len() - 1] == num_slots,
            f == (|k: u64| banding::equation(k, seed, num_starts)),
            forall|u: int, k: u64|
                0 <= u < buckets@.len() && #[trigger] buckets@[u]@.contains(k) ==> keys@.contains(
                    k,
                ),
            forall|u: int, i: int|
                0 <= u < buckets@.len() && 0 <= i < buckets@[u]@.len() ==> bounds@[u]
                    <= ranges::start_slot(#[trigger] buckets@[u]@[i], seed, num_starts),
            linear::equivalent(band.rows(), done),
            forall|p: int|
                bounds@[t as int] <= p < num_slots ==> (#[trigger] band.rows()[p]).coeff == 0,
            ranges::made_of(f, keys@, done),
            tail == ranges::tail_of(deferred@, spilled@),
            ranges::among(tail, keys@),
            ranges::among(deferred@, tail),
            forall|u: int|
                0 <= u < t ==> ranges::accounted(f, (#[trigger] buckets@[u])@, done, tail),
        decreases buckets.len() - t,
    {
        let ghost rows: Seq<Row> = band.rows();
        let lo: usize = bounds[t];
        let hi: usize = bounds[t + 1];
        let left: Vec<u64> = band_range(&mut band, lo, hi, buckets[t].as_slice());
        proof {
            let part: Seq<Row> = rows.subrange(lo as int, hi as int);
            let own: Seq<Equation> = banding::equations(buckets@[t as int]@, seed, num_starts);
            assert(own =~= ranges::equations_by(f, buckets@[t as int]@));
            banding::lemma_band_of_keys(buckets@[t as int]@, seed, num_starts);
            linear::lemma_band_range(rows, lo as int, hi as int, num_slots as int, done, own);
            ranges::lemma_range_banded(
                f,
                keys@,
                buckets@[t as int]@,
                part,
                lo as int,
                done,
                tail,
            );
            done = done + linear::kept(part, lo as int, own);
            tail = tail + left@;
            assert(spilled@.push(left).drop_last() =~= spilled@);
        }
        spilled.push(left);
        t = t + 1;
    }
    let ghost rows: Seq<Row> = band.rows();
    let last_keys: Vec<u64> = tail_keys(deferred, &spilled);
    band.add_all(last_keys.as_slice());
    let s: Solution<R> = band.solve();
    proof {
        let last: Seq<Equation> = banding::equations(tail, seed, num_starts);
        assert(last =~= ranges::equations_by(f, tail));
        assert(eqs =~= ranges::equations_by(f, keys@));
        banding::lemma_band_of_keys(tail, seed, num_starts);
        linear::lemma_band_homogeneous(rows, 0, last);
        linear::lemma_band_more(rows, num_slots as int, done, last);
        ranges::lemma_all_banded(f, keys@, buckets@, deferred@, done, tail);
        linear::lemma_same_equations_equivalent(band.rows(), done + last, eqs);
        banding::lemma_build(band.rows(), s, keys@, seed);
    }
    s
}

} // verus!
