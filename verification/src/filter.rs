//! Homogeneous ribbon filters.
//!
//! A filter answers whether a key is possibly in a set: always yes for a member, and, as measured,
//! about once in `2^R` times for another key. Filters can be built in three ways, which all give
//! the same filter, bit for bit: in arrival order, with the keys pleated into cache-sized windows,
//! and by ranges of slots.

use crate::banding;
use crate::banding::{Banding, Solution, W};
use crate::bytes;
use crate::bytes::{get_u64, get_words, put_word, put_words};
use crate::format::{decode, finish, write_header, DecodeError, FAMILY_HOMOG};
use crate::hash;
use crate::hash::{ribbon_hash, start};
use crate::interleave;
use crate::key;
use crate::key::hash_key;
use crate::linear;
use crate::plan;
use crate::plan::PleatPlan;
use crate::sizing;
use crate::tally;
pub use crate::parallel::from_keys_parallel_seeded;
pub use crate::std_ribbon::StdRibbon;
use core::hash::Hash;
use vstd::arithmetic::power;
use vstd::prelude::*;
use vstd::slice::slice_subrange;

verus! {

/// Default pleating window: 65536 slots.
pub const DEFAULT_WINDOW_SHIFT: u32 = 16;

/// The slots of a pleating window.
pub fn window_size(window_shift: u32) -> (window: usize)
    requires
        window_shift < usize::BITS,
    ensures
        window == vstd::arithmetic::power2::pow2(window_shift as nat),
        window > 0,
{
    proof {
        vstd::arithmetic::power2::lemma_pow2_pos(window_shift as nat);
        if usize::BITS == 64 {
            vstd::bits::lemma_u64_pow2_no_overflow(window_shift as nat);
            vstd::bits::lemma_u64_shl_is_mul(1, window_shift as u64);
            assert(1usize << window_shift == (1u64 << (window_shift as u64)) as usize) by (bit_vector)
                requires
                    usize::BITS == 64,
                    window_shift < 64,
            ;
        } else {
            vstd::bits::lemma_u32_pow2_no_overflow(window_shift as nat);
            vstd::bits::lemma_u32_shl_is_mul(1, window_shift);
            assert(1usize << window_shift == (1u32 << window_shift) as usize) by (bit_vector)
                requires
                    usize::BITS == 32,
                    window_shift < 32,
            ;
        }
    }
    1usize << window_shift
}

/// The number of slots for `n` keys at `r` columns: whole blocks of 64, and no fewer than two.
pub fn num_slots_for(n: usize, r: usize) -> (s: usize)
    requires
        sizing::slots(n as nat, r as nat, 64) <= usize::MAX,
    ensures
        s == sizing::slots(n as nat, r as nat, 64),
        s % 64 == 0,
        s >= 128,
{
    sizing::slots_for(n, r, W)
}

/// A homogeneous ribbon filter over 64-bit keys with `R` result bits, from 1 to 32.
#[derive(Debug)]
pub struct Ribbon<const R: usize> {
    soln: Solution<R>,
}

/// The filter with 7 result bits, at about 7.6 bits per key.
pub type RibbonFilter = Ribbon<7>;

/// The plain bytes of a filter: the number of starts, the seed, and the words.
pub open spec fn plain_bytes(num_starts: u64, seed: u64, words: Seq<u64>) -> Seq<u8> {
    bytes::le_bytes(num_starts as nat, 8) + bytes::le_bytes(seed as nat, 8) + bytes::words_bytes(
        bytes::widened(words),
        8,
    )
}

/// Bytes that hold a filter of `r` columns: two fields and whole words, as many as the number of
/// starts asks for.
pub open spec fn holds_filter(buf: Seq<u8>, r: nat) -> bool {
    &&& buf.len() >= 16
    &&& buf.len() % 8 == 0
    &&& crate::format::fits_geometry(
        crate::format::field(buf, 0),
        ((buf.len() - 16) / 8) as nat,
        r,
        64,
    )
}

/// The bytes of a filter in its envelope.
pub open spec fn envelope(num_starts: u64, seed: u64, words: Seq<u64>, r: u8) -> Seq<u8> {
    crate::format::sealed(
        crate::format::header_bytes(FAMILY_HOMOG, r, seed, num_starts, words.len() as u64)
            + bytes::words_bytes(bytes::widened(words), 8),
    )
}

impl<const R: usize> Ribbon<R> {
    /// The solution that the filter queries.
    pub closed spec fn solution(&self) -> Solution<R> {
        self.soln
    }

    /// The words of the solution, block by block and column by column.
    pub open spec fn words(&self) -> Seq<u64> {
        self.solution().words()
    }

    pub open spec fn starts(&self) -> u64 {
        self.solution().starts()
    }

    pub open spec fn seed(&self) -> u64 {
        self.solution().seed()
    }

    /// Every key can be queried, and the words are in memory.
    pub open spec fn wf(&self) -> bool {
        &&& 1 <= R <= 32
        &&& self.solution().wf()
        &&& self.words().len() * 8 <= usize::MAX
    }

    /// The words are as many as the number of starts asks for.
    pub open spec fn fits_geometry(&self) -> bool {
        crate::format::fits_geometry(self.starts() as nat, self.words().len(), R as nat, 64)
    }

    /// The filter reports a key as possibly present.
    pub open spec fn reports(&self, key: u64) -> bool {
        self.solution().reports(key)
    }

    /// The same filter: the same words under the same seed, and the same answers.
    pub open spec fn same_as(&self, other: &Self) -> bool {
        &&& self.words() == other.words()
        &&& self.starts() == other.starts()
        &&& self.seed() == other.seed()
        &&& forall|k: u64| #[trigger] self.reports(k) == other.reports(k)
    }

    /// The filter of `keys` under a seed, with every one of them reported.
    pub open spec fn is_filter_of(&self, keys: Seq<u64>, seed: u64) -> bool {
        &&& 1 <= R <= 32
        &&& banding::is_build(self.solution(), keys, seed)
    }

    /// The filter, under seed zero, of the 64-bit keys of `keys`.
    pub open spec fn is_filter_of_hashable<K: Hash>(&self, keys: Seq<K>) -> bool {
        exists|hashes: Seq<u64>| #[trigger]
            self.is_filter_of(hashes, 0) && key::are_hashes_of(keys, hashes)
    }

    /// An answer that the filter gives for a key of any type: whether it reports the key's 64-bit
    /// key.
    pub open spec fn answers<K: Hash + ?Sized>(&self, key: &K, present: bool) -> bool {
        exists|hash: u64| key::is_hash_of(key, hash) && present == #[trigger] self.reports(hash)
    }

    /// Builds a filter in arrival order, under seed zero.
    pub fn from_keys(keys: &[u64]) -> (f: Self)
        requires
            1 <= R <= 32,
        ensures
            f.wf(),
            f.is_filter_of(keys@, 0),
    {
        Self::from_keys_seeded(keys, 0)
    }

    /// Builds a filter in arrival order.
    pub fn from_keys_seeded(keys: &[u64], seed: u64) -> (f: Self)
        requires
            1 <= R <= 32,
        ensures
            f.wf(),
            f.is_filter_of(keys@, seed),
    {
        sizing::room_for_keys(keys, R, W);
        let mut b: Banding<R> = Banding::new(num_slots_for(keys.len(), R), seed);
        b.add_all(keys);
        let soln: Solution<R> = b.solve();
        proof {
            banding::lemma_band_of_keys(keys@, seed, b.starts());
            banding::lemma_build(b.rows(), soln, keys@, seed);
        }
        Self::from_solution(soln)
    }

    /// Builds a filter with pleated construction, under seed zero: the same filter as in arrival
    /// order.
    pub fn from_keys_pleated(keys: &[u64]) -> (f: Self)
        requires
            1 <= R <= 32,
        ensures
            f.wf(),
            f.is_filter_of(keys@, 0),
    {
        Self::from_keys_pleated_seeded(keys, 0, DEFAULT_WINDOW_SHIFT)
    }

    /// Builds a filter with pleated construction: the keys are folded into the order of the
    /// windows that they start in, and then banded.
    pub fn from_keys_pleated_seeded(keys: &[u64], seed: u64, window_shift: u32) -> (f: Self)
        requires
            1 <= R <= 32,
            window_shift < 64,
        ensures
            f.wf(),
            f.is_filter_of(keys@, seed),
    {
        sizing::room_for_keys(keys, R, W);
        let num_slots: usize = num_slots_for(keys.len(), R);
        let num_starts: u64 = (num_slots - W + 1) as u64;
        let plan: PleatPlan = PleatPlan::new(num_starts, window_shift);
        let start_of = |k: u64| -> (s: u64)
            ensures
                s == hash::start_of(hash::hash_of(k, seed), num_starts),
                s < num_starts || num_starts == 0,
            { start(ribbon_hash(k, seed), num_starts) };
        proof {
            plan::lemma_window_mono(plan);
        }
        let (ordered, counts) = plan.pleat(keys, start_of);
        let mut b: Banding<R> = Banding::new(num_slots, seed);
        b.add_all(ordered.as_slice());
        let soln: Solution<R> = b.solve();
        proof {
            plan::lemma_grouped_permutes(
                keys@,
                plan::window_of(start_of, window_shift),
                plan.windows(),
                ordered@,
                counts@,
            );
            banding::lemma_same_keys(ordered@, keys@, seed, num_starts);
            banding::lemma_band_of_keys(ordered@, seed, num_starts);
            linear::lemma_same_equations_equivalent(
                b.rows(),
                banding::equations(ordered@, seed, num_starts),
                banding::equations(keys@, seed, num_starts),
            );
            banding::lemma_build(b.rows(), soln, keys@, seed);
        }
        Self::from_solution(soln)
    }

    /// Builds a filter by ranges of slots, under seed zero: the same filter as in arrival order.
    pub fn from_keys_parallel(keys: &[u64], threads: usize) -> (f: Self)
        requires
            1 <= R <= 32,
        ensures
            f.wf(),
            f.is_filter_of(keys@, 0),
    {
        Self::from_keys_parallel_seeded(keys, 0, DEFAULT_WINDOW_SHIFT, threads)
    }

    /// Builds a filter by ranges of slots.
    pub fn from_keys_parallel_seeded(
        keys: &[u64],
        seed: u64,
        window_shift: u32,
        threads: usize,
    ) -> (f: Self)
        requires
            1 <= R <= 32,
            threads > 1 ==> window_shift < usize::BITS,
        ensures
            f.wf(),
            f.is_filter_of(keys@, seed),
    {
        Self::from_solution(from_keys_parallel_seeded::<R>(keys, seed, window_shift, threads))
    }

    /// The filter of a solution, however it was built.
    pub fn from_solution(soln: Solution<R>) -> (f: Self)
        ensures
            f.solution() == soln,
            1 <= R <= 32 && soln.wf() ==> f.wf(),
    {
        broadcast use vstd::layout::layout_of_primitives;

        sizing::in_memory(soln.segments());
        Ribbon { soln }
    }

    /// Builds a filter of keys of any type, by their 64-bit hashes.
    pub fn from_hashable<K: Hash>(keys: &[K]) -> (f: Self)
        requires
            1 <= R <= 32,
        ensures
            f.wf(),
            f.is_filter_of_hashable(keys@),
    {
        let hashes: Vec<u64> = key::hash_keys(keys);
        Self::from_keys_pleated(hashes.as_slice())
    }

    /// Is `key` possibly in the set? Never a false negative.
    pub fn contains(&self, key: u64) -> (present: bool)
        requires
            self.wf(),
        ensures
            present == self.reports(key),
    {
        self.soln.contains(key)
    }

    /// Is a key of any type possibly in the set, by its 64-bit hash?
    pub fn contains_hashable<K: Hash + ?Sized>(&self, key: &K) -> (present: bool)
        requires
            self.wf(),
        ensures
            self.answers(key, present),
    {
        self.contains(hash_key(key))
    }

    /// Queries many keys at once.
    pub fn contains_batch(&self, keys: &[u64], out: &mut [bool])
        requires
            self.wf(),
            keys@.len() == old(out)@.len(),
        ensures
            final(out)@.len() == keys@.len(),
            forall|i: int|
                0 <= i < keys@.len() ==> #[trigger] final(out)@[i] == self.reports(keys@[i]),
    {
        self.soln.contains_batch(keys, out)
    }

    /// The size of the words in bytes. Keys are not stored.
    pub fn size_bytes(&self) -> (n: usize)
        requires
            self.wf(),
        ensures
            n == self.words().len() * 8,
    {
        self.soln.segments().len() * 8
    }

    /// The words of the solution.
    pub fn solution_segments(&self) -> (words: &[u64])
        ensures
            words@ == self.words(),
    {
        self.soln.segments()
    }

    /// The plain bytes of the filter: the number of starts, the seed, and the words.
    pub fn to_bytes(&self) -> (out: Vec<u8>)
        ensures
            out@ == plain_bytes(self.starts(), self.seed(), self.words()),
    {
        let (num_starts, raw_seed, segs) = self.soln.parts();
        let mut out: Vec<u8> = Vec::new();
        put_word(&mut out, num_starts as u128, 8);
        put_word(&mut out, raw_seed as u128, 8);
        put_words(&mut out, segs);
        assert(out@ =~= plain_bytes(self.starts(), self.seed(), self.words()));
        out
    }

    /// The filter that plain bytes hold. Nothing if they are malformed: of a wrong length, or with
    /// a number of starts or of words that no filter of this width has.
    pub fn from_bytes(buf: &[u8]) -> (f: Option<Self>)
        requires
            1 <= R <= 32,
        ensures
            f is Some <==> holds_filter(buf@, R as nat),
            f matches Some(g) ==> g.wf() && g.fits_geometry() && buf@ == plain_bytes(
                g.starts(),
                g.seed(),
                g.words(),
            ),
    {
        if buf.len() < 16 || buf.len() % 8 != 0 {
            return None;
        }
        let num_starts: u64 = get_u64(buf, 0);
        let raw_seed: u64 = get_u64(buf, 8);
        let words: usize = (buf.len() - 16) / 8;
        let num_slots: u128 = num_starts as u128 + 63;
        if num_starts == 0 || num_slots > u64::MAX as u128 || num_slots % 64 != 0 || num_slots
            < 128 {
            return None;
        }
        let num_blocks: u128 = num_slots / 64;
        assert(num_blocks * R <= num_blocks * 32) by (nonlinear_arith)
            requires
                R <= 32,
        ;
        if words as u128 != num_blocks * R as u128 {
            return None;
        }
        let payload: &[u8] = slice_subrange(buf, 16, buf.len());
        let segments: Vec<u64> = get_words(payload);
        proof {
            bytes::lemma_le_write(buf@.subrange(0, 8));
            bytes::lemma_le_write(buf@.subrange(8, 16));
            assert(buf@ =~= buf@.subrange(0, 8) + buf@.subrange(8, 16) + payload@);
            interleave::lemma_covers_blocks(num_blocks as int, 64, R as int);
        }
        Some(Self::from_solution(Solution::from_parts(num_starts, raw_seed, segments)))
    }

    /// The filter in its envelope: with a header that tells what it is, and a checksum.
    pub fn to_versioned_bytes(&self) -> (out: Vec<u8>)
        requires
            1 <= R <= 32,
        ensures
            out@ == envelope(self.starts(), self.seed(), self.words(), R as u8),
    {
        let (num_starts, raw_seed, segs) = self.soln.parts();
        let mut out: Vec<u8> = write_header(
            FAMILY_HOMOG,
            R as u8,
            raw_seed,
            num_starts,
            segs.len() as u64,
        );
        put_words(&mut out, segs);
        finish(out)
    }

    /// The filter in an envelope, or the first reason against it.
    pub fn from_versioned_bytes(buf: &[u8]) -> (f: Result<Self, DecodeError>)
        requires
            1 <= R <= 32,
        ensures
            match crate::format::decoded(buf@, FAMILY_HOMOG, R as u8, 8, 64) {
                Ok((header, payload)) => {
                    &&& f matches Ok(g)
                    &&& g.wf()
                    &&& g.starts() == header.num_starts
                    &&& g.seed() == header.seed
                    &&& bytes::words_bytes(bytes::widened(g.words()), 8) == payload
                    &&& g.fits_geometry()
                },
                Err(e) => f == Err::<Self, DecodeError>(e),
            },
    {
        match decode(buf, FAMILY_HOMOG, R as u8, 8, W) {
            Ok((header, payload)) => {
                let segments: Vec<u64> = get_words(payload);
                proof {
                    let blocks: int = (header.num_starts + 63) / 64;
                    interleave::lemma_covers_blocks(blocks, 64, R as int);
                    assert(segments@.len() == blocks * R);
                }
                Ok(
                    Self::from_solution(
                        Solution::from_parts(header.num_starts, header.seed, segments),
                    ),
                )
            },
            Err(e) => Err(e),
        }
    }
}

/// However they are built, filters of the same keys are the same, bit for bit.
pub proof fn lemma_same_filter<const R: usize>(
    f: Ribbon<R>,
    a: Seq<u64>,
    g: Ribbon<R>,
    b: Seq<u64>,
    seed: u64,
)
    requires
        f.is_filter_of(a, seed),
        g.is_filter_of(b, seed),
        a.len() == b.len(),
        banding::same_keys(a, b),
    ensures
        f.same_as(&g),
        plain_bytes(f.starts(), f.seed(), f.words()) == plain_bytes(
            g.starts(),
            g.seed(),
            g.words(),
        ),
{
    banding::lemma_same_build(f.solution(), a, g.solution(), b, seed);
}

/// The order of the keys does not matter: filters of keys and of any permutation of them are the
/// same, bit for bit.
pub proof fn lemma_order_free<const R: usize>(
    f: Ribbon<R>,
    a: Seq<u64>,
    g: Ribbon<R>,
    b: Seq<u64>,
    seed: u64,
)
    requires
        f.is_filter_of(a, seed),
        g.is_filter_of(b, seed),
        a.to_multiset() == b.to_multiset(),
    ensures
        f.same_as(&g),
        plain_bytes(f.starts(), f.seed(), f.words()) == plain_bytes(
            g.starts(),
            g.seed(),
            g.words(),
        ),
{
    plan::lemma_permuted(a, b);
    lemma_same_filter(f, a, g, b, seed);
}

/// The size of a filter depends on the number of its keys alone: `R` bits per slot.
pub proof fn lemma_filter_size<const R: usize>(f: Ribbon<R>, keys: Seq<u64>, seed: u64)
    requires
        f.is_filter_of(keys, seed),
    ensures
        f.words().len() * 8 == sizing::slots(keys.len(), R as nat, 64) as int / 8 * R,
        f.starts() + 63 == sizing::slots(keys.len(), R as nat, 64),
        f.seed() == seed,
{
    banding::lemma_build_size(f.solution(), keys, seed);
    sizing::lemma_slots_shape(keys.len(), R as nat, 64);
    let blocks: int = sizing::slots(keys.len(), R as nat, 64) as int / 64;
    assert((blocks * R) * 8 == (blocks * 8) * R) by (nonlinear_arith);
}

/// No false negatives for keys of any type: a filter of keys answers yes for a key that feeds the
/// bytes of one of them.
pub proof fn lemma_hashable_found<const R: usize, K: Hash, Q: Hash + ?Sized>(
    f: Ribbon<R>,
    keys: Seq<K>,
    i: int,
    key: &Q,
    present: bool,
)
    requires
        f.is_filter_of_hashable(keys),
        0 <= i < keys.len(),
        key::feed_alike(&keys[i], key),
        f.answers(key, present),
    ensures
        present,
{
    let hashes: Seq<u64> = choose|hashes: Seq<u64>| #[trigger]
        f.is_filter_of(hashes, 0) && key::are_hashes_of(keys, hashes);
    let hash: u64 = choose|hash: u64|
        key::is_hash_of(key, hash) && present == #[trigger] f.reports(hash);
    assert(key::is_hash_of(&keys[i], hashes[i]));
    key::lemma_mapped_alike(&keys[i], key, hashes[i], hash);
    assert(hashes.contains(hash));
}

/// The words of a filter that was built are as many as its number of starts asks for.
pub proof fn lemma_filter_geometry<const R: usize>(f: Ribbon<R>, keys: Seq<u64>, seed: u64)
    requires
        f.is_filter_of(keys, seed),
    ensures
        f.fits_geometry(),
{
    sizing::lemma_slots_shape(keys.len(), R as nat, 64);
    banding::lemma_build_size(f.solution(), keys, seed);
}

/// Plain bytes give the filter back: they hold a filter, and every filter with these bytes is the
/// same, and reports the same keys. This holds of filters that were built, and of those that were
/// decoded.
pub proof fn lemma_plain_round_trip<const R: usize>(f: Ribbon<R>)
    requires
        f.fits_geometry(),
    ensures
        holds_filter(plain_bytes(f.starts(), f.seed(), f.words()), R as nat),
        forall|g: Ribbon<R>|
            plain_bytes(f.starts(), f.seed(), f.words()) == #[trigger] plain_bytes(
                g.starts(),
                g.seed(),
                g.words(),
            ) ==> g.same_as(&f),
{
    let buf: Seq<u8> = plain_bytes(f.starts(), f.seed(), f.words());
    lemma_plain_parts(f.starts(), f.seed(), f.words());
    assert forall|g: Ribbon<R>| buf == #[trigger] plain_bytes(
        g.starts(),
        g.seed(),
        g.words(),
    ) implies g.same_as(&f) by {
        lemma_plain_parts(g.starts(), g.seed(), g.words());
        lemma_words_read_back(f.words(), g.words());
    }
}

proof fn lemma_plain_parts(num_starts: u64, seed: u64, words: Seq<u64>)
    ensures
        ({
            let buf: Seq<u8> = plain_bytes(num_starts, seed, words);
            &&& buf.len() == 16 + words.len() * 8
            &&& crate::format::field(buf, 0) == num_starts
            &&& crate::format::field(buf, 8) == seed
            &&& buf.skip(16) == bytes::words_bytes(bytes::widened(words), 8)
        }),
{
    let buf: Seq<u8> = plain_bytes(num_starts, seed, words);
    bytes::lemma_limits();
    bytes::lemma_le_len(num_starts as nat, 8);
    bytes::lemma_le_len(seed as nat, 8);
    bytes::lemma_words_len(bytes::widened(words), 8);
    bytes::lemma_le_read(num_starts as nat, 8);
    bytes::lemma_le_read(seed as nat, 8);
    assert(buf.subrange(0, 8) =~= bytes::le_bytes(num_starts as nat, 8));
    assert(buf.subrange(8, 16) =~= bytes::le_bytes(seed as nat, 8));
    assert(buf.skip(16) =~= bytes::words_bytes(bytes::widened(words), 8));
}

proof fn lemma_words_read_back(a: Seq<u64>, b: Seq<u64>)
    requires
        bytes::words_bytes(bytes::widened(a), 8) == bytes::words_bytes(bytes::widened(b), 8),
    ensures
        a == b,
{
    bytes::lemma_limits();
    bytes::lemma_words_unique(bytes::widened(a), bytes::widened(b), 8);
    assert forall|i: int| 0 <= i < a.len() implies #[trigger] a[i] == b[i] by {
        assert(bytes::widened(a)[i] == bytes::widened(b)[i]);
    }
    assert(a =~= b);
}

/// The envelope gives the filter back: it decodes to the seed, the number of starts and the words
/// of the filter, and every filter with these is the same, and reports the same keys. This holds
/// of filters that were built, and of those that were decoded.
pub proof fn lemma_envelope_round_trip<const R: usize>(f: Ribbon<R>)
    requires
        f.wf(),
        f.fits_geometry(),
    ensures
        crate::format::decoded(
            envelope(f.starts(), f.seed(), f.words(), R as u8),
            FAMILY_HOMOG,
            R as u8,
            8,
            64,
        ) == Ok::<(crate::format::Header, Seq<u8>), DecodeError>(
            (
                (crate::format::Header { seed: f.seed(), num_starts: f.starts() }),
                bytes::words_bytes(bytes::widened(f.words()), 8),
            ),
        ),
        forall|g: Ribbon<R>|
            g.starts() == f.starts() && g.seed() == f.seed() && bytes::words_bytes(
                bytes::widened(f.words()),
                8,
            ) == #[trigger] bytes::words_bytes(bytes::widened(g.words()), 8) ==> g.same_as(&f),
{
    bytes::lemma_words_len(bytes::widened(f.words()), 8);
    crate::format::lemma_round_trip(
        FAMILY_HOMOG,
        R as u8,
        f.seed(),
        f.starts(),
        f.words().len() as u64,
        bytes::words_bytes(bytes::widened(f.words()), 8),
        8,
        64,
    );
    assert forall|g: Ribbon<R>|
        g.starts() == f.starts() && g.seed() == f.seed() && bytes::words_bytes(
            bytes::widened(f.words()),
            8,
        ) == #[trigger] bytes::words_bytes(bytes::widened(g.words()), 8) implies g.same_as(
        &f,
    ) by {
        lemma_words_read_back(f.words(), g.words());
    }
}

/// What an answer says of the words: a key is reported exactly if its row selects an even number of
/// set slots in each of the columns. So it is refused as soon as one column has an odd number.
pub proof fn lemma_answer<const R: usize>(f: Ribbon<R>, key: u64)
    requires
        f.wf(),
    ensures
        f.reports(key) <==> forall|col: int|
            0 <= col < R ==> #[trigger] tally::hits(
                bytes::widened(f.words()),
                64,
                R as int,
                col,
                hash::start_of(hash::hash_of(key, f.seed()), f.starts()),
                hash::coeff_of(hash::hash_of(key, f.seed())) as u128,
            ) % 2 == 0,
{
    let s: Solution<R> = f.solution();
    let h: u64 = hash::hash_of(key, f.seed());
    let at: int = hash::start_of(h, f.starts());
    let c: u128 = hash::coeff_of(h) as u128;
    banding::lemma_answer(s, key);
    let even: bool = forall|col: int|
        0 <= col < R ==> #[trigger] tally::hits(
            bytes::widened(s.words()),
            64,
            R as int,
            col,
            at,
            c,
        ) % 2 == 0;
    assert(s.reports(key) == even);
}

/// What a filter of keys holds: in each column the row of each key selects an even number of set
/// slots.
pub proof fn lemma_member_rows<const R: usize>(
    f: Ribbon<R>,
    keys: Seq<u64>,
    seed: u64,
    key: u64,
    col: int,
)
    requires
        f.is_filter_of(keys, seed),
        keys.contains(key),
        0 <= col < R,
    ensures
        f.reports(key),
        tally::hits(
            bytes::widened(f.words()),
            64,
            R as int,
            col,
            hash::start_of(hash::hash_of(key, seed), f.starts()),
            hash::coeff_of(hash::hash_of(key, seed)) as u128,
        ) % 2 == 0,
{
    banding::lemma_build_size(f.solution(), keys, seed);
    banding::lemma_answer(f.solution(), key);
}

/// What a filter of keys holds besides: slots that the keys leave free are pseudorandom. A slot is
/// free if some assignment that suits every key has it as its last set slot.
pub proof fn lemma_free_slot<const R: usize>(
    f: Ribbon<R>,
    keys: Seq<u64>,
    seed: u64,
    y: Seq<bool>,
    p: int,
    col: int,
)
    requires
        f.is_filter_of(keys, seed),
        0 <= col < R,
        y.len() == sizing::slots(keys.len(), R as nat, 64),
        0 <= p < y.len(),
        y[p],
        forall|q: int| p < q < y.len() ==> !#[trigger] y[q],
        banding::evens(keys, seed, f.starts(), y),
    ensures
        tally::slot_bit(bytes::widened(f.words()), 64, R as int, col, p) == tally::digit(
            ((p * 0x9E37_79B1_85EB_CA87) % 0x1_0000_0000_0000_0000) as nat,
            col as nat,
        ),
{
    banding::lemma_free_slot(f.solution(), keys, seed, y, p, col);
}

/// An answer for a key of any type is the answer for its whole XXH3 hash.
pub proof fn lemma_hashable_answer<const R: usize, K: Hash + ?Sized>(
    f: Ribbon<R>,
    key: &K,
    present: bool,
) -> (hash: u64)
    requires
        f.answers(key, present),
    ensures
        key::is_hash_of(key, hash),
        present == f.reports(hash),
{
    choose|hash: u64| key::is_hash_of(key, hash) && present == #[trigger] f.reports(hash)
}

/// A filter of keys of any type is the filter of their whole XXH3 hashes, one for each.
pub proof fn lemma_hashable_filter<const R: usize, K: Hash>(f: Ribbon<R>, keys: Seq<K>) -> (hashes:
    Seq<u64>)
    requires
        f.is_filter_of_hashable(keys),
    ensures
        f.is_filter_of(hashes, 0),
        hashes.len() == keys.len(),
        forall|i: int| 0 <= i < keys.len() ==> key::is_hash_of(&keys[i], #[trigger] hashes[i]),
{
    choose|hashes: Seq<u64>| #[trigger]
        f.is_filter_of(hashes, 0) && key::are_hashes_of(keys, hashes)
}

/// The plain bytes, one by one: the number of starts, the seed, and the words, each lowest byte
/// first.
pub proof fn lemma_plain_layout(num_starts: u64, seed: u64, words: Seq<u64>, i: int, j: nat)
    requires
        j < 8,
    ensures
        ({
            let buf: Seq<u8> = plain_bytes(num_starts, seed, words);
            &&& buf.len() == 16 + 8 * words.len()
            &&& buf[j as int] == (num_starts as int / power::pow(256, j)) % 256
            &&& buf[8 + j as int] == (seed as int / power::pow(256, j)) % 256
            &&& 0 <= i < words.len() ==> buf[16 + 8 * i + j] == (words[i] as int / power::pow(
                256,
                j,
            )) % 256
        }),
{
    let buf: Seq<u8> = plain_bytes(num_starts, seed, words);
    let wide: Seq<u128> = bytes::widened(words);
    lemma_plain_parts(num_starts, seed, words);
    bytes::lemma_le_digit(num_starts as nat, 8, j);
    bytes::lemma_le_digit(seed as nat, 8, j);
    if 0 <= i < words.len() {
        bytes::lemma_words_digit(wide, 8, i, j);
        assert(buf.skip(16)[i * 8 + j] == buf[16 + (i * 8 + j)]);
    }
}

/// Which buffers hold a filter: those of two or more blocks of 64 slots, with a start at every slot
/// but the last 63, and `r` words per block.
pub proof fn lemma_holds_blocks(buf: Seq<u8>, r: nat)
    ensures
        holds_filter(buf, r) <==> buf.len() >= 16 && exists|blocks: int|
            #![trigger blocks * r]
            2 <= blocks && 64 * blocks <= 0xffff_ffff_ffff_ffff && crate::format::field(buf, 0)
                == 64 * blocks - 63 && buf.len() == 16 + 8 * (blocks * r),
{
    if buf.len() >= 16 {
        let count: nat = ((buf.len() - 16) / 8) as nat;
        let starts: nat = crate::format::field(buf, 0);
        crate::format::lemma_geometry_blocks(starts, count, r, 64);
        if holds_filter(buf, r) {
            let blocks: int = choose|blocks: int|
                #![trigger blocks * 64nat]
                2 <= blocks && starts + 64nat - 1 == blocks * 64nat && blocks * 64nat
                    <= 0xffff_ffff_ffff_ffff && count == blocks * r;
            assert(count == blocks * r);
        }
        if exists|blocks: int|
            #![trigger blocks * r]
            2 <= blocks && 64 * blocks <= 0xffff_ffff_ffff_ffff && starts == 64 * blocks - 63
                && buf.len() == 16 + 8 * (blocks * r) {
            let blocks: int = choose|blocks: int|
                #![trigger blocks * r]
                2 <= blocks && 64 * blocks <= 0xffff_ffff_ffff_ffff && starts == 64 * blocks - 63
                    && buf.len() == 16 + 8 * (blocks * r);
            assert(starts + 64nat - 1 == blocks * 64nat);
        }
    }
}

/// The envelope of a filter, byte by byte.
pub proof fn lemma_envelope_layout(
    num_starts: u64,
    seed: u64,
    words: Seq<u64>,
    r: u8,
    i: int,
    j: nat,
)
    requires
        words.len() <= u64::MAX,
        j < 8,
    ensures
        ({
            let buf: Seq<u8> = envelope(num_starts, seed, words, r);
            let end: int = 32 + 8 * words.len() as int;
            &&& buf.len() == end + 8
            &&& buf[0] == 0x50 && buf[1] == 0x4c && buf[2] == 0x54 && buf[3] == 0x31
            &&& buf[4] == 0 && buf[5] == r && buf[6] == 0 && buf[7] == 0
            &&& buf[8 + j as int] == (seed as int / power::pow(256, j)) % 256
            &&& buf[16 + j as int] == (num_starts as int / power::pow(256, j)) % 256
            &&& buf[24 + j as int] == (words.len() as int / power::pow(256, j)) % 256
            &&& 0 <= i < words.len() ==> buf[32 + 8 * i + j] == (words[i] as int / power::pow(
                256,
                j,
            )) % 256
            &&& buf[end + j] == (bytes::fnv_of(buf.take(end)) as int / power::pow(256, j)) % 256
        }),
{
    let wide: Seq<u128> = bytes::widened(words);
    let payload: Seq<u8> = bytes::words_bytes(wide, 8);
    bytes::lemma_words_len(wide, 8);
    crate::format::lemma_layout(
        FAMILY_HOMOG,
        r,
        seed,
        num_starts,
        words.len() as u64,
        payload,
        j,
    );
    if 0 <= i < words.len() {
        bytes::lemma_words_digit(wide, 8, i, j);
        crate::format::lemma_layout(
            FAMILY_HOMOG,
            r,
            seed,
            num_starts,
            words.len() as u64,
            payload,
            (i * 8 + j) as nat,
        );
    }
}

} // verus!
