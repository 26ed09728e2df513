//! Standard ribbon filters.
//!
//! These take a little less space than homogeneous filters, but a set of keys may need more than
//! one try: construction goes through a number of seeds, and takes the first that solves.

use crate::banding128;
use crate::banding128::{
    build_std128, build_std128_pleated, Solution128, SEED_COUNT, W128,
};
use crate::bytes;
use crate::bytes::{get_wide_words, put_wide_words};
use crate::filter::DEFAULT_WINDOW_SHIFT;
use crate::format::{decode, finish, write_header, DecodeError, Header, FAMILY_STD};
use crate::hash;
use crate::hash128;
use crate::interleave;
use crate::key;
use crate::key::hash_key;
use crate::parallel128::build_std128_parallel;
use crate::plan;
use crate::sizing;
use crate::tally;
use core::hash::Hash;
use vstd::arithmetic::power;
use vstd::prelude::*;

verus! {

/// A standard ribbon filter over 64-bit keys with `R` result bits, from 1 to 32.
#[derive(Debug)]
pub struct StdRibbon<const R: usize> {
    soln: Solution128<R>,
}

/// The bytes of a filter in its envelope.
pub open spec fn envelope(num_starts: u64, ordinal: u32, words: Seq<u128>, r: u8) -> Seq<u8> {
    crate::format::sealed(
        crate::format::header_bytes(FAMILY_STD, r, ordinal as u64, num_starts, words.len() as u64)
            + bytes::words_bytes(words, 16),
    )
}

/// What a buffer decodes to as a standard filter: the envelope's content, if its seed is one that
/// construction tries.
pub open spec fn decoded(buf: Seq<u8>, r: u8) -> Result<(Header, Seq<u8>), DecodeError> {
    match crate::format::decoded(buf, FAMILY_STD, r, 16, 128) {
        Ok((header, payload)) => if header.seed >= SEED_COUNT {
            Err(DecodeError::BadSeed)
        } else {
            Ok((header, payload))
        },
        Err(e) => Err(e),
    }
}

impl<const R: usize> StdRibbon<R> {
    /// The solution that the filter queries.
    pub closed spec fn solution(&self) -> Solution128<R> {
        self.soln
    }

    /// The words of the solution, block by block and column by column.
    pub open spec fn words(&self) -> Seq<u128> {
        self.solution().words()
    }

    pub open spec fn starts(&self) -> u64 {
        self.solution().starts()
    }

    /// The number of the seed.
    pub open spec fn ordinal(&self) -> u32 {
        self.solution().ordinal()
    }

    /// Every key can be queried, and the words are in memory.
    pub open spec fn wf(&self) -> bool {
        &&& 1 <= R <= 32
        &&& self.solution().wf()
        &&& self.words().len() * 16 <= usize::MAX
    }

    /// The words are as many as the number of starts asks for, and the seed is one that
    /// construction tries.
    pub open spec fn fits_geometry(&self) -> bool {
        &&& crate::format::fits_geometry(self.starts() as nat, self.words().len(), R as nat, 128)
        &&& self.ordinal() < SEED_COUNT
    }

    /// The same filter: the same words under the same seed, and the same answers.
    pub open spec fn same_as(&self, other: &Self) -> bool {
        &&& self.words() == other.words()
        &&& self.starts() == other.starts()
        &&& self.ordinal() == other.ordinal()
        &&& forall|k: u64| #[trigger] self.reports(k) == other.reports(k)
    }

    /// The filter reports a key as possibly present.
    pub open spec fn reports(&self, key: u64) -> bool {
        self.solution().reports(key)
    }

    /// The outcome of construction: the filter of `keys` under the first seed that solves them,
    /// with every one of them reported; or nothing, if no seed solves them.
    pub open spec fn is_build(found: Option<Self>, keys: Seq<u64>) -> bool {
        match found {
            Some(f) => f.wf() && banding128::is_build(Some(f.solution()), keys),
            None => banding128::is_build::<R>(None, keys),
        }
    }

    /// The outcome of construction from the 64-bit keys of `keys`.
    pub open spec fn is_build_of_hashable<K: Hash>(found: Option<Self>, keys: Seq<K>) -> bool {
        exists|hashes: Seq<u64>| #[trigger]
            Self::is_build(found, hashes) && key::are_hashes_of(keys, hashes)
    }

    /// An answer that the filter gives for a key of any type: whether it reports the key's 64-bit
    /// key.
    pub open spec fn answers<K: Hash + ?Sized>(&self, key: &K, present: bool) -> bool {
        exists|hash: u64| key::is_hash_of(key, hash) && present == #[trigger] self.reports(hash)
    }

    /// Builds a filter in arrival order.
    pub fn from_keys(keys: &[u64]) -> (f: Option<Self>)
        requires
            1 <= R <= 32,
        ensures
            Self::is_build(f, keys@),
    {
        match build_std128::<R>(keys) {
            Some(soln) => Some(Self::from_solution(soln)),
            None => None,
        }
    }

    /// Builds a filter with pleated construction: the same filter as in arrival order.
    pub fn from_keys_pleated(keys: &[u64]) -> (f: Option<Self>)
        requires
            1 <= R <= 32,
        ensures
            Self::is_build(f, keys@),
    {
        match build_std128_pleated::<R>(keys, DEFAULT_WINDOW_SHIFT) {
            Some(soln) => Some(Self::from_solution(soln)),
            None => None,
        }
    }

    /// Builds a filter by ranges of slots: the same filter as in arrival order.
    pub fn from_keys_parallel(keys: &[u64], threads: usize) -> (f: Option<Self>)
        requires
            1 <= R <= 32,
        ensures
            Self::is_build(f, keys@),
    {
        match build_std128_parallel::<R>(keys, DEFAULT_WINDOW_SHIFT, threads) {
            Some(soln) => Some(Self::from_solution(soln)),
            None => None,
        }
    }

    /// The filter of a solution, however it was built.
    pub fn from_solution(soln: Solution128<R>) -> (f: Self)
        ensures
            f.solution() == soln,
            1 <= R <= 32 && soln.wf() ==> f.wf(),
    {
        broadcast use vstd::layout::layout_of_primitives;

        sizing::in_memory(soln.segments());
        StdRibbon { soln }
    }

    /// Builds a filter of keys of any type, by their 64-bit hashes.
    pub fn from_hashable<K: Hash>(keys: &[K]) -> (f: Option<Self>)
        requires
            1 <= R <= 32,
        ensures
            Self::is_build_of_hashable(f, keys@),
    {
        let hashes: Vec<u64> = key::hash_keys(keys);
        Self::from_keys_pleated(hashes.as_slice())
    }

    /// Is `key` possibly in the set? Never a false negative.
    pub fn contains(&self, key: u64) -> (present: bool)
        requires
            self.wf(),
        ensures
            present == self.reports(key),
    {
        self.soln.contains(key)
    }

    /// Is a key of any type possibly in the set, by its 64-bit hash?
    pub fn contains_hashable<K: Hash + ?Sized>(&self, key: &K) -> (present: bool)
        requires
            self.wf(),
        ensures
            self.answers(key, present),
    {
        self.contains(hash_key(key))
    }

    /// Queries many keys at once.
    pub fn contains_batch(&self, keys: &[u64], out: &mut [bool])
        requires
            self.wf(),
            keys@.len() == old(out)@.len(),
        ensures
            final(out)@.len() == keys@.len(),
            forall|i: int|
                0 <= i < keys@.len() ==> #[trigger] final(out)@[i] == self.reports(keys@[i]),
    {
        self.soln.contains_batch(keys, out)
    }

    /// The size of the words in bytes. Keys are not stored.
    pub fn size_bytes(&self) -> (n: usize)
        requires
            self.wf(),
        ensures
            n == self.words().len() * 16,
    {
        self.soln.segments().len() * 16
    }

    /// The filter in its envelope: with a header that tells what it is, and a checksum.
    pub fn to_bytes(&self) -> (out: Vec<u8>)
        requires
            1 <= R <= 32,
        ensures
            out@ == envelope(self.starts(), self.ordinal(), self.words(), R as u8),
    {
        let (num_starts, ordinal_seed, segs) = self.soln.parts();
        let mut out: Vec<u8> = write_header(
            FAMILY_STD,
            R as u8,
            ordinal_seed as u64,
            num_starts,
            segs.len() as u64,
        );
        put_wide_words(&mut out, segs);
        finish(out)
    }

    /// The filter in an envelope, or the first reason against it.
    pub fn from_bytes(buf: &[u8]) -> (f: Result<Self, DecodeError>)
        requires
            1 <= R <= 32,
        ensures
            match decoded(buf@, R as u8) {
                Ok((header, payload)) => {
                    &&& f matches Ok(g)
                    &&& g.wf()
                    &&& g.starts() == header.num_starts
                    &&& g.ordinal() == header.seed
                    &&& bytes::words_bytes(g.words(), 16) == payload
                    &&& g.fits_geometry()
                },
                Err(e) => f == Err::<Self, DecodeError>(e),
            },
    {
        match decode(buf, FAMILY_STD, R as u8, 16, W128) {
            Ok((header, payload)) => {
                if header.seed >= SEED_COUNT as u64 {
                    return Err(DecodeError::BadSeed);
                }
                let segments: Vec<u128> = get_wide_words(payload);
                proof {
                    let blocks: int = (header.num_starts + 127) / 128;
                    interleave::lemma_covers_blocks(blocks, 128, R as int);
                    assert(segments@.len() == blocks * R);
                }
                Ok(
                    Self::from_solution(
                        Solution128::from_parts(header.num_starts, header.seed as u32, segments),
                    ),
                )
            },
            Err(e) => Err(e),
        }
    }
}

/// However they are built, filters of the same keys are the same, bit for bit, and one is found
/// exactly if the other is.
pub proof fn lemma_same_filter<const R: usize>(
    f: Option<StdRibbon<R>>,
    a: Seq<u64>,
    g: Option<StdRibbon<R>>,
    b: Seq<u64>,
)
    requires
        StdRibbon::<R>::is_build(f, a),
        StdRibbon::<R>::is_build(g, b),
        a.len() == b.len(),
        forall|k: u64| #[trigger] a.contains(k) <==> b.contains(k),
    ensures
        f is Some <==> g is Some,
        f is Some ==> f->0.same_as(&g->0),
{
    let s: Option<Solution128<R>> = match f {
        Some(f) => Some(f.solution()),
        None => None,
    };
    let t: Option<Solution128<R>> = match g {
        Some(g) => Some(g.solution()),
        None => None,
    };
    banding128::lemma_same_build(s, a, t, b);
    if f is Some {
        assert forall|k: u64| #[trigger] f->0.reports(k) == g->0.reports(k) by {
            assert(s->0.reports(k) == t->0.reports(k));
        }
    }
}

/// The order of the keys does not matter: filters of keys and of any permutation of them are the
/// same, bit for bit, and one is found exactly if the other is.
pub proof fn lemma_order_free<const R: usize>(
    f: Option<StdRibbon<R>>,
    a: Seq<u64>,
    g: Option<StdRibbon<R>>,
    b: Seq<u64>,
)
    requires
        StdRibbon::<R>::is_build(f, a),
        StdRibbon::<R>::is_build(g, b),
        a.to_multiset() == b.to_multiset(),
    ensures
        f is Some <==> g is Some,
        f is Some ==> f->0.same_as(&g->0),
{
    plan::lemma_permuted(a, b);
    lemma_same_filter(f, a, g, b);
}

/// The size of a filter depends on the number of its keys alone: `R` bits per slot.
pub proof fn lemma_filter_size<const R: usize>(f: StdRibbon<R>, keys: Seq<u64>)
    requires
        StdRibbon::<R>::is_build(Some(f), keys),
    ensures
        f.words().len() * 16 == sizing::slots(keys.len(), R as nat, 128) as int / 8 * R,
        f.starts() + 127 == sizing::slots(keys.len(), R as nat, 128),
        f.ordinal() < 64,
{
    banding128::lemma_build_size(f.solution(), keys);
    sizing::lemma_slots_shape(keys.len(), R as nat, 128);
    let blocks: int = sizing::slots(keys.len(), R as nat, 128) as int / 128;
    assert((blocks * R) * 16 == (blocks * 16) * R) by (nonlinear_arith);
}

/// No false negatives for keys of any type: a filter of keys answers yes for a key that feeds the
/// bytes of one of them.
pub proof fn lemma_hashable_found<const R: usize, K: Hash, Q: Hash + ?Sized>(
    f: StdRibbon<R>,
    keys: Seq<K>,
    i: int,
    key: &Q,
    present: bool,
)
    requires
        StdRibbon::<R>::is_build_of_hashable(Some(f), keys),
        0 <= i < keys.len(),
        key::feed_alike(&keys[i], key),
        f.answers(key, present),
    ensures
        present,
{
    let hashes: Seq<u64> = choose|hashes: Seq<u64>| #[trigger]
        StdRibbon::<R>::is_build(Some(f), hashes) && key::are_hashes_of(keys, hashes);
    let hash: u64 = choose|hash: u64|
        key::is_hash_of(key, hash) && present == #[trigger] f.reports(hash);
    assert(key::is_hash_of(&keys[i], hashes[i]));
    key::lemma_mapped_alike(&keys[i], key, hashes[i], hash);
    assert(hashes.contains(hash));
}

/// The words of a filter that was built are as many as its number of starts asks for.
pub proof fn lemma_filter_geometry<const R: usize>(f: StdRibbon<R>, keys: Seq<u64>)
    requires
        StdRibbon::<R>::is_build(Some(f), keys),
    ensures
        f.fits_geometry(),
{
    sizing::lemma_slots_shape(keys.len(), R as nat, 128);
    banding128::lemma_build_size(f.solution(), keys);
}

/// The envelope gives the filter back: it decodes to the seed number, the number of starts and the
/// words of the filter, and every filter with these is the same, and reports the same keys. This
/// holds of filters that were built, and of those that were decoded.
pub proof fn lemma_envelope_round_trip<const R: usize>(f: StdRibbon<R>)
    requires
        f.wf(),
        f.fits_geometry(),
    ensures
        decoded(envelope(f.starts(), f.ordinal(), f.words(), R as u8), R as u8) == Ok::<
            (Header, Seq<u8>),
            DecodeError,
        >(
            (
                (Header { seed: f.ordinal() as u64, num_starts: f.starts() }),
                bytes::words_bytes(f.words(), 16),
            ),
        ),
        forall|g: StdRibbon<R>|
            g.wf() && g.starts() == f.starts() && g.ordinal() == f.ordinal() && bytes::words_bytes(
                f.words(),
                16,
            ) == #[trigger] bytes::words_bytes(g.words(), 16) ==> g.same_as(&f),
{
    bytes::lemma_words_len(f.words(), 16);
    bytes::lemma_limits();
    crate::format::lemma_round_trip(
        FAMILY_STD,
        R as u8,
        f.ordinal() as u64,
        f.starts(),
        f.words().len() as u64,
        bytes::words_bytes(f.words(), 16),
        16,
        128,
    );
    assert forall|g: StdRibbon<R>|
        g.wf() && g.starts() == f.starts() && g.ordinal() == f.ordinal() && bytes::words_bytes(
            f.words(),
            16,
        ) == #[trigger] bytes::words_bytes(g.words(), 16) implies g.same_as(&f) by {
        bytes::lemma_words_unique(f.words(), g.words(), 16);
    }
}

/// What an answer says of the words: a key is reported exactly if, in each of the columns, the
/// number of set slots that its row selects is odd where the column's digit of its result is one,
/// and even where it is zero. So it is refused as soon as one column disagrees.
pub proof fn lemma_answer<const R: usize>(f: StdRibbon<R>, key: u64)
    requires
        f.wf(),
    ensures
        ({
            let h: u64 = hash::hash_of(key, hash128::raw_seed_of(f.ordinal()) as u64);
            f.reports(key) <==> forall|col: int|
                0 <= col < R ==> (#[trigger] tally::hits(
                    f.words(),
                    128,
                    R as int,
                    col,
                    hash::start_of(h, f.starts()),
                    hash128::coeff_128_of(h),
                ) % 2 == 1) == tally::digit(hash128::result_of(h) as nat, col as nat)
        }),
{
    let s: Solution128<R> = f.solution();
    let h: u64 = hash::hash_of(key, hash128::raw_seed_of(f.ordinal()) as u64);
    let at: int = hash::start_of(h, f.starts());
    let c: u128 = hash128::coeff_128_of(h);
    banding128::lemma_answer(s, key);
    assert(h == hash::hash_of(key, s.seed() as u64));
    let agree: bool = forall|col: int|
        0 <= col < R ==> (#[trigger] tally::hits(s.words(), 128, R as int, col, at, c) % 2 == 1)
            == tally::digit(hash128::result_of(h) as nat, col as nat);
    assert(s.reports(key) == agree);
}

/// What a filter of keys holds: in each column the row of each key selects an odd number of set
/// slots exactly if the column's digit of its result is one.
pub proof fn lemma_member_rows<const R: usize>(
    f: StdRibbon<R>,
    keys: Seq<u64>,
    key: u64,
    col: int,
)
    requires
        StdRibbon::<R>::is_build(Some(f), keys),
        keys.contains(key),
        0 <= col < R,
    ensures
        f.reports(key),
        ({
            let h: u64 = hash::hash_of(key, hash128::raw_seed_of(f.ordinal()) as u64);
            (tally::hits(
                f.words(),
                128,
                R as int,
                col,
                hash::start_of(h, f.starts()),
                hash128::coeff_128_of(h),
            ) % 2 == 1) == tally::digit(hash128::result_of(h) as nat, col as nat)
        }),
{
    banding128::lemma_answer(f.solution(), key);
}

/// What a filter of keys holds besides: slots that the keys leave free hold nothing. A slot is free
/// if some assignment, in which every key's row selects an even number of set slots, has it as its
/// last set slot.
pub proof fn lemma_free_slot<const R: usize>(
    f: StdRibbon<R>,
    keys: Seq<u64>,
    y: Seq<bool>,
    p: int,
    col: int,
)
    requires
        StdRibbon::<R>::is_build(Some(f), keys),
        0 <= col < R,
        y.len() == sizing::slots(keys.len(), R as nat, 128),
        0 <= p < y.len(),
        y[p],
        forall|q: int| p < q < y.len() ==> !#[trigger] y[q],
        forall|k: u64| #[trigger]
            keys.contains(k) ==> tally::chosen(
                y,
                128,
                hash::start_of(
                    hash::hash_of(k, hash128::raw_seed_of(f.ordinal()) as u64),
                    f.starts(),
                ),
                hash128::coeff_128_of(
                    hash::hash_of(k, hash128::raw_seed_of(f.ordinal()) as u64),
                ),
            ) % 2 == 0,
    ensures
        !tally::slot_bit(f.words(), 128, R as int, col, p),
{
    banding128::lemma_free_slot(f.solution(), keys, y, p, col);
}

/// Construction passes a seed over, or gives up, only for cause: under each seed before the one
/// taken, and under all 64 where none is, some column has no assignment that suits every key.
pub proof fn lemma_first_seed<const R: usize>(
    found: Option<StdRibbon<R>>,
    keys: Seq<u64>,
    ordinal: u32,
)
    requires
        StdRibbon::<R>::is_build(found, keys),
        ordinal < 64,
    ensures
        ({
            let raw: u32 = hash128::raw_seed_of(ordinal);
            let num_starts: u64 = (sizing::slots(keys.len(), R as nat, 128) - 127) as u64;
            let each: bool = forall|col: int|
                0 <= col < 32 ==> #[trigger] banding128::suitable(keys, raw, num_starts, col);
            &&& found is None ==> !each
            &&& found is Some && ordinal < found->0.ordinal() ==> !each
            &&& found is Some && ordinal == found->0.ordinal() ==> each
            &&& found is Some ==> found->0.ordinal() < 64
        }),
{
    match found {
        Some(f) => {
            banding128::lemma_first_seed(Some(f.solution()), keys, ordinal);
        },
        None => {
            banding128::lemma_first_seed::<R>(None, keys, ordinal);
        },
    }
}

/// An answer for a key of any type is the answer for its whole XXH3 hash.
pub proof fn lemma_hashable_answer<const R: usize, K: Hash + ?Sized>(
    f: StdRibbon<R>,
    key: &K,
    present: bool,
) -> (hash: u64)
    requires
        f.answers(key, present),
    ensures
        key::is_hash_of(key, hash),
        present == f.reports(hash),
{
    choose|hash: u64| key::is_hash_of(key, hash) && present == #[trigger] f.reports(hash)
}

/// A filter of keys of any type is that of their whole XXH3 hashes, one for each.
pub proof fn lemma_hashable_filter<const R: usize, K: Hash>(
    found: Option<StdRibbon<R>>,
    keys: Seq<K>,
) -> (hashes: Seq<u64>)
    requires
        StdRibbon::<R>::is_build_of_hashable(found, keys),
    ensures
        StdRibbon::<R>::is_build(found, hashes),
        hashes.len() == keys.len(),
        forall|i: int| 0 <= i < keys.len() ==> key::is_hash_of(&keys[i], #[trigger] hashes[i]),
{
    choose|hashes: Seq<u64>| #[trigger]
        StdRibbon::<R>::is_build(found, hashes) && key::are_hashes_of(keys, hashes)
}

/// When a buffer decodes as a standard filter: exactly if its envelope does and its seed is below
/// 64. A seed from 64 on is refused for itself, and everything else for the envelope's reason.
pub proof fn lemma_decoded(buf: Seq<u8>, r: u8)
    ensures
        ({
            let inner: Result<(Header, Seq<u8>), DecodeError> = crate::format::decoded(
                buf,
                1,
                r,
                16,
                128,
            );
            let d: Result<(Header, Seq<u8>), DecodeError> = decoded(buf, r);
            &&& d is Ok <==> inner is Ok && inner->Ok_0.0.seed < 64
            &&& d is Ok ==> d == inner
            &&& d is Err && d->Err_0 == DecodeError::BadSeed <==> inner is Ok
                && inner->Ok_0.0.seed >= 64
            &&& inner is Err ==> d == inner
        }),
{
    crate::format::lemma_decoded(buf, 1, r, 16, 128);
}

/// The envelope of a filter, byte by byte.
pub proof fn lemma_envelope_layout(
    num_starts: u64,
    ordinal: u32,
    words: Seq<u128>,
    r: u8,
    i: int,
    j: nat,
)
    requires
        words.len() <= u64::MAX,
        j < 16,
    ensures
        ({
            let buf: Seq<u8> = envelope(num_starts, ordinal, words, r);
            let end: int = 32 + 16 * words.len() as int;
            &&& buf.len() == end + 8
            &&& buf[0] == 0x50 && buf[1] == 0x4c && buf[2] == 0x54 && buf[3] == 0x31
            &&& buf[4] == 1 && buf[5] == r && buf[6] == 0 && buf[7] == 0
            &&& j < 8 ==> buf[8 + j as int] == (ordinal as int / power::pow(256, j)) % 256
            &&& j < 8 ==> buf[16 + j as int] == (num_starts as int / power::pow(256, j)) % 256
            &&& j < 8 ==> buf[24 + j as int] == (words.len() as int / power::pow(256, j)) % 256
            &&& 0 <= i < words.len() ==> buf[32 + 16 * i + j] == (words[i] as int / power::pow(
                256,
                j,
            )) % 256
            &&& j < 8 ==> buf[end + j] == (bytes::fnv_of(buf.take(end)) as int / power::pow(256, j))
                % 256
        }),
{
    let payload: Seq<u8> = bytes::words_bytes(words, 16);
    bytes::lemma_words_len(words, 16);
    crate::format::lemma_layout(
        FAMILY_STD,
        r,
        ordinal as u64,
        num_starts,
        words.len() as u64,
        payload,
        j,
    );
    if 0 <= i < words.len() {
        bytes::lemma_words_digit(words, 16, i, j);
        crate::format::lemma_layout(
            FAMILY_STD,
            r,
            ordinal as u64,
            num_starts,
            words.len() as u64,
            payload,
            (i * 16 + j) as nat,
        );
    }
}

} // verus!
