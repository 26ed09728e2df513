//! Hashing keys of any type to the 64-bit keys that filters work on.

use core::hash::{Hash, Hasher};
use vstd::prelude::*;
use xxhash_rust::xxh3::Xxh3;

verus! {

/// The streaming XXH3 hasher of `xxhash_rust`.
#[verifier::external_type_specification]
#[verifier::external_body]
pub struct ExXxh3(xxhash_rust::xxh3::Xxh3);

/// The bytes that a hasher was fed, in order.
pub uninterp spec fn fed(h: Xxh3) -> Seq<u8>;

/// The seed that a hasher was made with.
pub uninterp spec fn seed_of(h: Xxh3) -> u64;

/// The 64-bit XXH3 hash of a byte string under a seed.
pub uninterp spec fn xxh3_64(input: Seq<u8>, seed: u64) -> u64;

/// `xxhash_rust::xxh3::Xxh3::with_seed`: a hasher under that seed that was fed nothing.
#[verifier::external_body]
fn with_seed(seed: u64) -> (h: Xxh3)
    ensures
        fed(h) == Seq::<u8>::empty(),
        seed_of(h) == seed,
{
    Xxh3::with_seed(seed)
}

/// `core::hash::Hash::hash` of `key` into the hasher: it is fed some bytes more, and keeps its
/// seed. Which bytes these are, and that they are the same each time, is up to the type of the key
/// and left unsaid.
#[verifier::external_body]
pub fn feed<K: Hash + ?Sized>(key: &K, h: Xxh3) -> (next: Xxh3)
    ensures
        fed(h).is_prefix_of(fed(next)),
        seed_of(next) == seed_of(h),
{
    let mut next = h;
    key.hash(&mut next);
    next
}

/// `Hasher::finish` of `xxhash_rust::xxh3::Xxh3`: the hash of the bytes that it was fed, under its
/// seed, however they were split into writes. Every hasher here comes from `with_seed`, so none has
/// a secret of its own.
#[verifier::external_body]
fn finish(h: &Xxh3) -> (hash: u64)
    ensures
        hash == xxh3_64(fed(*h), seed_of(*h)),
{
    h.finish()
}

/// A hasher under seed zero that was fed nothing.
pub open spec fn is_fresh(h: Xxh3) -> bool {
    fed(h) == Seq::<u8>::empty() && seed_of(h) == 0
}

/// `hash` is a 64-bit key of `key`: the XXH3 hash, under seed zero, of bytes that `key` feeds to a
/// fresh hasher.
pub open spec fn is_hash_of<K: Hash + ?Sized>(key: &K, hash: u64) -> bool {
    exists|a: Xxh3, b: Xxh3|
        is_fresh(a) && #[trigger] call_ensures(feed::<K>, (key, a), b) && hash == xxh3_64(
            fed(b),
            0,
        )
}

/// The keys feed the same bytes to fresh hashers. Of a key and itself: it feeds the same bytes each
/// time.
pub open spec fn feed_alike<K: Hash + ?Sized, Q: Hash + ?Sized>(key: &K, other: &Q) -> bool {
    forall|a: Xxh3, b: Xxh3, c: Xxh3, d: Xxh3|
        is_fresh(a) && is_fresh(c) && #[trigger] call_ensures(feed::<K>, (key, a), b)
            && #[trigger] call_ensures(feed::<Q>, (other, c), d) ==> fed(b) == fed(d)
}

/// A call of `f`.
fn call<A, B, C, F: Fn(A, B) -> C>(f: F, a: A, b: B) -> (c: C)
    requires
        call_requires(f, (a, b)),
    ensures
        call_ensures(f, (a, b), c),
{
    f(a, b)
}

/// The 64-bit key of a key of any type: the XXH3 hash, under a fixed seed, of the bytes that the
/// key feeds to a hasher.
///
/// The 64-bit key is local to one process and toolchain. Which bytes a type feeds is up to its
/// `Hash`, which is not portable: they may differ between machines, compilers and versions of the
/// crate that defines the type. A filter that is kept, or shared with another program, should be
/// built of 64-bit keys from an encoding of the application's own.
pub fn hash_key<K: Hash + ?Sized>(key: &K) -> (hash: u64)
    ensures
        is_hash_of(key, hash),
        exists|a: Xxh3, b: Xxh3|
            fed(a) == Seq::<u8>::empty() && seed_of(a) == 0 && #[trigger] call_ensures(
                feed::<K>,
                (key, a),
                b,
            ) && hash == xxh3_64(fed(b), 0),
{
    let h: Xxh3 = with_seed(0);
    let next: Xxh3 = call(feed::<K>, key, h);
    finish(&next)
}

/// The 64-bit keys of keys of any type, in order.
pub fn hash_keys<K: Hash>(keys: &[K]) -> (hashes: Vec<u64>)
    ensures
        are_hashes_of(keys@, hashes@),
{
    let mut hashes: Vec<u64> = Vec::new();
    let mut i: usize = 0;
    while i < keys.len()
        invariant
            i <= keys@.len(),
            hashes@.len() == i,
            forall|j: int| 0 <= j < i ==> is_hash_of(&keys@[j], #[trigger] hashes@[j]),
        decreases keys.len() - i,
    {
        hashes.push(hash_key(&keys[i]));
        i = i + 1;
    }
    hashes
}

/// `hashes` are 64-bit keys of `keys`, one for each, in order.
pub open spec fn are_hashes_of<K: Hash>(keys: Seq<K>, hashes: Seq<u64>) -> bool {
    &&& hashes.len() == keys.len()
    &&& forall|i: int| 0 <= i < hashes.len() ==> is_hash_of(&keys[i], #[trigger] hashes[i])
}

/// Build and query map alike: keys that feed the same bytes have the same 64-bit key.
pub proof fn lemma_mapped_alike<K: Hash + ?Sized, Q: Hash + ?Sized>(
    key: &K,
    other: &Q,
    x: u64,
    y: u64,
)
    requires
        feed_alike(key, other),
        is_hash_of(key, x),
        is_hash_of(other, y),
    ensures
        x == y,
{
    let (a, b) = choose|a: Xxh3, b: Xxh3|
        is_fresh(a) && #[trigger] call_ensures(feed::<K>, (key, a), b) && x == xxh3_64(fed(b), 0);
    let (c, d) = choose|c: Xxh3, d: Xxh3|
        is_fresh(c) && #[trigger] call_ensures(feed::<Q>, (other, c), d) && y == xxh3_64(
            fed(d),
            0,
        );
    assert(fed(b) == fed(d));
}

/// A 64-bit key is the whole XXH3 hash: each of the 64-bit keys of a key is the hash, under seed
/// zero, of bytes that the key feeds to a hasher that was fed nothing.
pub proof fn lemma_whole_hash<K: Hash + ?Sized>(key: &K, hash: u64)
    ensures
        is_hash_of(key, hash) <==> exists|a: Xxh3, b: Xxh3|
            fed(a) == Seq::<u8>::empty() && seed_of(a) == 0 && #[trigger] call_ensures(
                feed::<K>,
                (key, a),
                b,
            ) && hash == xxh3_64(fed(b), 0),
{
}

/// Keys are told apart as well as XXH3 tells their bytes apart: if whatever the one feeds has
/// another hash than whatever the other feeds, they have no 64-bit key in common.
pub proof fn lemma_mapped_apart<K: Hash + ?Sized, Q: Hash + ?Sized>(
    key: &K,
    other: &Q,
    x: u64,
    y: u64,
)
    requires
        forall|a: Xxh3, b: Xxh3, c: Xxh3, d: Xxh3|
            #![trigger call_ensures(feed::<K>, (key, a), b), call_ensures(feed::<Q>, (other, c), d)]
            fed(a) == Seq::<u8>::empty() && seed_of(a) == 0 && fed(c) == Seq::<u8>::empty()
                && seed_of(c) == 0 && call_ensures(feed::<K>, (key, a), b) && call_ensures(
                feed::<Q>,
                (other, c),
                d,
            ) ==> xxh3_64(fed(b), 0) != xxh3_64(fed(d), 0),
        is_hash_of(key, x),
        is_hash_of(other, y),
    ensures
        x != y,
{
    lemma_whole_hash(key, x);
    lemma_whole_hash(other, y);
    let (a, b) = choose|a: Xxh3, b: Xxh3|
        fed(a) == Seq::<u8>::empty() && seed_of(a) == 0 && #[trigger] call_ensures(
            feed::<K>,
            (key, a),
            b,
        ) && x == xxh3_64(fed(b), 0);
    let (c, d) = choose|c: Xxh3, d: Xxh3|
        fed(c) == Seq::<u8>::empty() && seed_of(c) == 0 && #[trigger] call_ensures(
            feed::<Q>,
            (other, c),
            d,
        ) && y == xxh3_64(fed(d), 0);
    assert(xxh3_64(fed(b), 0) != xxh3_64(fed(d), 0));
}

/// Each of several keys has its own whole hash in its own place.
pub proof fn lemma_hashes_in_place<K: Hash>(keys: Seq<K>, hashes: Seq<u64>)
    ensures
        are_hashes_of(keys, hashes) <==> hashes.len() == keys.len() && forall|i: int|
            0 <= i < keys.len() ==> is_hash_of(&keys[i], #[trigger] hashes[i]),
{
}

} // verus!
