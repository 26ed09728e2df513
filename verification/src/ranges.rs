//! Splitting a band into ranges of slots that can be banded independently.
//!
//! Each range takes the keys that start in it, except those that start close to its end: their
//! rows may need slots of the next range, so they are deferred until all ranges are done.

use crate::hash;
use crate::hash::{ribbon_hash, start};
use crate::linear;
use crate::linear::Equation;
use crate::plan;
use vstd::prelude::*;

verus! {

/// Boundary margin in slots. A key that starts within it of the end of its range is deferred.
pub const MARGIN: usize = 0x4000;

/// `a / b`, rounded up.
pub open spec fn ceil_div(a: int, b: int) -> int {
    (a + b - 1) / b
}

/// The slots of a range: windows are dealt out evenly, in whole windows.
pub open spec fn range_step(num_slots: int, window: int, threads: int) -> int {
    ceil_div(ceil_div(num_slots, window), threads) * window
}

/// `bounds` splits `num_slots` slots into ranges of `step` slots, the last one of what is left.
pub open spec fn are_bounds(bounds: Seq<usize>, num_slots: int, step: int) -> bool {
    &&& bounds.len() >= 2
    &&& bounds[bounds.len() - 1] == num_slots
    &&& forall|t: int| 0 <= t < bounds.len() - 1 ==> #[trigger] bounds[t] == t * step
    &&& (bounds.len() - 2) * step < num_slots <= (bounds.len() - 1) * step
}

/// Slot `s` is in range `t`.
pub open spec fn in_range(bounds: Seq<usize>, s: int, t: int) -> bool {
    0 <= t < bounds.len() - 1 && bounds[t] <= s < bounds[t + 1]
}

/// Slot `s` of range `t` is close to the start of the next range.
pub open spec fn near_end(bounds: Seq<usize>, s: int, t: int) -> bool {
    t + 1 < bounds.len() - 1 && s + MARGIN >= bounds[t + 1]
}

/// The bounds begin at slot zero and grow.
pub open spec fn ordered(bounds: Seq<usize>) -> bool {
    &&& bounds.len() >= 2
    &&& bounds[0] == 0
    &&& forall|t: int, u: int| 0 <= t < u < bounds.len() ==> #[trigger] bounds[t] < #[trigger] bounds[u]
}

/// The start slot of a key.
pub open spec fn start_slot(key: u64, seed: u64, num_starts: u64) -> int {
    hash::start_of(hash::hash_of(key, seed), num_starts)
}

/// The keys that range `t` takes.
pub open spec fn taken(bounds: Seq<usize>, seed: u64, num_starts: u64, t: int) -> spec_fn(
    u64,
) -> bool {
    |k: u64|
        in_range(bounds, start_slot(k, seed, num_starts), t) && !near_end(
            bounds,
            start_slot(k, seed, num_starts),
            t,
        )
}

/// The keys that are deferred.
pub open spec fn put_off(bounds: Seq<usize>, seed: u64, num_starts: u64) -> spec_fn(u64) -> bool {
    |k: u64|
        exists|t: int|
            #[trigger] in_range(bounds, start_slot(k, seed, num_starts), t) && near_end(
                bounds,
                start_slot(k, seed, num_starts),
                t,
            )
}

/// `buckets` and `deferred` are the keys, dealt out, each in arrival order.
pub open spec fn is_dealt(
    keys: Seq<u64>,
    seed: u64,
    num_starts: u64,
    bounds: Seq<usize>,
    buckets: Seq<Vec<u64>>,
    deferred: Seq<u64>,
) -> bool {
    &&& buckets.len() == bounds.len() - 1
    &&& forall|t: int|
        0 <= t < buckets.len() ==> (#[trigger] buckets[t])@ == keys.filter(
            taken(bounds, seed, num_starts, t),
        )
    &&& deferred == keys.filter(put_off(bounds, seed, num_starts))
}

/// The bounds of the ranges that `threads` workers share.
pub fn range_bounds(num_slots: usize, window: usize, threads: usize) -> (bounds: Vec<usize>)
    requires
        num_slots > 0,
        window > 0,
        threads > 0,
    ensures
        are_bounds(
            bounds@,
            num_slots as int,
            range_step(num_slots as int, window as int, threads as int),
        ),
        ordered(bounds@),
        bounds@.len() - 1 <= threads,
{
    let n_windows: u128 = (num_slots as u128 + window as u128 - 1) / window as u128;
    let per: u128 = (n_windows + threads as u128 - 1) / threads as u128;
    proof {
        lemma_ceil(num_slots as int, window as int);
        lemma_ceil(n_windows as int, threads as int);
        assert(per * window <= per * 0xffff_ffff_ffff_ffff) by (nonlinear_arith)
            requires
                window <= 0xffff_ffff_ffff_ffff,
                per >= 0,
        ;
        assert(per * window >= 1) by (nonlinear_arith)
            requires
                window >= 1,
                per >= 1,
        ;
    }
    let step: u128 = per * window as u128;
    let mut bounds: Vec<usize> = Vec::new();
    bounds.push(0);
    let mut cur: usize = 0;
    proof {
        assert(0 * step == 0) by (nonlinear_arith);
        assert(-1 * step == -step) by (nonlinear_arith);
    }
    while cur < num_slots
        invariant
            step >= 1,
            cur <= num_slots,
            bounds@.len() >= 1,
            bounds@[0] == 0,
            cur == bounds@[bounds@.len() - 1],
            cur < num_slots ==> cur == (bounds@.len() - 1) * step,
            cur == num_slots ==> bounds@.len() >= 2 && (bounds@.len() - 2) * step < num_slots <= (
            bounds@.len() - 1) * step || num_slots == 0,
            forall|t: int| 0 <= t < bounds@.len() - 1 ==> #[trigger] bounds@[t] == t * step,
            forall|t: int| 0 <= t < bounds@.len() - 1 ==> #[trigger] bounds@[t] < cur,
        decreases num_slots - cur,
    {
        let ghost m: int = bounds@.len() as int;
        proof {
            assert(m * step == (m - 1) * step + step) by (nonlinear_arith);
        }
        let left: u128 = (num_slots - cur) as u128;
        let next: usize = if left <= step {
            num_slots
        } else {
            cur + step as usize
        };
        bounds.push(next);
        cur = next;
    }
    proof {
        let b: Seq<usize> = bounds@;
        assert forall|t: int, u: int| 0 <= t < u < b.len() implies #[trigger] b[t]
            < #[trigger] b[u] by {
            if u < b.len() - 1 {
                assert(t * step < u * step) by (nonlinear_arith)
                    requires
                        t < u,
                        step >= 1,
                ;
            }
        }
        let ranges: int = b.len() - 1;
        assert(ranges <= threads) by {
            lemma_enough(num_slots as int, window as int, threads as int, n_windows as int, per as int);
            if ranges > threads {
                assert(threads * step <= (ranges - 1) * step) by (nonlinear_arith)
                    requires
                        threads <= ranges - 1,
                        step >= 1,
                ;
            }
        }
    }
    bounds
}

proof fn lemma_ceil(a: int, b: int)
    requires
        0 < a,
        0 < b,
    ensures
        1 <= ceil_div(a, b) <= a,
        a <= ceil_div(a, b) * b,
{
    let q: int = ceil_div(a, b);
    vstd::arithmetic::div_mod::lemma_fundamental_div_mod(a + b - 1, b);
    vstd::arithmetic::div_mod::lemma_mod_bound(a + b - 1, b);
    assert(b * q == q * b) by (nonlinear_arith);
    assert(q >= 1) by (nonlinear_arith)
        requires
            q * b > a - 1,
            a >= 1,
            b >= 1,
    ;
    assert(q <= a) by (nonlinear_arith)
        requires
            q * b <= a + b - 1,
            a >= 1,
            b >= 1,
    ;
}

proof fn lemma_enough(num_slots: int, window: int, threads: int, n_windows: int, per: int)
    requires
        0 < num_slots,
        0 < window,
        0 < threads,
        n_windows == ceil_div(num_slots, window),
        per == ceil_div(n_windows, threads),
    ensures
        num_slots <= threads * (per * window),
{
    lemma_ceil(num_slots, window);
    lemma_ceil(n_windows, threads);
    assert(num_slots <= threads * (per * window)) by (nonlinear_arith)
        requires
            num_slots <= n_windows * window,
            n_windows <= per * threads,
            0 < window,
    ;
}

/// The range that slot `s` is in.
fn range_of(bounds: &Vec<usize>, s: usize) -> (t: usize)
    requires
        ordered(bounds@),
        s < bounds@[bounds@.len() - 1],
    ensures
        in_range(bounds@, s as int, t as int),
{
    let mut lo: usize = 0;
    let mut hi: usize = bounds.len() - 1;
    while hi - lo > 1
        invariant
            lo < hi < bounds@.len(),
            bounds@[lo as int] <= s < bounds@[hi as int],
        decreases hi - lo,
    {
        let mid: usize = lo + (hi - lo) / 2;
        if bounds[mid] <= s {
            lo = mid;
        } else {
            hi = mid;
        }
    }
    lo
}

/// Deals the keys out to the ranges that they start in, and defers those that start close to the
/// end of their range.
pub fn bucket_keys(keys: &[u64], seed: u64, num_starts: u64, bounds: &Vec<usize>) -> (dealt: (
    Vec<Vec<u64>>,
    Vec<u64>,
))
    requires
        ordered(bounds@),
        0 < num_starts <= bounds@[bounds@.len() - 1],
    ensures
        is_dealt(keys@, seed, num_starts, bounds@, dealt.0@, dealt.1@),
{
    let nt: usize = bounds.len() - 1;
    let mut buckets: Vec<Vec<u64>> = Vec::with_capacity(nt);
    let mut deferred: Vec<u64> = Vec::new();
    let mut t: usize = 0;
    while t < nt
        invariant
            t <= nt,
            buckets@.len() == t,
            forall|u: int| 0 <= u < t ==> (#[trigger] buckets@[u])@ == Seq::<u64>::empty(),
        decreases nt - t,
    {
        buckets.push(Vec::new());
        t = t + 1;
    }
    let ghost off: spec_fn(u64) -> bool = put_off(bounds@, seed, num_starts);
    let mut i: usize = 0;
    proof {
        reveal(Seq::filter);
        assert(keys@.take(0) =~= Seq::<u64>::empty());
        assert(deferred@ =~= keys@.take(0).filter(off));
        assert forall|u: int| 0 <= u < nt implies (#[trigger] buckets@[u])@ == keys@.take(0).filter(
            taken(bounds@, seed, num_starts, u),
        ) by {
            assert(buckets@[u]@ =~= keys@.take(0).filter(taken(bounds@, seed, num_starts, u)));
        }
    }
    while i < keys.len()
        invariant
            ordered(bounds@),
            0 < num_starts <= bounds@[bounds@.len() - 1],
            nt == bounds@.len() - 1,
            i <= keys@.len(),
            buckets@.len() == nt,
            off == put_off(bounds@, seed, num_starts),
            forall|u: int|
                0 <= u < nt ==> (#[trigger] buckets@[u])@ == keys@.take(i as int).filter(
                    taken(bounds@, seed, num_starts, u),
                ),
            deferred@ == keys@.take(i as int).filter(off),
        decreases keys.len() - i,
    {
        let k: u64 = keys[i];
        let s: usize = start(ribbon_hash(k, seed), num_starts) as usize;
        let t: usize = range_of(bounds, s);
        let ghost before: Seq<Vec<u64>> = buckets@;
        let close: bool = t + 1 < nt && bounds[t + 1] - s <= MARGIN;
        if close {
            deferred.push(k);
        } else {
            buckets[t].push(k);
        }
        proof {
            let front: Seq<u64> = keys@.take(i as int);
            assert(keys@.take(i + 1) =~= front.push(k));
            assert(in_range(bounds@, start_slot(k, seed, num_starts), t as int));
            assert forall|u: int| #[trigger] in_range(bounds@, s as int, u) implies u == t by {
                lemma_one_range(bounds@, s as int, t as int, u);
            }
            assert(off(k) == close);
            front.lemma_filter_push(k, off);
            assert forall|u: int| 0 <= u < nt implies (#[trigger] buckets@[u])@ == keys@.take(
                i + 1,
            ).filter(taken(bounds@, seed, num_starts, u)) by {
                front.lemma_filter_push(k, taken(bounds@, seed, num_starts, u));
                assert(before[u]@ == front.filter(taken(bounds@, seed, num_starts, u)));
                assert(taken(bounds@, seed, num_starts, u)(k) == (u == t && !close)) by {
                    assert(in_range(bounds@, s as int, u) ==> u == t);
                }
            }
        }
        i = i + 1;
    }
    assert(keys@.take(i as int) =~= keys@);
    (buckets, deferred)
}

/// Every key is dealt to a range or deferred, and only keys are.
pub proof fn lemma_dealt(
    keys: Seq<u64>,
    seed: u64,
    num_starts: u64,
    bounds: Seq<usize>,
    buckets: Seq<Vec<u64>>,
    deferred: Seq<u64>,
)
    requires
        ordered(bounds),
        0 < num_starts <= bounds[bounds.len() - 1],
        is_dealt(keys, seed, num_starts, bounds, buckets, deferred),
    ensures
        forall|k: u64| #[trigger]
            keys.contains(k) ==> deferred.contains(k) || exists|t: int|
                0 <= t < buckets.len() && (#[trigger] buckets[t])@.contains(k),
        forall|k: u64| #[trigger] deferred.contains(k) ==> keys.contains(k),
        forall|t: int, k: u64|
            0 <= t < buckets.len() && #[trigger] buckets[t]@.contains(k) ==> keys.contains(k),
        forall|t: int, i: int|
            0 <= t < buckets.len() && 0 <= i < buckets[t]@.len() ==> bounds[t] <= start_slot(
                #[trigger] buckets[t]@[i],
                seed,
                num_starts,
            ),
{
    broadcast use vstd::seq_lib::group_filter_ensures;
    assert forall|k: u64| #[trigger] keys.contains(k) implies deferred.contains(k) || exists|t: int|
        0 <= t < buckets.len() && (#[trigger] buckets[t])@.contains(k) by {
        let i: int = choose|i: int| 0 <= i < keys.len() && keys[i] == k;
        let s: int = start_slot(k, seed, num_starts);
        hash::lemma_start_range(hash::hash_of(k, seed), num_starts);
        let t: int = lemma_some_range(bounds, s);
        if near_end(bounds, s, t) {
            assert(put_off(bounds, seed, num_starts)(keys[i]));
            keys.lemma_filter_contains(put_off(bounds, seed, num_starts), i);
        } else {
            assert(taken(bounds, seed, num_starts, t)(keys[i]));
            keys.lemma_filter_contains(taken(bounds, seed, num_starts, t), i);
            assert(buckets[t]@.contains(k));
        }
    }
    assert forall|k: u64| #[trigger] deferred.contains(k) implies keys.contains(k) by {
        lemma_filtered(keys, put_off(bounds, seed, num_starts), k);
    }
    assert forall|t: int, k: u64|
        0 <= t < buckets.len() && #[trigger] buckets[t]@.contains(k) implies keys.contains(k) by {
        lemma_filtered(keys, taken(bounds, seed, num_starts, t), k);
    }
    assert forall|t: int, i: int|
        0 <= t < buckets.len() && 0 <= i < buckets[t]@.len() implies bounds[t] <= start_slot(
        #[trigger] buckets[t]@[i],
        seed,
        num_starts,
    ) by {
        keys.lemma_filter_pred(taken(bounds, seed, num_starts, t), i);
    }
}

proof fn lemma_filtered(keys: Seq<u64>, pick: spec_fn(u64) -> bool, k: u64)
    requires
        keys.filter(pick).contains(k),
    ensures
        keys.contains(k),
    decreases keys.len(),
{
    reveal(Seq::filter);
    if keys.len() > 0 {
        let front: Seq<u64> = keys.drop_last();
        if front.filter(pick).contains(k) {
            lemma_filtered(front, pick, k);
            let i: int = choose|i: int| 0 <= i < front.len() && front[i] == k;
            assert(keys[i] == k);
        } else {
            let j: int = choose|j: int|
                0 <= j < keys.filter(pick).len() && keys.filter(pick)[j] == k;
            if j < front.filter(pick).len() {
                assert(front.filter(pick)[j] == k);
            }
            assert(keys[keys.len() - 1] == k);
        }
    }
}

/// The keys that are banded last: those that were deferred, and then those that left each range.
pub open spec fn tail_of(deferred: Seq<u64>, spilled: Seq<Vec<u64>>) -> Seq<u64>
    decreases spilled.len(),
{
    if spilled.len() == 0 {
        deferred
    } else {
        tail_of(deferred, spilled.drop_last()) + spilled.last()@
    }
}

/// The keys that are banded last, in order.
pub fn tail_keys(deferred: Vec<u64>, spilled: &Vec<Vec<u64>>) -> (tail: Vec<u64>)
    ensures
        tail@ == tail_of(deferred@, spilled@),
{
    let ghost first: Seq<u64> = deferred@;
    let mut tail: Vec<u64> = deferred;
    let mut t: usize = 0;
    while t < spilled.len()
        invariant
            t <= spilled@.len(),
            tail@ == tail_of(first, spilled@.take(t as int)),
        decreases spilled.len() - t,
    {
        let ghost before: Seq<u64> = tail@;
        tail.extend_from_slice(spilled[t].as_slice());
        proof {
            assert(spilled@.take(t + 1).drop_last() =~= spilled@.take(t as int));
            assert(tail@ =~= before + spilled@[t as int]@);
        }
        t = t + 1;
    }
    assert(spilled@.take(t as int) =~= spilled@);
    tail
}

/// A slot is in one range only.
pub proof fn lemma_one_range(bounds: Seq<usize>, s: int, t: int, u: int)
    requires
        ordered(bounds),
        in_range(bounds, s, t),
        in_range(bounds, s, u),
    ensures
        t == u,
{
    if t < u {
        if t + 1 < u {
            assert(bounds[t + 1] < bounds[u]);
        }
    } else if u < t {
        if u + 1 < t {
            assert(bounds[u + 1] < bounds[t]);
        }
    }
}

/// Every slot is in a range.
pub proof fn lemma_some_range(bounds: Seq<usize>, s: int) -> (t: int)
    requires
        ordered(bounds),
        0 <= s < bounds[bounds.len() - 1],
    ensures
        in_range(bounds, s, t),
{
    lemma_some_range_below(bounds, s, bounds.len() - 1)
}

proof fn lemma_some_range_below(bounds: Seq<usize>, s: int, m: int) -> (t: int)
    requires
        ordered(bounds),
        0 < m < bounds.len(),
        0 <= s < bounds[m],
    ensures
        in_range(bounds, s, t),
    decreases m,
{
    if bounds[m - 1] <= s {
        m - 1
    } else {
        lemma_some_range_below(bounds, s, m - 1)
    }
}

/// The equations of keys, where `f` gives that of each.
pub open spec fn equations_by(f: spec_fn(u64) -> Equation, keys: Seq<u64>) -> Seq<Equation> {
    Seq::new(keys.len(), |i: int| f(keys[i]))
}

/// `a` holds no key that `b` does not.
pub open spec fn among(a: Seq<u64>, b: Seq<u64>) -> bool {
    forall|k: u64| #[trigger] a.contains(k) ==> b.contains(k)
}

/// The equations that were banded are equations of keys.
pub open spec fn made_of(
    f: spec_fn(u64) -> Equation,
    keys: Seq<u64>,
    done: Seq<Equation>,
) -> bool {
    forall|e: Equation| #[trigger] done.contains(e) ==> keys.contains(e.key) && e == f(e.key)
}

/// Each of these keys was banded, or is kept for the end.
pub open spec fn accounted(
    f: spec_fn(u64) -> Equation,
    part: Seq<u64>,
    done: Seq<Equation>,
    tail: Seq<u64>,
) -> bool {
    forall|k: u64| #[trigger] part.contains(k) ==> done.contains(f(k)) || tail.contains(k)
}

/// Fewer keys have fewer equations.
pub proof fn lemma_among_equations(f: spec_fn(u64) -> Equation, a: Seq<u64>, b: Seq<u64>)
    requires
        among(a, b),
    ensures
        forall|e: Equation| #[trigger]
            equations_by(f, a).contains(e) ==> equations_by(f, b).contains(e),
{
    let ea: Seq<Equation> = equations_by(f, a);
    let eb: Seq<Equation> = equations_by(f, b);
    assert forall|e: Equation| #[trigger] ea.contains(e) implies eb.contains(e) by {
        let i: int = choose|i: int| 0 <= i < ea.len() && ea[i] == e;
        assert(a.contains(a[i]));
        let j: int = choose|j: int| 0 <= j < b.len() && b[j] == a[i];
        assert(eb[j] == e);
    }
}

/// Banding the keys of a range accounts for all of them: those that stayed were banded, and those
/// that left are kept for the end.
pub proof fn lemma_range_banded(
    f: spec_fn(u64) -> Equation,
    keys: Seq<u64>,
    bucket: Seq<u64>,
    rows: Seq<linear::Row>,
    base: int,
    done: Seq<Equation>,
    tail: Seq<u64>,
)
    requires
        forall|k: u64| (#[trigger] f(k)).key == k,
        linear::band(rows, base, equations_by(f, bucket)).consistent,
        among(bucket, keys),
        made_of(f, keys, done),
        among(tail, keys),
    ensures
        ({
            let eqs: Seq<Equation> = equations_by(f, bucket);
            let more: Seq<Equation> = done + linear::kept(rows, base, eqs);
            let rest: Seq<u64> = tail + linear::band(rows, base, eqs).escaped;
            &&& made_of(f, keys, more)
            &&& among(rest, keys)
            &&& accounted(f, bucket, more, rest)
            &&& among(tail, rest)
            &&& forall|part: Seq<u64>| #[trigger]
                accounted(f, part, done, tail) ==> accounted(f, part, more, rest)
        }),
{
    let eqs: Seq<Equation> = equations_by(f, bucket);
    let stay: Seq<Equation> = linear::kept(rows, base, eqs);
    let left: Seq<u64> = linear::band(rows, base, eqs).escaped;
    let more: Seq<Equation> = done + stay;
    let rest: Seq<u64> = tail + left;
    linear::lemma_band_parts(rows, base, eqs);
    assert forall|e: Equation| #[trigger] more.contains(e) implies keys.contains(e.key) && e == f(
        e.key,
    ) by {
        let j: int = choose|j: int| 0 <= j < more.len() && more[j] == e;
        if j < done.len() {
            assert(done[j] == e);
            assert(done.contains(e));
        } else {
            assert(stay[j - done.len()] == e);
            assert(stay.contains(e));
            let i: int = choose|i: int| 0 <= i < eqs.len() && eqs[i] == e;
            assert(bucket.contains(bucket[i]));
        }
    }
    assert forall|k: u64| #[trigger] rest.contains(k) implies keys.contains(k) by {
        let j: int = choose|j: int| 0 <= j < rest.len() && rest[j] == k;
        if j < tail.len() {
            assert(tail[j] == k);
            assert(tail.contains(k));
        } else {
            assert(left[j - tail.len()] == k);
            assert(left.contains(k));
            let i: int = choose|i: int| 0 <= i < eqs.len() && (#[trigger] eqs[i]).key == k;
            assert(bucket.contains(bucket[i]));
        }
    }
    assert forall|k: u64| #[trigger] tail.contains(k) implies rest.contains(k) by {
        let j: int = choose|j: int| 0 <= j < tail.len() && tail[j] == k;
        assert(rest[j] == k);
    }
    assert forall|e: Equation| #[trigger] done.contains(e) implies more.contains(e) by {
        let j: int = choose|j: int| 0 <= j < done.len() && done[j] == e;
        assert(more[j] == e);
    }
    assert forall|k: u64| #[trigger] bucket.contains(k) implies more.contains(f(k))
        || rest.contains(k) by {
        let i: int = choose|i: int| 0 <= i < bucket.len() && bucket[i] == k;
        assert(eqs[i] == f(k));
        if stay.contains(eqs[i]) {
            let j: int = choose|j: int| 0 <= j < stay.len() && stay[j] == eqs[i];
            assert(more[done.len() + j] == f(k));
        } else {
            assert(left.contains(k));
            let j: int = choose|j: int| 0 <= j < left.len() && left[j] == k;
            assert(rest[tail.len() + j] == k);
        }
    }
    assert forall|part: Seq<u64>| #[trigger] accounted(f, part, done, tail) implies accounted(
        f,
        part,
        more,
        rest,
    ) by {
        assert forall|k: u64| #[trigger] part.contains(k) implies more.contains(f(k))
            || rest.contains(k) by {
            assert(done.contains(f(k)) || tail.contains(k));
        }
    }
}

/// Once every range was banded, the equations that were banded and those of the keys that are kept
/// for the end are the equations of all keys.
pub proof fn lemma_all_banded(
    f: spec_fn(u64) -> Equation,
    keys: Seq<u64>,
    buckets: Seq<Vec<u64>>,
    deferred: Seq<u64>,
    done: Seq<Equation>,
    tail: Seq<u64>,
)
    requires
        forall|k: u64| (#[trigger] f(k)).key == k,
        forall|k: u64| #[trigger]
            keys.contains(k) ==> deferred.contains(k) || exists|t: int|
                0 <= t < buckets.len() && (#[trigger] buckets[t])@.contains(k),
        forall|t: int|
            0 <= t < buckets.len() ==> accounted(f, (#[trigger] buckets[t])@, done, tail),
        among(deferred, tail),
        made_of(f, keys, done),
        among(tail, keys),
    ensures
        linear::same_equations(done + equations_by(f, tail), equations_by(f, keys)),
{
    let last: Seq<Equation> = equations_by(f, tail);
    let made: Seq<Equation> = done + last;
    let all: Seq<Equation> = equations_by(f, keys);
    assert forall|e: Equation| #[trigger] made.contains(e) implies all.contains(e) by {
        let j: int = choose|j: int| 0 <= j < made.len() && made[j] == e;
        if j < done.len() {
            assert(done[j] == e);
            assert(done.contains(e));
        } else {
            let m: int = j - done.len();
            assert(last[m] == e);
            assert(e.key == tail[m]);
            assert(tail.contains(tail[m]));
        }
        assert(keys.contains(e.key));
        let i: int = choose|i: int| 0 <= i < keys.len() && keys[i] == e.key;
        assert(all[i] == e);
    }
    assert forall|e: Equation| #[trigger] all.contains(e) implies made.contains(e) by {
        let i: int = choose|i: int| 0 <= i < all.len() && all[i] == e;
        let k: u64 = keys[i];
        assert(keys.contains(k));
        if !deferred.contains(k) {
            let t: int = choose|t: int|
                0 <= t < buckets.len() && (#[trigger] buckets[t])@.contains(k);
            assert(accounted(f, buckets[t]@, done, tail));
        }
        if done.contains(e) {
            let j: int = choose|j: int| 0 <= j < done.len() && done[j] == e;
            assert(made[j] == e);
        } else {
            assert(tail.contains(k));
            let j: int = choose|j: int| 0 <= j < tail.len() && tail[j] == k;
            assert(last[j] == e);
            assert(made[done.len() + j] == e);
        }
    }
}

/// Ranges are dealt in whole windows, as evenly as these allow: each but the last is the fewest
/// windows with which `threads` ranges hold all slots.
pub proof fn lemma_bounds_even(bounds: Seq<usize>, num_slots: int, window: int, threads: int) -> (per:
    int)
    requires
        0 < num_slots,
        0 < window,
        0 < threads,
        are_bounds(bounds, num_slots, range_step(num_slots, window, threads)),
    ensures
        per >= 1,
        num_slots <= per * threads * window,
        (per - 1) * threads * window < num_slots,
        bounds.len() >= 2,
        forall|t: int| 0 <= t < bounds.len() - 1 ==> #[trigger] bounds[t] == t * (per * window),
        bounds[bounds.len() - 1] == num_slots,
        (bounds.len() - 2) * (per * window) < num_slots <= (bounds.len() - 1) * (per * window),
{
    let n: int = ceil_div(num_slots, window);
    let per: int = ceil_div(n, threads);
    lemma_ceil(num_slots, window);
    lemma_ceil(n, threads);
    lemma_ceil_least(num_slots, window);
    lemma_ceil_least(n, threads);
    assert(num_slots <= per * threads * window) by (nonlinear_arith)
        requires
            num_slots <= n * window,
            n <= per * threads,
            0 < window,
    ;
    assert((per - 1) * threads * window < num_slots) by (nonlinear_arith)
        requires
            (n - 1) * window < num_slots,
            (per - 1) * threads < n,
            0 < window,
    ;
    per
}

proof fn lemma_ceil_least(a: int, b: int)
    requires
        0 < a,
        0 < b,
    ensures
        (ceil_div(a, b) - 1) * b < a,
{
    let q: int = ceil_div(a, b);
    vstd::arithmetic::div_mod::lemma_fundamental_div_mod(a + b - 1, b);
    vstd::arithmetic::div_mod::lemma_mod_bound(a + b - 1, b);
    assert((q - 1) * b == b * q - b) by (nonlinear_arith);
}

/// Where keys go. A key in a bucket starts in that range and, unless it is the last, more than the
/// margin before its end. A key that is deferred starts within the margin of the end of a range
/// that is not the last.
pub proof fn lemma_dealt_where(
    keys: Seq<u64>,
    seed: u64,
    num_starts: u64,
    bounds: Seq<usize>,
    buckets: Seq<Vec<u64>>,
    deferred: Seq<u64>,
)
    requires
        bounds.len() >= 2,
        is_dealt(keys, seed, num_starts, bounds, buckets, deferred),
    ensures
        buckets.len() == bounds.len() - 1,
        forall|t: int, k: u64|
            0 <= t < buckets.len() && #[trigger] buckets[t]@.contains(k) ==> {
                let s: int = hash::start_of(hash::hash_of(k, seed), num_starts);
                bounds[t] <= s < bounds[t + 1] && (t + 1 == buckets.len() || s + 0x4000 < bounds[t
                    + 1])
            },
        forall|k: u64| #[trigger]
            deferred.contains(k) ==> exists|t: int|
                0 <= t < bounds.len() - 2 && bounds[t] <= hash::start_of(
                    hash::hash_of(k, seed),
                    num_starts,
                ) < #[trigger] bounds[t + 1] && hash::start_of(hash::hash_of(k, seed), num_starts)
                    + 0x4000 >= bounds[t + 1],
{
    assert forall|t: int, k: u64| 0 <= t < buckets.len() && #[trigger] buckets[t]@.contains(k) implies {
        let s: int = hash::start_of(hash::hash_of(k, seed), num_starts);
        bounds[t] <= s < bounds[t + 1] && (t + 1 == buckets.len() || s + 0x4000 < bounds[t + 1])
    } by {
        let pick: spec_fn(u64) -> bool = taken(bounds, seed, num_starts, t);
        let i: int = choose|i: int| 0 <= i < buckets[t]@.len() && buckets[t]@[i] == k;
        keys.lemma_filter_pred(pick, i);
        assert(pick(k));
    }
    assert forall|k: u64| #[trigger] deferred.contains(k) implies exists|t: int|
        0 <= t < bounds.len() - 2 && bounds[t] <= hash::start_of(
            hash::hash_of(k, seed),
            num_starts,
        ) < #[trigger] bounds[t + 1] && hash::start_of(hash::hash_of(k, seed), num_starts) + 0x4000
            >= bounds[t + 1] by {
        let pick: spec_fn(u64) -> bool = put_off(bounds, seed, num_starts);
        let i: int = choose|i: int| 0 <= i < deferred.len() && deferred[i] == k;
        keys.lemma_filter_pred(pick, i);
        assert(pick(k));
        let s: int = start_slot(k, seed, num_starts);
        let t: int = choose|t: int| #[trigger] in_range(bounds, s, t) && near_end(bounds, s, t);
        assert(bounds[t] <= s < bounds[t + 1]);
    }
}

/// A bucket holds its keys in the order in which they came, as often as they came.
pub proof fn lemma_bucket_order(
    keys: Seq<u64>,
    seed: u64,
    num_starts: u64,
    bounds: Seq<usize>,
    buckets: Seq<Vec<u64>>,
    deferred: Seq<u64>,
    t: int,
) -> (at: Seq<int>)
    requires
        bounds.len() >= 2,
        is_dealt(keys, seed, num_starts, bounds, buckets, deferred),
        0 <= t < buckets.len(),
    ensures
        at.len() == buckets[t]@.len(),
        forall|m: int|
            0 <= m < at.len() ==> 0 <= #[trigger] at[m] < keys.len() && keys[at[m]]
                == buckets[t]@[m],
        forall|l: int, m: int| 0 <= l < m < at.len() ==> #[trigger] at[l] < #[trigger] at[m],
        forall|j: int|
            0 <= j < keys.len() && ({
                let s: int = hash::start_of(hash::hash_of(#[trigger] keys[j], seed), num_starts);
                bounds[t] <= s < bounds[t + 1] && (t + 1 == buckets.len() || s + 0x4000 < bounds[t
                    + 1])
            }) ==> at.contains(j),
{
    let pick: spec_fn(u64) -> bool = taken(bounds, seed, num_starts, t);
    let at: Seq<int> = plan::lemma_filter_places(keys, pick);
    assert forall|j: int|
        0 <= j < keys.len() && ({
            let s: int = hash::start_of(hash::hash_of(#[trigger] keys[j], seed), num_starts);
            bounds[t] <= s < bounds[t + 1] && (t + 1 == buckets.len() || s + 0x4000 < bounds[t + 1])
        }) implies at.contains(j) by {
        assert(pick(keys[j]));
    }
    at
}

/// The deferred keys stand in the order in which they came, as often as they came.
pub proof fn lemma_deferred_order(
    keys: Seq<u64>,
    seed: u64,
    num_starts: u64,
    bounds: Seq<usize>,
    buckets: Seq<Vec<u64>>,
    deferred: Seq<u64>,
) -> (at: Seq<int>)
    requires
        bounds.len() >= 2,
        is_dealt(keys, seed, num_starts, bounds, buckets, deferred),
    ensures
        at.len() == deferred.len(),
        forall|m: int|
            0 <= m < at.len() ==> 0 <= #[trigger] at[m] < keys.len() && keys[at[m]] == deferred[m],
        forall|l: int, m: int| 0 <= l < m < at.len() ==> #[trigger] at[l] < #[trigger] at[m],
        forall|j: int, t: int|
            0 <= j < keys.len() && 0 <= t < bounds.len() - 2 && ({
                let s: int = hash::start_of(hash::hash_of(#[trigger] keys[j], seed), num_starts);
                bounds[t] <= s < #[trigger] bounds[t + 1] && s + 0x4000 >= bounds[t + 1]
            }) ==> at.contains(j),
{
    let pick: spec_fn(u64) -> bool = put_off(bounds, seed, num_starts);
    let at: Seq<int> = plan::lemma_filter_places(keys, pick);
    assert forall|j: int, t: int|
        0 <= j < keys.len() && 0 <= t < bounds.len() - 2 && ({
            let s: int = hash::start_of(hash::hash_of(#[trigger] keys[j], seed), num_starts);
            bounds[t] <= s < #[trigger] bounds[t + 1] && s + 0x4000 >= bounds[t + 1]
        }) implies at.contains(j) by {
        let s: int = start_slot(keys[j], seed, num_starts);
        assert(in_range(bounds, s, t) && near_end(bounds, s, t));
        assert(pick(keys[j]));
    }
    at
}

/// The keys for the end: first all that were deferred, then what left each range, range by range.
pub proof fn lemma_tail(deferred: Seq<u64>, spilled: Seq<Vec<u64>>, left: Vec<u64>)
    ensures
        tail_of(deferred, Seq::empty()) == deferred,
        tail_of(deferred, spilled.push(left)) == tail_of(deferred, spilled) + left@,
{
    assert(spilled.push(left).drop_last() =~= spilled);
}

} // verus!
