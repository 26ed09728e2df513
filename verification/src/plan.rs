//! Pleating: folding a key stream into windows of the banding table.
//!
//! A single counting pass puts the keys of each window side by side, in table order, so that
//! banding works on one cache-sized window at a time.

use vstd::arithmetic::power2;
use vstd::prelude::*;
use vstd::seq_lib;

verus! {

/// Membership in group `w`.
pub open spec fn in_group(part: spec_fn(u64) -> int, w: int) -> spec_fn(u64) -> bool {
    |k: u64| part(k) == w
}

/// The keys that belong to group `w`, in arrival order.
pub open spec fn group(keys: Seq<u64>, part: spec_fn(u64) -> int, w: int) -> Seq<u64> {
    keys.filter(in_group(part, w))
}

/// Where group `w` begins when groups are laid out one after the other.
pub open spec fn offset(keys: Seq<u64>, part: spec_fn(u64) -> int, w: int) -> nat
    decreases w,
{
    if w <= 0 {
        0
    } else {
        offset(keys, part, w - 1) + group(keys, part, w - 1).len()
    }
}

/// `out` holds the groups `0..groups` of `keys`, one after the other; group `w` is at
/// `counts[w]..counts[w + 1]`, in arrival order.
pub open spec fn is_grouped(
    keys: Seq<u64>,
    part: spec_fn(u64) -> int,
    groups: int,
    out: Seq<u64>,
    counts: Seq<usize>,
) -> bool {
    &&& out.len() == keys.len()
    &&& counts.len() == groups + 1
    &&& counts[0] == 0
    &&& counts[groups] == keys.len()
    &&& forall|j: int| 0 <= j < keys.len() ==> 0 <= part(#[trigger] keys[j]) < groups
    &&& forall|w: int|
        0 <= w < groups ==> counts[w] <= #[trigger] counts[w + 1] <= keys.len() && out.subrange(
            counts[w] as int,
            counts[w + 1] as int,
        ) == group(keys, part, w)
}

/// What `f` returns for `k`, shifted to a window number.
pub open spec fn window_of<F: Fn(u64) -> u64>(f: F, shift: u32) -> spec_fn(u64) -> int {
    |k: u64| choose|w: int| is_window_of(f, shift, k, w)
}

pub open spec fn is_window_of<F: Fn(u64) -> u64>(f: F, shift: u32, k: u64, w: int) -> bool {
    exists|s: u64| #[trigger] call_ensures(f, (k,), s) && w == s >> (shift as u64)
}

/// How a key stream is folded into windows of `1 << shift` start slots.
#[derive(Clone, Copy, Debug)]
pub struct PleatPlan {
    pub num_starts: u64,
    pub shift: u32,
}

impl PleatPlan {
    /// The windows of all start slots, with room to spare at the end.
    pub open spec fn windows(&self) -> int {
        (self.num_starts >> (self.shift as u64)) + 2
    }

    /// `start_of` can be called on the keys, gives each key one window, and a window of the plan.
    pub open spec fn accepts<F: Fn(u64) -> u64>(&self, keys: Seq<u64>, start_of: F) -> bool {
        &&& self.shift < 64
        &&& self.windows() < usize::MAX
        &&& forall|i: int|
            0 <= i < keys.len() ==> call_requires(start_of, (#[trigger] keys[i],))
        &&& forall|i: int, s: u64|
            0 <= i < keys.len() && #[trigger] call_ensures(start_of, (keys[i],), s) ==> s >> (
            self.shift as u64) < self.windows()
        &&& forall|i: int, s: u64, t: u64|
            0 <= i < keys.len() && #[trigger] call_ensures(start_of, (keys[i],), s)
                && #[trigger] call_ensures(start_of, (keys[i],), t) ==> s >> (self.shift as u64)
                == t >> (self.shift as u64)
    }

    pub fn new(num_starts: u64, shift: u32) -> (plan: Self)
        ensures
            plan.num_starts == num_starts,
            plan.shift == shift,
    {
        PleatPlan { num_starts, shift }
    }

    pub fn num_windows(&self) -> (n: usize)
        requires
            self.shift < 64,
            self.windows() <= usize::MAX,
        ensures
            n == self.windows(),
    {
        ((self.num_starts >> (self.shift as u64)) + 2) as usize
    }

    /// Folds `keys` into window order. Returns the keys in that order, and where each window
    /// begins.
    pub fn pleat<F: Fn(u64) -> u64>(&self, keys: &[u64], start_of: F) -> (p: (
        Vec<u64>,
        Vec<usize>,
    ))
        requires
            self.accepts(keys@, start_of),
        ensures
            is_grouped(
                keys@,
                window_of(start_of, self.shift),
                self.windows(),
                p.0@,
                p.1@,
            ),
            forall|j: int|
                0 <= j < keys@.len() ==> is_window_of(
                    start_of,
                    self.shift,
                    #[trigger] keys@[j],
                    window_of(start_of, self.shift)(keys@[j]),
                ),
    {
        let mut out: Vec<u64> = vec![0u64; keys.len()];
        let counts: Vec<usize> = self.pleat_into(keys, start_of, out.as_mut_slice());
        (out, counts)
    }

    /// Folds `keys` into window order, into `out`. Returns where each window begins.
    pub fn pleat_into<F: Fn(u64) -> u64>(
        &self,
        keys: &[u64],
        start_of: F,
        out: &mut [u64],
    ) -> (counts: Vec<usize>)
        requires
            self.accepts(keys@, start_of),
            old(out)@.len() == keys@.len(),
        ensures
            is_grouped(
                keys@,
                window_of(start_of, self.shift),
                self.windows(),
                final(out)@,
                counts@,
            ),
            forall|j: int|
                0 <= j < keys@.len() ==> is_window_of(
                    start_of,
                    self.shift,
                    #[trigger] keys@[j],
                    window_of(start_of, self.shift)(keys@[j]),
                ),
    {
        let ghost part: spec_fn(u64) -> int = window_of(start_of, self.shift);
        let nw: usize = self.num_windows();
        let n: usize = keys.len();
        // Count the keys of each window, one place further on.
        let mut counts: Vec<usize> = vec![0usize; nw + 1];
        let mut i: usize = 0;
        proof {
            assert forall|w: int| 0 <= w < nw implies group(#[trigger] keys@.take(0), part, w).len()
                == 0 by {
                lemma_group_empty(keys@.take(0), part, w);
            }
        }
        while i < n
            invariant
                self.accepts(keys@, start_of),
                n == keys@.len(),
                nw == self.windows(),
                part == window_of(start_of, self.shift),
                i <= n,
                counts@.len() == nw + 1,
                counts@[0] == 0,
                forall|j: int| 0 <= j < i ==> 0 <= part(#[trigger] keys@[j]) < nw,
                forall|j: int|
                    0 <= j < i ==> is_window_of(
                        start_of,
                        self.shift,
                        #[trigger] keys@[j],
                        part(keys@[j]),
                    ),
                forall|w: int|
                    0 <= w < nw ==> #[trigger] counts@[w + 1] == group(
                        keys@.take(i as int),
                        part,
                        w,
                    ).len(),
            decreases n - i,
        {
            let k: u64 = keys[i];
            let s: u64 = start_of(k);
            let w: usize = (s >> (self.shift as u64)) as usize;
            proof {
                self.lemma_window(keys@, start_of, i as int, s);
                assert(keys@.take(i + 1) =~= keys@.take(i as int).push(k));
                assert forall|v: int| 0 <= v < nw implies group(
                    #[trigger] keys@.take(i + 1),
                    part,
                    v,
                ).len() == group(keys@.take(i as int), part, v).len() + if v == w {
                    1int
                } else {
                    0int
                } by {
                    lemma_group_push(keys@.take(i as int), part, k, v);
                }
                lemma_group_len(keys@.take(i as int), part, w as int);
                assert(counts@[w + 1] == group(keys@.take(i as int), part, w as int).len());
            }
            let ghost before: Seq<usize> = counts@;
            counts[w + 1] = counts[w + 1] + 1;
            proof {
                assert forall|v: int| 0 <= v < nw implies #[trigger] counts@[v + 1] == group(
                    keys@.take(i + 1),
                    part,
                    v,
                ).len() by {
                    assert(before[v + 1] == group(keys@.take(i as int), part, v).len());
                }
            }
            i = i + 1;
        }
        proof {
            assert(keys@.take(n as int) =~= keys@);
            lemma_offset_total(keys@, part, nw as int);
            assert forall|v: int| 1 <= v <= nw implies #[trigger] counts@[v] == group(
                keys@,
                part,
                v - 1,
            ).len() by {
                assert(counts@[(v - 1) + 1] == group(keys@.take(n as int), part, v - 1).len());
            }
        }
        // Add up: where each window begins.
        let mut w: usize = 1;
        while w <= nw
            invariant
                forall|j: int| 0 <= j < keys@.len() ==> 0 <= part(#[trigger] keys@[j]) < nw,
                1 <= w <= nw + 1,
                nw < usize::MAX,
                counts@.len() == nw + 1,
                counts@[0] == 0,
                n == keys@.len(),
                offset(keys@, part, nw as int) == n,
                forall|v: int|
                    0 <= v < w ==> #[trigger] counts@[v] == offset(keys@, part, v),
                forall|v: int|
                    w <= v <= nw ==> #[trigger] counts@[v] == group(keys@, part, v - 1).len(),
            decreases nw + 1 - w,
        {
            proof {
                lemma_offset_mono(keys@, part, w as int, nw as int);
                assert(counts@[w - 1] == offset(keys@, part, w - 1));
                assert(counts@[w as int] == group(keys@, part, w - 1).len());
            }
            counts[w] = counts[w] + counts[w - 1];
            w = w + 1;
        }
        // Put each key at its window's cursor.
        let mut cursor: Vec<usize> = Vec::with_capacity(nw);
        let mut v: usize = 0;
        while v < nw
            invariant
                v <= nw,
                nw < counts@.len(),
                cursor@.len() == v,
                forall|u: int| 0 <= u < v ==> #[trigger] cursor@[u] == counts@[u],
            decreases nw - v,
        {
            cursor.push(counts[v]);
            v = v + 1;
        }
        i = 0;
        proof {
            assert forall|u: int| 0 <= u < nw implies #[trigger] filled(
                keys@,
                part,
                out@,
                cursor@,
                0,
                u,
            ) by {
                assert(cursor@[u] == counts@[u]);
                assert(counts@[u] == offset(keys@, part, u));
                lemma_group_empty(keys@.take(0), part, u);
                lemma_offset_mono(keys@, part, u, nw as int);
                assert(out@.subrange(cursor@[u] as int, cursor@[u] as int) =~= group(
                    keys@.take(0),
                    part,
                    u,
                ));
            }
        }
        while i < n
            invariant
                self.accepts(keys@, start_of),
                n == keys@.len(),
                nw == self.windows(),
                part == window_of(start_of, self.shift),
                i <= n,
                forall|j: int| 0 <= j < keys@.len() ==> 0 <= part(#[trigger] keys@[j]) < nw,
                out@.len() == n,
                cursor@.len() == nw,
                offset(keys@, part, nw as int) == n,
                forall|u: int|
                    0 <= u < nw ==> #[trigger] filled(keys@, part, out@, cursor@, i as int, u),
            decreases n - i,
        {
            let k: u64 = keys[i];
            let s: u64 = start_of(k);
            let w: usize = (s >> (self.shift as u64)) as usize;
            let ghost before: Seq<u64> = out@;
            let ghost cursor_before: Seq<usize> = cursor@;
            proof {
                self.lemma_window(keys@, start_of, i as int, s);
                assert(filled(keys@, part, out@, cursor@, i as int, w as int));
                lemma_room(keys@, part, i as int, nw as int);
            }
            let c: usize = cursor[w];
            out[c] = k;
            cursor[w] = c + 1;
            proof {
                assert forall|u: int| 0 <= u < nw implies #[trigger] filled(
                    keys@,
                    part,
                    out@,
                    cursor@,
                    i + 1,
                    u,
                ) by {
                    assert(filled(keys@, part, before, cursor_before, i as int, u));
                    lemma_fill(keys@, part, before, cursor_before, i as int, u, nw as int);
                }
            }
            i = i + 1;
        }
        proof {
            assert(keys@.take(n as int) =~= keys@);
            assert forall|u: int| 0 <= u < nw implies counts@[u] <= #[trigger] counts@[u + 1]
                <= keys@.len() && out@.subrange(counts@[u] as int, counts@[u + 1] as int)
                == group(keys@, part, u) by {
                assert(filled(keys@, part, out@, cursor@, n as int, u));
                lemma_offset_mono(keys@, part, u + 1, nw as int);
                assert(counts@[u] == offset(keys@, part, u));
                assert(counts@[u + 1] == offset(keys@, part, u + 1));
            }
        }
        counts
    }

    proof fn lemma_window<F: Fn(u64) -> u64>(
        &self,
        keys: Seq<u64>,
        start_of: F,
        i: int,
        s: u64,
    )
        requires
            self.accepts(keys, start_of),
            0 <= i < keys.len(),
            call_ensures(start_of, (keys[i],), s),
        ensures
            window_of(start_of, self.shift)(keys[i]) == s >> (self.shift as u64),
            is_window_of(start_of, self.shift, keys[i], window_of(start_of, self.shift)(keys[i])),
            s >> (self.shift as u64) < self.windows(),
    {
        let w: int = (s >> (self.shift as u64)) as int;
        assert(is_window_of(start_of, self.shift, keys[i], w));
    }
}

/// Group `u` of the first `i` keys is in place, up to the cursor.
spec fn filled(
    keys: Seq<u64>,
    part: spec_fn(u64) -> int,
    out: Seq<u64>,
    cursor: Seq<usize>,
    i: int,
    u: int,
) -> bool {
    let g: Seq<u64> = group(keys.take(i), part, u);
    &&& cursor[u] == offset(keys, part, u) + g.len()
    &&& cursor[u] <= out.len()
    &&& out.subrange(offset(keys, part, u) as int, cursor[u] as int) == g
}

proof fn lemma_group_empty(keys: Seq<u64>, part: spec_fn(u64) -> int, w: int)
    requires
        keys.len() == 0,
    ensures
        group(keys, part, w) == Seq::<u64>::empty(),
{
    reveal(Seq::filter);
    assert(group(keys, part, w) =~= Seq::<u64>::empty());
}

proof fn lemma_group_len(keys: Seq<u64>, part: spec_fn(u64) -> int, w: int)
    ensures
        group(keys, part, w).len() <= keys.len(),
{
    keys.lemma_filter_len(in_group(part, w));
}

proof fn lemma_group_push(keys: Seq<u64>, part: spec_fn(u64) -> int, k: u64, w: int)
    ensures
        group(keys.push(k), part, w) == if part(k) == w {
            group(keys, part, w).push(k)
        } else {
            group(keys, part, w)
        },
{
    keys.lemma_filter_push(k, in_group(part, w));
}

proof fn lemma_offset_mono(keys: Seq<u64>, part: spec_fn(u64) -> int, v: int, w: int)
    requires
        v <= w,
    ensures
        offset(keys, part, v) <= offset(keys, part, w),
    decreases w - v,
{
    if v < w {
        lemma_offset_mono(keys, part, v, w - 1);
    }
}

proof fn lemma_offset_push(keys: Seq<u64>, part: spec_fn(u64) -> int, k: u64, w: int)
    requires
        0 <= part(k),
    ensures
        offset(keys.push(k), part, w) == offset(keys, part, w) + if part(k) < w {
            1int
        } else {
            0int
        },
    decreases w,
{
    if w > 0 {
        lemma_offset_push(keys, part, k, w - 1);
        lemma_group_push(keys, part, k, w - 1);
    }
}

/// The groups together are as many as the keys.
proof fn lemma_offset_total(keys: Seq<u64>, part: spec_fn(u64) -> int, w: int)
    requires
        forall|j: int| 0 <= j < keys.len() ==> 0 <= part(#[trigger] keys[j]) < w,
    ensures
        offset(keys, part, w) == keys.len(),
    decreases keys.len(),
{
    if keys.len() == 0 {
        lemma_offset_none(keys, part, w);
    } else {
        let front: Seq<u64> = keys.drop_last();
        assert forall|j: int| 0 <= j < front.len() implies 0 <= part(#[trigger] front[j]) < w by {
            assert(front[j] == keys[j]);
        }
        lemma_offset_total(front, part, w);
        assert(keys.last() == keys[keys.len() - 1]);
        lemma_offset_push(front, part, keys.last(), w);
        assert(front.push(keys.last()) =~= keys);
    }
}

proof fn lemma_offset_none(keys: Seq<u64>, part: spec_fn(u64) -> int, w: int)
    requires
        keys.len() == 0,
    ensures
        offset(keys, part, w) == 0,
    decreases w,
{
    if w > 0 {
        lemma_offset_none(keys, part, w - 1);
        lemma_group_empty(keys, part, w - 1);
    }
}

/// There is room in its group for the next key.
proof fn lemma_room(keys: Seq<u64>, part: spec_fn(u64) -> int, i: int, groups: int)
    requires
        0 <= i < keys.len(),
        0 <= part(keys[i]) < groups,
        offset(keys, part, groups) == keys.len(),
    ensures
        offset(keys, part, part(keys[i])) + group(keys.take(i), part, part(keys[i])).len() < offset(
            keys,
            part,
            part(keys[i]) + 1,
        ) <= keys.len(),
{
    let w: int = part(keys[i]);
    assert(keys.take(i + 1) =~= keys.take(i).push(keys[i]));
    lemma_group_push(keys.take(i), part, keys[i], w);
    keys.lemma_filter_take_len(in_group(part, w), i + 1);
    lemma_offset_mono(keys, part, w + 1, groups);
}

/// Placing key `i` keeps every group in place.
proof fn lemma_fill(
    keys: Seq<u64>,
    part: spec_fn(u64) -> int,
    out: Seq<u64>,
    cursor: Seq<usize>,
    i: int,
    u: int,
    groups: int,
)
    requires
        0 <= i < keys.len(),
        out.len() == keys.len(),
        cursor.len() == groups,
        0 <= part(keys[i]) < groups,
        0 <= u < groups,
        offset(keys, part, groups) == keys.len(),
        filled(keys, part, out, cursor, i, u),
        filled(keys, part, out, cursor, i, part(keys[i])),
        cursor[part(keys[i])] < usize::MAX,
    ensures
        ({
            let w: int = part(keys[i]);
            let c: usize = cursor[w];
            filled(
                keys,
                part,
                out.update(c as int, keys[i]),
                cursor.update(w, (c + 1) as usize),
                i + 1,
                u,
            )
        }),
{
    let w: int = part(keys[i]);
    let c: usize = cursor[w];
    let next: Seq<u64> = out.update(c as int, keys[i]);
    lemma_room(keys, part, i, groups);
    assert(keys.take(i + 1) =~= keys.take(i).push(keys[i]));
    lemma_group_push(keys.take(i), part, keys[i], u);
    let start: int = offset(keys, part, u) as int;
    let g: Seq<u64> = group(keys.take(i), part, u);
    assert(out.subrange(start, cursor[u] as int) == g);
    if u == w {
        assert(next.subrange(start, c + 1) =~= g.push(keys[i])) by {
            assert forall|j: int| 0 <= j < g.len() implies #[trigger] g[j] == next[start + j] by {
                assert(out.subrange(start, cursor[u] as int)[j] == out[start + j]);
            }
        }
    } else {
        keys.lemma_filter_take_len(in_group(part, u), i);
        if u < w {
            lemma_offset_mono(keys, part, u + 1, w);
        } else {
            lemma_offset_mono(keys, part, w + 1, u);
        }
        assert(next.subrange(start, cursor[u] as int) =~= out.subrange(start, cursor[u] as int));
    }
}

/// Every start slot of a plan falls into one of its windows.
pub proof fn lemma_window_mono(plan: PleatPlan)
    requires
        plan.shift < 64,
    ensures
        forall|s: u64|
            s <= plan.num_starts ==> #[trigger] (s >> (plan.shift as u64)) < plan.windows(),
        plan.windows() <= plan.num_starts + 2,
{
    let n: u64 = plan.num_starts;
    let k: u64 = plan.shift as u64;
    assert(n >> k <= n) by (bit_vector);
    assert forall|s: u64| s <= n implies #[trigger] (s >> k) < plan.windows() by {
        assert(s >> k <= n >> k) by (bit_vector)
            requires
                s <= n,
                k < 64,
        ;
    }
}

/// Membership in a group before `w`.
spec fn before_group(part: spec_fn(u64) -> int, w: int) -> spec_fn(u64) -> bool {
    |k: u64| part(k) < w
}

proof fn lemma_next_group(keys: Seq<u64>, part: spec_fn(u64) -> int, w: int)
    ensures
        keys.filter(before_group(part, w + 1)).to_multiset() == keys.filter(
            before_group(part, w),
        ).to_multiset().add(group(keys, part, w).to_multiset()),
    decreases keys.len(),
{
    broadcast use seq_lib::to_multiset_build;

    if keys.len() == 0 {
        reveal(Seq::filter);
        assert(keys =~= Seq::<u64>::empty());
        assert(Seq::<u64>::empty().to_multiset() =~= vstd::multiset::Multiset::<u64>::empty()) by {
            broadcast use seq_lib::group_to_multiset_ensures;

        }
        assert(keys.filter(before_group(part, w + 1)).to_multiset() =~= keys.filter(
            before_group(part, w),
        ).to_multiset().add(group(keys, part, w).to_multiset()));
    } else {
        let front: Seq<u64> = keys.drop_last();
        let k: u64 = keys.last();
        assert(front.push(k) =~= keys);
        lemma_next_group(front, part, w);
        front.lemma_filter_push(k, before_group(part, w + 1));
        front.lemma_filter_push(k, before_group(part, w));
        lemma_group_push(front, part, k, w);
        assert(keys.filter(before_group(part, w + 1)).to_multiset() =~= keys.filter(
            before_group(part, w),
        ).to_multiset().add(group(keys, part, w).to_multiset()));
    }
}

proof fn lemma_groups_so_far(
    keys: Seq<u64>,
    part: spec_fn(u64) -> int,
    groups: int,
    out: Seq<u64>,
    counts: Seq<usize>,
    w: int,
)
    requires
        is_grouped(keys, part, groups, out, counts),
        0 <= w <= groups,
    ensures
        0 <= counts[w] <= out.len(),
        out.take(counts[w] as int).to_multiset() == keys.filter(before_group(part, w)).to_multiset(),
    decreases w,
{
    if w == 0 {
        assert forall|i: int| 0 <= i < keys.len() implies !before_group(part, 0)(
            #[trigger] keys[i],
        ) by {}
        keys.lemma_all_neg_filter_empty(before_group(part, 0));
        assert(out.take(0) =~= keys.filter(before_group(part, 0)));
    } else {
        lemma_groups_so_far(keys, part, groups, out, counts, w - 1);
        assert(counts[(w - 1) + 1] <= keys.len());
        let a: int = counts[w - 1] as int;
        let b: int = counts[w] as int;
        assert(out.subrange(a, b) == group(keys, part, w - 1));
        assert(out.take(b) =~= out.take(a) + out.subrange(a, b));
        seq_lib::lemma_multiset_commutative(out.take(a), out.subrange(a, b));
        lemma_next_group(keys, part, w - 1);
    }
}

proof fn lemma_keep_all(keys: Seq<u64>, p: spec_fn(u64) -> bool)
    requires
        forall|i: int| 0 <= i < keys.len() ==> p(#[trigger] keys[i]),
    ensures
        keys.filter(p) == keys,
    decreases keys.len(),
{
    reveal(Seq::filter);
    if keys.len() > 0 {
        let front: Seq<u64> = keys.drop_last();
        assert forall|i: int| 0 <= i < front.len() implies p(#[trigger] front[i]) by {
            assert(front[i] == keys[i]);
        }
        lemma_keep_all(front, p);
        assert(keys.last() == keys[keys.len() - 1]);
        assert(front.push(keys.last()) =~= keys);
    }
}

/// Pleating is a permutation: the keys in window order are the keys, each as often as it came.
pub proof fn lemma_grouped_permutes(
    keys: Seq<u64>,
    part: spec_fn(u64) -> int,
    groups: int,
    out: Seq<u64>,
    counts: Seq<usize>,
)
    requires
        0 <= groups,
        is_grouped(keys, part, groups, out, counts),
    ensures
        out.to_multiset() == keys.to_multiset(),
        forall|k: u64| #[trigger] out.contains(k) <==> keys.contains(k),
{
    lemma_groups_so_far(keys, part, groups, out, counts, groups);
    assert(out.take(out.len() as int) =~= out);
    assert forall|i: int| 0 <= i < keys.len() implies before_group(part, groups)(
        #[trigger] keys[i],
    ) by {}
    lemma_keep_all(keys, before_group(part, groups));
    broadcast use seq_lib::group_to_multiset_ensures;

    assert forall|k: u64| #[trigger] out.contains(k) <==> keys.contains(k) by {
        assert(out.contains(k) <==> out.to_multiset().count(k) > 0);
        assert(keys.contains(k) <==> keys.to_multiset().count(k) > 0);
    }
}

/// A permutation has as many keys, and the same ones.
pub proof fn lemma_permuted(a: Seq<u64>, b: Seq<u64>)
    requires
        a.to_multiset() == b.to_multiset(),
    ensures
        a.len() == b.len(),
        forall|k: u64| #[trigger] a.contains(k) <==> b.contains(k),
{
    broadcast use seq_lib::group_to_multiset_ensures;

    assert(a.to_multiset().len() == a.len());
    assert(b.to_multiset().len() == b.len());
    assert forall|k: u64| #[trigger] a.contains(k) <==> b.contains(k) by {
        assert(a.contains(k) <==> a.to_multiset().count(k) > 0);
        assert(b.contains(k) <==> b.to_multiset().count(k) > 0);
    }
}

/// What is kept of a list, by position: every place that is picked, in order.
pub proof fn lemma_filter_places(keys: Seq<u64>, pick: spec_fn(u64) -> bool) -> (at: Seq<int>)
    ensures
        at.len() == keys.filter(pick).len(),
        forall|m: int| 0 <= m < at.len() ==> 0 <= #[trigger] at[m] < keys.len(),
        forall|m: int|
            0 <= m < at.len() ==> keys[#[trigger] at[m]] == keys.filter(pick)[m] && pick(
                keys[at[m]],
            ),
        forall|l: int, m: int| 0 <= l < m < at.len() ==> #[trigger] at[l] < #[trigger] at[m],
        forall|j: int| 0 <= j < keys.len() && pick(#[trigger] keys[j]) ==> at.contains(j),
    decreases keys.len(),
{
    reveal(Seq::filter);
    if keys.len() == 0 {
        Seq::empty()
    } else {
        let front: Seq<u64> = keys.drop_last();
        let before: Seq<int> = lemma_filter_places(front, pick);
        let last: int = keys.len() - 1;
        let at: Seq<int> = if pick(keys[last]) {
            before.push(last)
        } else {
            before
        };
        assert forall|m: int| 0 <= m < at.len() implies 0 <= #[trigger] at[m] < keys.len()
            && keys[at[m]] == keys.filter(pick)[m] && pick(keys[at[m]]) by {
            if m < before.len() {
                assert(at[m] == before[m]);
                assert(front[before[m]] == keys[before[m]]);
            }
        }
        assert forall|l: int, m: int| 0 <= l < m < at.len() implies #[trigger] at[l]
            < #[trigger] at[m] by {
            assert(at[l] == before[l]);
            if m < before.len() {
                assert(at[m] == before[m]);
            }
        }
        assert forall|j: int| 0 <= j < keys.len() && pick(#[trigger] keys[j]) implies at.contains(
            j,
        ) by {
            if j < last {
                assert(front[j] == keys[j]);
                assert(before.contains(j));
                let m: int = choose|m: int| 0 <= m < before.len() && before[m] == j;
                assert(at[m] == j);
            } else {
                assert(at[before.len() as int] == j);
            }
        }
        at
    }
}

/// Window order: what stands between the bounds of window `w` are the keys of that window, all of
/// them, in the order in which they came.
pub proof fn lemma_window_order(
    keys: Seq<u64>,
    part: spec_fn(u64) -> int,
    groups: int,
    out: Seq<u64>,
    counts: Seq<usize>,
    w: int,
) -> (at: Seq<int>)
    requires
        is_grouped(keys, part, groups, out, counts),
        0 <= w < groups,
    ensures
        counts[w] <= counts[w + 1] <= out.len(),
        at.len() == counts[w + 1] - counts[w],
        forall|m: int|
            0 <= m < at.len() ==> 0 <= #[trigger] at[m] < keys.len() && keys[at[m]]
                == out[counts[w] + m] && part(keys[at[m]]) == w,
        forall|l: int, m: int| 0 <= l < m < at.len() ==> #[trigger] at[l] < #[trigger] at[m],
        forall|j: int| 0 <= j < keys.len() && part(#[trigger] keys[j]) == w ==> at.contains(j),
{
    assert(counts[w] <= counts[w + 1] <= keys.len());
    let run: Seq<u64> = out.subrange(counts[w] as int, counts[w + 1] as int);
    let at: Seq<int> = lemma_filter_places(keys, in_group(part, w));
    assert(run == group(keys, part, w));
    assert forall|m: int| 0 <= m < at.len() implies 0 <= #[trigger] at[m] < keys.len()
        && keys[at[m]] == out[counts[w] + m] && part(keys[at[m]]) == w by {
        assert(run[m] == out[counts[w] + m]);
    }
    assert forall|j: int| 0 <= j < keys.len() && part(#[trigger] keys[j]) == w implies at.contains(
        j,
    ) by {
        assert(in_group(part, w)(keys[j]));
    }
    at
}

/// The windows start at zero and end with the last key, one after the other.
pub proof fn lemma_windows_cover(
    keys: Seq<u64>,
    part: spec_fn(u64) -> int,
    groups: int,
    out: Seq<u64>,
    counts: Seq<usize>,
)
    requires
        is_grouped(keys, part, groups, out, counts),
    ensures
        counts.len() == groups + 1,
        counts[0] == 0,
        counts[groups] == keys.len(),
        out.len() == keys.len(),
        forall|j: int| 0 <= j < keys.len() ==> 0 <= part(#[trigger] keys[j]) < groups,
{
}

/// A key's window is its start slot, in units of the window size.
pub proof fn lemma_window_value<F: Fn(u64) -> u64>(f: F, shift: u32, k: u64, w: int) -> (s: u64)
    requires
        shift < 64,
        is_window_of(f, shift, k, w),
    ensures
        call_ensures(f, (k,), s),
        w * power2::pow2(shift as nat) <= s < (w + 1) * power2::pow2(shift as nat),
{
    let s: u64 = choose|s: u64| #[trigger] call_ensures(f, (k,), s) && w == s >> (shift as u64);
    let size: int = power2::pow2(shift as nat) as int;
    vstd::bits::lemma_u64_shr_is_div(s, shift as u64);
    power2::lemma_pow2_pos(shift as nat);
    vstd::arithmetic::div_mod::lemma_fundamental_div_mod(s as int, size);
    vstd::arithmetic::div_mod::lemma_mod_bound(s as int, size);
    assert(w * size == size * w && (w + 1) * size == size * w + size) by (nonlinear_arith);
    s
}

/// The number of windows: those of the start slots, and one to spare.
pub proof fn lemma_window_count(plan: PleatPlan)
    requires
        plan.shift < 64,
    ensures
        plan.windows() == plan.num_starts as int / power2::pow2(plan.shift as nat) as int + 2,
{
    vstd::bits::lemma_u64_shr_is_div(plan.num_starts, plan.shift as u64);
}

} // verus!
