//! Order statistics of measurements.
//!
//! Sorting, ranks and comparisons are done here. The three places where a statistic is a new
//! number (interpolation between two samples, a difference, a quotient) call an operation that
//! is handed in.
use crate::num::{Num, ONE};
use crate::rounding::{
    find_place, place, place_is_within_a_hundredth, places_grow, quarters_are_exact, PLACE,
    SIGNIFICANT,
};
use vstd::prelude::*;

verus! {

/// Whether sorting by number is possible: with two samples or more, each must be a number.
pub open spec fn sortable(v: Seq<Num>) -> bool {
    v.len() <= 1 || forall|i: int| 0 <= i < v.len() ==> !(#[trigger] v[i]).nan()
}

/// Checks whether sorting by number is possible.
pub fn is_sortable(v: &Vec<Num>) -> (r: bool)
    ensures
        r == sortable(v@),
{
    let mut i: usize = 0;
    while i < v.len()
        invariant
            i <= v@.len(),
            forall|j: int| 0 <= j < i ==> !(#[trigger] v@[j]).nan(),
        decreases v@.len() - i,
    {
        if v[i].is_nan() {
            return v.len() <= 1;
        }
        i += 1;
    }
    true
}

/// Whether every place from zero up to the length occurs exactly once.
pub open spec fn is_permutation(order: Seq<int>) -> bool {
    &&& forall|i: int| 0 <= i < order.len() ==> 0 <= #[trigger] order[i] < order.len()
    &&& forall|i: int, j: int|
        0 <= i < j < order.len() ==> #[trigger] order[i] != #[trigger] order[j]
    &&& forall|p: int| 0 <= p < order.len() ==> #[trigger] order.contains(p)
}

/// Whether the sample at place `p` sorts before the one at place `q`: it is smaller, or equal
/// and earlier.
pub open spec fn sorts_before(v: Seq<Num>, p: int, q: int) -> bool {
    v[p].key() < v[q].key() || (v[p].key() == v[q].key() && p < q)
}

/// Whether `order` lists the places of `v` from the smallest sample to the largest, equal
/// samples in their original order.
pub open spec fn ranks(v: Seq<Num>, order: Seq<int>) -> bool {
    &&& order.len() == v.len()
    &&& is_permutation(order)
    &&& forall|i: int, j: int|
        0 <= i < j < order.len() ==> sorts_before(v, #[trigger] order[i], #[trigger] order[j])
}

/// Whether `out` is `v` sorted from small to large, equal samples in their original order.
pub open spec fn sorts(v: Seq<Num>, out: Seq<Num>) -> bool {
    exists|order: Seq<int>| #[trigger]
        ranks(v, order) && out == Seq::new(order.len(), |i: int| v[order[i]])
}

/// Sorts samples from small to large, equal samples in their original order.
pub fn sort_samples(v: &Vec<Num>) -> (out: Vec<Num>)
    requires
        sortable(v@),
    ensures
        sorts(v@, out@),
{
    let mut out: Vec<Num> = Vec::new();
    let ghost mut order: Seq<int> = Seq::empty();
    let mut n: usize = 0;
    proof {
        assert(v@.take(0) == Seq::<Num>::empty());
    }
    while n < v.len()
        invariant
            sortable(v@),
            n <= v@.len(),
            out@.len() == n,
            ranks(v@.take(n as int), order),
            out@ == Seq::new(order.len(), |i: int| v@[order[i]]),
        decreases v@.len() - n,
    {
        let x: Num = v[n];
        let mut at: usize = n;
        while at > 0 && x.less(out[at - 1])
            invariant
                sortable(v@),
                at <= n < v@.len(),
                x == v@[n as int],
                out@.len() == n,
                order.len() == n,
                forall|i: int| 0 <= i < n ==> 0 <= #[trigger] order[i] < n,
                out@ == Seq::new(order.len(), |i: int| v@[order[i]]),
                forall|i: int| at <= i < n ==> x.key() < (#[trigger] out@[i]).key(),
            decreases at,
        {
            at -= 1;
        }
        proof {
            assert forall|i: int| 0 <= i < n implies out@[i] == v@[#[trigger] order[i]] by {}
            if at > 0 {
                assert(!out@[at - 1].nan()) by {
                    assert(out@[at - 1] == v@[order[at - 1]]);
                }
                assert(!x.nan());
                assert(out@[at - 1].key() <= x.key());
            }
            lemma_insert(v@, order, n as int, at as int);
        }
        let ghost inserted = order.insert(at as int, n as int);
        out.insert(at, x);
        proof {
            assert(out@ == Seq::new(inserted.len(), |i: int| v@[inserted[i]]));
            order = inserted;
        }
        n += 1;
    }
    assert(v@.take(n as int) == v@);
    out
}

proof fn lemma_insert(v: Seq<Num>, order: Seq<int>, n: int, at: int)
    requires
        0 <= n < v.len(),
        ranks(v.take(n), order),
        0 <= at <= n,
        at > 0 ==> v[order[at - 1]].key() <= v[n].key(),
        forall|i: int| at <= i < n ==> v[n].key() < v[#[trigger] order[i]].key(),
    ensures
        ranks(v.take(n + 1), order.insert(at, n)),
{
    let w = v.take(n);
    let x = v.take(n + 1);
    let next = order.insert(at, n);
    assert forall|i: int| 0 <= i < next.len() implies 0 <= #[trigger] next[i] < next.len() by {
        if i < at {
            assert(next[i] == order[i]);
        } else if i > at {
            assert(next[i] == order[i - 1]);
        }
    }
    assert forall|i: int, j: int| 0 <= i < j < next.len() implies sorts_before(
        x,
        #[trigger] next[i],
        #[trigger] next[j],
    ) by {
        let p = if i < at {
            i
        } else {
            i - 1
        };
        let q = if j < at {
            j
        } else {
            j - 1
        };
        if i == at {
            assert(next[i] == n);
            assert(next[j] == order[q]);
            assert(x[order[q]] == v[order[q]]);
        } else if j == at {
            assert(next[j] == n);
            assert(next[i] == order[p]);
            assert(x[order[p]] == v[order[p]]);
            if p < at - 1 {
                assert(sorts_before(w, order[p], order[at - 1]));
                assert(w[order[p]] == v[order[p]]);
                assert(w[order[at - 1]] == v[order[at - 1]]);
            }
        } else {
            assert(next[i] == order[p]);
            assert(next[j] == order[q]);
            assert(sorts_before(w, order[p], order[q]));
            assert(w[order[p]] == x[order[p]]);
            assert(w[order[q]] == x[order[q]]);
        }
    }
    assert forall|i: int, j: int| 0 <= i < j < next.len() implies #[trigger] next[i]
        != #[trigger] next[j] by {
        assert(sorts_before(x, next[i], next[j]));
    }
    assert forall|p: int| 0 <= p < next.len() implies #[trigger] next.contains(p) by {
        if p == n {
            assert(next[at] == n);
        } else {
            assert(order.contains(p));
            let k = choose|k: int| 0 <= k < order.len() && order[k] == p;
            if k < at {
                assert(next[k] == p);
            } else {
                assert(next[k + 1] == p);
            }
        }
    }
}

/// Sorting has one result.
pub proof fn sorting_is_unique(v: Seq<Num>, a: Seq<Num>, b: Seq<Num>)
    requires
        sorts(v, a),
        sorts(v, b),
    ensures
        a == b,
{
    let p = choose|order: Seq<int>| #[trigger]
        ranks(v, order) && a == Seq::new(order.len(), |i: int| v[order[i]]);
    let q = choose|order: Seq<int>| #[trigger]
        ranks(v, order) && b == Seq::new(order.len(), |i: int| v[order[i]]);
    lemma_ranks_agree(v, p, q, v.len() as int);
    assert(p == q);
}

proof fn lemma_ranks_agree(v: Seq<Num>, p: Seq<int>, q: Seq<int>, k: int)
    requires
        ranks(v, p),
        ranks(v, q),
        0 <= k <= v.len(),
    ensures
        forall|i: int| 0 <= i < k ==> p[i] == q[i],
    decreases k,
{
    if k > 0 {
        lemma_ranks_agree(v, p, q, k - 1);
        let i = k - 1;
        assert(p.contains(q[i]));
        assert(q.contains(p[i]));
        let m = choose|m: int| 0 <= m < p.len() && p[m] == q[i];
        let w = choose|w: int| 0 <= w < q.len() && q[w] == p[i];
        if m < i {
            assert(q[m] == p[m]);
            assert(q[m] != q[i]);
        }
        if w < i {
            assert(p[w] == q[w]);
            assert(p[w] != p[i]);
        }
        if m > i && w > i {
            assert(sorts_before(v, p[i], p[m]));
            assert(sorts_before(v, q[i], q[w]));
        }
    }
}

proof fn lemma_rearranged(v: Seq<Num>, order: Seq<int>)
    requires
        order.len() == v.len(),
        is_permutation(order),
    ensures
        Seq::new(order.len(), |i: int| v[order[i]]).to_multiset() == v.to_multiset(),
    decreases v.len(),
{
    let out = Seq::new(order.len(), |i: int| v[order[i]]);
    if v.len() == 0 {
        assert(out == v);
    } else {
        let n = v.len() - 1;
        assert(order.contains(n));
        let k = choose|k: int| 0 <= k < order.len() && order[k] == n;
        let rest = order.remove(k);
        let front = v.drop_last();
        assert forall|i: int| 0 <= i < rest.len() implies 0 <= #[trigger] rest[i] < rest.len() by {
            if i < k {
                assert(rest[i] == order[i] && order[i] != order[k]);
            } else {
                assert(rest[i] == order[i + 1] && order[i + 1] != order[k]);
            }
        }
        assert forall|i: int, j: int| 0 <= i < j < rest.len() implies #[trigger] rest[i]
            != #[trigger] rest[j] by {
            let a = if i < k {
                i
            } else {
                i + 1
            };
            let b = if j < k {
                j
            } else {
                j + 1
            };
            assert(order[a] != order[b]);
        }
        assert forall|p: int| 0 <= p < rest.len() implies #[trigger] rest.contains(p) by {
            assert(order.contains(p));
            let m = choose|m: int| 0 <= m < order.len() && order[m] == p;
            if m < k {
                assert(rest[m] == p);
            } else {
                assert(rest[m - 1] == p);
            }
        }
        lemma_rearranged(front, rest);
        let short = Seq::new(rest.len(), |i: int| front[rest[i]]);
        assert(out.remove(k) =~= short);
        assert(out[k] == v.last());
        vstd::seq_lib::to_multiset_remove(out, k);
        assert(out == out.remove(k).insert(k, out[k]));
        vstd::seq_lib::to_multiset_insert(out.remove(k), k, out[k]);
        assert(v == front.push(v.last()));
        vstd::seq_lib::to_multiset_build(front, v.last());
    }
}

/// A sorted sequence ascends and keeps every sample, as often as it was there.
pub proof fn sorting_ascends(v: Seq<Num>, out: Seq<Num>)
    requires
        sorts(v, out),
    ensures
        out.len() == v.len(),
        forall|i: int, j: int|
            0 <= i <= j < out.len() ==> (#[trigger] out[i]).key() <= (#[trigger] out[j]).key(),
        forall|x: Num| v.contains(x) <==> out.contains(x),
        out.to_multiset() == v.to_multiset(),
{
    let order = choose|order: Seq<int>| #[trigger]
        ranks(v, order) && out == Seq::new(order.len(), |i: int| v[order[i]]);
    assert forall|i: int, j: int| 0 <= i <= j < out.len() implies (#[trigger] out[i]).key() <= (
    #[trigger] out[j]).key() by {
        assert(out[i] == v[order[i]] && out[j] == v[order[j]]);
        if i < j {
            assert(sorts_before(v, order[i], order[j]));
        }
    }
    lemma_rearranged(v, order);
    assert forall|x: Num| v.contains(x) <==> out.contains(x) by {
        if v.contains(x) {
            let p = choose|p: int| 0 <= p < v.len() && v[p] == x;
            assert(order.contains(p));
            let k = choose|k: int| 0 <= k < order.len() && order[k] == p;
            assert(out[k] == x);
        }
        if out.contains(x) {
            let k = choose|k: int| 0 <= k < out.len() && out[k] == x;
            assert(v[order[k]] == x);
        }
    }
}

/// Whether samples ascend.
pub open spec fn ascends(v: Seq<Num>) -> bool {
    forall|i: int, j: int|
        0 <= i <= j < v.len() ==> (#[trigger] v[i]).key() <= (#[trigger] v[j]).key()
}

/// Whether two sequences hold the same numbers in the same places. Positive and negative zero
/// are the same number.
pub open spec fn same_numbers(a: Seq<Num>, b: Seq<Num>) -> bool {
    &&& a.len() == b.len()
    &&& forall|i: int| 0 <= i < a.len() ==> (#[trigger] a[i]).key() == (#[trigger] b[i]).key()
}

proof fn lemma_one_ascent(a: Seq<Num>, b: Seq<Num>)
    requires
        ascends(a),
        ascends(b),
        a.to_multiset() == b.to_multiset(),
    ensures
        same_numbers(a, b),
    decreases a.len(),
{
    vstd::seq_lib::to_multiset_len(a);
    vstd::seq_lib::to_multiset_len(b);
    if a.len() > 0 {
        let n = a.len() - 1;
        let x = a[n];
        let y = b[n];
        assert(a.contains(x) && b.contains(y));
        vstd::seq_lib::to_multiset_contains(a, x);
        vstd::seq_lib::to_multiset_contains(b, x);
        vstd::seq_lib::to_multiset_contains(a, y);
        vstd::seq_lib::to_multiset_contains(b, y);
        let k = choose|k: int| 0 <= k < a.len() && a[k] == y;
        let j = choose|j: int| 0 <= j < b.len() && b[j] == x;
        assert(a[k].key() <= a[n].key() && b[j].key() <= b[n].key());
        vstd::seq_lib::to_multiset_remove(a, n);
        vstd::seq_lib::to_multiset_remove(b, j);
        let short = a.remove(n);
        let rest = b.remove(j);
        assert forall|i: int, m: int| 0 <= i <= m < rest.len() implies (#[trigger] rest[i]).key()
            <= (#[trigger] rest[m]).key() by {
            let p = if i < j {
                i
            } else {
                i + 1
            };
            let q = if m < j {
                m
            } else {
                m + 1
            };
            assert(b[p].key() <= b[q].key());
        }
        assert forall|i: int, m: int| 0 <= i <= m < short.len() implies (#[trigger] short[i]).key()
            <= (#[trigger] short[m]).key() by {
            assert(a[i].key() <= a[m].key());
        }
        lemma_one_ascent(short, rest);
        assert forall|i: int| 0 <= i < a.len() implies (#[trigger] a[i]).key() == (
        #[trigger] b[i]).key() by {
            if i < n {
                assert(short[i].key() == rest[i].key());
                if i >= j {
                    assert(b[j].key() <= b[i].key() && b[i].key() <= b[i + 1].key() && b[i + 1].key()
                        <= b[n].key());
                }
            }
        }
    }
}

/// Sorting forgets the order: the same samples in another order sort to the same numbers.
pub proof fn sorting_forgets_order(v: Seq<Num>, w: Seq<Num>, a: Seq<Num>, b: Seq<Num>)
    requires
        sorts(v, a),
        sorts(w, b),
        v.to_multiset() == w.to_multiset(),
    ensures
        same_numbers(a, b),
{
    sorting_ascends(v, a);
    sorting_ascends(w, b);
    lemma_one_ascent(a, b);
}

/// Where a percentile lies in a sorted sequence: `percent` hundredths of the way to place
/// `last`, between the places `lo` and `hi`.
#[derive(Clone, Copy, Debug, PartialEq, Eq, Structural)]
pub struct Rank {
    pub percent: u64,
    pub last: usize,
    pub lo: usize,
    pub hi: usize,
}

/// The rank of a percentile among `len` samples: the place of the percentile in double
/// precision, rounded down and rounded up. A length beyond the significant bits, which no
/// memory holds, has the exact place.
pub open spec fn rank_of(percent: u64, len: nat) -> Rank {
    let last = (len - 1) as nat;
    if last == 0 {
        Rank { percent, last: 0, lo: 0, hi: 0 }
    } else if last < SIGNIFICANT {
        let p = place(percent as nat, last);
        Rank {
            percent,
            last: last as usize,
            lo: (p / PLACE as nat) as usize,
            hi: ((p + PLACE - 1) as nat / PLACE as nat) as usize,
        }
    } else {
        Rank {
            percent,
            last: last as usize,
            lo: (percent * last / 100) as usize,
            hi: ((percent * last + 99) / 100) as usize,
        }
    }
}

proof fn lemma_places(p: nat, last: nat)
    requires
        p <= last * PLACE,
    ensures
        p / PLACE as nat <= (p + PLACE - 1) as nat / PLACE as nat <= last,
        (p + PLACE - 1) as nat / PLACE as nat <= p / PLACE as nat + 1,
        p == last * PLACE ==> p / PLACE as nat == last,
        p == 0 ==> (p + PLACE - 1) as nat / PLACE as nat == 0,
{
    assert(last * PLACE == 0x800_0000_0000_0000 * last);
}

/// Finds the rank of a percentile among `len` samples.
pub fn rank(percent: u64, len: usize) -> (r: Rank)
    requires
        len > 0,
        len == 1 || percent <= 100,
    ensures
        r == rank_of(percent, len as nat),
{
    let last: usize = len - 1;
    if last == 0 {
        return Rank { percent, last: 0, lo: 0, hi: 0 };
    }
    if (last as u64) < SIGNIFICANT {
        proof {
            places_grow(percent as nat, 100, last as nat);
            lemma_places(place(percent as nat, last as nat), last as nat);
            assert(last * PLACE == 0x800_0000_0000_0000 * last);
        }
        let p: u128 = find_place(percent, last as u64);
        Rank {
            percent,
            last,
            lo: (p / PLACE as u128) as usize,
            hi: ((p + (PLACE - 1) as u128) / PLACE as u128) as usize,
        }
    } else {
        assert(0 <= percent * last <= 100 * last) by (nonlinear_arith)
            requires
                percent <= 100,
                0 <= last,
        ;
        let scaled: u128 = percent as u128 * last as u128;
        assert(scaled / 100 <= last && (scaled + 99) / 100 <= last);
        Rank { percent, last, lo: (scaled / 100) as usize, hi: ((scaled + 99) / 100) as usize }
    }
}

/// A rank lies inside the sequence, its two places are the same or neighbours, and it grows
/// with the percentage. Rank zero is the first sample, rank one hundred the last.
pub proof fn rank_is_inside(percent: u64, larger: u64, len: nat)
    requires
        0 < len <= usize::MAX,
        percent <= larger <= 100,
    ensures
        rank_of(percent, len).lo <= rank_of(percent, len).hi < len,
        rank_of(percent, len).hi <= rank_of(percent, len).lo + 1,
        rank_of(percent, len).lo <= rank_of(larger, len).lo,
        rank_of(percent, len).hi <= rank_of(larger, len).hi,
        rank_of(0, len).lo == 0 && rank_of(0, len).hi == 0,
        rank_of(100, len).lo == len - 1 && rank_of(100, len).hi == len - 1,
{
    let last = (len - 1) as nat;
    if last < SIGNIFICANT {
        places_grow(percent as nat, larger as nat, last);
        lemma_places(place(percent as nat, last), last);
        lemma_places(place(larger as nat, last), last);
        lemma_places(place(0, last), last);
        lemma_places(place(100, last), last);
    } else {
        assert(0 <= percent * last <= larger * last <= 100 * last) by (nonlinear_arith)
            requires
                0 <= percent <= larger <= 100,
                0 <= last,
        ;
        assert(0 * last == 0);
    }
}

/// Whether `r` is a percentile of sorted samples: zero of none, the sample at the rank where
/// that is exact, and otherwise what `blend` makes of the two samples around it.
pub open spec fn percentile_is<B: Fn(Num, Num, Rank) -> Num>(
    sorted: Seq<Num>,
    percent: u64,
    blend: B,
    r: Num,
) -> bool {
    if sorted.len() == 0 {
        r == (Num { bits: 0 })
    } else {
        let k = rank_of(percent, sorted.len());
        if k.lo == k.hi {
            r == sorted[k.lo as int]
        } else {
            call_ensures(blend, (sorted[k.lo as int], sorted[k.hi as int], k), r)
        }
    }
}

/// A percentile of sorted samples.
pub fn percentile<B: Fn(Num, Num, Rank) -> Num>(
    sorted: &Vec<Num>,
    percent: u64,
    blend: &B,
) -> (r: Num)
    requires
        sorted@.len() <= 1 || percent <= 100,
        forall|lo: Num, hi: Num, k: Rank| call_requires(*blend, (lo, hi, k)),
    ensures
        percentile_is(sorted@, percent, *blend, r),
        sorted@.len() == 0 ==> r == (Num { bits: 0 }),
        sorted@.len() == 1 ==> r == sorted@[0],
{
    if sorted.len() == 0 {
        return Num { bits: 0 };
    }
    let k: Rank = rank(percent, sorted.len());
    proof {
        if sorted@.len() > 1 {
            rank_is_inside(percent, 100, sorted@.len());
        }
    }
    if k.lo == k.hi {
        sorted[k.lo]
    } else {
        blend(sorted[k.lo], sorted[k.hi], k)
    }
}

/// Whether an interpolation is a function of its operands.
pub open spec fn steady_blend<B: Fn(Num, Num, Rank) -> Num>(blend: B) -> bool {
    forall|lo: Num, hi: Num, k: Rank, x: Num, y: Num| #[trigger]
        call_ensures(blend, (lo, hi, k), x) && #[trigger] call_ensures(blend, (lo, hi, k), y)
            ==> x == y
}

/// Whether an operation is a function of its operands.
pub open spec fn steady<F: Fn(Num, Num) -> Num>(f: F) -> bool {
    forall|a: Num, b: Num, x: Num, y: Num| #[trigger]
        call_ensures(f, (a, b), x) && #[trigger] call_ensures(f, (a, b), y) ==> x == y
}

/// Whether an interpolation between the same numbers gives the same number.
pub open spec fn numeric_blend<B: Fn(Num, Num, Rank) -> Num>(blend: B) -> bool {
    forall|lo: Num, hi: Num, lo2: Num, hi2: Num, k: Rank, x: Num, y: Num| #[trigger]
        call_ensures(blend, (lo, hi, k), x) && #[trigger] call_ensures(blend, (lo2, hi2, k), y)
            && lo.key() == lo2.key() && hi.key() == hi2.key() ==> x.key() == y.key()
}

/// Whether an operation on the same numbers gives the same number.
pub open spec fn numeric<F: Fn(Num, Num) -> Num>(f: F) -> bool {
    forall|a: Num, b: Num, a2: Num, b2: Num, x: Num, y: Num| #[trigger]
        call_ensures(f, (a, b), x) && #[trigger] call_ensures(f, (a2, b2), y) && a.key() == a2.key()
            && b.key() == b2.key() ==> x.key() == y.key()
}

/// Whether an interpolation between two samples lies between them.
pub open spec fn stays_between<B: Fn(Num, Num, Rank) -> Num>(blend: B) -> bool {
    forall|lo: Num, hi: Num, k: Rank, x: Num| #[trigger]
        call_ensures(blend, (lo, hi, k), x) && lo.key() <= hi.key() ==> lo.key() <= x.key()
            <= hi.key()
}

/// Whether an interpolation between the same two places grows with the percentage.
pub open spec fn grows<B: Fn(Num, Num, Rank) -> Num>(blend: B) -> bool {
    forall|lo: Num, hi: Num, k: Rank, m: Rank, x: Num, y: Num| #[trigger]
        call_ensures(blend, (lo, hi, k), x) && #[trigger] call_ensures(blend, (lo, hi, m), y)
            && lo.key() <= hi.key() && k.lo == m.lo && k.hi == m.hi && k.last == m.last
            && k.percent <= m.percent ==> x.key() <= y.key()
}

/// Percentiles ascend with the percentage and stay within the samples: the percentile at zero
/// is the first sample, that at one hundred the last, and of two in between the one of the
/// smaller percentage is at most the other. The interpolation must lie between its samples and
/// grow.
pub proof fn percentiles_ascend<B: Fn(Num, Num, Rank) -> Num>(
    sorted: Seq<Num>,
    p: u64,
    q: u64,
    blend: B,
    x: Num,
    y: Num,
)
    requires
        0 < sorted.len() <= usize::MAX,
        ascends(sorted),
        p <= q <= 100,
        stays_between(blend),
        grows(blend),
        percentile_is(sorted, p, blend, x),
        percentile_is(sorted, q, blend, y),
    ensures
        sorted[0].key() <= x.key() <= y.key() <= sorted.last().key(),
        p == 0 ==> x == sorted[0],
        q == 100 ==> y == sorted.last(),
{
    rank_is_inside(p, q, sorted.len());
    rank_is_inside(q, 100, sorted.len());
    let k = rank_of(p, sorted.len());
    let m = rank_of(q, sorted.len());
    assert(sorted[k.lo as int].key() <= sorted[k.hi as int].key());
    assert(sorted[m.lo as int].key() <= sorted[m.hi as int].key());
    assert(sorted[0].key() <= sorted[k.lo as int].key());
    assert(sorted[m.hi as int].key() <= sorted[sorted.len() - 1].key());
    if k.lo < m.lo {
        assert(sorted[k.hi as int].key() <= sorted[m.lo as int].key());
    }
}

proof fn lemma_rank_is_exact(percent: u64, len: nat)
    requires
        0 < len <= usize::MAX,
        percent <= 100,
        percent * (len - 1) < 0x4_0000_0000_0000,
    ensures
        ({
            let exact = percent * (len - 1);
            let at = exact / 100;
            let k = rank_of(percent, len);
            &&& k.percent == percent && k.last == len - 1
            &&& k.lo <= k.hi <= k.lo + 1 && k.hi < len
            &&& exact % 100 != 0 ==> k.lo == at && k.hi == at + 1
            &&& exact % 100 == 0 ==> k.lo <= at <= k.hi
            &&& exact % 100 == 0 && (percent % 25 == 0 || len == 1) ==> k.lo == at && k.hi == at
        }),
{
    let last = (len - 1) as nat;
    rank_is_inside(percent, 100, len);
    let e = percent * last;
    if last == 0 {
        assert(e == 0) by (nonlinear_arith)
            requires
                e == percent * last,
                last == 0,
        ;
    } else if last < SIGNIFICANT {
        let p = place(percent as nat, last);
        place_is_within_a_hundredth(percent as nat, last);
        assert((e - 1) * PLACE == 0x800_0000_0000_0000 * e - 0x800_0000_0000_0000);
        assert((e + 1) * PLACE == 0x800_0000_0000_0000 * e + 0x800_0000_0000_0000);
        places_grow(percent as nat, 100, last);
        lemma_places(p, last);
        let lo = p / PLACE as nat;
        let hi = (p + PLACE - 1) as nat / PLACE as nat;
        let w = e / 100;
        assert(e == 100 * w + e % 100);
        if percent % 25 == 0 {
            if last < 0x8_0000_0000_0000 {
                quarters_are_exact(percent as nat, last);
                assert(percent * last * PLACE == 0x800_0000_0000_0000 * e);
            } else {
                assert(percent == 0) by (nonlinear_arith)
                    requires
                        percent % 25 == 0,
                        percent >= 0,
                        percent * last < 0x4_0000_0000_0000,
                        last >= 0x8_0000_0000_0000,
                ;
                assert(0 * last == 0);
                rank_is_inside(0, 100, len);
            }
        }
    }
}

/// A percentile lies at its place among the sorted samples, `percent` hundredths of the way from
/// the first to the last. Where that falls between two samples, it is the interpolation of these
/// two. Where it falls on a sample, it is that sample or, by the rounding of the place, the
/// interpolation of it with a neighbour; of quarters it is always the sample.
pub proof fn percentile_is_at_its_place<B: Fn(Num, Num, Rank) -> Num>(
    sorted: Seq<Num>,
    percent: u64,
    blend: B,
    r: Num,
)
    requires
        0 < sorted.len() <= usize::MAX,
        percent <= 100,
        percent * (sorted.len() - 1) < 0x4_0000_0000_0000,
        percentile_is(sorted, percent, blend, r),
    ensures
        ({
            let last = sorted.len() - 1;
            let at = percent * last / 100;
            let below = Rank {
                percent,
                last: last as usize,
                lo: (at - 1) as usize,
                hi: at as usize,
            };
            let above = Rank {
                percent,
                last: last as usize,
                lo: at as usize,
                hi: (at + 1) as usize,
            };
            &&& percent * last % 100 != 0 ==> at + 1 <= last && call_ensures(
                blend,
                (sorted[at], sorted[at + 1], above),
                r,
            )
            &&& percent * last % 100 == 0 ==> r == sorted[at] || (0 < at && call_ensures(
                blend,
                (sorted[at - 1], sorted[at], below),
                r,
            )) || (at < last && call_ensures(blend, (sorted[at], sorted[at + 1], above), r))
            &&& percent * last % 100 == 0 && (percent % 25 == 0 || last == 0) ==> r == sorted[at]
        }),
{
    lemma_rank_is_exact(percent, sorted.len());
}

/// A percentile parts the sorted samples: those before its place are at most it, and those
/// behind its place at least it. The interpolation must lie between its samples.
pub proof fn percentile_parts_samples<B: Fn(Num, Num, Rank) -> Num>(
    sorted: Seq<Num>,
    percent: u64,
    blend: B,
    r: Num,
    i: int,
)
    requires
        0 <= i < sorted.len() <= usize::MAX,
        percent <= 100,
        percent * (sorted.len() - 1) < 0x4_0000_0000_0000,
        forall|a: int, b: int|
            0 <= a <= b < sorted.len() ==> (#[trigger] sorted[a]).key() <= (
            #[trigger] sorted[b]).key(),
        stays_between(blend),
        percentile_is(sorted, percent, blend, r),
    ensures
        100 * i < percent * (sorted.len() - 1) ==> sorted[i].key() <= r.key(),
        100 * i > percent * (sorted.len() - 1) ==> r.key() <= sorted[i].key(),
        100 * i == percent * (sorted.len() - 1) && percent % 25 == 0 ==> r == sorted[i],
{
    lemma_rank_is_exact(percent, sorted.len());
    let k = rank_of(percent, sorted.len());
    assert(sorted[k.lo as int].key() <= sorted[k.hi as int].key());
    if 100 * i < percent * (sorted.len() - 1) {
        assert(i <= k.lo);
        assert(sorted[i].key() <= sorted[k.lo as int].key());
    }
    if 100 * i > percent * (sorted.len() - 1) {
        assert(k.hi <= i);
        assert(sorted[k.hi as int].key() <= sorted[i].key());
    }
}

/// A percentile of sorted samples is one number, where the interpolation is a function.
pub proof fn percentile_is_unique<B: Fn(Num, Num, Rank) -> Num>(
    sorted: Seq<Num>,
    percent: u64,
    blend: B,
    x: Num,
    y: Num,
)
    requires
        steady_blend(blend),
        percentile_is(sorted, percent, blend, x),
        percentile_is(sorted, percent, blend, y),
    ensures
        x == y,
{
}

/// Sorted samples that are the same numbers have the same percentiles, where the interpolation
/// goes by the numbers.
pub proof fn percentile_is_numeric<B: Fn(Num, Num, Rank) -> Num>(
    a: Seq<Num>,
    b: Seq<Num>,
    percent: u64,
    blend: B,
    x: Num,
    y: Num,
)
    requires
        a.len() <= usize::MAX,
        percent <= 100,
        same_numbers(a, b),
        numeric_blend(blend),
        percentile_is(a, percent, blend, x),
        percentile_is(b, percent, blend, y),
    ensures
        x.key() == y.key(),
{
    if a.len() > 0 {
        rank_is_inside(percent, 100, a.len());
        let k = rank_of(percent, a.len());
        assert(a[k.lo as int].key() == b[k.lo as int].key());
        assert(a[k.hi as int].key() == b[k.hi as int].key());
    }
}

/// Aggregate of one metric across trials.
#[derive(Clone, Copy, Debug, PartialEq, Eq, Structural)]
pub struct Agg {
    pub median: Num,
    pub p25: Num,
    pub p75: Num,
    pub iqr: Num,
    pub n: usize,
}

/// Whether `r` aggregates samples: the quartiles of the sorted samples, what `minus` makes of
/// the outer two, and the number of samples.
pub open spec fn aggregates<B: Fn(Num, Num, Rank) -> Num, S: Fn(Num, Num) -> Num>(
    v: Seq<Num>,
    blend: B,
    minus: S,
    r: Agg,
) -> bool {
    &&& exists|sorted: Seq<Num>| #[trigger]
        sorts(v, sorted) && percentile_is(sorted, 25, blend, r.p25) && percentile_is(
            sorted,
            50,
            blend,
            r.median,
        ) && percentile_is(sorted, 75, blend, r.p75)
    &&& call_ensures(minus, (r.p75, r.p25), r.iqr)
    &&& r.n == v.len()
}

/// Aggregates samples.
pub fn agg<B: Fn(Num, Num, Rank) -> Num, S: Fn(Num, Num) -> Num>(
    v: &Vec<Num>,
    blend: &B,
    minus: &S,
) -> (r: Agg)
    requires
        sortable(v@),
        forall|lo: Num, hi: Num, k: Rank| call_requires(*blend, (lo, hi, k)),
        forall|a: Num, b: Num| call_requires(*minus, (a, b)),
    ensures
        aggregates(v@, *blend, *minus, r),
{
    let sorted: Vec<Num> = sort_samples(v);
    proof {
        sorting_ascends(v@, sorted@);
    }
    let p25: Num = percentile(&sorted, 25, blend);
    let p75: Num = percentile(&sorted, 75, blend);
    let median: Num = percentile(&sorted, 50, blend);
    let iqr: Num = minus(p75, p25);
    Agg { median, p25, p75, iqr, n: sorted.len() }
}

/// An aggregate holds the quartiles of its own samples. There is an order of all the samples, from
/// small to large, in which each quartile is the sample at its place, a quarter, a half or three
/// quarters of the way, or the interpolation of the two samples around that place. The spread is
/// the difference of the outer two.
pub proof fn aggregates_are_quartiles<B: Fn(Num, Num, Rank) -> Num, S: Fn(Num, Num) -> Num>(
    v: Seq<Num>,
    blend: B,
    minus: S,
    r: Agg,
)
    requires
        0 < v.len() < 0x800_0000_0000,
        aggregates(v, blend, minus, r),
    ensures
        exists|sorted: Seq<Num>|
            #![trigger sorted.to_multiset()]
            {
                let last = sorted.len() - 1;
                let rank = |percent: u64, lo: int|
                    Rank { percent, last: last as usize, lo: lo as usize, hi: (lo + 1) as usize };
                &&& sorted.to_multiset() == v.to_multiset()
                &&& sorted.len() == v.len()
                &&& forall|i: int, j: int|
                    0 <= i <= j < sorted.len() ==> (#[trigger] sorted[i]).key() <= (
                    #[trigger] sorted[j]).key()
                &&& last % 4 == 0 ==> r.p25 == sorted[last / 4]
                &&& last % 4 != 0 ==> call_ensures(
                    blend,
                    (sorted[last / 4], sorted[last / 4 + 1], rank(25, last / 4)),
                    r.p25,
                )
                &&& last % 2 == 0 ==> r.median == sorted[last / 2]
                &&& last % 2 != 0 ==> call_ensures(
                    blend,
                    (sorted[last / 2], sorted[last / 2 + 1], rank(50, last / 2)),
                    r.median,
                )
                &&& last % 4 == 0 ==> r.p75 == sorted[3 * last / 4]
                &&& last % 4 != 0 ==> call_ensures(
                    blend,
                    (sorted[3 * last / 4], sorted[3 * last / 4 + 1], rank(75, 3 * last / 4)),
                    r.p75,
                )
            },
        call_ensures(minus, (r.p75, r.p25), r.iqr),
        r.n == v.len(),
{
    let x = choose|sorted: Seq<Num>| #[trigger]
        sorts(v, sorted) && percentile_is(sorted, 25, blend, r.p25) && percentile_is(
            sorted,
            50,
            blend,
            r.median,
        ) && percentile_is(sorted, 75, blend, r.p75);
    sorting_ascends(v, x);
    let last = x.len() - 1;
    percentile_is_at_its_place(x, 25, blend, r.p25);
    percentile_is_at_its_place(x, 50, blend, r.median);
    percentile_is_at_its_place(x, 75, blend, r.p75);
    assert(25 * last / 100 == last / 4 && (25 * last % 100 == 0 <==> last % 4 == 0));
    assert(50 * last / 100 == last / 2 && (50 * last % 100 == 0 <==> last % 2 == 0));
    assert(75 * last / 100 == 3 * last / 4 && (75 * last % 100 == 0 <==> last % 4 == 0));
    assert(x.to_multiset() == v.to_multiset());
}

/// The same samples have one aggregate, where the operations are functions.
pub proof fn aggregates_are_unique<B: Fn(Num, Num, Rank) -> Num, S: Fn(Num, Num) -> Num>(
    v: Seq<Num>,
    blend: B,
    minus: S,
    a: Agg,
    b: Agg,
)
    requires
        steady_blend(blend),
        steady(minus),
        aggregates(v, blend, minus, a),
        aggregates(v, blend, minus, b),
    ensures
        a == b,
{
    let x = choose|sorted: Seq<Num>| #[trigger]
        sorts(v, sorted) && percentile_is(sorted, 25, blend, a.p25) && percentile_is(
            sorted,
            50,
            blend,
            a.median,
        ) && percentile_is(sorted, 75, blend, a.p75);
    let y = choose|sorted: Seq<Num>| #[trigger]
        sorts(v, sorted) && percentile_is(sorted, 25, blend, b.p25) && percentile_is(
            sorted,
            50,
            blend,
            b.median,
        ) && percentile_is(sorted, 75, blend, b.p75);
    sorting_is_unique(v, x, y);
    percentile_is_unique(x, 25, blend, a.p25, b.p25);
    percentile_is_unique(x, 50, blend, a.median, b.median);
    percentile_is_unique(x, 75, blend, a.p75, b.p75);
}

/// Whether two aggregates are the same numbers.
pub open spec fn same_figures(a: Agg, b: Agg) -> bool {
    a.median.key() == b.median.key() && a.p25.key() == b.p25.key() && a.p75.key() == b.p75.key()
        && a.iqr.key() == b.iqr.key() && a.n == b.n
}

/// Aggregates forget the order of the trials: the same samples in another order aggregate to
/// the same numbers, where the operations go by the numbers.
pub proof fn aggregates_forget_order<B: Fn(Num, Num, Rank) -> Num, S: Fn(Num, Num) -> Num>(
    v: Seq<Num>,
    w: Seq<Num>,
    blend: B,
    minus: S,
    a: Agg,
    b: Agg,
)
    requires
        v.to_multiset() == w.to_multiset(),
        numeric_blend(blend),
        numeric(minus),
        aggregates(v, blend, minus, a),
        aggregates(w, blend, minus, b),
    ensures
        same_figures(a, b),
{
    let x = choose|sorted: Seq<Num>| #[trigger]
        sorts(v, sorted) && percentile_is(sorted, 25, blend, a.p25) && percentile_is(
            sorted,
            50,
            blend,
            a.median,
        ) && percentile_is(sorted, 75, blend, a.p75);
    let y = choose|sorted: Seq<Num>| #[trigger]
        sorts(w, sorted) && percentile_is(sorted, 25, blend, b.p25) && percentile_is(
            sorted,
            50,
            blend,
            b.median,
        ) && percentile_is(sorted, 75, blend, b.p75);
    sorting_forgets_order(v, w, x, y);
    sorting_ascends(v, x);
    sorting_ascends(w, y);
    percentile_is_numeric(x, y, 25, blend, a.p25, b.p25);
    percentile_is_numeric(x, y, 50, blend, a.median, b.median);
    percentile_is_numeric(x, y, 75, blend, a.p75, b.p75);
}

/// The pairs of samples taken in the same trial whose second sample is positive, among the
/// first `upto` trials.
pub open spec fn positive_pairs(num: Seq<Num>, den: Seq<Num>, upto: int) -> Seq<(Num, Num)>
    decreases upto,
{
    if upto <= 0 {
        Seq::empty()
    } else {
        let before = positive_pairs(num, den, upto - 1);
        if (Num { bits: 0 }).below(den[upto - 1]) {
            before.push((num[upto - 1], den[upto - 1]))
        } else {
            before
        }
    }
}

/// All pairs of samples taken in the same trial whose second sample is positive.
pub open spec fn trial_pairs(num: Seq<Num>, den: Seq<Num>) -> Seq<(Num, Num)> {
    positive_pairs(
        num,
        den,
        if num.len() <= den.len() {
            num.len() as int
        } else {
            den.len() as int
        },
    )
}

/// Whether `r` holds what `div` makes of each pair.
pub open spec fn quotients<D: Fn(Num, Num) -> Num>(
    pairs: Seq<(Num, Num)>,
    div: D,
    r: Seq<Num>,
) -> bool {
    &&& r.len() == pairs.len()
    &&& forall|k: int|
        0 <= k < pairs.len() ==> call_ensures(div, (pairs[k].0, pairs[k].1), #[trigger] r[k])
}

proof fn lemma_pairs_filter(num: Seq<Num>, den: Seq<Num>, upto: int)
    requires
        0 <= upto,
    ensures
        positive_pairs(num, den, upto) == Seq::new(upto as nat, |t: int| (num[t], den[t])).filter(
            |pair: (Num, Num)| (Num { bits: 0 }).below(pair.1),
        ),
    decreases upto,
{
    reveal(Seq::filter);
    if upto > 0 {
        lemma_pairs_filter(num, den, upto - 1);
        let all = Seq::new(upto as nat, |t: int| (num[t], den[t]));
        assert(all.drop_last() =~= Seq::new((upto - 1) as nat, |t: int| (num[t], den[t])));
        assert(all.last() == (num[upto - 1], den[upto - 1]));
    }
}

proof fn lemma_all_positive(num: Seq<Num>, den: Seq<Num>, upto: int)
    requires
        0 <= upto,
        forall|t: int| 0 <= t < upto ==> (Num { bits: 0 }).below(#[trigger] den[t]),
    ensures
        positive_pairs(num, den, upto) == Seq::new(upto as nat, |t: int| (num[t], den[t])),
    decreases upto,
{
    if upto > 0 {
        lemma_all_positive(num, den, upto - 1);
        assert((Num { bits: 0 }).below(den[upto - 1]));
        assert(positive_pairs(num, den, upto) =~= Seq::new(
            upto as nat,
            |t: int| (num[t], den[t]),
        ));
    }
}

/// The ratios are those of the trials, in order: each trial that both lists have and whose
/// denominator is positive gives its own numerator by its own denominator. Where all are
/// positive, the ratio at a place is that of the trial at this place.
pub proof fn ratios_are_trial_by_trial<D: Fn(Num, Num) -> Num>(
    num: Seq<Num>,
    den: Seq<Num>,
    div: D,
    r: Seq<Num>,
)
    requires
        quotients(trial_pairs(num, den), div, r),
    ensures
        ({
            let trials = if num.len() <= den.len() {
                num.len()
            } else {
                den.len()
            };
            let kept = Seq::new(trials, |t: int| (num[t], den[t])).filter(
                |pair: (Num, Num)| (Num { bits: 0 }).below(pair.1),
            );
            &&& r.len() == kept.len()
            &&& forall|k: int|
                0 <= k < r.len() ==> call_ensures(div, (kept[k].0, kept[k].1), #[trigger] r[k])
            &&& (forall|t: int| 0 <= t < trials ==> (Num { bits: 0 }).below(#[trigger] den[t]))
                ==> r.len() == trials && forall|k: int|
                0 <= k < trials ==> call_ensures(div, (num[k], den[k]), #[trigger] r[k])
        }),
{
    let trials: int = if num.len() <= den.len() {
        num.len() as int
    } else {
        den.len() as int
    };
    lemma_pairs_filter(num, den, trials);
    if forall|t: int| 0 <= t < trials ==> (Num { bits: 0 }).below(#[trigger] den[t]) {
        lemma_all_positive(num, den, trials);
        let pairs = trial_pairs(num, den);
        assert forall|k: int| 0 <= k < trials implies call_ensures(
            div,
            (num[k], den[k]),
            #[trigger] r[k],
        ) by {
            assert(pairs[k] == (num[k], den[k]));
            assert(call_ensures(div, (pairs[k].0, pairs[k].1), r[k]));
        }
    }
}

/// The ratios of samples taken in the same trial; a trial whose second sample is not positive
/// is left out.
pub fn zip_ratio<D: Fn(Num, Num) -> Num>(num: &Vec<Num>, den: &Vec<Num>, div: &D) -> (r: Vec<Num>)
    requires
        forall|a: Num, b: Num| call_requires(*div, (a, b)),
    ensures
        quotients(trial_pairs(num@, den@), *div, r@),
        (forall|t: int| 0 <= t < den@.len() ==> (Num { bits: 0 }).below(#[trigger] den@[t]))
            && num@.len() == den@.len() ==> r@.len() == num@.len() && forall|k: int|
            0 <= k < num@.len() ==> call_ensures(*div, (num@[k], den@[k]), #[trigger] r@[k]),
{
    let mut r: Vec<Num> = Vec::new();
    let trials: usize = if num.len() <= den.len() {
        num.len()
    } else {
        den.len()
    };
    let mut t: usize = 0;
    while t < trials
        invariant
            t <= trials,
            trials <= num@.len(),
            trials <= den@.len(),
            forall|a: Num, b: Num| call_requires(*div, (a, b)),
            quotients(positive_pairs(num@, den@, t as int), *div, r@),
        decreases trials - t,
    {
        if den[t].is_positive() {
            let ghost before = r@;
            let q: Num = div(num[t], den[t]);
            r.push(q);
            proof {
                let pairs = positive_pairs(num@, den@, t + 1);
                assert forall|k: int| 0 <= k < pairs.len() implies call_ensures(
                    *div,
                    (pairs[k].0, pairs[k].1),
                    #[trigger] r@[k],
                ) by {
                    if k < before.len() {
                        assert(r@[k] == before[k]);
                    }
                }
            }
        }
        t += 1;
    }
    proof {
        ratios_are_trial_by_trial(num@, den@, *div, r@);
    }
    r
}

/// Whether the middle half of the ratios excludes one, and which side it lies on.
pub open spec fn verdict(speedup: Agg, a: Seq<char>, b: Seq<char>) -> (bool, Seq<char>) {
    if (Num { bits: ONE }).below(speedup.p25) {
        (true, a)
    } else if speedup.p75.below(Num { bits: ONE }) {
        (true, b)
    } else {
        (false, "tie"@)
    }
}

/// Decides which of two engines is faster. The ratios are such that more than one favours `a`;
/// the engines are distinguishable when the middle half of the ratios excludes one.
pub fn decide(speedup: &Agg, a: &str, b: &str) -> (r: (bool, String))
    ensures
        (r.0, r.1@) == verdict(*speedup, a@, b@),
{
    let one: Num = Num { bits: ONE };
    if one.less(speedup.p25) {
        (true, a.to_string())
    } else if speedup.p75.less(one) {
        (true, b.to_string())
    } else {
        (false, "tie".to_string())
    }
}

/// Engines are distinguishable exactly when one lies outside the quartiles: above it the first
/// is the faster, below it the second. Exchanging the names exchanges the answer.
pub proof fn verdict_excludes_one(speedup: Agg, a: Seq<char>, b: Seq<char>)
    requires
        !speedup.p25.nan(),
        !speedup.p75.nan(),
    ensures
        verdict(speedup, a, b).0 <==> !(speedup.p25.key() <= (Num { bits: ONE }).key()
            <= speedup.p75.key()),
        !verdict(speedup, a, b).0 ==> verdict(speedup, a, b).1 == "tie"@,
        speedup.p25.key() > (Num { bits: ONE }).key() ==> verdict(speedup, a, b) == (true, a)
            && verdict(speedup, b, a) == (true, b),
        speedup.p25.key() <= (Num { bits: ONE }).key() && speedup.p75.key() < (Num {
            bits: ONE,
        }).key() ==> verdict(speedup, a, b) == (true, b) && verdict(speedup, b, a) == (true, a),
{
}

} // verus!
