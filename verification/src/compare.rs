//! Engines against each other: who is fastest, and every pair's ratio.
use crate::num::Num;
use crate::stats::{
    agg, aggregates, aggregates_are_unique, decide, is_sortable, quotients,
    ratios_are_trial_by_trial, sortable, steady, steady_blend, trial_pairs, verdict, zip_ratio, Agg,
    Rank,
};
use crate::text::{comes_before, precedes, precedes_is_total, precedes_is_transitive, texts};
use vstd::prelude::*;

verus! {

/// What is measured, and which way is better.
#[derive(Clone, Copy, Debug, PartialEq, Eq, Structural)]
pub enum Metric {
    /// Lower is better (milliseconds).
    Latency,
    /// Higher is better (sentences per second).
    Throughput,
}

/// Whether one measurement beats another.
pub open spec fn better(metric: Metric, x: Num, y: Num) -> bool {
    match metric {
        Metric::Latency => x.below(y),
        Metric::Throughput => y.below(x),
    }
}

/// Whether one measurement beats another.
pub fn beats(metric: Metric, x: Num, y: Num) -> (r: bool)
    ensures
        r == better(metric, x, y),
{
    match metric {
        Metric::Latency => x.less(y),
        Metric::Throughput => y.less(x),
    }
}

/// Aggregates by engine name, in the order of the names, each name once.
#[derive(Debug)]
pub struct NameTable {
    entries: Vec<(String, Agg)>,
}

/// Whether names ascend strictly.
pub open spec fn ascending(entries: Seq<(Seq<char>, Agg)>) -> bool {
    forall|i: int, j: int|
        0 <= i < j < entries.len() ==> precedes(
            (#[trigger] entries[i]).0,
            (#[trigger] entries[j]).0,
        )
}

/// Whether entries are those of a map: every entry is in it, and it has no other names.
pub open spec fn holds(entries: Seq<(Seq<char>, Agg)>, map: Map<Seq<char>, Agg>) -> bool {
    &&& forall|i: int|
        0 <= i < entries.len() ==> map.contains_key((#[trigger] entries[i]).0)
            && map[entries[i].0] == entries[i].1
    &&& forall|name: Seq<char>| #[trigger] map.contains_key(name) ==> named(entries, name)
}

/// Whether some entry has a name.
pub open spec fn named(entries: Seq<(Seq<char>, Agg)>, name: Seq<char>) -> bool {
    exists|i: int| 0 <= i < entries.len() && (#[trigger] entries[i]).0 == name
}

/// The aggregates of some names, put in one after the other; the last one of a name stays.
pub open spec fn table_map(names: Seq<Seq<char>>, values: Seq<Agg>, upto: int) -> Map<
    Seq<char>,
    Agg,
>
    decreases upto,
{
    if upto <= 0 {
        Map::empty()
    } else {
        table_map(names, values, upto - 1).insert(names[upto - 1], values[upto - 1])
    }
}

/// What is put in under a name is found under it: the value at the last place that has the name,
/// and nothing under a name that has no place.
pub proof fn last_value_stays(names: Seq<Seq<char>>, values: Seq<Agg>, upto: int)
    requires
        0 <= upto <= names.len(),
    ensures
        forall|k: int|
            0 <= k < upto && (forall|j: int| k < j < upto ==> #[trigger] names[j] != names[k])
                ==> table_map(names, values, upto).contains_pair(#[trigger] names[k], values[k]),
        forall|name: Seq<char>| #[trigger]
            table_map(names, values, upto).contains_key(name) <==> exists|k: int|
                0 <= k < upto && #[trigger] names[k] == name,
    decreases upto,
{
    if upto > 0 {
        last_value_stays(names, values, upto - 1);
        let before = table_map(names, values, upto - 1);
        let after = table_map(names, values, upto);
        assert forall|k: int|
            0 <= k < upto && (forall|j: int| k < j < upto ==> #[trigger] names[j] != names[k])
                implies after.contains_pair(#[trigger] names[k], values[k]) by {
            if k < upto - 1 {
                assert(names[upto - 1] != names[k]);
                assert(before.contains_pair(names[k], values[k]));
            }
        }
        assert forall|name: Seq<char>| #[trigger] after.contains_key(name) <==> exists|k: int|
            0 <= k < upto && #[trigger] names[k] == name by {
            if after.contains_key(name) && name != names[upto - 1] {
                assert(before.contains_key(name));
            }
            if exists|k: int| 0 <= k < upto && #[trigger] names[k] == name {
                let k = choose|k: int| 0 <= k < upto && #[trigger] names[k] == name;
                if k < upto - 1 {
                    assert(before.contains_key(name));
                }
            }
        }
    }
}

/// A table has each engine's own value under its name: the value at the last place of the name
/// (its only one, where the names are distinct), and no entry but these.
pub proof fn table_keeps_names_and_values(
    names: Seq<Seq<char>>,
    values: Seq<Agg>,
    entries: Seq<(Seq<char>, Agg)>,
)
    requires
        holds(entries, table_map(names, values, names.len() as int)),
    ensures
        forall|k: int|
            0 <= k < names.len() && (forall|j: int|
                k < j < names.len() ==> #[trigger] names[j] != names[k]) ==> entries.contains(
                (#[trigger] names[k], values[k]),
            ),
        forall|i: int|
            0 <= i < entries.len() ==> exists|k: int|
                0 <= k < names.len() && (#[trigger] entries[i]) == (#[trigger] names[k], values[k])
                    && forall|j: int| k < j < names.len() ==> names[j] != names[k],
{
    let n = names.len() as int;
    let map = table_map(names, values, n);
    last_value_stays(names, values, n);
    assert forall|k: int|
        0 <= k < n && (forall|j: int| k < j < n ==> #[trigger] names[j] != names[k])
            implies entries.contains((#[trigger] names[k], values[k])) by {
        assert(map.contains_pair(names[k], values[k]));
        assert(named(entries, names[k]));
        let i = choose|i: int| 0 <= i < entries.len() && (#[trigger] entries[i]).0 == names[k];
        assert(entries[i] == (names[k], values[k]));
    }
    assert forall|i: int| 0 <= i < entries.len() implies exists|k: int|
        0 <= k < n && (#[trigger] entries[i]) == (#[trigger] names[k], values[k]) && forall|j: int|
            k < j < n ==> names[j] != names[k] by {
        let name = entries[i].0;
        assert(map.contains_key(name));
        let k = lemma_last_place(names, name, n);
        assert(map.contains_pair(names[k], values[k]));
    }
}

proof fn lemma_last_place(names: Seq<Seq<char>>, name: Seq<char>, upto: int) -> (k: int)
    requires
        0 <= upto <= names.len(),
        exists|k: int| 0 <= k < upto && #[trigger] names[k] == name,
    ensures
        0 <= k < upto,
        names[k] == name,
        forall|j: int| k < j < upto ==> names[j] != name,
    decreases upto,
{
    if names[upto - 1] == name {
        upto - 1
    } else {
        lemma_last_place(names, name, upto - 1)
    }
}

impl View for NameTable {
    type V = Seq<(Seq<char>, Agg)>;

    closed spec fn view(&self) -> Seq<(Seq<char>, Agg)> {
        plain(self.entries@)
    }
}

/// The plain contents of some entries.
pub open spec fn plain(entries: Seq<(String, Agg)>) -> Seq<(Seq<char>, Agg)> {
    entries.map_values(|e: (String, Agg)| (e.0@, e.1))
}

fn put_entry(entries: &mut Vec<(String, Agg)>, name: &String, value: Agg)
    requires
        ascending(plain(old(entries)@)),
    ensures
        ascending(plain(final(entries)@)),
        forall|map: Map<Seq<char>, Agg>| #[trigger]
            holds(plain(old(entries)@), map) ==> holds(
                plain(final(entries)@),
                map.insert(name@, value),
            ),
{
    let ghost before = plain(entries@);
    let mut at: usize = 0;
    while at < entries.len() && comes_before(entries[at].0.as_str(), name.as_str())
        invariant
            before == plain(entries@),
            at <= entries@.len(),
            forall|i: int| 0 <= i < at ==> precedes((#[trigger] before[i]).0, name@),
        decreases entries@.len() - at,
    {
        assert(before[at as int] == (entries@[at as int].0@, entries@[at as int].1));
        at += 1;
    }
    if at < entries.len() {
        assert(before[at as int] == (entries@[at as int].0@, entries@[at as int].1));
    }
    if at < entries.len() && entries[at].0 == *name {
        let entry: (String, Agg) = (name.clone(), value);
        entries.set(at, entry);
        proof {
            let after = plain(entries@);
            assert(after =~= before.update(at as int, (name@, value)));
            lemma_replace(before, at as int, value);
        }
    } else {
        let entry: (String, Agg) = (name.clone(), value);
        entries.insert(at, entry);
        proof {
            let after = plain(entries@);
            assert(after =~= before.insert(at as int, (name@, value)));
            if at < before.len() {
                precedes_is_total(before[at as int].0, name@);
            }
            lemma_insert_entry(before, at as int, name@, value);
        }
    }
}

proof fn lemma_replace(before: Seq<(Seq<char>, Agg)>, at: int, value: Agg)
    requires
        0 <= at < before.len(),
        ascending(before),
    ensures
        ascending(before.update(at, (before[at].0, value))),
        forall|map: Map<Seq<char>, Agg>| #[trigger]
            holds(before, map) ==> holds(
                before.update(at, (before[at].0, value)),
                map.insert(before[at].0, value),
            ),
{
    let name = before[at].0;
    let after = before.update(at, (name, value));
    assert forall|i: int, j: int| 0 <= i < j < after.len() implies precedes(
        (#[trigger] after[i]).0,
        (#[trigger] after[j]).0,
    ) by {
        assert(after[i].0 == before[i].0 && after[j].0 == before[j].0);
    }
    assert forall|map: Map<Seq<char>, Agg>| #[trigger] holds(before, map) implies holds(
        after,
        map.insert(name, value),
    ) by {
        let next = map.insert(name, value);
        assert forall|i: int| 0 <= i < after.len() implies next.contains_key(
            (#[trigger] after[i]).0,
        ) && next[after[i].0] == after[i].1 by {
            assert(after[i].0 == before[i].0);
            if i != at {
                precedes_is_total(before[i].0, name);
                if i < at {
                    assert(precedes(before[i].0, before[at].0));
                } else {
                    assert(precedes(before[at].0, before[i].0));
                }
            }
        }
        assert forall|other: Seq<char>| #[trigger] next.contains_key(other) implies named(
            after,
            other,
        ) by {
            if other == name {
                assert(after[at].0 == other);
            } else {
                assert(map.contains_key(other));
                let i = choose|i: int| 0 <= i < before.len() && (#[trigger] before[i]).0 == other;
                assert(after[i].0 == other);
            }
        }
    }
}

proof fn lemma_insert_entry(
    before: Seq<(Seq<char>, Agg)>,
    at: int,
    name: Seq<char>,
    value: Agg,
)
    requires
        0 <= at <= before.len(),
        ascending(before),
        forall|i: int| 0 <= i < at ==> precedes((#[trigger] before[i]).0, name),
        at < before.len() ==> precedes(name, before[at].0),
    ensures
        ascending(before.insert(at, (name, value))),
        forall|map: Map<Seq<char>, Agg>| #[trigger]
            holds(before, map) ==> holds(
                before.insert(at, (name, value)),
                map.insert(name, value),
            ),
{
    let after = before.insert(at, (name, value));
    assert forall|j: int| at <= j < before.len() implies precedes(
        name,
        (#[trigger] before[j]).0,
    ) by {
        if j > at {
            assert(precedes(before[at].0, before[j].0));
            precedes_is_transitive(name, before[at].0, before[j].0);
        }
    }
    assert forall|i: int, j: int| 0 <= i < j < after.len() implies precedes(
        (#[trigger] after[i]).0,
        (#[trigger] after[j]).0,
    ) by {
        let p = if i < at {
            i
        } else {
            i - 1
        };
        let q = if j < at {
            j
        } else {
            j - 1
        };
        if i == at {
            assert(after[j] == before[q]);
        } else if j == at {
            assert(after[i] == before[p]);
        } else {
            assert(after[i] == before[p] && after[j] == before[q]);
        }
    }
    assert forall|map: Map<Seq<char>, Agg>| #[trigger] holds(before, map) implies holds(
        after,
        map.insert(name, value),
    ) by {
        let next = map.insert(name, value);
        assert forall|i: int| 0 <= i < after.len() implies next.contains_key(
            (#[trigger] after[i]).0,
        ) && next[after[i].0] == after[i].1 by {
            if i != at {
                let p = if i < at {
                    i
                } else {
                    i - 1
                };
                assert(after[i] == before[p]);
                precedes_is_total(before[p].0, name);
            }
        }
        assert forall|other: Seq<char>| #[trigger] next.contains_key(other) implies named(
            after,
            other,
        ) by {
            if other == name {
                assert(after[at].0 == other);
            } else {
                assert(map.contains_key(other));
                let i = choose|i: int| 0 <= i < before.len() && (#[trigger] before[i]).0 == other;
                if i < at {
                    assert(after[i].0 == other);
                } else {
                    assert(after[i + 1].0 == other);
                }
            }
        }
    }
}

impl NameTable {
    #[verifier::type_invariant]
    closed spec fn ordered(&self) -> bool {
        ascending(self@)
    }

    /// Collects the aggregate of each name; of a name that occurs twice the last one stays.
    pub fn collect(names: &Vec<String>, values: &Vec<Agg>) -> (r: NameTable)
        requires
            values@.len() == names@.len(),
        ensures
            ascending(r@),
            holds(r@, table_map(texts(names@), values@, names@.len() as int)),
            forall|k: int|
                0 <= k < names@.len() && (forall|j: int|
                    k < j < names@.len() ==> (#[trigger] names@[j])@ != names@[k]@)
                    ==> r@.contains(((#[trigger] names@[k])@, values@[k])),
            forall|i: int|
                0 <= i < r@.len() ==> exists|k: int|
                    0 <= k < names@.len() && (#[trigger] r@[i]) == (
                        (#[trigger] names@[k])@,
                        values@[k],
                    ),
    {
        let mut entries: Vec<(String, Agg)> = Vec::new();
        let ghost all = texts(names@);
        let mut k: usize = 0;
        assert(plain(entries@) == Seq::<(Seq<char>, Agg)>::empty());
        while k < names.len()
            invariant
                values@.len() == names@.len(),
                all == texts(names@),
                k <= names@.len(),
                ascending(plain(entries@)),
                holds(plain(entries@), table_map(all, values@, k as int)),
            decreases names@.len() - k,
        {
            put_entry(&mut entries, &names[k], values[k]);
            k += 1;
        }
        let table: NameTable = NameTable { entries };
        proof {
            table_keeps_names_and_values(all, values@, table@);
            assert forall|k: int|
                0 <= k < names@.len() && (forall|j: int|
                    k < j < names@.len() ==> (#[trigger] names@[j])@ != names@[k]@)
                    implies table@.contains(((#[trigger] names@[k])@, values@[k])) by {
                assert(all[k] == names@[k]@);
                assert forall|j: int| k < j < all.len() implies #[trigger] all[j] != all[k] by {
                    assert(all[j] == names@[j]@);
                }
            }
            assert forall|i: int| 0 <= i < table@.len() implies exists|k: int|
                0 <= k < names@.len() && (#[trigger] table@[i]) == (
                    (#[trigger] names@[k])@,
                    values@[k],
                ) by {
                let k = choose|k: int|
                    0 <= k < all.len() && table@[i] == (#[trigger] all[k], values@[k]);
                assert(all[k] == names@[k]@);
            }
        }
        table
    }

    /// The number of names.
    pub fn len(&self) -> (r: usize)
        ensures
            r == self@.len(),
    {
        self.entries.len()
    }

    /// The entry at a place.
    pub fn entry(&self, at: usize) -> (r: (&str, Agg))
        requires
            at < self@.len(),
        ensures
            (r.0@, r.1) == self@[at as int],
    {
        (self.entries[at].0.as_str(), self.entries[at].1)
    }

    /// The aggregate of a name, where the table has it.
    pub fn get(&self, name: &str) -> (r: Option<Agg>)
        ensures
            match r {
                Some(value) => self@.contains((name@, value)),
                None => !named(self@, name@),
            },
    {
        let wanted: String = name.to_string();
        let mut i: usize = 0;
        while i < self.entries.len()
            invariant
                wanted@ == name@,
                i <= self.entries@.len(),
                forall|j: int| 0 <= j < i ==> (#[trigger] self@[j]).0 != name@,
            decreases self.entries@.len() - i,
        {
            assert(self@[i as int] == (self.entries@[i as int].0@, self.entries@[i as int].1));
            if self.entries[i].0 == wanted {
                return Some(self.entries[i].1);
            }
            i += 1;
        }
        None
    }
}

/// A map has one table: ascending entries that hold the same map are the same entries.
pub proof fn table_is_unique(
    a: Seq<(Seq<char>, Agg)>,
    b: Seq<(Seq<char>, Agg)>,
    map: Map<Seq<char>, Agg>,
)
    requires
        ascending(a),
        ascending(b),
        holds(a, map),
        holds(b, map),
    ensures
        a == b,
{
    if a.len() <= b.len() {
        lemma_tables_agree(a, b, map, a.len() as int);
    } else {
        lemma_tables_agree(b, a, map, b.len() as int);
    }
    assert(a =~= b);
}

proof fn lemma_tables_agree(
    a: Seq<(Seq<char>, Agg)>,
    b: Seq<(Seq<char>, Agg)>,
    map: Map<Seq<char>, Agg>,
    k: int,
)
    requires
        ascending(a),
        ascending(b),
        holds(a, map),
        holds(b, map),
        0 <= k <= a.len() <= b.len(),
    ensures
        forall|i: int| 0 <= i < k ==> a[i] == b[i],
        k == a.len() ==> a.len() == b.len(),
    decreases k,
{
    if k > 0 {
        lemma_tables_agree(a, b, map, k - 1);
        let i = k - 1;
        assert(map.contains_key(a[i].0) && map.contains_key(b[i].0));
        assert(named(b, a[i].0) && named(a, b[i].0));
        let m = choose|m: int| 0 <= m < b.len() && (#[trigger] b[m]).0 == a[i].0;
        let w = choose|w: int| 0 <= w < a.len() && (#[trigger] a[w]).0 == b[i].0;
        precedes_is_total(a[i].0, b[i].0);
        precedes_is_total(a[i].0, a[i].0);
        precedes_is_total(b[i].0, b[i].0);
        if m < i {
            assert(a[m] == b[m]);
            assert(precedes(a[m].0, a[i].0));
        }
        if w < i {
            assert(a[w] == b[w]);
            assert(precedes(b[w].0, b[i].0));
        }
        if m > i && w > i {
            assert(precedes(b[i].0, b[m].0));
            assert(precedes(a[i].0, a[w].0));
        }
        assert(a[i].0 == b[i].0);
    }
    if k == a.len() && k < b.len() {
        assert(map.contains_key(b[k].0));
        assert(named(a, b[k].0));
        let w = choose|w: int| 0 <= w < a.len() && (#[trigger] a[w]).0 == b[k].0;
        assert(a[w] == b[w]);
        assert(precedes(b[w].0, b[k].0));
        precedes_is_total(b[k].0, b[k].0);
    }
}

/// Whether medians can be compared: with two entries or more, each must be a number.
pub open spec fn comparable(entries: Seq<(Seq<char>, Agg)>) -> bool {
    entries.len() <= 1 || forall|i: int|
        0 <= i < entries.len() ==> !(#[trigger] entries[i]).1.median.nan()
}

/// Checks whether medians can be compared.
pub fn is_comparable(stats: &NameTable) -> (r: bool)
    ensures
        r == comparable(stats@),
{
    let mut i: usize = 0;
    while i < stats.len()
        invariant
            i <= stats@.len(),
            forall|j: int| 0 <= j < i ==> !(#[trigger] stats@[j]).1.median.nan(),
        decreases stats@.len() - i,
    {
        if stats.entry(i).1.median.is_nan() {
            assert(stats@[i as int].1.median.nan());
            return stats.len() <= 1;
        }
        i += 1;
    }
    true
}

/// Whether the entry at place `i` has the best median, and is the first of those that have.
pub open spec fn wins(entries: Seq<(Seq<char>, Agg)>, metric: Metric, i: int) -> bool {
    &&& 0 <= i < entries.len()
    &&& forall|j: int|
        0 <= j < entries.len() ==> !better(
            metric,
            (#[trigger] entries[j]).1.median,
            entries[i].1.median,
        )
    &&& forall|j: int|
        0 <= j < i ==> better(metric, entries[i].1.median, (#[trigger] entries[j]).1.median)
}

/// The engine with the best median (the smallest latency, the largest throughput); of several
/// the first by name, and the empty name where there is no engine.
pub fn fastest_by(stats: &NameTable, metric: Metric) -> (r: String)
    requires
        comparable(stats@),
    ensures
        stats@.len() == 0 ==> r@ == Seq::<char>::empty(),
        stats@.len() > 0 ==> exists|i: int| #[trigger]
            wins(stats@, metric, i) && r@ == stats@[i].0 && forall|j: int|
                0 <= j < stats@.len() && j != i && !better(
                    metric,
                    stats@[i].1.median,
                    (#[trigger] stats@[j]).1.median,
                ) ==> precedes(r@, stats@[j].0),
{
    proof {
        use_type_invariant(stats);
    }
    if stats.len() == 0 {
        return String::new();
    }
    let mut best: usize = 0;
    let mut i: usize = 1;
    let ghost all = stats@;
    while i < stats.len()
        invariant
            all == stats@,
            comparable(all),
            best < i <= all.len(),
            forall|j: int|
                0 <= j < i ==> !better(
                    metric,
                    (#[trigger] all[j]).1.median,
                    all[best as int].1.median,
                ),
            forall|j: int|
                0 <= j < best ==> better(
                    metric,
                    all[best as int].1.median,
                    (#[trigger] all[j]).1.median,
                ),
        decreases all.len() - i,
    {
        let x: Num = stats.entry(i).1.median;
        let y: Num = stats.entry(best).1.median;
        if beats(metric, x, y) {
            proof {
                assert forall|j: int| 0 <= j < i implies better(
                    metric,
                    all[i as int].1.median,
                    (#[trigger] all[j]).1.median,
                ) by {
                    assert(!all[j].1.median.nan());
                }
            }
            best = i;
        }
        i += 1;
    }
    proof {
        assert(wins(all, metric, best as int));
    }
    stats.entry(best).0.to_string()
}

/// The pairs of places below `n` from place `i` on, the smaller one first, in order.
pub open spec fn pairs_from(i: int, n: int) -> Seq<(int, int)>
    decreases n - i,
{
    if i >= n {
        Seq::empty()
    } else {
        Seq::new((n - i - 1) as nat, |d: int| (i, i + 1 + d)) + pairs_from(i + 1, n)
    }
}

/// Every unordered pair of places below `n` occurs exactly once, and no others do.
pub proof fn pairs_are_complete(i: int, n: int, a: int, b: int)
    requires
        0 <= i <= n,
    ensures
        pairs_from(i, n).contains((a, b)) <==> i <= a < b < n,
        pairs_from(i, n).no_duplicates(),
        2 * pairs_from(i, n).len() == (n - i) * (n - i - 1),
    decreases n - i,
{
    let all = pairs_from(i, n);
    if i < n {
        pairs_are_complete(i + 1, n, a, b);
        let here = Seq::new((n - i - 1) as nat, |d: int| (i, i + 1 + d));
        let rest = pairs_from(i + 1, n);
        assert(all == here + rest);
        if i <= a < b < n {
            if a == i {
                assert(here[b - i - 1] == (a, b));
                assert(all[b - i - 1] == (a, b));
            } else {
                let k = choose|k: int| 0 <= k < rest.len() && rest[k] == (a, b);
                assert(all[here.len() + k] == (a, b));
            }
        }
        if all.contains((a, b)) {
            let k = choose|k: int| 0 <= k < all.len() && all[k] == (a, b);
            if k >= here.len() {
                assert(rest[k - here.len()] == (a, b));
            }
        }
        assert forall|x: int, y: int| 0 <= x < all.len() && 0 <= y < all.len() && x != y implies all[x]
            != all[y] by {
            lemma_firsts(i + 1, n);
            if x >= here.len() && y >= here.len() {
                assert(rest[x - here.len()] != rest[y - here.len()]);
            } else if x >= here.len() {
                assert(all[x] == rest[x - here.len()]);
            } else if y >= here.len() {
                assert(all[y] == rest[y - here.len()]);
            }
        }
        assert((n - i) * (n - i - 1) == 2 * (n - i - 1) + (n - (i + 1)) * (n - (i + 1) - 1))
            by (nonlinear_arith);
    } else {
        assert((n - i) * (n - i - 1) == 0) by (nonlinear_arith)
            requires
                n == i,
        ;
    }
}

proof fn lemma_firsts(i: int, n: int)
    ensures
        forall|k: int|
            0 <= k < pairs_from(i, n).len() ==> i <= (#[trigger] pairs_from(i, n)[k]).0
                && pairs_from(i, n)[k].0 < pairs_from(i, n)[k].1 < n,
    decreases n - i,
{
    if i < n {
        lemma_firsts(i + 1, n);
        let here = Seq::new((n - i - 1) as nat, |d: int| (i, i + 1 + d));
        let rest = pairs_from(i + 1, n);
        let all = pairs_from(i, n);
        assert forall|k: int| 0 <= k < all.len() implies i <= (#[trigger] all[k]).0 && all[k].0
            < all[k].1 < n by {
            if k >= here.len() {
                assert(all[k] == rest[k - here.len()]);
            }
        }
    }
}

/// Pairs come in order: first by the smaller place, then by the larger.
pub proof fn pairs_come_in_order(i: int, n: int, x: int, y: int)
    requires
        0 <= x < y < pairs_from(i, n).len(),
    ensures
        pairs_from(i, n)[x].0 < pairs_from(i, n)[y].0 || (pairs_from(i, n)[x].0 == pairs_from(
            i,
            n,
        )[y].0 && pairs_from(i, n)[x].1 < pairs_from(i, n)[y].1),
    decreases n - i,
{
    if i < n {
        let here = Seq::new((n - i - 1) as nat, |d: int| (i, i + 1 + d));
        let rest = pairs_from(i + 1, n);
        let all = pairs_from(i, n);
        assert(all == here + rest);
        if x >= here.len() {
            assert(all[x] == rest[x - here.len()] && all[y] == rest[y - here.len()]);
            pairs_come_in_order(i + 1, n, x - here.len(), y - here.len());
        } else if y >= here.len() {
            assert(all[x] == here[x] && all[y] == rest[y - here.len()]);
            lemma_firsts(i + 1, n);
        } else {
            assert(all[x] == here[x] && all[y] == here[y]);
        }
    }
}

/// Pairs of places, as mathematical integers.
pub open spec fn places(v: Seq<(usize, usize)>) -> Seq<(int, int)> {
    v.map_values(|p: (usize, usize)| (p.0 as int, p.1 as int))
}

/// Lists every unordered pair of places below `n`.
pub fn unordered_pairs(n: usize) -> (r: Vec<(usize, usize)>)
    ensures
        places(r@) == pairs_from(0, n as int),
{
    let mut r: Vec<(usize, usize)> = Vec::new();
    let mut i: usize = 0;
    assert(places(r@) + pairs_from(0, n as int) =~= pairs_from(0, n as int));
    while i < n
        invariant
            i <= n,
            places(r@) + pairs_from(i as int, n as int) == pairs_from(0, n as int),
        decreases n - i,
    {
        let ghost row = Seq::new((n - i - 1) as nat, |d: int| (i as int, i + 1 + d));
        let ghost start = places(r@);
        let mut j: usize = i + 1;
        while j < n
            invariant
                i < j <= n,
                row == Seq::new((n - i - 1) as nat, |d: int| (i as int, i + 1 + d)),
                places(r@) == start + row.take(j - i - 1),
            decreases n - j,
        {
            let ghost before = r@;
            r.push((i, j));
            assert(places(r@) =~= places(before).push((i as int, j as int)));
            assert(row.take(j - i) == row.take(j - i - 1).push((i as int, j as int)));
            assert(places(r@) =~= start + row.take(j - i));
            j += 1;
        }
        assert(row.take(n - i - 1) == row);
        assert(start + (row + pairs_from(i + 1, n as int)) =~= (start + row) + pairs_from(
            i + 1,
            n as int,
        ));
        i += 1;
    }
    assert(places(r@) + pairs_from(n as int, n as int) =~= places(r@));
    r
}

/// Speedup ratio between two engines, such that more than one favours `a`.
#[derive(Debug)]
pub struct PairRec {
    pub a: String,
    pub b: String,
    pub speedup_x: Agg,
    pub distinguishable: bool,
    pub faster: String,
}

/// The samples to divide so that a ratio above one favours the first engine: for latency the
/// second engine's by the first's, for throughput the first engine's by the second's.
pub open spec fn ratio_operands<T>(metric: Metric, first: T, second: T) -> (T, T) {
    match metric {
        Metric::Latency => (second, first),
        Metric::Throughput => (first, second),
    }
}

/// The numerator exceeds the denominator exactly when the first engine's sample is the better
/// one, whichever way the metric runs.
pub proof fn ratio_favours_first(metric: Metric, first: Num, second: Num)
    ensures
        ({
            let (num, den) = ratio_operands(metric, first, second);
            den.below(num) <==> better(metric, first, second)
        }),
{
}

/// Whether the ratios of two sample lists can be sorted, whatever `div` makes of them.
pub open spec fn ratios_sort<D: Fn(Num, Num) -> Num>(num: Seq<Num>, den: Seq<Num>, div: D) -> bool {
    let pairs = trial_pairs(num, den);
    pairs.len() <= 1 || forall|k: int, q: Num|
        0 <= k < pairs.len() && #[trigger] call_ensures(div, (pairs[k].0, pairs[k].1), q)
            ==> !q.nan()
}

/// Whether a record is that of the engines at places `i` and `j`.
pub open spec fn pair_record<
    D: Fn(Num, Num) -> Num,
    B: Fn(Num, Num, Rank) -> Num,
    S: Fn(Num, Num) -> Num,
>(
    names: Seq<String>,
    samples: Seq<Vec<Num>>,
    metric: Metric,
    div: D,
    blend: B,
    minus: S,
    pair: (int, int),
    r: PairRec,
) -> bool {
    let (num, den) = ratio_operands(metric, samples[pair.0]@, samples[pair.1]@);
    let a = names[pair.0]@;
    let b = names[pair.1]@;
    &&& r.a@ == a
    &&& r.b@ == b
    &&& exists|ratios: Seq<Num>| #[trigger]
        quotients(trial_pairs(num, den), div, ratios) && aggregates(
            ratios,
            blend,
            minus,
            r.speedup_x,
        )
    &&& (r.distinguishable, r.faster@) == verdict(r.speedup_x, a, b)
}

/// A speedup compares the two engines trial by trial: where both were measured in every trial and
/// all times or rates are positive, it aggregates one ratio for each trial. For latency that is
/// the second engine's time by the first's, for throughput the first engine's rate by the
/// second's. The record has their names, and the faster one is the one on whose side of one the
/// middle half of the ratios lies.
pub proof fn speedups_are_trial_by_trial<
    D: Fn(Num, Num) -> Num,
    B: Fn(Num, Num, Rank) -> Num,
    S: Fn(Num, Num) -> Num,
>(
    names: Seq<String>,
    samples: Seq<Vec<Num>>,
    metric: Metric,
    div: D,
    blend: B,
    minus: S,
    pair: (int, int),
    r: PairRec,
)
    requires
        samples[pair.0]@.len() == samples[pair.1]@.len(),
        forall|t: int|
            0 <= t < samples[pair.0]@.len() ==> (Num { bits: 0 }).below(
                #[trigger] samples[pair.0]@[t],
            ),
        forall|t: int|
            0 <= t < samples[pair.1]@.len() ==> (Num { bits: 0 }).below(
                #[trigger] samples[pair.1]@[t],
            ),
        pair_record(names, samples, metric, div, blend, minus, pair, r),
    ensures
        exists|ratios: Seq<Num>|
            {
                &&& #[trigger] aggregates(ratios, blend, minus, r.speedup_x)
                &&& ratios.len() == samples[pair.0]@.len()
                &&& metric == Metric::Latency ==> forall|t: int|
                    0 <= t < ratios.len() ==> call_ensures(
                        div,
                        (samples[pair.1]@[t], samples[pair.0]@[t]),
                        #[trigger] ratios[t],
                    )
                &&& metric == Metric::Throughput ==> forall|t: int|
                    0 <= t < ratios.len() ==> call_ensures(
                        div,
                        (samples[pair.0]@[t], samples[pair.1]@[t]),
                        #[trigger] ratios[t],
                    )
            },
        r.a@ == names[pair.0]@,
        r.b@ == names[pair.1]@,
        r.distinguishable <==> (Num { bits: 0x3ff0_0000_0000_0000 }).below(r.speedup_x.p25)
            || r.speedup_x.p75.below(Num { bits: 0x3ff0_0000_0000_0000 }),
        (Num { bits: 0x3ff0_0000_0000_0000 }).below(r.speedup_x.p25) ==> r.faster@
            == names[pair.0]@,
        !(Num { bits: 0x3ff0_0000_0000_0000 }).below(r.speedup_x.p25) && r.speedup_x.p75.below(
            Num { bits: 0x3ff0_0000_0000_0000 },
        ) ==> r.faster@ == names[pair.1]@,
        !r.distinguishable ==> r.faster@ == "tie"@,
{
    let (num, den) = ratio_operands(metric, samples[pair.0]@, samples[pair.1]@);
    let ratios = choose|ratios: Seq<Num>| #[trigger]
        quotients(trial_pairs(num, den), div, ratios) && aggregates(
            ratios,
            blend,
            minus,
            r.speedup_x,
        );
    ratios_are_trial_by_trial(num, den, div, ratios);
    assert(aggregates(ratios, blend, minus, r.speedup_x));
}

/// The metric that runs the other way.
pub open spec fn opposite(metric: Metric) -> Metric {
    match metric {
        Metric::Latency => Metric::Throughput,
        Metric::Throughput => Metric::Latency,
    }
}

/// Exchanging two engines and turning the metric round changes nothing but the names: the
/// ratios are the same, and so is whether the engines can be told apart; the winner keeps its
/// side. The operations must be functions.
pub proof fn exchange_keeps_ratios<
    D: Fn(Num, Num) -> Num,
    B: Fn(Num, Num, Rank) -> Num,
    S: Fn(Num, Num) -> Num,
>(
    names: Seq<String>,
    samples: Seq<Vec<Num>>,
    pair: (int, int),
    other_names: Seq<String>,
    other_samples: Seq<Vec<Num>>,
    other_pair: (int, int),
    metric: Metric,
    div: D,
    blend: B,
    minus: S,
    r: PairRec,
    other: PairRec,
)
    requires
        steady(div),
        steady_blend(blend),
        steady(minus),
        pair_record(names, samples, metric, div, blend, minus, pair, r),
        pair_record(
            other_names,
            other_samples,
            opposite(metric),
            div,
            blend,
            minus,
            other_pair,
            other,
        ),
        other_names[other_pair.0]@ == names[pair.1]@,
        other_names[other_pair.1]@ == names[pair.0]@,
        other_samples[other_pair.0]@ == samples[pair.1]@,
        other_samples[other_pair.1]@ == samples[pair.0]@,
    ensures
        r.speedup_x == other.speedup_x,
        r.distinguishable == other.distinguishable,
        r.distinguishable ==> (r.faster@ == r.a@ && other.faster@ == other.a@) || (r.faster@
            == r.b@ && other.faster@ == other.b@),
        !r.distinguishable ==> r.faster@ == "tie"@ && other.faster@ == "tie"@,
{
    let (num, den) = ratio_operands(metric, samples[pair.0]@, samples[pair.1]@);
    let pairs = trial_pairs(num, den);
    let x = choose|ratios: Seq<Num>| #[trigger]
        quotients(pairs, div, ratios) && aggregates(ratios, blend, minus, r.speedup_x);
    let y = choose|ratios: Seq<Num>| #[trigger]
        quotients(pairs, div, ratios) && aggregates(ratios, blend, minus, other.speedup_x);
    assert forall|k: int| 0 <= k < pairs.len() implies x[k] == y[k] by {
        assert(call_ensures(div, (pairs[k].0, pairs[k].1), x[k]));
        assert(call_ensures(div, (pairs[k].0, pairs[k].1), y[k]));
    }
    assert(x =~= y);
    aggregates_are_unique(x, blend, minus, r.speedup_x, other.speedup_x);
}

/// Whether records are those of every unordered pair of engines, in order.
pub open spec fn pair_records<
    D: Fn(Num, Num) -> Num,
    B: Fn(Num, Num, Rank) -> Num,
    S: Fn(Num, Num) -> Num,
>(
    names: Seq<String>,
    samples: Seq<Vec<Num>>,
    metric: Metric,
    div: D,
    blend: B,
    minus: S,
    r: Seq<PairRec>,
) -> bool {
    &&& r.len() == pairs_from(0, names.len() as int).len()
    &&& forall|k: int|
        0 <= k < r.len() ==> pair_record(
            names,
            samples,
            metric,
            div,
            blend,
            minus,
            pairs_from(0, names.len() as int)[k],
            #[trigger] r[k],
        )
}

/// Whether the engines at places `i` and `j` have given ratios that cannot be sorted.
pub open spec fn pair_unsortable<D: Fn(Num, Num) -> Num>(
    samples: Seq<Vec<Num>>,
    metric: Metric,
    div: D,
    i: int,
    j: int,
) -> bool {
    let (num, den) = ratio_operands(metric, samples[i]@, samples[j]@);
    exists|ratios: Seq<Num>| #[trigger]
        quotients(trial_pairs(num, den), div, ratios) && !sortable(ratios)
}

/// Per-trial speedup ratios of every unordered pair of engines; nothing where two ratios or
/// more are to be sorted and one of them is not a number.
pub fn checked_pairwise<
    D: Fn(Num, Num) -> Num,
    B: Fn(Num, Num, Rank) -> Num,
    S: Fn(Num, Num) -> Num,
>(
    names: &Vec<String>,
    samples: &Vec<Vec<Num>>,
    metric: Metric,
    div: &D,
    blend: &B,
    minus: &S,
) -> (r: Option<Vec<PairRec>>)
    requires
        names@.len() <= 1 || names@.len() <= samples@.len(),
        forall|a: Num, b: Num| call_requires(*div, (a, b)),
        forall|lo: Num, hi: Num, k: Rank| call_requires(*blend, (lo, hi, k)),
        forall|a: Num, b: Num| call_requires(*minus, (a, b)),
    ensures
        match r {
            Some(out) => pair_records(names@, samples@, metric, *div, *blend, *minus, out@),
            None => exists|i: int, j: int|
                0 <= i < j < names@.len() && #[trigger] pair_unsortable(
                    samples@,
                    metric,
                    *div,
                    i,
                    j,
                ),
        },
{
    let pairs: Vec<(usize, usize)> = unordered_pairs(names.len());
    let ghost all = pairs_from(0, names@.len() as int);
    let mut out: Vec<PairRec> = Vec::new();
    let mut k: usize = 0;
    while k < pairs.len()
        invariant
            names@.len() <= 1 || names@.len() <= samples@.len(),
            forall|a: Num, b: Num| call_requires(*div, (a, b)),
            forall|lo: Num, hi: Num, k: Rank| call_requires(*blend, (lo, hi, k)),
            forall|a: Num, b: Num| call_requires(*minus, (a, b)),
            all == pairs_from(0, names@.len() as int),
            all == places(pairs@),
            k <= pairs@.len(),
            out@.len() == k,
            forall|m: int|
                0 <= m < k ==> pair_record(
                    names@,
                    samples@,
                    metric,
                    *div,
                    *blend,
                    *minus,
                    all[m],
                    #[trigger] out@[m],
                ),
        decreases pairs@.len() - k,
    {
        let i: usize = pairs[k].0;
        let j: usize = pairs[k].1;
        proof {
            assert(all[k as int] == (i as int, j as int));
            lemma_firsts(0, names@.len() as int);
            assert(0 <= i < j < names@.len());
        }
        let ratios: Vec<Num> = match metric {
            Metric::Latency => zip_ratio(&samples[j], &samples[i], div),
            Metric::Throughput => zip_ratio(&samples[i], &samples[j], div),
        };
        let ghost (num, den) = ratio_operands(metric, samples@[i as int]@, samples@[j as int]@);
        assert(quotients(trial_pairs(num, den), *div, ratios@));
        if !is_sortable(&ratios) {
            assert(pair_unsortable(samples@, metric, *div, i as int, j as int));
            return None;
        }
        let speedup_x: Agg = agg(&ratios, blend, minus);
        let (distinguishable, faster) = decide(
            &speedup_x,
            names[i].as_str(),
            names[j].as_str(),
        );
        let rec: PairRec = PairRec {
            a: names[i].clone(),
            b: names[j].clone(),
            speedup_x,
            distinguishable,
            faster,
        };
        assert(pair_record(
            names@,
            samples@,
            metric,
            *div,
            *blend,
            *minus,
            (i as int, j as int),
            rec,
        ));
        out.push(rec);
        k += 1;
    }
    Some(out)
}

/// Per-trial speedup ratios of every unordered pair of engines.
pub fn pairwise<
    D: Fn(Num, Num) -> Num,
    B: Fn(Num, Num, Rank) -> Num,
    S: Fn(Num, Num) -> Num,
>(
    names: &Vec<String>,
    samples: &Vec<Vec<Num>>,
    metric: Metric,
    div: &D,
    blend: &B,
    minus: &S,
) -> (r: Vec<PairRec>)
    requires
        names@.len() <= 1 || names@.len() <= samples@.len(),
        forall|a: Num, b: Num| call_requires(*div, (a, b)),
        forall|lo: Num, hi: Num, k: Rank| call_requires(*blend, (lo, hi, k)),
        forall|a: Num, b: Num| call_requires(*minus, (a, b)),
        forall|i: int, j: int|
            0 <= i < j < names@.len() ==> {
                let (num, den) = ratio_operands(
                    metric,
                    (#[trigger] samples@[i])@,
                    (#[trigger] samples@[j])@,
                );
                ratios_sort(num, den, *div)
            },
    ensures
        pair_records(names@, samples@, metric, *div, *blend, *minus, r@),
{
    match checked_pairwise(names, samples, metric, div, blend, minus) {
        Some(out) => out,
        None => {
            proof {
                let (i, j) = choose|i: int, j: int|
                    0 <= i < j < names@.len() && #[trigger] pair_unsortable(
                        samples@,
                        metric,
                        *div,
                        i,
                        j,
                    );
                let (num, den) = ratio_operands(metric, samples@[i]@, samples@[j]@);
                let pairs = trial_pairs(num, den);
                assert(ratios_sort(num, den, *div));
                let ratios = choose|ratios: Seq<Num>| #[trigger]
                    quotients(pairs, *div, ratios) && !sortable(ratios);
                let m = choose|m: int| 0 <= m < ratios.len() && (#[trigger] ratios[m]).nan();
                assert(call_ensures(*div, (pairs[m].0, pairs[m].1), ratios[m]));
            }
            Vec::new()
        },
    }
}

/// Every two engines have one record of their own: there are as many records as unordered pairs,
/// and each pair has its record at its place among them.
pub proof fn every_pair_is_recorded<
    D: Fn(Num, Num) -> Num,
    B: Fn(Num, Num, Rank) -> Num,
    S: Fn(Num, Num) -> Num,
>(
    names: Seq<String>,
    samples: Seq<Vec<Num>>,
    metric: Metric,
    div: D,
    blend: B,
    minus: S,
    r: Seq<PairRec>,
    i: int,
    j: int,
)
    requires
        0 <= i < j < names.len(),
        pair_records(names, samples, metric, div, blend, minus, r),
    ensures
        2 * r.len() == names.len() * (names.len() - 1),
        exists|k: int|
            0 <= k < r.len() && pair_record(
                names,
                samples,
                metric,
                div,
                blend,
                minus,
                (i, j),
                #[trigger] r[k],
            ),
{
    let n = names.len() as int;
    let pairs = pairs_from(0, n);
    pairs_are_complete(0, n, i, j);
    assert(pairs.contains((i, j)));
    let k = choose|k: int| 0 <= k < pairs.len() && pairs[k] == (i, j);
    assert(pair_record(names, samples, metric, div, blend, minus, pairs[k], r[k]));
}

/// Records come in the order of the engines: first by the one named first, then by the other.
pub proof fn records_come_in_order<
    D: Fn(Num, Num) -> Num,
    B: Fn(Num, Num, Rank) -> Num,
    S: Fn(Num, Num) -> Num,
>(
    names: Seq<String>,
    samples: Seq<Vec<Num>>,
    metric: Metric,
    div: D,
    blend: B,
    minus: S,
    r: Seq<PairRec>,
    k: int,
    m: int,
)
    requires
        0 <= k < m < r.len(),
        pair_records(names, samples, metric, div, blend, minus, r),
    ensures
        exists|a: int, b: int, c: int, d: int|
            0 <= a < b < names.len() && 0 <= c < d < names.len() && (a < c || (a == c && b < d))
                && #[trigger] pair_record(names, samples, metric, div, blend, minus, (a, b), r[k])
                && #[trigger] pair_record(names, samples, metric, div, blend, minus, (c, d), r[m]),
{
    let n = names.len() as int;
    let pairs = pairs_from(0, n);
    lemma_firsts(0, n);
    pairs_come_in_order(0, n, k, m);
    let (a, b) = pairs[k];
    let (c, d) = pairs[m];
    assert(pair_record(names, samples, metric, div, blend, minus, pairs[k], r[k]));
    assert(pair_record(names, samples, metric, div, blend, minus, pairs[m], r[m]));
    assert(pair_record(names, samples, metric, div, blend, minus, (a, b), r[k]));
    assert(pair_record(names, samples, metric, div, blend, minus, (c, d), r[m]));
}

/// Ratios that are numbers can be sorted.
pub proof fn numbers_sort<D: Fn(Num, Num) -> Num>(
    samples: Seq<Vec<Num>>,
    metric: Metric,
    div: D,
    i: int,
    j: int,
)
    requires
        forall|a: Num, b: Num, x: Num| #[trigger] call_ensures(div, (a, b), x) ==> !x.nan(),
    ensures
        !pair_unsortable(samples, metric, div, i, j),
{
    let (num, den) = ratio_operands(metric, samples[i]@, samples[j]@);
    let pairs = trial_pairs(num, den);
    assert forall|ratios: Seq<Num>| #[trigger] quotients(pairs, div, ratios) implies sortable(
        ratios,
    ) by {
        assert forall|k: int| 0 <= k < ratios.len() implies !(#[trigger] ratios[k]).nan() by {
            assert(call_ensures(div, (pairs[k].0, pairs[k].1), ratios[k]));
        }
    }
}

} // verus!
