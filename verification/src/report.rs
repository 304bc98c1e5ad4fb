//! Records of what was measured, and the lines that sum them up.
use crate::compare::{
    ascending, checked_pairwise, comparable, fastest_by, holds, is_comparable, numbers_sort,
    pair_records,
    pair_unsortable, table_keeps_names_and_values, table_map, wins, Metric, NameTable, PairRec,
};
use crate::environment::{Environment, SinglePassEnvironment};
use crate::num::Num;
use crate::schedule::{LatencyAction, LatencyRun};
use crate::stats::{
    agg, aggregates, grows, is_sortable, numeric, numeric_blend, percentile, percentile_is,
    percentile_is_numeric, percentile_parts_samples, percentiles_ascend, rank_is_inside, rank_of,
    same_numbers, sortable, sorting_ascends,
    sorting_forgets_order, sorts, stays_between, Agg, Rank,
};
use crate::text::{decimal, decimal_string, texts, word_count};
use crate::workload::{approx_tokens, batch_sizes, LatencyInput, Profile, ThroughputPlan};
use vstd::prelude::*;

verus! {

/// Aggregates the samples of each engine.
pub fn aggregate_all<B: Fn(Num, Num, Rank) -> Num, S: Fn(Num, Num) -> Num>(
    samples: &Vec<Vec<Num>>,
    blend: &B,
    minus: &S,
) -> (r: Vec<Agg>)
    requires
        forall|k: int| 0 <= k < samples@.len() ==> sortable((#[trigger] samples@[k])@),
        forall|lo: Num, hi: Num, k: Rank| call_requires(*blend, (lo, hi, k)),
        forall|a: Num, b: Num| call_requires(*minus, (a, b)),
    ensures
        r@.len() == samples@.len(),
        forall|k: int|
            0 <= k < r@.len() ==> aggregates(samples@[k]@, *blend, *minus, #[trigger] r@[k]),
{
    let mut r: Vec<Agg> = Vec::new();
    let mut k: usize = 0;
    while k < samples.len()
        invariant
            forall|k: int| 0 <= k < samples@.len() ==> sortable((#[trigger] samples@[k])@),
            forall|lo: Num, hi: Num, k: Rank| call_requires(*blend, (lo, hi, k)),
            forall|a: Num, b: Num| call_requires(*minus, (a, b)),
            k <= samples@.len(),
            r@.len() == k,
            forall|j: int|
                0 <= j < k ==> aggregates(samples@[j]@, *blend, *minus, #[trigger] r@[j]),
        decreases samples@.len() - k,
    {
        assert(sortable(samples@[k as int]@));
        let a: Agg = agg(&samples[k], blend, minus);
        r.push(a);
        k += 1;
    }
    r
}

/// Whether a name is that of the fastest engine: the empty name where there is none.
pub open spec fn is_fastest(table: NameTable, metric: Metric, name: Seq<char>) -> bool {
    if table@.len() == 0 {
        name == Seq::<char>::empty()
    } else {
        exists|i: int| #[trigger] wins(table@, metric, i) && name == table@[i].0
    }
}

/// The latency of all engines on one input.
#[derive(Debug)]
pub struct LatencyRec {
    pub seq_label: String,
    pub approx_tokens: usize,
    /// Milliseconds by engine, lower is better.
    pub ms: NameTable,
    pub fastest: String,
    pub pairwise: Vec<PairRec>,
}

/// The throughput of all engines at one batch size.
#[derive(Debug)]
pub struct ThroughputRec {
    pub batch: usize,
    /// Sentences per second by engine, higher is better.
    pub sps: NameTable,
    pub fastest: String,
    pub pairwise: Vec<PairRec>,
}

/// Whether aggregates are those of each engine's samples.
pub open spec fn all_aggregated<B: Fn(Num, Num, Rank) -> Num, S: Fn(Num, Num) -> Num>(
    samples: Seq<Vec<Num>>,
    blend: B,
    minus: S,
    aggs: Seq<Agg>,
) -> bool {
    &&& aggs.len() == samples.len()
    &&& forall|k: int|
        0 <= k < aggs.len() ==> aggregates(samples[k]@, blend, minus, #[trigger] aggs[k])
}

/// Whether a table, a name and records sum one scenario up: the aggregate of each engine by
/// name, the fastest engine, and every pair of engines.
pub open spec fn scenario_record<
    D: Fn(Num, Num) -> Num,
    B: Fn(Num, Num, Rank) -> Num,
    S: Fn(Num, Num) -> Num,
>(
    names: Seq<String>,
    samples: Seq<Vec<Num>>,
    metric: Metric,
    div: D,
    blend: B,
    minus: S,
    table: NameTable,
    fastest: Seq<char>,
    pairs: Seq<PairRec>,
) -> bool {
    &&& exists|aggs: Seq<Agg>| #[trigger]
        all_aggregated(samples, blend, minus, aggs) && holds(
            table@,
            table_map(texts(names), aggs, names.len() as int),
        )
    &&& ascending(table@)
    &&& is_fastest(table, metric, fastest)
    &&& pair_records(names, samples, metric, div, blend, minus, pairs)
}

/// A scenario is recorded engine by engine: where the names are distinct, the table has under the
/// name of each engine an aggregate of that engine's own samples, and no other entries. The
/// fastest engine is in the table, and none in it has a better median: a smaller one for latency,
/// a larger one for throughput.
pub proof fn records_are_engine_by_engine<
    D: Fn(Num, Num) -> Num,
    B: Fn(Num, Num, Rank) -> Num,
    S: Fn(Num, Num) -> Num,
>(
    names: Seq<String>,
    samples: Seq<Vec<Num>>,
    metric: Metric,
    div: D,
    blend: B,
    minus: S,
    table: NameTable,
    fastest: Seq<char>,
    pairs: Seq<PairRec>,
    k: int,
)
    requires
        samples.len() == names.len(),
        0 <= k < names.len(),
        forall|i: int, j: int|
            0 <= i < j < names.len() ==> (#[trigger] names[i])@ != (#[trigger] names[j])@,
        scenario_record(names, samples, metric, div, blend, minus, table, fastest, pairs),
    ensures
        exists|value: Agg| #[trigger]
            table@.contains((names[k]@, value)) && aggregates(samples[k]@, blend, minus, value),
        forall|i: int|
            0 <= i < table@.len() ==> exists|j: int|
                0 <= j < names.len() && (#[trigger] table@[i]).0 == (#[trigger] names[j])@
                    && aggregates(samples[j]@, blend, minus, table@[i].1),
        exists|best: int|
            0 <= best < table@.len() && (#[trigger] table@[best]).0 == fastest && forall|i: int|
                0 <= i < table@.len() ==> !(if metric == Metric::Latency {
                    (#[trigger] table@[i]).1.median.below(table@[best].1.median)
                } else {
                    table@[best].1.median.below(table@[i].1.median)
                }),
{
    let aggs = choose|aggs: Seq<Agg>| #[trigger]
        all_aggregated(samples, blend, minus, aggs) && holds(
            table@,
            table_map(texts(names), aggs, names.len() as int),
        );
    let all = texts(names);
    assert(all.len() == names.len());
    assert forall|i: int, j: int| 0 <= i < j < all.len() implies #[trigger] all[j]
        != #[trigger] all[i] by {
        assert(all[i] == names[i]@ && all[j] == names[j]@);
    }
    table_keeps_names_and_values(all, aggs, table@);
    assert(all[k] == names[k]@);
    assert(table@.contains((all[k], aggs[k])));
    assert(aggregates(samples[k]@, blend, minus, aggs[k]));
    assert forall|i: int| 0 <= i < table@.len() implies exists|j: int|
        0 <= j < names.len() && (#[trigger] table@[i]).0 == (#[trigger] names[j])@ && aggregates(
            samples[j]@,
            blend,
            minus,
            table@[i].1,
        ) by {
        let j = choose|j: int| 0 <= j < all.len() && table@[i] == (#[trigger] all[j], aggs[j]);
        assert(all[j] == names[j]@);
        assert(aggregates(samples[j]@, blend, minus, aggs[j]));
    }
    let best = choose|i: int| #[trigger] wins(table@, metric, i) && fastest == table@[i].0;
    assert(table@[best].0 == fastest);
}

/// Whether the table of some aggregates has medians that cannot be compared.
pub open spec fn incomparable(names: Seq<Seq<char>>, aggs: Seq<Agg>) -> bool {
    exists|entries: Seq<(Seq<char>, Agg)>| #[trigger]
        holds(entries, table_map(names, aggs, names.len() as int)) && ascending(entries)
            && !comparable(entries)
}

/// Whether a scenario meets a comparison with what is not a number: among one engine's
/// samples, among the medians, or among the ratios of a pair.
pub open spec fn undecided<
    D: Fn(Num, Num) -> Num,
    B: Fn(Num, Num, Rank) -> Num,
    S: Fn(Num, Num) -> Num,
>(
    names: Seq<String>,
    samples: Seq<Vec<Num>>,
    metric: Metric,
    div: D,
    blend: B,
    minus: S,
) -> bool {
    ||| exists|k: int| 0 <= k < samples.len() && !sortable((#[trigger] samples[k])@)
    ||| exists|aggs: Seq<Agg>| #[trigger]
        all_aggregated(samples, blend, minus, aggs) && incomparable(texts(names), aggs)
    ||| exists|i: int, j: int|
        0 <= i < j < names.len() && #[trigger] pair_unsortable(samples, metric, div, i, j)
}

fn scenario<D: Fn(Num, Num) -> Num, B: Fn(Num, Num, Rank) -> Num, S: Fn(Num, Num) -> Num>(
    names: &Vec<String>,
    samples: &Vec<Vec<Num>>,
    metric: Metric,
    div: &D,
    blend: &B,
    minus: &S,
) -> (r: Option<(NameTable, String, Vec<PairRec>)>)
    requires
        samples@.len() == names@.len(),
        forall|a: Num, b: Num| call_requires(*div, (a, b)),
        forall|lo: Num, hi: Num, k: Rank| call_requires(*blend, (lo, hi, k)),
        forall|a: Num, b: Num| call_requires(*minus, (a, b)),
    ensures
        match r {
            Some(sum) => scenario_record(
                names@,
                samples@,
                metric,
                *div,
                *blend,
                *minus,
                sum.0,
                sum.1@,
                sum.2@,
            ) && forall|k: int| 0 <= k < samples@.len() ==> sortable((#[trigger] samples@[k])@),
            None => undecided(names@, samples@, metric, *div, *blend, *minus),
        },
{
    let mut k: usize = 0;
    while k < samples.len()
        invariant
            k <= samples@.len(),
            forall|j: int| 0 <= j < k ==> sortable((#[trigger] samples@[j])@),
        decreases samples@.len() - k,
    {
        if !is_sortable(&samples[k]) {
            assert(!sortable(samples@[k as int]@));
            return None;
        }
        k += 1;
    }
    let aggs: Vec<Agg> = aggregate_all(samples, blend, minus);
    assert(all_aggregated(samples@, *blend, *minus, aggs@));
    let table: NameTable = NameTable::collect(names, &aggs);
    if !is_comparable(&table) {
        proof {
            let all = texts(names@);
            assert(all.len() == names@.len());
            assert(holds(table@, table_map(all, aggs@, all.len() as int)));
            assert(incomparable(texts(names@), aggs@));
        }
        return None;
    }
    let fastest: String = fastest_by(&table, metric);
    match checked_pairwise(names, samples, metric, div, blend, minus) {
        Some(pairs) => Some((table, fastest, pairs)),
        None => None,
    }
}

/// Records the latency of all engines on one input; nothing where a comparison meets what is
/// not a number.
pub fn latency_rec<D: Fn(Num, Num) -> Num, B: Fn(Num, Num, Rank) -> Num, S: Fn(Num, Num) -> Num>(
    input: &LatencyInput,
    names: &Vec<String>,
    samples: &Vec<Vec<Num>>,
    div: &D,
    blend: &B,
    minus: &S,
) -> (r: Option<LatencyRec>)
    requires
        samples@.len() == names@.len(),
        forall|a: Num, b: Num| call_requires(*div, (a, b)),
        forall|lo: Num, hi: Num, k: Rank| call_requires(*blend, (lo, hi, k)),
        forall|a: Num, b: Num| call_requires(*minus, (a, b)),
    ensures
        match r {
            Some(rec) => rec.seq_label@ == input.label@ && rec.approx_tokens == word_count(
                input.text@,
            ) && scenario_record(
                names@,
                samples@,
                Metric::Latency,
                *div,
                *blend,
                *minus,
                rec.ms,
                rec.fastest@,
                rec.pairwise@,
            ) && forall|k: int| 0 <= k < samples@.len() ==> sortable((#[trigger] samples@[k])@),
            None => undecided(names@, samples@, Metric::Latency, *div, *blend, *minus),
        },
{
    match scenario(names, samples, Metric::Latency, div, blend, minus) {
        Some((ms, fastest, pairwise)) => Some(
            LatencyRec {
                seq_label: input.label.clone(),
                approx_tokens: approx_tokens(input.text.as_str()),
                ms,
                fastest,
                pairwise,
            },
        ),
        None => None,
    }
}

/// Records the throughput of all engines at one batch size; nothing where a comparison meets
/// what is not a number.
pub fn throughput_rec<
    D: Fn(Num, Num) -> Num,
    B: Fn(Num, Num, Rank) -> Num,
    S: Fn(Num, Num) -> Num,
>(
    batch: usize,
    names: &Vec<String>,
    samples: &Vec<Vec<Num>>,
    div: &D,
    blend: &B,
    minus: &S,
) -> (r: Option<ThroughputRec>)
    requires
        samples@.len() == names@.len(),
        forall|a: Num, b: Num| call_requires(*div, (a, b)),
        forall|lo: Num, hi: Num, k: Rank| call_requires(*blend, (lo, hi, k)),
        forall|a: Num, b: Num| call_requires(*minus, (a, b)),
    ensures
        match r {
            Some(rec) => rec.batch == batch && scenario_record(
                names@,
                samples@,
                Metric::Throughput,
                *div,
                *blend,
                *minus,
                rec.sps,
                rec.fastest@,
                rec.pairwise@,
            ) && forall|k: int| 0 <= k < samples@.len() ==> sortable((#[trigger] samples@[k])@),
            None => undecided(names@, samples@, Metric::Throughput, *div, *blend, *minus),
        },
{
    match scenario(names, samples, Metric::Throughput, div, blend, minus) {
        Some((sps, fastest, pairwise)) => Some(ThroughputRec { batch, sps, fastest, pairwise }),
        None => None,
    }
}

/// How a comparison was set up.
#[derive(Debug)]
pub struct Config {
    pub trials: usize,
    pub latency_samples: usize,
    pub throughput_reps: usize,
    pub batch_sizes: Vec<usize>,
}

impl Config {
    /// The setup of a comparison with a number of trials.
    pub fn new(trials: usize, profile: Profile) -> (r: Config)
        ensures
            r.trials == trials,
            r.latency_samples == profile.latency_samples,
            r.throughput_reps == profile.throughput_reps,
            r.batch_sizes@ == seq![1usize, 8, 16, 32, 64],
    {
        Config {
            trials,
            latency_samples: profile.latency_samples,
            throughput_reps: profile.throughput_reps,
            batch_sizes: batch_sizes(),
        }
    }
}

/// The result of a comparison.
#[derive(Debug)]
pub struct Report {
    pub timestamp: String,
    pub mode: String,
    pub engines: Vec<String>,
    pub environment: Environment,
    pub config: Config,
    pub latency: Vec<LatencyRec>,
    pub throughput: Vec<ThroughputRec>,
}

/// One measurement of a single pass.
#[derive(Debug)]
pub enum Measurement {
    Latency {
        engine: String,
        seq_label: String,
        approx_tokens: usize,
        samples: usize,
        mean_ms: Num,
        p50_ms: Num,
        p95_ms: Num,
        p99_ms: Num,
        rel_moe_pct: Num,
    },
    Throughput { engine: String, batch: usize, reps: usize, sentences_per_sec: Num },
}

/// The result of a single pass.
#[derive(Debug)]
pub struct SinglePassReport {
    pub timestamp: String,
    pub environment: SinglePassEnvironment,
    pub results: Vec<Measurement>,
}

/// The mean of some samples and the margin of error around it.
#[derive(Clone, Copy, Debug, PartialEq, Eq, Structural)]
pub struct Moments {
    pub mean: Num,
    pub margin: Num,
}

/// Whether a measurement sums sorted times up: their mean, three percentiles, and the margin
/// relative to the mean, which is zero where the mean is not positive.
pub open spec fn sums_up<
    B: Fn(Num, Num, Rank) -> Num,
    M: Fn(&Vec<Num>) -> Moments,
    P: Fn(Num, Num) -> Num,
>(
    sorted: Vec<Num>,
    blend: B,
    moments: M,
    percent: P,
    mean_ms: Num,
    p50_ms: Num,
    p95_ms: Num,
    p99_ms: Num,
    rel_moe_pct: Num,
) -> bool {
    &&& percentile_is(sorted@, 50, blend, p50_ms)
    &&& percentile_is(sorted@, 95, blend, p95_ms)
    &&& percentile_is(sorted@, 99, blend, p99_ms)
    &&& exists|m: Moments| #[trigger]
        call_ensures(moments, (&sorted,), m) && mean_ms == m.mean && if (Num { bits: 0 }).below(
            m.mean,
        ) {
            call_ensures(percent, (m.margin, m.mean), rel_moe_pct)
        } else {
            rel_moe_pct == (Num { bits: 0 })
        }
}

/// Whether the mean and margin of the same numbers are the same numbers.
pub open spec fn numeric_moments<M: Fn(&Vec<Num>) -> Moments>(moments: M) -> bool {
    forall|v: Vec<Num>, w: Vec<Num>, x: Moments, y: Moments| #[trigger]
        call_ensures(moments, (&v,), x) && #[trigger] call_ensures(moments, (&w,), y)
            && same_numbers(v@, w@) ==> x.mean.key() == y.mean.key() && x.margin.key()
            == y.margin.key()
}

/// Whether a measurement is that of an engine on an input with some times.
pub open spec fn measures<
    B: Fn(Num, Num, Rank) -> Num,
    M: Fn(&Vec<Num>) -> Moments,
    P: Fn(Num, Num) -> Num,
>(
    engine: Seq<char>,
    input: LatencyInput,
    times: Seq<Num>,
    blend: B,
    moments: M,
    percent: P,
    r: Measurement,
) -> bool {
    r matches Measurement::Latency {
        engine: name,
        seq_label,
        approx_tokens,
        samples,
        mean_ms,
        p50_ms,
        p95_ms,
        p99_ms,
        rel_moe_pct,
    } && name@ == engine && seq_label@ == input.label@ && approx_tokens == word_count(input.text@)
        && samples == times.len() && exists|sorted: Vec<Num>| #[trigger]
        sorts(times, sorted@) && sums_up(
            sorted,
            blend,
            moments,
            percent,
            mean_ms,
            p50_ms,
            p95_ms,
            p99_ms,
            rel_moe_pct,
        )
}

/// The figures of a latency measurement: two counts and five numbers.
pub open spec fn figures(r: Measurement) -> Option<(usize, usize, int, int, int, int, int)> {
    match r {
        Measurement::Latency {
            approx_tokens,
            samples,
            mean_ms,
            p50_ms,
            p95_ms,
            p99_ms,
            rel_moe_pct,
            ..
        } => Some(
            (
                approx_tokens,
                samples,
                mean_ms.key(),
                p50_ms.key(),
                p95_ms.key(),
                p99_ms.key(),
                rel_moe_pct.key(),
            ),
        ),
        _ => None,
    }
}

/// The same times in another order give the same figures, where the operations go by the
/// numbers.
pub proof fn measurement_forgets_order<
    B: Fn(Num, Num, Rank) -> Num,
    M: Fn(&Vec<Num>) -> Moments,
    P: Fn(Num, Num) -> Num,
>(
    engine: Seq<char>,
    input: LatencyInput,
    times: Seq<Num>,
    others: Seq<Num>,
    blend: B,
    moments: M,
    percent: P,
    r: Measurement,
    s: Measurement,
)
    requires
        times.to_multiset() == others.to_multiset(),
        numeric_blend(blend),
        numeric_moments(moments),
        numeric(percent),
        measures(engine, input, times, blend, moments, percent, r),
        measures(engine, input, others, blend, moments, percent, s),
    ensures
        figures(r) == figures(s),
{
    let (mean, p50, p95, p99, moe) = (r->mean_ms, r->p50_ms, r->p95_ms, r->p99_ms, r->rel_moe_pct);
    let (mean2, p502, p952, p992, moe2) = (
        s->mean_ms,
        s->p50_ms,
        s->p95_ms,
        s->p99_ms,
        s->rel_moe_pct,
    );
    let x = choose|sorted: Vec<Num>| #[trigger]
        sorts(times, sorted@) && sums_up(
            sorted,
            blend,
            moments,
            percent,
            mean,
            p50,
            p95,
            p99,
            moe,
        );
    let y = choose|sorted: Vec<Num>| #[trigger]
        sorts(others, sorted@) && sums_up(
            sorted,
            blend,
            moments,
            percent,
            mean2,
            p502,
            p952,
            p992,
            moe2,
        );
    sorting_forgets_order(times, others, x@, y@);
    sorting_ascends(times, x@);
    sorting_ascends(others, y@);
    percentile_is_numeric(x@, y@, 50, blend, p50, p502);
    percentile_is_numeric(x@, y@, 95, blend, p95, p952);
    percentile_is_numeric(x@, y@, 99, blend, p99, p992);
    let m = choose|m: Moments| #[trigger]
        call_ensures(moments, (&x,), m) && mean == m.mean && if (Num { bits: 0 }).below(m.mean) {
            call_ensures(percent, (m.margin, m.mean), moe)
        } else {
            moe == (Num { bits: 0 })
        };
    let n = choose|m: Moments| #[trigger]
        call_ensures(moments, (&y,), m) && mean2 == m.mean && if (Num { bits: 0 }).below(m.mean) {
            call_ensures(percent, (m.margin, m.mean), moe2)
        } else {
            moe2 == (Num { bits: 0 })
        };
    assert(m.mean.key() == n.mean.key());
}

/// The percentiles of a measurement ascend, where the interpolation lies between its samples
/// and grows. The relative margin is zero where the mean is not positive, and never negative
/// where `percent` gives nothing negative.
pub proof fn measurement_is_ordered<
    B: Fn(Num, Num, Rank) -> Num,
    M: Fn(&Vec<Num>) -> Moments,
    P: Fn(Num, Num) -> Num,
>(
    engine: Seq<char>,
    input: LatencyInput,
    times: Seq<Num>,
    blend: B,
    moments: M,
    percent: P,
    r: Measurement,
)
    requires
        0 < times.len() <= usize::MAX,
        stays_between(blend),
        grows(blend),
        forall|a: Num, b: Num, x: Num| #[trigger] call_ensures(percent, (a, b), x) ==> x.key() >= 0,
        measures(engine, input, times, blend, moments, percent, r),
    ensures
        r->p50_ms.key() <= r->p95_ms.key() <= r->p99_ms.key(),
        !(Num { bits: 0 }).below(r->mean_ms) ==> r->rel_moe_pct == (Num { bits: 0 }),
        r->rel_moe_pct.key() >= 0,
{
    let x = choose|sorted: Vec<Num>| #[trigger]
        sorts(times, sorted@) && sums_up(
            sorted,
            blend,
            moments,
            percent,
            r->mean_ms,
            r->p50_ms,
            r->p95_ms,
            r->p99_ms,
            r->rel_moe_pct,
        );
    sorting_ascends(times, x@);
    percentiles_ascend(x@, 50, 95, blend, r->p50_ms, r->p95_ms);
    percentiles_ascend(x@, 95, 99, blend, r->p95_ms, r->p99_ms);
}

/// The figures of a measurement are those of its own times, put in order from short to long: the
/// mean is that of the sorted times, and each percentile has the times before its place at most
/// it and those behind its place at least it. The counts are those of the times and of the words
/// in the text.
pub proof fn measurement_is_of_its_times<
    B: Fn(Num, Num, Rank) -> Num,
    M: Fn(&Vec<Num>) -> Moments,
    P: Fn(Num, Num) -> Num,
>(
    engine: Seq<char>,
    input: LatencyInput,
    times: Seq<Num>,
    blend: B,
    moments: M,
    percent: P,
    r: Measurement,
)
    requires
        0 < times.len() < 0x400_0000_0000,
        times.len() <= usize::MAX,
        stays_between(blend),
        measures(engine, input, times, blend, moments, percent, r),
    ensures
        r is Latency,
        r->Latency_engine@ == engine,
        r->seq_label@ == input.label@,
        r->samples == times.len(),
        exists|sorted: Vec<Num>, m: Moments|
            {
                &&& #[trigger] call_ensures(moments, (&sorted,), m)
                &&& r->mean_ms == m.mean
                &&& (Num { bits: 0 }).below(m.mean) ==> call_ensures(
                    percent,
                    (m.margin, m.mean),
                    r->rel_moe_pct,
                )
                &&& sorted@.to_multiset() == times.to_multiset()
                &&& forall|i: int, j: int|
                    0 <= i <= j < sorted@.len() ==> (#[trigger] sorted@[i]).key() <= (
                    #[trigger] sorted@[j]).key()
                &&& forall|i: int|
                    0 <= i < sorted@.len() ==> {
                        let last = times.len() - 1;
                        let x = (#[trigger] sorted@[i]).key();
                        &&& 100 * i < 50 * last ==> x <= r->p50_ms.key()
                        &&& 100 * i > 50 * last ==> r->p50_ms.key() <= x
                        &&& 100 * i < 95 * last ==> x <= r->p95_ms.key()
                        &&& 100 * i > 95 * last ==> r->p95_ms.key() <= x
                        &&& 100 * i < 99 * last ==> x <= r->p99_ms.key()
                        &&& 100 * i > 99 * last ==> r->p99_ms.key() <= x
                    }
            },
{
    let x = choose|sorted: Vec<Num>| #[trigger]
        sorts(times, sorted@) && sums_up(
            sorted,
            blend,
            moments,
            percent,
            r->mean_ms,
            r->p50_ms,
            r->p95_ms,
            r->p99_ms,
            r->rel_moe_pct,
        );
    sorting_ascends(times, x@);
    let m = choose|m: Moments| #[trigger]
        call_ensures(moments, (&x,), m) && r->mean_ms == m.mean && if (Num { bits: 0 }).below(
            m.mean,
        ) {
            call_ensures(percent, (m.margin, m.mean), r->rel_moe_pct)
        } else {
            r->rel_moe_pct == (Num { bits: 0 })
        };
    assert forall|i: int| 0 <= i < x@.len() implies {
        let last = times.len() - 1;
        let y = (#[trigger] x@[i]).key();
        &&& 100 * i < 50 * last ==> y <= r->p50_ms.key()
        &&& 100 * i > 50 * last ==> r->p50_ms.key() <= y
        &&& 100 * i < 95 * last ==> y <= r->p95_ms.key()
        &&& 100 * i > 95 * last ==> r->p95_ms.key() <= y
        &&& 100 * i < 99 * last ==> y <= r->p99_ms.key()
        &&& 100 * i > 99 * last ==> r->p99_ms.key() <= y
    } by {
        percentile_parts_samples(x@, 50, blend, r->p50_ms, i);
        percentile_parts_samples(x@, 95, blend, r->p95_ms, i);
        percentile_parts_samples(x@, 99, blend, r->p99_ms, i);
    }
    assert(call_ensures(moments, (&x,), m));
}

/// Sums a latency measurement of a single pass up. `moments` gives the mean and the margin of
/// error of the sorted times, `percent` the margin in percent of the mean.
pub fn bench_latency<
    B: Fn(Num, Num, Rank) -> Num,
    M: Fn(&Vec<Num>) -> Moments,
    P: Fn(Num, Num) -> Num,
>(
    engine: &str,
    input: &LatencyInput,
    run: &LatencyRun,
    blend: &B,
    moments: &M,
    percent: &P,
) -> (r: Measurement)
    requires
        run.wf(),
        run.action() == LatencyAction::Done,
        run.wanted() > 0,
        sortable(run.taken()),
        forall|lo: Num, hi: Num, k: Rank| call_requires(*blend, (lo, hi, k)),
        forall|v: &Vec<Num>| call_requires(*moments, (v,)),
        forall|a: Num, b: Num| call_requires(*percent, (a, b)),
    ensures
        measures(engine@, *input, run.taken(), *blend, *moments, *percent, r),
        r->samples == run.wanted(),
{
    let sorted: Vec<Num> = run.sorted();
    proof {
        sorting_ascends(run.taken(), sorted@);
    }
    let m: Moments = moments(&sorted);
    let p50_ms: Num = percentile(&sorted, 50, blend);
    let p95_ms: Num = percentile(&sorted, 95, blend);
    let p99_ms: Num = percentile(&sorted, 99, blend);
    let rel_moe_pct: Num = if m.mean.is_positive() {
        percent(m.margin, m.mean)
    } else {
        Num { bits: 0 }
    };
    proof {
        assert(call_ensures(*moments, (&sorted,), m));
        assert(sums_up(
            sorted,
            *blend,
            *moments,
            *percent,
            m.mean,
            p50_ms,
            p95_ms,
            p99_ms,
            rel_moe_pct,
        ));
    }
    Measurement::Latency {
        engine: engine.to_string(),
        seq_label: input.label.clone(),
        approx_tokens: approx_tokens(input.text.as_str()),
        samples: sorted.len(),
        mean_ms: m.mean,
        p50_ms,
        p95_ms,
        p99_ms,
        rel_moe_pct,
    }
}

/// Records a throughput measurement of a single pass. `rate` gives the sentences per second of
/// a number of sentences.
pub fn bench_throughput<R: Fn(usize) -> Num>(
    engine: &str,
    batch: usize,
    plan: &ThroughputPlan,
    rate: &R,
) -> (r: Measurement)
    requires
        forall|n: usize| call_requires(*rate, (n,)),
    ensures
        r matches Measurement::Throughput { engine: name, batch: size, reps, sentences_per_sec }
            && name@ == engine@ && size == batch && reps == plan.reps && call_ensures(
            *rate,
            (plan.sentences,),
            sentences_per_sec,
        ),
{
    let sentences_per_sec: Num = rate(plan.sentences);
    Measurement::Throughput {
        engine: engine.to_string(),
        batch,
        reps: plan.reps,
        sentences_per_sec,
    }
}

/// A string filled up with spaces to a width.
pub open spec fn padded(s: Seq<char>, width: int) -> Seq<char> {
    s + Seq::new(
        if width > s.len() {
            (width - s.len()) as nat
        } else {
            0
        },
        |i: int| ' ',
    )
}

fn pad(s: &str, width: usize) -> (r: String)
    ensures
        r@ == padded(s@, width as int),
{
    let mut r: String = s.to_string();
    let len: usize = s.unicode_len();
    let mut i: usize = len;
    while i < width
        invariant
            len == s@.len(),
            len <= i,
            i <= width || i == len,
            r@ == s@ + Seq::new((i - len) as nat, |i: int| ' '),
        decreases width - i,
    {
        r.push(' ');
        i += 1;
    }
    r
}

/// The figures of one engine, ready to print.
#[derive(Debug)]
pub struct Cell {
    pub name: String,
    pub figures: String,
}

/// One engine's part of a summary line; the fastest engine has a star.
pub open spec fn cell_text(cell: Cell, fastest: Seq<char>) -> Seq<char> {
    "  "@ + cell.name@ + " "@ + cell.figures@ + (if cell.name@ == fastest {
        "*"@
    } else {
        " "@
    })
}

/// The parts of the first `upto` engines.
pub open spec fn cells_text(cells: Seq<Cell>, fastest: Seq<char>, upto: int) -> Seq<char>
    decreases upto,
{
    if upto <= 0 {
        Seq::empty()
    } else {
        cells_text(cells, fastest, upto - 1) + cell_text(cells[upto - 1], fastest)
    }
}

fn row(head: String, cells: &Vec<Cell>, fastest: &str) -> (r: String)
    ensures
        r@ == head@ + cells_text(cells@, fastest@, cells@.len() as int),
{
    let best: String = fastest.to_string();
    let mut r: String = head;
    let mut k: usize = 0;
    assert(r@ =~= head@ + cells_text(cells@, fastest@, 0));
    while k < cells.len()
        invariant
            best@ == fastest@,
            k <= cells@.len(),
            r@ == head@ + cells_text(cells@, fastest@, k as int),
        decreases cells@.len() - k,
    {
        r.append("  ");
        r.append(cells[k].name.as_str());
        r.append(" ");
        r.append(cells[k].figures.as_str());
        if cells[k].name == best {
            r.append("*");
        } else {
            r.append(" ");
        }
        assert(r@ =~= head@ + cells_text(cells@, fastest@, k + 1));
        k += 1;
    }
    r
}

/// The summary line of a latency input.
pub fn latency_row(label: &str, cells: &Vec<Cell>, fastest: &str) -> (r: String)
    ensures
        r@ == "  "@ + padded(label@, 6) + cells_text(cells@, fastest@, cells@.len() as int),
{
    let mut head: String = "  ".to_string();
    let wide: String = pad(label, 6);
    head.append(wide.as_str());
    row(head, cells, fastest)
}

/// The summary line of a batch size.
pub fn throughput_row(batch: usize, cells: &Vec<Cell>, fastest: &str) -> (r: String)
    ensures
        r@ == "  b="@ + padded(decimal(batch as nat), 3) + cells_text(
            cells@,
            fastest@,
            cells@.len() as int,
        ),
{
    let mut head: String = "  b=".to_string();
    let number: String = decimal_string(batch as u64);
    let wide: String = pad(number.as_str(), 3);
    head.append(wide.as_str());
    row(head, cells, fastest)
}

/// The parts of engines stand one behind the other, each as its name and figures between blanks
/// and with a star or a blank behind it: the star where it is the fastest.
pub proof fn rows_show_each_engine(cells: Seq<Cell>, fastest: Seq<char>, k: int)
    requires
        0 <= k < cells.len(),
    ensures
        cells_text(cells, fastest, 0) == Seq::<char>::empty(),
        cells[k].name@ == fastest ==> cells_text(cells, fastest, k + 1) == cells_text(
            cells,
            fastest,
            k,
        ) + ("  "@ + cells[k].name@ + " "@ + cells[k].figures@ + "*"@),
        cells[k].name@ != fastest ==> cells_text(cells, fastest, k + 1) == cells_text(
            cells,
            fastest,
            k,
        ) + ("  "@ + cells[k].name@ + " "@ + cells[k].figures@ + " "@),
{
}

/// A padded string begins with the string and goes on with blanks up to the width.
pub proof fn padding_adds_blanks(s: Seq<char>, width: int)
    ensures
        padded(s, width).len() == (if s.len() < width {
            width
        } else {
            s.len() as int
        }),
        padded(s, width).take(s.len() as int) == s,
        forall|i: int| s.len() <= i < padded(s, width).len() ==> #[trigger] padded(s, width)[i] == ' ',
{
    assert(padded(s, width).take(s.len() as int) =~= s);
}

proof fn lemma_median_is_number<B: Fn(Num, Num, Rank) -> Num, S: Fn(Num, Num) -> Num>(
    v: Seq<Num>,
    blend: B,
    minus: S,
    r: Agg,
)
    requires
        v.len() <= usize::MAX,
        forall|t: int| 0 <= t < v.len() ==> !(#[trigger] v[t]).nan(),
        forall|lo: Num, hi: Num, k: Rank, x: Num| #[trigger]
            call_ensures(blend, (lo, hi, k), x) ==> !x.nan(),
        aggregates(v, blend, minus, r),
    ensures
        !r.median.nan(),
{
    let x = choose|sorted: Seq<Num>| #[trigger]
        sorts(v, sorted) && percentile_is(sorted, 25, blend, r.p25) && percentile_is(
            sorted,
            50,
            blend,
            r.median,
        ) && percentile_is(sorted, 75, blend, r.p75);
    sorting_ascends(v, x);
    if x.len() > 0 {
        rank_is_inside(50, 100, x.len());
        let k = rank_of(50, x.len());
        let y = x[k.lo as int];
        assert(x.contains(y));
        assert(v.contains(y));
    }
}

/// Numbers are always decided: where all samples are numbers, and what is made of them by
/// interpolation and division is too, no comparison meets what is not a number and the scenario
/// is recorded.
pub proof fn numbers_are_decided<
    D: Fn(Num, Num) -> Num,
    B: Fn(Num, Num, Rank) -> Num,
    S: Fn(Num, Num) -> Num,
>(
    names: Seq<String>,
    samples: Seq<Vec<Num>>,
    metric: Metric,
    div: D,
    blend: B,
    minus: S,
)
    requires
        samples.len() == names.len(),
        forall|k: int, t: int|
            0 <= k < samples.len() && 0 <= t < samples[k]@.len() ==> !(#[trigger] samples[k]@[t]).nan(),
        forall|k: int| 0 <= k < samples.len() ==> (#[trigger] samples[k])@.len() <= usize::MAX,
        forall|lo: Num, hi: Num, k: Rank, x: Num| #[trigger]
            call_ensures(blend, (lo, hi, k), x) ==> !x.nan(),
        forall|a: Num, b: Num, x: Num| #[trigger] call_ensures(div, (a, b), x) ==> !x.nan(),
    ensures
        !undecided(names, samples, metric, div, blend, minus),
{
    let all = texts(names);
    assert(all.len() == names.len());
    assert forall|k: int| 0 <= k < samples.len() implies sortable((#[trigger] samples[k])@) by {}
    assert forall|aggs: Seq<Agg>| #[trigger]
        all_aggregated(samples, blend, minus, aggs) implies !incomparable(all, aggs) by {
        assert forall|k: int| 0 <= k < aggs.len() implies !(#[trigger] aggs[k]).median.nan() by {
            assert(aggregates(samples[k]@, blend, minus, aggs[k]));
            lemma_median_is_number(samples[k]@, blend, minus, aggs[k]);
        }
        assert forall|entries: Seq<(Seq<char>, Agg)>| #[trigger]
            holds(entries, table_map(all, aggs, all.len() as int)) implies comparable(entries) by {
            table_keeps_names_and_values(all, aggs, entries);
            assert forall|i: int| 0 <= i < entries.len() implies !(
            #[trigger] entries[i]).1.median.nan() by {
                let k = choose|k: int|
                    0 <= k < all.len() && entries[i] == (#[trigger] all[k], aggs[k]);
                assert(!aggs[k].median.nan());
            }
        }
    }
    assert forall|i: int, j: int| 0 <= i < j < names.len() implies !#[trigger] pair_unsortable(
        samples,
        metric,
        div,
        i,
        j,
    ) by {
        numbers_sort(samples, metric, div, i, j);
    }
}

} // verus!
