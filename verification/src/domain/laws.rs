//! What holds of quarter-hour alignment as a whole.

use vstd::prelude::*;
use vstd::seq_lib::{seq_to_set_is_finite, to_multiset_len};

use super::align::{
    acceptable, are_readings, brings, changes_unit, coverage, distinct_pairs, enough, feed_of,
    first_offence, goes_backwards, is_outside, law_one_unit, lemma_feed_contains, lemma_sampled,
    metric_backwards, metric_outcome, missing_among, outcome, pairs_of, present_among, refuses,
    sampled, unit_of, value_of, Aggregation, AlignError, AlignRules, MetricReading,
    MetricReadingView, Reading,
};
use super::interval::Interval15;
use super::sample::{MetricName, Sample, Unit};
use super::units::{Percent, Ratio};
use crate::aggregate::{law_rise_is_not_negative, mean_of, rise_of, sum_of};
use crate::align::{coverage_of, Interval, Kind};
use crate::names::{
    in_name_order, index_named, law_one_order, lemma_held_at, name_before, names_one, Entry,
    NameMap, Named,
};
use crate::series::{
    discarded, law_any_order_survives_the_same, law_arrival_order_is_free,
    law_replay_changes_nothing, law_survivors, lemma_found, lemma_found_apart, stands, survivors,
    unreplayed, Point,
};

verus! {

/// A window of whole quarter-hours is walked with no gap and no overlap: each
/// instant of it lies in exactly one of them and every other instant in none,
/// however long a local day is.
pub proof fn law_quarter_hour_walk_is_whole(
    first: int,
    count: int,
    at: int,
    step: Interval15,
    i: int,
)
    requires
        0 <= i < count,
        step@ == first + 15 * i,
    ensures
        first * 60 <= at < first * 60 + count * 900 <==> 0 <= (at - first * 60) / 900 < count,
        step.covers(at) <==> first * 60 <= at < first * 60 + count * 900 && i == (at - first * 60)
            / 900,
{
}

/// Either every sample is acceptable, or one of them is the first that is
/// not, never both and never two.
pub proof fn law_offence_is_found(samples: Seq<Sample>, interval: Interval15)
    ensures
        acceptable(samples, interval) <==> !exists|i: int| first_offence(samples, interval, i),
        forall|i: int, j: int|
            first_offence(samples, interval, i) && first_offence(samples, interval, j) ==> i == j,
{
    if acceptable(samples, interval) {
        assert forall|i: int| !first_offence(samples, interval, i) by {
            if 0 <= i < samples.len() {
                assert(!is_outside(samples, interval, i) && !changes_unit(samples, i));
            }
        }
    } else {
        let i = choose|i: int|
            #![trigger samples[i]]
            0 <= i < samples.len() && (is_outside(samples, interval, i) || changes_unit(
                samples,
                i,
            ));
        let first = lemma_first(samples, interval, i);
        assert(first_offence(samples, interval, first));
    }
    assert forall|i: int, j: int|
        first_offence(samples, interval, i) && first_offence(samples, interval, j) implies i
        == j by {
        if i < j {
            lemma_offence_in_start(samples, interval, j, i);
            assert(!is_outside(samples.take(j), interval, i));
        } else if j < i {
            lemma_offence_in_start(samples, interval, i, j);
            assert(!is_outside(samples.take(i), interval, j));
        }
    }
}

proof fn lemma_first(samples: Seq<Sample>, interval: Interval15, i: int) -> (first: int)
    requires
        0 <= i < samples.len(),
        is_outside(samples, interval, i) || changes_unit(samples, i),
    ensures
        first_offence(samples, interval, first),
    decreases i,
{
    let start = samples.take(i);
    if acceptable(start, interval) {
        i
    } else {
        let j = choose|j: int|
            #![trigger start[j]]
            0 <= j < start.len() && (is_outside(start, interval, j) || changes_unit(start, j));
        lemma_offence_in_start(samples, interval, i, j);
        lemma_first(samples, interval, j)
    }
}

proof fn lemma_offence_in_start(samples: Seq<Sample>, interval: Interval15, n: int, i: int)
    requires
        0 <= i < n <= samples.len(),
    ensures
        is_outside(samples.take(n), interval, i) == is_outside(samples, interval, i),
        changes_unit(samples.take(n), i) == changes_unit(samples, i),
{
    let start = samples.take(n);
    assert(start[i] == samples[i]);
    if changes_unit(samples, i) {
        let j = choose|j: int|
            {
                &&& 0 <= j < i
                &&& (#[trigger] samples[j])@.metric == samples[i]@.metric
                &&& samples[j]@.unit != samples[i]@.unit
            };
        assert(start[j] == samples[j]);
    }
    if changes_unit(start, i) {
        let j = choose|j: int|
            {
                &&& 0 <= j < i
                &&& (#[trigger] start[j])@.metric == start[i]@.metric
                &&& start[j]@.unit != start[i]@.unit
            };
        assert(start[j] == samples[j]);
    }
}

/// Two errors say the same.
pub open spec fn same_error(a: AlignError, b: AlignError) -> bool {
    match (a, b) {
        (
            AlignError::SampleOutsideInterval { metric, at },
            AlignError::SampleOutsideInterval { metric: named, at: when },
        ) => metric@ == named@ && at == when,
        (AlignError::UnitChanged { metric }, AlignError::UnitChanged { metric: named }) => metric@
            == named@,
        (
            AlignError::CounterWentBackwards { metric },
            AlignError::CounterWentBackwards { metric: named },
        ) => metric@ == named@,
        _ => false,
    }
}

/// The first offence of a batch is the first offence of every batch that
/// starts with it.
pub proof fn law_first_offence_stays(
    a: Seq<Sample>,
    b: Seq<Sample>,
    interval: Interval15,
    i: int,
)
    requires
        first_offence(a, interval, i),
    ensures
        first_offence(a + b, interval, i),
        is_outside(a + b, interval, i) == is_outside(a, interval, i),
        (a + b)[i] == a[i],
{
    let all = a + b;
    assert(all.take(a.len() as int) =~= a);
    lemma_offence_in_start(all, interval, a.len() as int, i);
    assert(all.take(i) =~= a.take(i));
}

/// Samples that come later neither cure nor replace a refusal: a batch that is
/// refused with an error is refused with that error, and with no other,
/// whatever is appended to it.
pub proof fn law_refusal_stands(
    a: Seq<Sample>,
    b: Seq<Sample>,
    interval: Interval15,
    error: AlignError,
)
    requires
        refuses(a, interval, error),
    ensures
        refuses(a + b, interval, error),
        !acceptable(a + b, interval),
        forall|other: AlignError| #[trigger]
            refuses(a + b, interval, other) ==> same_error(error, other),
{
    let i = choose|i: int|
        {
            &&& #[trigger] first_offence(a, interval, i)
            &&& match error {
                AlignError::SampleOutsideInterval { metric, at } => {
                    &&& is_outside(a, interval, i)
                    &&& metric@ == a[i]@.metric
                    &&& at == a[i]@.at
                },
                AlignError::UnitChanged { metric } => {
                    &&& !is_outside(a, interval, i)
                    &&& metric@ == a[i]@.metric
                },
                AlignError::CounterWentBackwards { .. } => false,
            }
        };
    law_first_offence_stays(a, b, interval, i);
    law_offence_is_found(a + b, interval);
}

/// A declared counter is a counter whatever its unit, and everything else
/// takes the default for its unit.
pub proof fn law_declaration_decides(rules: AlignRules, metric: Seq<char>, unit: Unit)
    ensures
        rules.is_counter(metric) ==> rules.aggregation(metric, unit) == Aggregation::CounterDelta,
        !rules.is_counter(metric) ==> rules.aggregation(metric, unit) == match unit {
            Unit::Watts => Aggregation::TimeWeightedMean,
            Unit::Kilowatts => Aggregation::TimeWeightedMean,
            Unit::KilowattHours => Aggregation::Sum,
        },
{
}

/// One instant is not a mean: a metric that measures a span and was sampled
/// at no more than one is missing with no coverage, whatever the minimum.
pub proof fn law_one_instant_is_missing(
    points: Seq<Point>,
    unit: Unit,
    aggregation: Aggregation,
    minimum: Ratio,
    dupes: int,
)
    requires
        points.len() <= 1,
        aggregation != Aggregation::Sum,
    ensures
        outcome(points, unit, aggregation, minimum, dupes) == (MetricReadingView::Missing {
            coverage: Ratio { share: 0, whole: 900 },
        }),
        !goes_backwards(points, aggregation, minimum),
{
}

/// One row of a summed feed covers the interval: whatever can be asked for, it
/// is enough.
pub proof fn law_one_row_is_enough(points: Seq<Point>, unit: Unit, minimum: Ratio, dupes: int)
    requires
        points.len() > 0,
        0 <= minimum.share <= minimum.whole,
    ensures
        outcome(points, unit, Aggregation::Sum, minimum, dupes) is Present,
        coverage(points, Aggregation::Sum).same(Ratio { share: 1, whole: 1 }),
{
}

/// A metric is present exactly where its coverage is not zero and reaches the
/// minimum, and it reports the same coverage either way.
pub proof fn law_coverage_decides_the_value(
    points: Seq<Point>,
    unit: Unit,
    aggregation: Aggregation,
    minimum: Ratio,
    dupes: int,
)
    ensures
        outcome(points, unit, aggregation, minimum, dupes) is Present <==> enough(
            coverage(points, aggregation),
            minimum,
        ),
        match outcome(points, unit, aggregation, minimum, dupes) {
            MetricReadingView::Present { coverage, .. } => coverage,
            MetricReadingView::Missing { coverage } => coverage,
        } == coverage(points, aggregation),
{
}

/// A counter that is present never fell.
pub proof fn law_present_counter_did_not_fall(points: Seq<Point>, minimum: Ratio)
    requires
        points.first().value.finite(),
        points.last().value.finite(),
        enough(coverage(points, Aggregation::CounterDelta), minimum),
        !goes_backwards(points, Aggregation::CounterDelta, minimum),
    ensures
        value_of(points, Aggregation::CounterDelta).numerator() >= 0,
{
    law_rise_is_not_negative(points);
}

/// A counter that was sampled too thinly is missing, never refused, whichever
/// way it went.
pub proof fn law_thin_counter_is_not_refused(points: Seq<Point>, minimum: Ratio)
    requires
        !enough(coverage(points, Aggregation::CounterDelta), minimum),
    ensures
        !goes_backwards(points, Aggregation::CounterDelta, minimum),
{
}

/// Some entry holds this reading under this metric.
spec fn holds_present(
    entries: Seq<Entry<MetricName, MetricReading>>,
    pair: (MetricName, Reading),
) -> bool {
    exists|e: int|
        {
            &&& 0 <= e < entries.len()
            &&& (#[trigger] entries[e]).key == pair.0
            &&& entries[e].value == MetricReading::Present(pair.1)
        }
}

/// Some entry holds this coverage and no number under this metric.
spec fn holds_missing(
    entries: Seq<Entry<MetricName, MetricReading>>,
    pair: (MetricName, Percent),
) -> bool {
    exists|e: int|
        {
            &&& 0 <= e < entries.len()
            &&& (#[trigger] entries[e]).key == pair.0
            &&& entries[e].value == (MetricReading::Missing { coverage: pair.1 })
        }
}

proof fn lemma_listed(entries: Seq<Entry<MetricName, MetricReading>>)
    requires
        in_name_order(entries),
    ensures
        present_among(entries).len() + missing_among(entries).len() == entries.len(),
        in_name_order_of(present_among(entries)),
        in_name_order_of(missing_among(entries)),
        forall|pair: (MetricName, Reading)| #[trigger]
            present_among(entries).contains(pair) <==> holds_present(entries, pair),
        forall|pair: (MetricName, Percent)| #[trigger]
            missing_among(entries).contains(pair) <==> holds_missing(entries, pair),
    decreases entries.len(),
{
    if entries.len() > 0 {
        let rest = entries.drop_last();
        let last = entries[entries.len() - 1];
        assert forall|i: int, j: int| 0 <= i < j < rest.len() implies name_before(
            (#[trigger] rest[i]).name(),
            (#[trigger] rest[j]).name(),
        ) by {
            assert(name_before(entries[i].name(), entries[j].name()));
        }
        lemma_listed(rest);
        let (present, before) = (present_among(entries), present_among(rest));
        let (missing, thin) = (missing_among(entries), missing_among(rest));
        assert forall|pair: (MetricName, Reading)| #[trigger] present.contains(pair)
            <==> holds_present(entries, pair) by {
            assert(before.contains(pair) <==> holds_present(rest, pair));
            if holds_present(rest, pair) {
                let e = choose|e: int|
                    {
                        &&& 0 <= e < rest.len()
                        &&& (#[trigger] rest[e]).key == pair.0
                        &&& rest[e].value == MetricReading::Present(pair.1)
                    };
                assert(entries[e] == rest[e]);
                let i = choose|i: int| 0 <= i < before.len() && before[i] == pair;
                assert(present[i] == pair);
            }
            if present.contains(pair) && !before.contains(pair) {
                let i = choose|i: int| 0 <= i < present.len() && present[i] == pair;
                if i < before.len() {
                    assert(before[i] == pair);
                }
                assert(last.key == pair.0);
            }
            if holds_present(entries, pair) && !holds_present(rest, pair) {
                let e = choose|e: int|
                    {
                        &&& 0 <= e < entries.len()
                        &&& (#[trigger] entries[e]).key == pair.0
                        &&& entries[e].value == MetricReading::Present(pair.1)
                    };
                if e < rest.len() {
                    assert(rest[e] == entries[e]);
                }
                assert(present[before.len() as int] == pair);
            }
        }
        assert forall|pair: (MetricName, Percent)| #[trigger] missing.contains(pair)
            <==> holds_missing(entries, pair) by {
            assert(thin.contains(pair) <==> holds_missing(rest, pair));
            if holds_missing(rest, pair) {
                let e = choose|e: int|
                    {
                        &&& 0 <= e < rest.len()
                        &&& (#[trigger] rest[e]).key == pair.0
                        &&& rest[e].value == (MetricReading::Missing { coverage: pair.1 })
                    };
                assert(entries[e] == rest[e]);
                let i = choose|i: int| 0 <= i < thin.len() && thin[i] == pair;
                assert(missing[i] == pair);
            }
            if missing.contains(pair) && !thin.contains(pair) {
                let i = choose|i: int| 0 <= i < missing.len() && missing[i] == pair;
                if i < thin.len() {
                    assert(thin[i] == pair);
                }
                assert(last.key == pair.0);
            }
            if holds_missing(entries, pair) && !holds_missing(rest, pair) {
                let e = choose|e: int|
                    {
                        &&& 0 <= e < entries.len()
                        &&& (#[trigger] entries[e]).key == pair.0
                        &&& entries[e].value == (MetricReading::Missing { coverage: pair.1 })
                    };
                if e < rest.len() {
                    assert(rest[e] == entries[e]);
                }
                assert(missing[thin.len() as int] == pair);
            }
        }
        assert forall|i: int, j: int| 0 <= i < j < present.len() implies name_before(
            (#[trigger] present[i]).0@,
            (#[trigger] present[j]).0@,
        ) by {
            assert(before.contains(before[i]));
            if j < before.len() {
                assert(name_before(before[i].0@, before[j].0@));
            } else {
                let e = choose|e: int|
                    {
                        &&& 0 <= e < rest.len()
                        &&& (#[trigger] rest[e]).key == before[i].0
                        &&& rest[e].value == MetricReading::Present(before[i].1)
                    };
                assert(name_before(entries[e].name(), entries[entries.len() - 1].name()));
            }
        }
        assert forall|i: int, j: int| 0 <= i < j < missing.len() implies name_before(
            (#[trigger] missing[i]).0@,
            (#[trigger] missing[j]).0@,
        ) by {
            assert(thin.contains(thin[i]));
            if j < thin.len() {
                assert(name_before(thin[i].0@, thin[j].0@));
            } else {
                let e = choose|e: int|
                    {
                        &&& 0 <= e < rest.len()
                        &&& (#[trigger] rest[e]).key == thin[i].0
                        &&& rest[e].value == (MetricReading::Missing { coverage: thin[i].1 })
                    };
                assert(name_before(entries[e].name(), entries[entries.len() - 1].name()));
            }
        }
    }
}

/// Pairs strictly ordered by the name that comes first in each.
pub open spec fn in_name_order_of<V>(pairs: Seq<(MetricName, V)>) -> bool {
    forall|i: int, j: int|
        0 <= i < j < pairs.len() ==> name_before(
            (#[trigger] pairs[i]).0@,
            (#[trigger] pairs[j]).0@,
        )
}

/// Some pair goes by `metric`.
pub open spec fn lists<V>(pairs: Seq<(MetricName, V)>, metric: Seq<char>) -> bool {
    exists|i: int| 0 <= i < pairs.len() && (#[trigger] pairs[i]).0@ == metric
}

/// The lists of what is present and of what is missing are exactly what a
/// lookup gives: each metric with its own reading, in name order, in the one
/// list or the other and in no more than one.
pub proof fn law_present_or_missing(readings: NameMap<MetricName, MetricReading>)
    requires
        readings.well_formed(),
    ensures
        ({
            let (present, missing) = (present_among(readings@), missing_among(readings@));
            &&& present.len() + missing.len() == readings@.len()
            &&& in_name_order_of(present)
            &&& in_name_order_of(missing)
            &&& forall|i: int|
                0 <= i < present.len() ==> {
                    &&& readings.has((#[trigger] present[i]).0@)
                    &&& readings.at(present[i].0@) == MetricReading::Present(present[i].1)
                }
            &&& forall|i: int|
                0 <= i < missing.len() ==> {
                    &&& readings.has((#[trigger] missing[i]).0@)
                    &&& readings.at(missing[i].0@) == (MetricReading::Missing {
                        coverage: missing[i].1,
                    })
                }
            &&& forall|metric: Seq<char>| #[trigger]
                readings.has(metric) ==> lists(present, metric) == (readings.at(metric) is Present)
                    && lists(missing, metric) == (readings.at(metric) is Missing)
            &&& forall|metric: Seq<char>|
                !(#[trigger] lists(present, metric) && #[trigger] lists(missing, metric))
        }),
{
    let (present, missing) = (present_among(readings@), missing_among(readings@));
    lemma_listed(readings@);
    assert forall|i: int| 0 <= i < present.len() implies {
        &&& readings.has((#[trigger] present[i]).0@)
        &&& readings.at(present[i].0@) == MetricReading::Present(present[i].1)
    } by {
        assert(present.contains(present[i]));
        let e = choose|e: int|
            {
                &&& 0 <= e < readings@.len()
                &&& (#[trigger] readings@[e]).key == present[i].0
                &&& readings@[e].value == MetricReading::Present(present[i].1)
            };
        lemma_held_at(readings, e);
    }
    assert forall|i: int| 0 <= i < missing.len() implies {
        &&& readings.has((#[trigger] missing[i]).0@)
        &&& readings.at(missing[i].0@) == (MetricReading::Missing { coverage: missing[i].1 })
    } by {
        assert(missing.contains(missing[i]));
        let e = choose|e: int|
            {
                &&& 0 <= e < readings@.len()
                &&& (#[trigger] readings@[e]).key == missing[i].0
                &&& readings@[e].value == (MetricReading::Missing { coverage: missing[i].1 })
            };
        lemma_held_at(readings, e);
    }
    assert forall|metric: Seq<char>| #[trigger] readings.has(metric) implies lists(present, metric)
        == (readings.at(metric) is Present) && lists(missing, metric) == (readings.at(
        metric,
    ) is Missing) by {
        let entry = readings@[index_named(readings@, metric)];
        assert(entry.name() == metric);
        match entry.value {
            MetricReading::Present(reading) => {
                assert(holds_present(readings@, (entry.key, reading)));
                assert(present.contains((entry.key, reading)));
                let i = choose|i: int|
                    0 <= i < present.len() && present[i] == (entry.key, reading);
                assert(present[i].0@ == metric);
            },
            MetricReading::Missing { coverage } => {
                assert(holds_missing(readings@, (entry.key, coverage)));
                assert(missing.contains((entry.key, coverage)));
                let i = choose|i: int|
                    0 <= i < missing.len() && missing[i] == (entry.key, coverage);
                assert(missing[i].0@ == metric);
            },
        }
    }
}

/// The whole percent of a fifteen-minute interval is the exact share of it,
/// rounded down.
pub proof fn law_whole_percent_is_rounded_down(points: Seq<Point>, interval: Interval)
    requires
        interval.length@ == 900,
    ensures
        coverage_of(points, Kind::Power, interval) == {
            let exact = coverage(points, Aggregation::TimeWeightedMean);
            exact.share * 100 / exact.whole
        },
        coverage_of(points, Kind::Counter, interval) == {
            let exact = coverage(points, Aggregation::CounterDelta);
            exact.share * 100 / exact.whole
        },
{
}

/// A metric without a sample is absent: nothing is brought for it and it is
/// refused for nothing.
pub proof fn law_unsampled_metric_is_absent(
    samples: Seq<Sample>,
    rules: AlignRules,
    metric: Seq<char>,
)
    requires
        !sampled(samples, metric),
    ensures
        feed_of(samples, metric).len() == 0,
        unit_of(samples, metric) is None,
        !metric_backwards(samples, rules, metric),
{
    lemma_sampled(samples, metric);
}

/// A metric's own samples, in the order they came.
pub open spec fn own(samples: Seq<Sample>, metric: Seq<char>) -> Seq<Sample> {
    samples.filter(|sample: Sample| sample@.metric == metric)
}

proof fn lemma_own(samples: Seq<Sample>, metric: Seq<char>)
    ensures
        feed_of(own(samples, metric), metric) == feed_of(samples, metric),
        unit_of(own(samples, metric), metric) == unit_of(samples, metric),
    decreases samples.len(),
{
    reveal(Seq::filter);
    if samples.len() > 0 {
        let rest = samples.drop_last();
        lemma_own(rest, metric);
        if samples.last()@.metric == metric {
            assert(own(samples, metric).drop_last() =~= own(rest, metric));
        }
    }
}

/// Metrics do not touch each other: whatever else a batch holds, a metric
/// reads as its own samples read alone.
pub proof fn law_metrics_are_independent(
    samples: Seq<Sample>,
    rules: AlignRules,
    metric: Seq<char>,
)
    ensures
        sampled(own(samples, metric), metric) == sampled(samples, metric),
        metric_outcome(own(samples, metric), rules, metric) == metric_outcome(
            samples,
            rules,
            metric,
        ),
        metric_backwards(own(samples, metric), rules, metric) == metric_backwards(
            samples,
            rules,
            metric,
        ),
{
    lemma_own(samples, metric);
    lemma_sampled(samples, metric);
    lemma_sampled(own(samples, metric), metric);
}

/// The same input always reads back in the same order, with the same outcome
/// for each metric.
pub proof fn law_same_input_reads_the_same(
    samples: Seq<Sample>,
    rules: AlignRules,
    a: NameMap<MetricName, MetricReading>,
    b: NameMap<MetricName, MetricReading>,
)
    requires
        are_readings(samples, rules, a),
        are_readings(samples, rules, b),
    ensures
        a@.len() == b@.len(),
        forall|i: int|
            0 <= i < a@.len() ==> (#[trigger] a@[i]).key@ == b@[i].key@ && a@[i].value@
                == b@[i].value@,
{
    assert forall|metric: Seq<char>| #[trigger] names_one(a@, metric) <==> names_one(
        b@,
        metric,
    ) by {
        assert(a.has(metric) <==> sampled(samples, metric));
        assert(b.has(metric) <==> sampled(samples, metric));
    }
    law_one_order(a@, b@);
    assert forall|i: int| 0 <= i < a@.len() implies (#[trigger] a@[i]).key@ == b@[i].key@
        && a@[i].value@ == b@[i].value@ by {
        assert(a@[i].name() == b@[i].name());
        lemma_held_at(a, i);
        lemma_held_at(b, i);
    }
}

proof fn lemma_feed_of_batches(a: Seq<Sample>, b: Seq<Sample>, metric: Seq<char>)
    ensures
        feed_of(a + b, metric) == feed_of(a, metric) + feed_of(b, metric),
        unit_of(a + b, metric) == if unit_of(a, metric) is Some {
            unit_of(a, metric)
        } else {
            unit_of(b, metric)
        },
    decreases b.len(),
{
    if b.len() == 0 {
        assert(a + b =~= a);
        assert(feed_of(a, metric) + feed_of(b, metric) =~= feed_of(a, metric));
    } else {
        lemma_feed_of_batches(a, b.drop_last(), metric);
        assert((a + b).drop_last() =~= a + b.drop_last());
        assert(feed_of(a + b, metric) =~= feed_of(a, metric) + feed_of(b, metric));
    }
}

/// A batch that is sent twice reads as it did the first time, but for the
/// count of duplicates, which grows by everything that was sent again.
pub proof fn law_replayed_batch_reads_the_same(
    samples: Seq<Sample>,
    rules: AlignRules,
    metric: Seq<char>,
)
    ensures
        metric_backwards(samples + samples, rules, metric) == metric_backwards(
            samples,
            rules,
            metric,
        ),
        match metric_outcome(samples, rules, metric) {
            MetricReadingView::Present { value, unit, coverage, dupes } => metric_outcome(
                samples + samples,
                rules,
                metric,
            ) == (MetricReadingView::Present {
                value,
                unit,
                coverage,
                dupes: dupes + feed_of(samples, metric).len(),
            }),
            missing => metric_outcome(samples + samples, rules, metric) == missing,
        },
{
    lemma_feed_of_batches(samples, samples, metric);
    law_replay_changes_nothing(feed_of(samples, metric));
}

/// An interval counts every replay, whether its metric is present or missing:
/// a sample whose metric has its instant already is one more discard, and any
/// other is none.
pub proof fn law_every_replay_is_counted(samples: Seq<Sample>, next: Sample)
    ensures
        samples.push(next).len() - distinct_pairs(samples.push(next)) == samples.len()
            - distinct_pairs(samples) + if pairs_of(samples).contains(
            (next@.metric, next@.at),
        ) {
            1int
        } else {
            0int
        },
{
    let pair = (next@.metric, next@.at);
    seq_to_set_is_finite(pairs_of(samples));
    assert(pairs_of(samples.push(next)) =~= pairs_of(samples).push(pair));
    pairs_of(samples).lemma_push_to_set_commute(pair);
}

/// Of a batch that is sent twice, each sample of the second sending is one more
/// discard.
pub proof fn law_replayed_batch_is_counted(samples: Seq<Sample>)
    ensures
        (samples + samples).len() - distinct_pairs(samples + samples) == samples.len()
            - distinct_pairs(samples) + samples.len(),
{
    let (once, twice) = (pairs_of(samples), pairs_of(samples + samples));
    assert(twice =~= once + once);
    assert(twice.to_set() =~= once.to_set()) by {
        assert forall|pair: (Seq<char>, i64)| #[trigger] twice.contains(pair) <==> once.contains(
            pair,
        ) by {
            if once.contains(pair) {
                let i = choose|i: int| 0 <= i < once.len() && once[i] == pair;
                assert(twice[i] == pair);
            }
            if twice.contains(pair) {
                let i = choose|i: int| 0 <= i < twice.len() && twice[i] == pair;
                assert(once[if i < once.len() { i } else { i - once.len() }] == pair);
            }
        }
    }
}

/// Two neighbours trade places without effect, replays or not, where their
/// metrics differ or where their instants differ and their units agree.
pub proof fn law_neighbours_may_trade_places(
    samples: Seq<Sample>,
    i: int,
    rules: AlignRules,
    metric: Seq<char>,
)
    requires
        0 <= i < samples.len() - 1,
        samples[i]@.metric != samples[i + 1]@.metric || (samples[i]@.at != samples[i + 1]@.at
            && samples[i]@.unit == samples[i + 1]@.unit),
    ensures
        ({
            let traded = samples.update(i, samples[i + 1]).update(i + 1, samples[i]);
            &&& metric_outcome(traded, rules, metric) == metric_outcome(samples, rules, metric)
            &&& metric_backwards(traded, rules, metric) == metric_backwards(samples, rules, metric)
        }),
{
    let (a, b) = (samples[i], samples[i + 1]);
    let traded = samples.update(i, b).update(i + 1, a);
    let head = samples.take(i);
    let tail = samples.skip(i + 2);
    assert(samples =~= head + seq![a, b] + tail);
    assert(traded =~= head + seq![b, a] + tail);
    lemma_pair(head, a, b, metric);
    lemma_pair(head, b, a, metric);
    lemma_feed_of_batches(head + seq![a, b], tail, metric);
    lemma_feed_of_batches(head + seq![b, a], tail, metric);
    if a@.metric == metric && b@.metric == metric {
        let feed = feed_of(samples, metric);
        let k = feed_of(head, metric).len() as int;
        assert(feed[k] == Point { at: a@.at, value: a@.value });
        assert(feed[k + 1] == Point { at: b@.at, value: b@.value });
        law_arrival_order_is_free(feed, k);
        assert(feed_of(traded, metric) =~= feed.update(k, feed[k + 1]).update(k + 1, feed[k]));
    } else {
        assert(feed_of(traded, metric) =~= feed_of(samples, metric));
    }
}

proof fn lemma_pair(head: Seq<Sample>, a: Sample, b: Sample, metric: Seq<char>)
    ensures
        feed_of(head + seq![a, b], metric) == {
            let first = if a@.metric == metric {
                feed_of(head, metric).push(Point { at: a@.at, value: a@.value })
            } else {
                feed_of(head, metric)
            };
            if b@.metric == metric {
                first.push(Point { at: b@.at, value: b@.value })
            } else {
                first
            }
        },
        unit_of(head + seq![a, b], metric) == if unit_of(head, metric) is Some {
            unit_of(head, metric)
        } else if a@.metric == metric {
            Some(a@.unit)
        } else if b@.metric == metric {
            Some(b@.unit)
        } else {
            None
        },
{
    reveal_with_fuel(feed_of, 3);
    reveal_with_fuel(unit_of, 3);
    let both = head + seq![a, b];
    let one = head + seq![a];
    assert(both.drop_last() =~= one);
    assert(one.drop_last() =~= head);
    assert(both.last() == b);
    assert(one.last() == a);
}

/// The metric is sampled at no instant twice, and its samples are in one unit.
pub open spec fn plain(samples: Seq<Sample>, metric: Seq<char>) -> bool {
    forall|i: int, j: int|
        {
            &&& 0 <= i < samples.len()
            &&& 0 <= j < samples.len()
            &&& i != j
            &&& (#[trigger] samples[i])@.metric == metric
            &&& (#[trigger] samples[j])@.metric == metric
        } ==> samples[i]@.at != samples[j]@.at && samples[i]@.unit == samples[j]@.unit
}

proof fn lemma_plain_feed(samples: Seq<Sample>, metric: Seq<char>)
    requires
        plain(samples, metric),
    ensures
        unreplayed(feed_of(samples, metric)),
    decreases samples.len(),
{
    if samples.len() > 0 {
        let rest = samples.drop_last();
        assert forall|i: int, j: int|
            {
                &&& 0 <= i < rest.len()
                &&& 0 <= j < rest.len()
                &&& i != j
                &&& (#[trigger] rest[i])@.metric == metric
                &&& (#[trigger] rest[j])@.metric == metric
            } implies rest[i]@.at != rest[j]@.at && rest[i]@.unit == rest[j]@.unit by {
            assert(samples[i]@.at != samples[j]@.at && samples[i]@.unit == samples[j]@.unit);
        }
        lemma_plain_feed(rest, metric);
        lemma_feed_contains(rest, metric);
        let (feed, before) = (feed_of(samples, metric), feed_of(rest, metric));
        assert forall|i: int, j: int| 0 <= i < j < feed.len() implies (#[trigger] feed[i]).at != (
        #[trigger] feed[j]).at by {
            assert(before.contains(before[i]));
            if j < before.len() {
                assert(before[i].at != before[j].at);
            } else {
                let k = choose|k: int|
                    {
                        &&& 0 <= k < rest.len()
                        &&& (#[trigger] rest[k])@.metric == metric
                        &&& before[i] == Point { at: rest[k]@.at, value: rest[k]@.value }
                    };
                assert(samples[k]@.at != samples[samples.len() - 1]@.at);
            }
        }
    }
}

/// What a rearranged batch brings, the batch brings.
proof fn lemma_rearranged(a: Seq<Sample>, b: Seq<Sample>, metric: Seq<char>)
    requires
        a.to_multiset() == b.to_multiset(),
        plain(a, metric),
    ensures
        plain(b, metric),
        forall|point: Point| #[trigger]
            feed_of(b, metric).contains(point) ==> feed_of(a, metric).contains(point),
        unit_of(b, metric) is Some ==> unit_of(a, metric) == unit_of(b, metric),
{
    lemma_feed_contains(a, metric);
    lemma_feed_contains(b, metric);
    assert forall|i: int, j: int|
        {
            &&& 0 <= i < b.len()
            &&& 0 <= j < b.len()
            &&& i != j
            &&& (#[trigger] b[i])@.metric == metric
            &&& (#[trigger] b[j])@.metric == metric
        } implies b[i]@.at != b[j]@.at && b[i]@.unit == b[j]@.unit by {
        let (k, l) = lemma_found_apart(a, b, i, j);
        assert(a[k]@.at != a[l]@.at && a[k]@.unit == a[l]@.unit);
    }
    assert forall|point: Point| #[trigger] feed_of(b, metric).contains(point) implies feed_of(
        a,
        metric,
    ).contains(point) by {
        let i = choose|i: int|
            {
                &&& 0 <= i < b.len()
                &&& (#[trigger] b[i])@.metric == metric
                &&& point == Point { at: b[i]@.at, value: b[i]@.value }
            };
        let k = lemma_found(a, b, i);
        assert(a[k]@.metric == metric);
        assert(brings(a, metric, point));
    }
    if unit_of(b, metric) is Some {
        lemma_sampled(b, metric);
        let i = choose|i: int|
            {
                &&& 0 <= i < b.len()
                &&& (#[trigger] b[i])@.metric == metric
                &&& b[i]@.unit == unit_of(b, metric)->0
            };
        let k = lemma_found(a, b, i);
        assert(a[k]@.metric == metric);
        lemma_sampled(a, metric);
        assert(sampled(a, metric));
        let l = choose|l: int|
            {
                &&& 0 <= l < a.len()
                &&& (#[trigger] a[l])@.metric == metric
                &&& a[l]@.unit == unit_of(a, metric)->0
            };
        assert(k != l ==> a[k]@.unit == a[l]@.unit);
    }
}

proof fn lemma_acceptable_rearranged(a: Seq<Sample>, b: Seq<Sample>, interval: Interval15)
    requires
        a.to_multiset() == b.to_multiset(),
    ensures
        acceptable(a, interval) ==> acceptable(b, interval),
{
    if acceptable(a, interval) {
        assert forall|i: int|
            #![trigger b[i]]
            0 <= i < b.len() implies !is_outside(b, interval, i) && !changes_unit(b, i) by {
            let k = lemma_found(a, b, i);
            assert(!is_outside(a, interval, k));
            law_one_unit(a, interval, k);
            if changes_unit(b, i) {
                let j = choose|j: int|
                    {
                        &&& 0 <= j < i
                        &&& (#[trigger] b[j])@.metric == b[i]@.metric
                        &&& b[j]@.unit != b[i]@.unit
                    };
                let l = lemma_found(a, b, j);
                law_one_unit(a, interval, l);
            }
        }
    }
}

/// A batch may arrive in any order: a rearrangement is acceptable where the
/// batch is, it discards as many samples, and a metric without a replay and in
/// one unit reads the same in it.
pub proof fn law_any_order_reads_the_same(
    a: Seq<Sample>,
    b: Seq<Sample>,
    interval: Interval15,
    rules: AlignRules,
    metric: Seq<char>,
)
    requires
        a.to_multiset() == b.to_multiset(),
        plain(a, metric),
    ensures
        acceptable(a, interval) == acceptable(b, interval),
        a.len() - distinct_pairs(a) == b.len() - distinct_pairs(b),
        sampled(a, metric) == sampled(b, metric),
        metric_outcome(a, rules, metric) == metric_outcome(b, rules, metric),
        metric_backwards(a, rules, metric) == metric_backwards(b, rules, metric),
{
    lemma_rearranged(a, b, metric);
    lemma_rearranged(b, a, metric);
    lemma_plain_feed(a, metric);
    lemma_plain_feed(b, metric);
    lemma_sampled(a, metric);
    lemma_sampled(b, metric);
    law_any_order_survives_the_same(feed_of(a, metric), feed_of(b, metric));
    lemma_acceptable_rearranged(a, b, interval);
    lemma_acceptable_rearranged(b, a, interval);
    to_multiset_len(a);
    to_multiset_len(b);
    assert forall|pair: (Seq<char>, i64)| #[trigger] pairs_of(a).contains(pair) <==> pairs_of(
        b,
    ).contains(pair) by {
        lemma_pair_found(a, b, pair);
        lemma_pair_found(b, a, pair);
    }
    assert(pairs_of(a).to_set() =~= pairs_of(b).to_set());
}

proof fn lemma_pair_found(a: Seq<Sample>, b: Seq<Sample>, pair: (Seq<char>, i64))
    requires
        a.to_multiset() == b.to_multiset(),
    ensures
        pairs_of(b).contains(pair) ==> pairs_of(a).contains(pair),
{
    if pairs_of(b).contains(pair) {
        let i = choose|i: int| 0 <= i < pairs_of(b).len() && pairs_of(b)[i] == pair;
        let k = lemma_found(a, b, i);
        assert(pairs_of(a)[k] == pair);
    }
}

/// One more sample brings one more point for its own metric, at the end, and
/// nothing for any other.
pub proof fn law_sample_brings_one_point(samples: Seq<Sample>, next: Sample, metric: Seq<char>)
    ensures
        feed_of(Seq::<Sample>::empty(), metric).len() == 0,
        next@.metric != metric ==> feed_of(samples.push(next), metric) == feed_of(samples, metric),
        next@.metric == metric ==> feed_of(samples.push(next), metric) == feed_of(
            samples,
            metric,
        ).push(Point { at: next@.at, value: next@.value }),
{
    assert(samples.push(next).drop_last() =~= samples);
}

/// The first sample of a metric says its unit, and a metric is sampled where
/// there is one.
pub proof fn law_first_unit_decides(samples: Seq<Sample>, metric: Seq<char>, i: int)
    requires
        0 <= i < samples.len(),
        samples[i]@.metric == metric,
        forall|j: int| 0 <= j < i ==> (#[trigger] samples[j])@.metric != metric,
    ensures
        unit_of(samples, metric) == Some(samples[i]@.unit),
        sampled(samples, metric),
    decreases samples.len(),
{
    let rest = samples.drop_last();
    if i < samples.len() - 1 {
        assert(rest[i] == samples[i]);
        assert forall|j: int| 0 <= j < i implies (#[trigger] rest[j])@.metric != metric by {
            assert(rest[j] == samples[j]);
        }
        law_first_unit_decides(rest, metric, i);
    } else {
        lemma_sampled(rest, metric);
        if sampled(rest, metric) {
            let j = choose|j: int| 0 <= j < rest.len() && (#[trigger] rest[j])@.metric == metric;
            assert(samples[j] == rest[j]);
        }
    }
}

/// A metric is sampled only where some sample is of it.
pub proof fn law_sampled_has_a_sample(samples: Seq<Sample>, metric: Seq<char>)
    requires
        sampled(samples, metric) || unit_of(samples, metric) is Some,
    ensures
        exists|i: int| 0 <= i < samples.len() && (#[trigger] samples[i])@.metric == metric,
{
    lemma_sampled(samples, metric);
    let i = choose|i: int| 0 <= i < samples.len() && (#[trigger] samples[i])@.metric == metric;
    assert(samples[i]@.metric == metric);
}

/// Samples are acceptable where each lies in the quarter-hour and no two of
/// one metric are in different units.
pub proof fn law_acceptable_is_inside_and_in_one_unit(samples: Seq<Sample>, interval: Interval15)
    ensures
        acceptable(samples, interval) <==> {
            &&& forall|i: int|
                0 <= i < samples.len() ==> 0 <= (#[trigger] samples[i])@.at - 60 * interval@ < 900
            &&& forall|i: int, j: int|
                {
                    &&& 0 <= j < i < samples.len()
                    &&& (#[trigger] samples[j])@.metric == (#[trigger] samples[i])@.metric
                } ==> samples[j]@.unit == samples[i]@.unit
        },
{
    if acceptable(samples, interval) {
        assert forall|i: int| 0 <= i < samples.len() implies 0 <= (#[trigger] samples[i])@.at - 60
            * interval@ < 900 by {
            assert(!is_outside(samples, interval, i));
        }
        assert forall|i: int, j: int|
            {
                &&& 0 <= j < i < samples.len()
                &&& (#[trigger] samples[j])@.metric == (#[trigger] samples[i])@.metric
            } implies samples[j]@.unit == samples[i]@.unit by {
            assert(!changes_unit(samples, i));
        }
    }
}

/// A refusal tells of the first sample that is at fault: where it lies outside
/// the quarter-hour its metric and instant, and else, where an earlier sample
/// of its metric is in another unit, its metric.
pub proof fn law_refusal_tells_of_the_first_fault(
    samples: Seq<Sample>,
    interval: Interval15,
    error: AlignError,
) -> (i: int)
    requires
        refuses(samples, interval, error),
    ensures
        0 <= i < samples.len(),
        match error {
            AlignError::SampleOutsideInterval { metric, at } => {
                &&& !(0 <= samples[i]@.at - 60 * interval@ < 900)
                &&& metric@ == samples[i]@.metric
                &&& at == samples[i]@.at
            },
            AlignError::UnitChanged { metric } => {
                &&& 0 <= samples[i]@.at - 60 * interval@ < 900
                &&& metric@ == samples[i]@.metric
                &&& exists|j: int|
                    {
                        &&& 0 <= j < i
                        &&& (#[trigger] samples[j])@.metric == samples[i]@.metric
                        &&& samples[j]@.unit != samples[i]@.unit
                    }
            },
            AlignError::CounterWentBackwards { .. } => false,
        },
        forall|j: int|
            0 <= j < i ==> 0 <= (#[trigger] samples[j])@.at - 60 * interval@ < 900,
        forall|j: int, k: int|
            {
                &&& 0 <= k < j < i
                &&& (#[trigger] samples[k])@.metric == (#[trigger] samples[j])@.metric
            } ==> samples[k]@.unit == samples[j]@.unit,
{
    let i = choose|i: int|
        {
            &&& #[trigger] first_offence(samples, interval, i)
            &&& match error {
                AlignError::SampleOutsideInterval { metric, at } => {
                    &&& is_outside(samples, interval, i)
                    &&& metric@ == samples[i]@.metric
                    &&& at == samples[i]@.at
                },
                AlignError::UnitChanged { metric } => {
                    &&& !is_outside(samples, interval, i)
                    &&& metric@ == samples[i]@.metric
                },
                AlignError::CounterWentBackwards { .. } => false,
            }
        };
    let start = samples.take(i);
    law_acceptable_is_inside_and_in_one_unit(start, interval);
    assert forall|j: int| 0 <= j < i implies 0 <= (#[trigger] samples[j])@.at - 60 * interval@
        < 900 by {
        assert(start[j] == samples[j]);
    }
    assert forall|j: int, k: int|
        {
            &&& 0 <= k < j < i
            &&& (#[trigger] samples[k])@.metric == (#[trigger] samples[j])@.metric
        } implies samples[k]@.unit == samples[j]@.unit by {
        assert(start[j] == samples[j] && start[k] == samples[k]);
    }
    i
}

/// A pair of metric and instant is among those of the samples where some
/// sample has both, and of no samples there is none.
pub proof fn law_pair_is_a_sample(samples: Seq<Sample>, metric: Seq<char>, at: i64)
    ensures
        pairs_of(samples).contains((metric, at)) <==> exists|i: int|
            {
                &&& 0 <= i < samples.len()
                &&& (#[trigger] samples[i])@.metric == metric
                &&& samples[i]@.at == at
            },
        distinct_pairs(Seq::<Sample>::empty()) == 0,
{
    if pairs_of(samples).contains((metric, at)) {
        let i = choose|i: int| 0 <= i < samples.len() && pairs_of(samples)[i] == (metric, at);
        assert(samples[i]@.metric == metric);
    }
    if exists|i: int|
        {
            &&& 0 <= i < samples.len()
            &&& (#[trigger] samples[i])@.metric == metric
            &&& samples[i]@.at == at
        } {
        let i = choose|i: int|
            {
                &&& 0 <= i < samples.len()
                &&& (#[trigger] samples[i])@.metric == metric
                &&& samples[i]@.at == at
            };
        assert(pairs_of(samples)[i] == (metric, at));
    }
    assert(pairs_of(Seq::<Sample>::empty()).to_set() =~= Set::empty());
}

/// Coverage is the seconds from the first point to the last of nine hundred,
/// and a row of a summed feed is all of them.
pub proof fn law_coverage_is_the_span(points: Seq<Point>, aggregation: Aggregation)
    requires
        points.len() > 0,
    ensures
        aggregation == Aggregation::Sum ==> coverage(points, aggregation).same(
            Ratio { share: 1, whole: 1 },
        ),
        aggregation != Aggregation::Sum ==> coverage(points, aggregation).same(
            Ratio { share: points[points.len() - 1].at - points[0].at, whole: 900 },
        ),
        coverage(points, aggregation).whole > 0,
{
}

/// A metric is present exactly where its coverage is something and, for every
/// minimum, at least that part of the whole. What is below the minimum is
/// missing.
pub proof fn law_minimum_is_inclusive(
    points: Seq<Point>,
    unit: Unit,
    aggregation: Aggregation,
    minimum: Ratio,
    dupes: int,
)
    ensures
        ({
            let had = coverage(points, aggregation);
            &&& outcome(points, unit, aggregation, minimum, dupes) is Present <==> had.share != 0
                && had.share * minimum.whole >= minimum.share * had.whole
            &&& had.below(minimum) ==> outcome(points, unit, aggregation, minimum, dupes)
                == (MetricReadingView::Missing { coverage: had })
        }),
        aggregation != Aggregation::Sum && points.len() > 0 ==> {
            let span = points[points.len() - 1].at - points[0].at;
            outcome(points, unit, aggregation, minimum, dupes) is Present <==> span != 0 && span
                * minimum.whole >= minimum.share * 900
        },
        aggregation == Aggregation::Sum && points.len() > 0 ==> (outcome(
            points,
            unit,
            aggregation,
            minimum,
            dupes,
        ) is Present <==> minimum.whole >= minimum.share),
        points.len() == 0 ==> outcome(points, unit, aggregation, minimum, dupes) is Missing,
{
    let had = coverage(points, aggregation);
    if aggregation == Aggregation::Sum && points.len() > 0 {
        assert(had.share * minimum.whole >= minimum.share * had.whole <==> minimum.whole
            >= minimum.share) by (nonlinear_arith)
            requires
                had.share == had.whole,
                0 < had.whole,
        ;
    }
}

/// The number of a mean is the points' mean, of a sum their sum and of a
/// counter their rise, in the unit and with the duplicates that were given.
pub proof fn law_aggregation_decides_the_number(
    points: Seq<Point>,
    unit: Unit,
    aggregation: Aggregation,
    minimum: Ratio,
    dupes: int,
)
    requires
        points.len() > 0,
    ensures
        outcome(points, unit, aggregation, minimum, dupes) matches MetricReadingView::Present {
            value,
            unit: measured,
            coverage: _,
            dupes: counted,
        } ==> {
            &&& aggregation == Aggregation::TimeWeightedMean ==> value == mean_of(points)
            &&& aggregation == Aggregation::Sum ==> value == sum_of(points)
            &&& aggregation == Aggregation::CounterDelta ==> value == rise_of(points)
            &&& measured == unit
            &&& counted == dupes
        },
{
}

/// A counter is refused where its span is enough and its last value is less
/// than its first, and nowhere else. Where the span is enough and it did not
/// fall it is present with its rise, which is nothing where it stood still.
pub proof fn law_only_a_falling_counter_is_refused(
    points: Seq<Point>,
    unit: Unit,
    aggregation: Aggregation,
    minimum: Ratio,
    dupes: int,
)
    requires
        points.len() > 0,
        points[0].value.finite(),
        points[points.len() - 1].value.finite(),
    ensures
        ({
            let span = points[points.len() - 1].at - points[0].at;
            let (first, last) = (points[0].value.exact(), points[points.len() - 1].value.exact());
            let reached = span != 0 && span * minimum.whole >= minimum.share * 900;
            &&& goes_backwards(points, aggregation, minimum) <==> aggregation
                == Aggregation::CounterDelta && reached && last < first
            &&& aggregation == Aggregation::CounterDelta && reached && last >= first ==> (outcome(
                points,
                unit,
                aggregation,
                minimum,
                dupes,
            ) matches MetricReadingView::Present { value, .. } && value.numerator() == last - first
                && value.denominator() == 1)
        }),
{
    law_minimum_is_inclusive(points, unit, aggregation, minimum, dupes);
}

/// What stands under a metric in the readings is what was measured: the number
/// of its aggregation where the surviving points reach the minimum, and only
/// how little there was where they do not.
pub proof fn law_reading_is_what_was_measured(
    samples: Seq<Sample>,
    rules: AlignRules,
    readings: NameMap<MetricName, MetricReading>,
    metric: Seq<char>,
)
    requires
        are_readings(samples, rules, readings),
        unit_of(samples, metric) is Some,
    ensures
        readings.has(metric),
        survivors(feed_of(samples, metric)).len() > 0,
        ({
            let points = survivors(feed_of(samples, metric));
            let unit = unit_of(samples, metric)->0;
            let aggregation = rules.aggregation(metric, unit);
            let minimum = rules.minimum()@;
            let span = points[points.len() - 1].at - points[0].at;
            let had = if aggregation == Aggregation::Sum {
                Ratio { share: 1, whole: 1 }
            } else {
                Ratio { share: span, whole: 900 }
            };
            let reached = if aggregation == Aggregation::Sum {
                minimum.share <= minimum.whole
            } else {
                span != 0 && span * minimum.whole >= minimum.share * 900
            };
            match readings.at(metric) {
                MetricReading::Present(reading) => {
                    &&& reached
                    &&& reading.unit == unit
                    &&& reading.coverage@.same(had)
                    &&& reading.dupes == feed_of(samples, metric).len() - points.len()
                    &&& aggregation == Aggregation::TimeWeightedMean ==> reading.value@ == mean_of(
                        points,
                    )
                    &&& aggregation == Aggregation::Sum ==> reading.value@ == sum_of(points)
                    &&& aggregation == Aggregation::CounterDelta ==> reading.value@ == rise_of(
                        points,
                    )
                },
                MetricReading::Missing { coverage } => !reached && coverage@.same(had),
            }
        }),
{
    let feed = feed_of(samples, metric);
    let points = survivors(feed);
    let unit = unit_of(samples, metric)->0;
    let aggregation = rules.aggregation(metric, unit);
    lemma_sampled(samples, metric);
    law_survivors(feed);
    assert(readings.has(metric));
    assert(readings.at(metric)@ == metric_outcome(samples, rules, metric));
    law_coverage_is_the_span(points, aggregation);
    law_minimum_is_inclusive(points, unit, aggregation, rules.minimum()@, discarded(feed));
}

/// Readings name what was sampled and nothing else.
pub proof fn law_readings_name_the_samples(
    samples: Seq<Sample>,
    rules: AlignRules,
    readings: NameMap<MetricName, MetricReading>,
    metric: Seq<char>,
)
    requires
        are_readings(samples, rules, readings),
    ensures
        readings.has(metric) <==> exists|i: int|
            0 <= i < samples.len() && (#[trigger] samples[i])@.metric == metric,
        forall|i: int, j: int|
            0 <= i < j < readings@.len() ==> name_before(
                (#[trigger] readings@[i]).key@,
                (#[trigger] readings@[j]).key@,
            ),
{
    assert(readings.has(metric) <==> sampled(samples, metric));
    assert forall|i: int, j: int| 0 <= i < j < readings@.len() implies name_before(
        (#[trigger] readings@[i]).key@,
        (#[trigger] readings@[j]).key@,
    ) by {
        assert(name_before(readings@[i].name(), readings@[j].name()));
    }
}

/// A metric is refused exactly where it is a declared counter whose surviving
/// points reach the minimum and end below where they started.
pub proof fn law_refused_metric_fell(samples: Seq<Sample>, rules: AlignRules, metric: Seq<char>)
    requires
        sampled(samples, metric),
        forall|i: int| 0 <= i < samples.len() ==> (#[trigger] samples[i]).well_formed(),
    ensures
        survivors(feed_of(samples, metric)).len() > 0,
        ({
            let points = survivors(feed_of(samples, metric));
            let span = points[points.len() - 1].at - points[0].at;
            let minimum = rules.minimum()@;
            metric_backwards(samples, rules, metric) <==> {
                &&& rules.is_counter(metric)
                &&& span != 0
                &&& span * minimum.whole >= minimum.share * 900
                &&& points[points.len() - 1].value.exact() < points[0].value.exact()
            }
        }),
{
    let feed = feed_of(samples, metric);
    let points = survivors(feed);
    let unit = unit_of(samples, metric)->0;
    lemma_sampled(samples, metric);
    law_survivors(feed);
    lemma_feed_contains(samples, metric);
    law_declaration_decides(rules, metric, unit);
    assert forall|i: int| 0 <= i < points.len() implies (#[trigger] points[i]).value.finite() by {
        assert(points.contains(points[i]));
        assert(stands(feed, points[i]));
        assert(feed.contains(points[i]));
        let k = choose|k: int|
            {
                &&& 0 <= k < samples.len()
                &&& (#[trigger] samples[k])@.metric == metric
                &&& points[i] == Point { at: samples[k]@.at, value: samples[k]@.value }
            };
        assert(samples[k].well_formed());
    }
    law_only_a_falling_counter_is_refused(
        points,
        unit,
        rules.aggregation(metric, unit),
        rules.minimum()@,
        discarded(feed),
    );
}

/// A metric is a counter where one of the declared names is its own.
pub proof fn law_counter_is_declared(rules: AlignRules, metric: Seq<char>)
    ensures
        rules.is_counter(metric) <==> exists|i: int|
            0 <= i < rules.declared().len() && (#[trigger] rules.declared()[i])@ == metric,
{
    if rules.is_counter(metric) {
        let i = index_named(rules.declared(), metric);
        assert(rules.declared()[i]@ == metric);
    }
    if exists|i: int|
        0 <= i < rules.declared().len() && (#[trigger] rules.declared()[i])@ == metric {
        let i = choose|i: int|
            0 <= i < rules.declared().len() && (#[trigger] rules.declared()[i])@ == metric;
        assert(rules.declared()[i].name() == metric);
    }
}

} // verus!
