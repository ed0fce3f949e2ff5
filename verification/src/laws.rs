//! What holds of alignment as a whole.

use vstd::prelude::*;

use crate::aggregate::{law_rise_is_not_negative, mean_of, rise_of, span_of, sum_of};
use crate::align::{
    all_inside, are_readings, coverage_of, enough, feed_of, first_outside, goes_backwards, kind_of,
    lemma_feed_inside, lemma_sampled, lemma_survivors_inside, metric_backwards, metric_outcome,
    outcome, sampled, value_of, Duration, Interval, Kind, Reading, ReadingView, Readings, Rules,
    Sample,
};
use crate::names::{law_one_order, lemma_held_at, name_before, names_one, Named};
use crate::series::{
    discarded, law_any_order_survives_the_same, law_arrival_order_is_free, law_latest_wins,
    law_replay_changes_nothing, law_survivors, lemma_found, lemma_found_apart, stands, survivors,
    unreplayed, Point,
};

verus! {

/// An interval contains its start but not its end. Only an interval that
/// starts at the last representable second has no room for its start.
pub proof fn law_interval_is_half_open(interval: Interval)
    requires
        interval.length.well_formed(),
        interval.start < i64::MAX,
    ensures
        interval.covers(interval.start as int),
        !interval.covers(interval.until()),
{
}

/// An interval and the one that starts where it ends share no instant and
/// leave none out.
pub proof fn law_neighbours_tile(interval: Interval, next: Interval, at: int)
    requires
        interval.length.well_formed(),
        next.length.well_formed(),
        next.start == interval.until(),
    ensures
        !(interval.covers(at) && next.covers(at)),
        interval.start <= at < next.until() ==> interval.covers(at) || next.covers(at),
{
}

/// The `i`-th interval of a walk.
pub open spec fn walked(start: int, length: Duration, i: int) -> Interval {
    Interval { start: (start + i * length@) as i64, length }
}

/// A window that is a whole number of intervals long is walked with no gap
/// and no overlap: each interval ends where the next one starts, each instant
/// of the window lies in exactly one of them, and every other instant in none.
pub proof fn law_walk_is_whole(start: int, length: Duration, count: int, at: int, i: int)
    requires
        length.well_formed(),
        i64::MIN <= start,
        start + count * length@ <= i64::MAX,
        0 <= i < count,
    ensures
        walked(start, length, i).until() == start + (i + 1) * length@,
        start <= at < start + count * length@ <==> 0 <= (at - start) / length@ < count,
        walked(start, length, i).covers(at) <==> start <= at < start + count * length@ && i == (at
            - start) / length@,
{
    let n = length@;
    let offset = at - start;
    let k = offset / n;
    assert(k * n <= offset < k * n + n) by (nonlinear_arith)
        requires
            0 < n,
            k == offset / n,
    ;
    assert(0 <= offset < count * n <==> 0 <= k < count) by (nonlinear_arith)
        requires
            0 < n,
            0 < count,
            k * n <= offset < k * n + n,
    ;
    assert((i + 1) * n == i * n + n && i * n + n <= count * n && 0 <= i * n) by (nonlinear_arith)
        requires
            0 <= i < count,
            0 < n,
    ;
    if i < k {
        assert(i * n + n <= k * n) by (nonlinear_arith)
            requires
                i < k,
                0 < n,
        ;
    } else if k < i {
        assert(k * n + n <= i * n) by (nonlinear_arith)
            requires
                k < i,
                0 < n,
        ;
    }
}

/// Either every sample is inside the interval, or one of them is the first
/// outside, never both and never two.
pub proof fn law_outside_sample_is_found(samples: Seq<Sample>, interval: Interval)
    ensures
        all_inside(samples, interval) <==> !exists|i: int| first_outside(samples, interval, i),
        forall|i: int, j: int|
            first_outside(samples, interval, i) && first_outside(samples, interval, j) ==> i == j,
    decreases samples.len(),
{
    if samples.len() > 0 {
        let rest = samples.drop_last();
        law_outside_sample_is_found(rest, interval);
        assert(samples.take(samples.len() - 1) =~= rest);
        assert forall|i: int| 0 <= i < rest.len() implies #[trigger] samples.take(i) == rest.take(
            i,
        ) by {
            assert(samples.take(i) =~= rest.take(i));
        }
        if all_inside(rest, interval) && !interval.covers(samples.last().at as int) {
            assert(first_outside(samples, interval, samples.len() - 1));
        }
        if !all_inside(rest, interval) {
            let i = choose|i: int| first_outside(rest, interval, i);
            assert(first_outside(samples, interval, i));
            let j = choose|j: int|
                0 <= j < rest.len() && !interval.covers((#[trigger] rest[j]).at as int);
            assert(!interval.covers(samples[j].at as int));
        }
        if all_inside(rest, interval) && interval.covers(samples.last().at as int) {
            assert forall|i: int| 0 <= i < samples.len() implies interval.covers(
                (#[trigger] samples[i]).at as int,
            ) by {
                if i < rest.len() {
                    assert(samples[i] == rest[i]);
                }
            }
        }
    }
    assert forall|i: int, j: int|
        first_outside(samples, interval, i) && first_outside(samples, interval, j) implies i
        == j by {
        if i < j {
            assert(samples.take(j)[i] == samples[i]);
        } else if j < i {
            assert(samples.take(i)[j] == samples[j]);
        }
    }
}

/// Samples that come later neither cure nor replace a refusal: the sample that
/// was the first outside still is, and no other.
pub proof fn law_refusal_stands(a: Seq<Sample>, b: Seq<Sample>, interval: Interval, i: int)
    requires
        first_outside(a, interval, i),
    ensures
        first_outside(a + b, interval, i),
        (a + b)[i] == a[i],
        forall|j: int| first_outside(a + b, interval, j) ==> j == i,
{
    assert((a + b).take(i) =~= a.take(i));
    law_outside_sample_is_found(a + b, interval);
}

/// Coverage is a percentage, and a sampled span never covers the whole of a
/// half-open interval.
pub proof fn law_coverage_is_a_percentage(
    samples: Seq<Sample>,
    interval: Interval,
    metric: Seq<char>,
    kind: Kind,
)
    requires
        interval.length.well_formed(),
        all_inside(samples, interval),
    ensures
        0 <= coverage_of(survivors(feed_of(samples, metric)), kind, interval) <= 100,
        kind != Kind::Energy ==> coverage_of(survivors(feed_of(samples, metric)), kind, interval)
            < 100,
{
    lemma_feed_inside(samples, interval, metric);
    lemma_survivors_inside(feed_of(samples, metric), interval);
    let span = span_of(survivors(feed_of(samples, metric)));
    let length = interval.length@;
    assert(0 <= span * 100 / length < 100) by (nonlinear_arith)
        requires
            0 <= span < length,
    ;
}

/// One instant spans nothing: a power or counter metric that was sampled at
/// no more than one is missing with no coverage, whatever the minimum.
pub proof fn law_one_instant_is_missing(
    points: Seq<Point>,
    kind: Kind,
    interval: Interval,
    min_coverage_pct: int,
    duplicates: int,
)
    requires
        interval.length.well_formed(),
        points.len() <= 1,
        kind != Kind::Energy,
    ensures
        outcome(points, kind, interval, min_coverage_pct, duplicates) == (ReadingView::Missing {
            coverage_pct: 0,
        }),
        !goes_backwards(points, kind, interval, min_coverage_pct),
{
    assert(span_of(points) == 0);
    assert(0int * 100 / interval.length@ == 0) by (nonlinear_arith)
        requires
            interval.length@ != 0,
    ;
}

/// One energy row covers the whole interval: whatever can be asked for, it is
/// enough.
pub proof fn law_energy_is_covered(
    points: Seq<Point>,
    interval: Interval,
    min_coverage_pct: int,
    duplicates: int,
)
    requires
        min_coverage_pct <= 100,
    ensures
        outcome(points, Kind::Energy, interval, min_coverage_pct, duplicates) matches
            ReadingView::Value { coverage_pct, .. } && coverage_pct == 100,
{
}

/// A reading has a value exactly where the coverage is not zero and reaches
/// the minimum, and the coverage it reports is the same either way.
pub proof fn law_coverage_decides_the_value(
    points: Seq<Point>,
    kind: Kind,
    interval: Interval,
    min_coverage_pct: int,
    duplicates: int,
)
    ensures
        outcome(points, kind, interval, min_coverage_pct, duplicates) is Value <==> enough(
            coverage_of(points, kind, interval),
            min_coverage_pct,
        ),
        match outcome(points, kind, interval, min_coverage_pct, duplicates) {
            ReadingView::Value { coverage_pct, .. } => coverage_pct,
            ReadingView::Missing { coverage_pct } => coverage_pct,
        } == coverage_of(points, kind, interval),
{
}

/// A counter that was sampled too thinly is missing, never refused, whichever
/// way it went.
pub proof fn law_thin_counter_is_not_refused(
    points: Seq<Point>,
    interval: Interval,
    min_coverage_pct: int,
)
    requires
        !enough(coverage_of(points, Kind::Counter, interval), min_coverage_pct),
    ensures
        !goes_backwards(points, Kind::Counter, interval, min_coverage_pct),
{
}

/// A counter reads its ends: what lies between them changes nothing.
pub proof fn law_counter_reads_its_ends(
    a: Seq<Point>,
    b: Seq<Point>,
    interval: Interval,
    min_coverage_pct: int,
    duplicates: int,
)
    requires
        a.len() > 0,
        b.len() > 0,
        a.first() == b.first(),
        a.last() == b.last(),
    ensures
        outcome(a, Kind::Counter, interval, min_coverage_pct, duplicates) == outcome(
            b,
            Kind::Counter,
            interval,
            min_coverage_pct,
            duplicates,
        ),
        goes_backwards(a, Kind::Counter, interval, min_coverage_pct) == goes_backwards(
            b,
            Kind::Counter,
            interval,
            min_coverage_pct,
        ),
{
}

/// A counter that has a value never fell.
pub proof fn law_valued_counter_did_not_fall(
    points: Seq<Point>,
    interval: Interval,
    min_coverage_pct: int,
)
    requires
        points.first().value.finite(),
        points.last().value.finite(),
        enough(coverage_of(points, Kind::Counter, interval), min_coverage_pct),
        !goes_backwards(points, Kind::Counter, interval, min_coverage_pct),
    ensures
        value_of(points, Kind::Counter).numerator() >= 0,
{
    law_rise_is_not_negative(points);
}

/// A metric without a sample is absent: nothing is brought for it and it is
/// refused for nothing.
pub proof fn law_unsampled_metric_is_absent(
    samples: Seq<Sample>,
    interval: Interval,
    rules: Rules,
    metric: Seq<char>,
)
    requires
        !sampled(samples, metric),
    ensures
        feed_of(samples, metric).len() == 0,
        kind_of(samples, metric) is None,
        !metric_backwards(samples, interval, rules, metric),
{
    lemma_sampled(samples, metric);
}

/// A metric's own samples, in caller order.
pub open spec fn own(samples: Seq<Sample>, metric: Seq<char>) -> Seq<Sample> {
    samples.filter(|sample: Sample| sample.metric@ == metric)
}

proof fn lemma_own(samples: Seq<Sample>, metric: Seq<char>)
    ensures
        feed_of(own(samples, metric), metric) == feed_of(samples, metric),
        kind_of(own(samples, metric), metric) == kind_of(samples, metric),
    decreases samples.len(),
{
    reveal(Seq::filter);
    if samples.len() > 0 {
        let rest = samples.drop_last();
        lemma_own(rest, metric);
        if samples.last().metric@ == metric {
            assert(own(samples, metric).drop_last() =~= own(rest, metric));
        }
    }
}

/// Metrics do not touch each other: whatever else a batch holds, a metric
/// reads as its own samples read alone.
pub proof fn law_metrics_are_independent(
    samples: Seq<Sample>,
    interval: Interval,
    rules: Rules,
    metric: Seq<char>,
)
    ensures
        sampled(own(samples, metric), metric) == sampled(samples, metric),
        metric_outcome(own(samples, metric), interval, rules, metric) == metric_outcome(
            samples,
            interval,
            rules,
            metric,
        ),
        metric_backwards(own(samples, metric), interval, rules, metric) == metric_backwards(
            samples,
            interval,
            rules,
            metric,
        ),
{
    lemma_own(samples, metric);
    lemma_sampled(samples, metric);
    lemma_sampled(own(samples, metric), metric);
}

/// The same input always reads back in the same order, with the same outcome
/// for each metric.
pub proof fn law_same_input_reads_the_same(
    samples: Seq<Sample>,
    interval: Interval,
    rules: Rules,
    a: Readings,
    b: Readings,
)
    requires
        are_readings(samples, interval, rules, a),
        are_readings(samples, interval, rules, b),
    ensures
        a@.len() == b@.len(),
        forall|i: int|
            0 <= i < a@.len() ==> (#[trigger] a@[i]).key@ == b@[i].key@ && a@[i].value@
                == b@[i].value@,
{
    assert forall|metric: Seq<char>| #[trigger] names_one(a@, metric) <==> names_one(
        b@,
        metric,
    ) by {
        assert(a.has(metric) <==> sampled(samples, metric));
        assert(b.has(metric) <==> sampled(samples, metric));
    }
    law_one_order(a@, b@);
    assert forall|i: int| 0 <= i < a@.len() implies (#[trigger] a@[i]).key@ == b@[i].key@
        && a@[i].value@ == b@[i].value@ by {
        assert(a@[i].name() == b@[i].name());
        lemma_held_at(a, i);
        lemma_held_at(b, i);
    }
}

/// What two batches of samples bring for a metric is what the first brings
/// and then what the second brings.
proof fn lemma_feed_of_batches(a: Seq<Sample>, b: Seq<Sample>, metric: Seq<char>)
    ensures
        feed_of(a + b, metric) == feed_of(a, metric) + feed_of(b, metric),
        kind_of(a + b, metric) == if kind_of(b, metric) is Some {
            kind_of(b, metric)
        } else {
            kind_of(a, metric)
        },
    decreases b.len(),
{
    if b.len() == 0 {
        assert(a + b =~= a);
        assert(feed_of(a, metric) + feed_of(b, metric) =~= feed_of(a, metric));
    } else {
        lemma_feed_of_batches(a, b.drop_last(), metric);
        assert((a + b).drop_last() =~= a + b.drop_last());
        assert(feed_of(a + b, metric) =~= feed_of(a, metric) + feed_of(b, metric));
    }
}

/// A batch that is sent twice reads as it did the first time, but for the
/// count of duplicates, which grows by everything that was sent again.
pub proof fn law_replayed_batch_reads_the_same(
    samples: Seq<Sample>,
    interval: Interval,
    rules: Rules,
    metric: Seq<char>,
)
    ensures
        metric_backwards(samples + samples, interval, rules, metric) == metric_backwards(
            samples,
            interval,
            rules,
            metric,
        ),
        match metric_outcome(samples, interval, rules, metric) {
            ReadingView::Value { value, coverage_pct, duplicates } => metric_outcome(
                samples + samples,
                interval,
                rules,
                metric,
            ) == (ReadingView::Value {
                value,
                coverage_pct,
                duplicates: duplicates + feed_of(samples, metric).len(),
            }),
            missing => metric_outcome(samples + samples, interval, rules, metric) == missing,
        },
{
    lemma_feed_of_batches(samples, samples, metric);
    law_replay_changes_nothing(feed_of(samples, metric));
}

/// Two neighbours trade places without effect, replays or not, where their
/// metrics differ or where their instants differ and their kinds agree.
pub proof fn law_neighbours_may_trade_places(
    samples: Seq<Sample>,
    i: int,
    interval: Interval,
    rules: Rules,
    metric: Seq<char>,
)
    requires
        0 <= i < samples.len() - 1,
        samples[i].metric@ != samples[i + 1].metric@ || (samples[i].at != samples[i + 1].at
            && samples[i].kind == samples[i + 1].kind),
    ensures
        ({
            let traded = samples.update(i, samples[i + 1]).update(i + 1, samples[i]);
            &&& metric_outcome(traded, interval, rules, metric) == metric_outcome(
                samples,
                interval,
                rules,
                metric,
            )
            &&& metric_backwards(traded, interval, rules, metric) == metric_backwards(
                samples,
                interval,
                rules,
                metric,
            )
        }),
{
    let (a, b) = (samples[i], samples[i + 1]);
    let traded = samples.update(i, b).update(i + 1, a);
    let head = samples.take(i);
    let tail = samples.skip(i + 2);
    assert(samples =~= head + seq![a, b] + tail);
    assert(traded =~= head + seq![b, a] + tail);
    lemma_pair(head, a, b, metric);
    lemma_pair(head, b, a, metric);
    lemma_feed_of_batches(head + seq![a, b], tail, metric);
    lemma_feed_of_batches(head + seq![b, a], tail, metric);
    if a.metric@ == metric && b.metric@ == metric {
        let feed = feed_of(samples, metric);
        let k = feed_of(head, metric).len() as int;
        assert(feed[k] == Point { at: a.at, value: a.value });
        assert(feed[k + 1] == Point { at: b.at, value: b.value });
        law_arrival_order_is_free(feed, k);
        assert(feed_of(traded, metric) =~= feed.update(k, feed[k + 1]).update(k + 1, feed[k]));
    } else {
        assert(feed_of(traded, metric) =~= feed_of(samples, metric));
    }
}

proof fn lemma_pair(head: Seq<Sample>, a: Sample, b: Sample, metric: Seq<char>)
    ensures
        feed_of(head + seq![a, b], metric) == {
            let first = if a.metric@ == metric {
                feed_of(head, metric).push(Point { at: a.at, value: a.value })
            } else {
                feed_of(head, metric)
            };
            if b.metric@ == metric {
                first.push(Point { at: b.at, value: b.value })
            } else {
                first
            }
        },
        kind_of(head + seq![a, b], metric) == if b.metric@ == metric {
            Some(b.kind)
        } else if a.metric@ == metric {
            Some(a.kind)
        } else {
            kind_of(head, metric)
        },
{
    reveal_with_fuel(feed_of, 3);
    reveal_with_fuel(kind_of, 3);
    let both = head + seq![a, b];
    let one = head + seq![a];
    assert(both.drop_last() =~= one);
    assert(one.drop_last() =~= head);
    assert(both.last() == b);
    assert(one.last() == a);
}

/// Some sample brings this point for the metric.
spec fn brings(samples: Seq<Sample>, metric: Seq<char>, point: Point) -> bool {
    exists|i: int|
        {
            &&& 0 <= i < samples.len()
            &&& (#[trigger] samples[i]).metric@ == metric
            &&& point == Point { at: samples[i].at, value: samples[i].value }
        }
}

/// A metric's points are those that its samples bring, and its kind is that
/// of one of them.
proof fn lemma_brought(samples: Seq<Sample>, metric: Seq<char>)
    ensures
        forall|point: Point| #[trigger]
            feed_of(samples, metric).contains(point) <==> brings(samples, metric, point),
        kind_of(samples, metric) matches Some(kind) ==> exists|i: int|
            {
                &&& 0 <= i < samples.len()
                &&& (#[trigger] samples[i]).metric@ == metric
                &&& samples[i].kind == kind
            },
    decreases samples.len(),
{
    if samples.len() > 0 {
        let rest = samples.drop_last();
        lemma_brought(rest, metric);
        let (feed, before) = (feed_of(samples, metric), feed_of(rest, metric));
        assert(samples[samples.len() - 1] == samples.last());
        if kind_of(rest, metric) is Some {
            let i = choose|i: int|
                {
                    &&& 0 <= i < rest.len()
                    &&& (#[trigger] rest[i]).metric@ == metric
                    &&& rest[i].kind == kind_of(rest, metric)->0
                };
            assert(samples[i] == rest[i]);
        }
        assert forall|point: Point| #[trigger] feed.contains(point) <==> brings(
            samples,
            metric,
            point,
        ) by {
            assert(before.contains(point) <==> brings(rest, metric, point));
            if feed.contains(point) {
                let i = choose|i: int| 0 <= i < feed.len() && feed[i] == point;
                if i < before.len() {
                    assert(before[i] == point);
                    assert(before.contains(point));
                    let k = choose|k: int|
                        {
                            &&& 0 <= k < rest.len()
                            &&& (#[trigger] rest[k]).metric@ == metric
                            &&& point == Point { at: rest[k].at, value: rest[k].value }
                        };
                    assert(samples[k] == rest[k]);
                }
            }
            if brings(samples, metric, point) {
                let k = choose|k: int|
                    {
                        &&& 0 <= k < samples.len()
                        &&& (#[trigger] samples[k]).metric@ == metric
                        &&& point == Point { at: samples[k].at, value: samples[k].value }
                    };
                if k < rest.len() {
                    assert(rest[k] == samples[k]);
                    assert(before.contains(point));
                    let i = choose|i: int| 0 <= i < before.len() && before[i] == point;
                    assert(feed[i] == point);
                } else {
                    assert(feed[before.len() as int] == point);
                }
            }
        }
    }
}

/// The metric is sampled at no instant twice, and its samples are of one kind.
pub open spec fn plain(samples: Seq<Sample>, metric: Seq<char>) -> bool {
    forall|i: int, j: int|
        {
            &&& 0 <= i < samples.len()
            &&& 0 <= j < samples.len()
            &&& i != j
            &&& (#[trigger] samples[i]).metric@ == metric
            &&& (#[trigger] samples[j]).metric@ == metric
        } ==> samples[i].at != samples[j].at && samples[i].kind == samples[j].kind
}

proof fn lemma_plain_feed(samples: Seq<Sample>, metric: Seq<char>)
    requires
        plain(samples, metric),
    ensures
        unreplayed(feed_of(samples, metric)),
    decreases samples.len(),
{
    if samples.len() > 0 {
        let rest = samples.drop_last();
        assert forall|i: int, j: int|
            {
                &&& 0 <= i < rest.len()
                &&& 0 <= j < rest.len()
                &&& i != j
                &&& (#[trigger] rest[i]).metric@ == metric
                &&& (#[trigger] rest[j]).metric@ == metric
            } implies rest[i].at != rest[j].at && rest[i].kind == rest[j].kind by {
            assert(samples[i].at != samples[j].at && samples[i].kind == samples[j].kind);
        }
        lemma_plain_feed(rest, metric);
        lemma_brought(rest, metric);
        let (feed, before) = (feed_of(samples, metric), feed_of(rest, metric));
        assert forall|i: int, j: int| 0 <= i < j < feed.len() implies (#[trigger] feed[i]).at != (
        #[trigger] feed[j]).at by {
            assert(before.contains(before[i]));
            if j < before.len() {
                assert(before[i].at != before[j].at);
            } else {
                let k = choose|k: int|
                    {
                        &&& 0 <= k < rest.len()
                        &&& (#[trigger] rest[k]).metric@ == metric
                        &&& before[i] == Point { at: rest[k].at, value: rest[k].value }
                    };
                assert(samples[k].at != samples[samples.len() - 1].at);
            }
        }
    }
}

/// What a rearranged batch brings, the batch brings.
proof fn lemma_rearranged(a: Seq<Sample>, b: Seq<Sample>, metric: Seq<char>)
    requires
        a.to_multiset() == b.to_multiset(),
        plain(a, metric),
    ensures
        plain(b, metric),
        forall|point: Point| #[trigger]
            feed_of(b, metric).contains(point) ==> feed_of(a, metric).contains(point),
        kind_of(b, metric) is Some ==> kind_of(a, metric) == kind_of(b, metric),
{
    lemma_brought(a, metric);
    lemma_brought(b, metric);
    assert forall|i: int, j: int|
        {
            &&& 0 <= i < b.len()
            &&& 0 <= j < b.len()
            &&& i != j
            &&& (#[trigger] b[i]).metric@ == metric
            &&& (#[trigger] b[j]).metric@ == metric
        } implies b[i].at != b[j].at && b[i].kind == b[j].kind by {
        let (k, l) = lemma_found_apart(a, b, i, j);
        assert(a[k].at != a[l].at && a[k].kind == a[l].kind);
    }
    assert forall|point: Point| #[trigger] feed_of(b, metric).contains(point) implies feed_of(
        a,
        metric,
    ).contains(point) by {
        let i = choose|i: int|
            {
                &&& 0 <= i < b.len()
                &&& (#[trigger] b[i]).metric@ == metric
                &&& point == Point { at: b[i].at, value: b[i].value }
            };
        let k = lemma_found(a, b, i);
        assert(a[k].metric@ == metric);
        assert(brings(a, metric, point));
    }
    if kind_of(b, metric) is Some {
        let i = choose|i: int|
            {
                &&& 0 <= i < b.len()
                &&& (#[trigger] b[i]).metric@ == metric
                &&& b[i].kind == kind_of(b, metric)->0
            };
        let k = lemma_found(a, b, i);
        assert(a[k].metric@ == metric);
        lemma_sampled(a, metric);
        assert(sampled(a, metric));
        let l = choose|l: int|
            {
                &&& 0 <= l < a.len()
                &&& (#[trigger] a[l]).metric@ == metric
                &&& a[l].kind == kind_of(a, metric)->0
            };
        assert(k != l ==> a[k].kind == a[l].kind);
    }
}

/// A batch may arrive in any order: a metric without a replay and of one kind
/// reads the same in every rearrangement, and a rearrangement is inside the
/// interval where the batch is.
pub proof fn law_any_order_reads_the_same(
    a: Seq<Sample>,
    b: Seq<Sample>,
    interval: Interval,
    rules: Rules,
    metric: Seq<char>,
)
    requires
        a.to_multiset() == b.to_multiset(),
        plain(a, metric),
    ensures
        all_inside(a, interval) == all_inside(b, interval),
        sampled(a, metric) == sampled(b, metric),
        metric_outcome(a, interval, rules, metric) == metric_outcome(b, interval, rules, metric),
        metric_backwards(a, interval, rules, metric) == metric_backwards(
            b,
            interval,
            rules,
            metric,
        ),
{
    lemma_rearranged(a, b, metric);
    lemma_rearranged(b, a, metric);
    lemma_plain_feed(a, metric);
    lemma_plain_feed(b, metric);
    lemma_sampled(a, metric);
    lemma_sampled(b, metric);
    law_any_order_survives_the_same(feed_of(a, metric), feed_of(b, metric));
    lemma_inside_rearranged(a, b, interval);
    lemma_inside_rearranged(b, a, interval);
}

proof fn lemma_inside_rearranged(a: Seq<Sample>, b: Seq<Sample>, interval: Interval)
    requires
        a.to_multiset() == b.to_multiset(),
    ensures
        all_inside(a, interval) ==> all_inside(b, interval),
{
    if all_inside(a, interval) {
        assert forall|i: int| 0 <= i < b.len() implies interval.covers(
            (#[trigger] b[i]).at as int,
        ) by {
            let k = lemma_found(a, b, i);
            assert(interval.covers(a[k].at as int));
        }
    }
}

/// A further sample never lowers a metric's coverage.
pub proof fn law_more_samples_never_cover_less(
    feed: Seq<Point>,
    next: Point,
    kind: Kind,
    interval: Interval,
)
    requires
        interval.length.well_formed(),
    ensures
        coverage_of(survivors(feed), kind, interval) <= coverage_of(
            survivors(feed.push(next)),
            kind,
            interval,
        ),
{
    let (before, after) = (survivors(feed), survivors(feed.push(next)));
    law_survivors(feed);
    law_survivors(feed.push(next));
    assert(span_of(before) <= span_of(after)) by {
        if before.len() > 0 {
            lemma_reaches(feed, next, before.first());
            lemma_reaches(feed, next, before.last());
        } else if after.len() > 1 {
            assert(after[0].at < after[after.len() - 1].at);
        }
    }
    let (a, b, n) = (span_of(before), span_of(after), interval.length@);
    assert(a * 100 / n <= b * 100 / n) by (nonlinear_arith)
        requires
            a <= b,
            0 < n,
    ;
}

/// A survivor's instant still lies between the ends of what survives once a
/// point is added.
proof fn lemma_reaches(feed: Seq<Point>, next: Point, point: Point)
    requires
        survivors(feed).contains(point),
    ensures
        survivors(feed.push(next)).len() > 0,
        survivors(feed.push(next)).first().at <= point.at <= survivors(feed.push(next)).last().at,
{
    let after = survivors(feed.push(next));
    law_survivors(feed.push(next));
    law_latest_wins(feed, next);
    let kept = if point.at == next.at {
        next
    } else {
        point
    };
    assert(after.contains(kept));
    let k = choose|k: int| 0 <= k < after.len() && after[k] == kept;
    if 0 < k {
        assert(after[0].at < after[k].at);
    }
    if k < after.len() - 1 {
        assert(after[k].at < after[after.len() - 1].at);
    }
}

/// An interval covers the seconds from its start on, as many as it is long. It
/// never covers the last representable second, which is where ends saturate.
pub proof fn law_interval_covers_its_length(interval: Interval, at: int)
    ensures
        interval.covers(at) <==> interval.start <= at < interval.start + interval.length@ && at
            < i64::MAX,
        interval.start + interval.length@ <= i64::MAX ==> interval.until() == interval.start
            + interval.length@,
        interval.start + interval.length@ > i64::MAX ==> interval.until() == i64::MAX,
{
}

/// Samples are inside where each of them is, and the first outside is the one
/// with none outside before it.
pub proof fn law_inside_is_each_inside(samples: Seq<Sample>, interval: Interval, i: int)
    requires
        0 <= i < samples.len(),
    ensures
        all_inside(samples, interval) <==> forall|j: int|
            0 <= j < samples.len() ==> interval.start <= (#[trigger] samples[j]).at
                < interval.start + interval.length@ && samples[j].at < i64::MAX,
        first_outside(samples, interval, i) <==> !(interval.start <= samples[i].at < interval.start
            + interval.length@ && samples[i].at < i64::MAX) && forall|j: int|
            0 <= j < i ==> interval.start <= (#[trigger] samples[j]).at < interval.start
                + interval.length@ && samples[j].at < i64::MAX,
{
    let start = samples.take(i);
    assert forall|j: int| 0 <= j < i implies #[trigger] start[j] == samples[j] by {}
    if all_inside(start, interval) {
        assert forall|j: int| 0 <= j < i implies interval.covers(
            (#[trigger] samples[j]).at as int,
        ) by {
            assert(interval.covers(start[j].at as int));
        }
    }
    if all_inside(samples, interval) {
        assert forall|j: int| 0 <= j < samples.len() implies interval.start <= (
        #[trigger] samples[j]).at < interval.start + interval.length@ && samples[j].at
            < i64::MAX by {
            assert(interval.covers(samples[j].at as int));
        }
    }
}

/// One more sample brings one more point for its own metric, at the end, and
/// nothing for any other.
pub proof fn law_sample_brings_one_point(samples: Seq<Sample>, next: Sample, metric: Seq<char>)
    ensures
        feed_of(Seq::<Sample>::empty(), metric).len() == 0,
        next.metric@ != metric ==> feed_of(samples.push(next), metric) == feed_of(samples, metric),
        next.metric@ == metric ==> feed_of(samples.push(next), metric) == feed_of(
            samples,
            metric,
        ).push(Point { at: next.at, value: next.value }),
{
    assert(samples.push(next).drop_last() =~= samples);
}

/// The last sample of a metric says its kind, and a metric is sampled where
/// there is one.
pub proof fn law_last_kind_decides(samples: Seq<Sample>, metric: Seq<char>, i: int)
    requires
        0 <= i < samples.len(),
        samples[i].metric@ == metric,
        forall|j: int| i < j < samples.len() ==> (#[trigger] samples[j]).metric@ != metric,
    ensures
        kind_of(samples, metric) == Some(samples[i].kind),
        sampled(samples, metric),
    decreases samples.len(),
{
    if i < samples.len() - 1 {
        let rest = samples.drop_last();
        assert(samples[samples.len() - 1].metric@ != metric);
        assert forall|j: int| i < j < rest.len() implies (#[trigger] rest[j]).metric@ != metric by {
            assert(rest[j] == samples[j]);
        }
        law_last_kind_decides(rest, metric, i);
    }
}

/// A metric is sampled only where some sample is of it.
pub proof fn law_sampled_has_a_sample(samples: Seq<Sample>, metric: Seq<char>)
    requires
        sampled(samples, metric) || kind_of(samples, metric) is Some,
    ensures
        exists|i: int| 0 <= i < samples.len() && (#[trigger] samples[i]).metric@ == metric,
{
    lemma_sampled(samples, metric);
    let i = choose|i: int| 0 <= i < samples.len() && (#[trigger] samples[i]).metric@ == metric;
    assert(samples[i].metric@ == metric);
}

/// The whole percent is the greatest that the sampled span reaches, and a row
/// of energy is all of it.
pub proof fn law_coverage_is_the_span(points: Seq<Point>, kind: Kind, interval: Interval)
    requires
        interval.length.well_formed(),
        points.len() > 0,
    ensures
        kind == Kind::Energy ==> coverage_of(points, kind, interval) == 100,
        kind != Kind::Energy ==> {
            let span = points[points.len() - 1].at - points[0].at;
            let coverage_pct = coverage_of(points, kind, interval);
            coverage_pct * interval.length@ <= span * 100 < (coverage_pct + 1) * interval.length@
        },
{
    if kind != Kind::Energy {
        let span = points[points.len() - 1].at - points[0].at;
        assert(span_of(points) == span);
        lemma_rounded_down(span, interval.length@);
    }
}

proof fn lemma_rounded_down(span: int, length: int)
    requires
        0 < length,
    ensures
        (span * 100 / length) * length <= span * 100 < (span * 100 / length + 1) * length,
{
    let whole = span * 100 / length;
    assert(whole * length <= span * 100 < (whole + 1) * length) by (nonlinear_arith)
        requires
            0 < length,
            whole == span * 100 / length,
    ;
}

/// A span is enough where it is the asked part of the interval, and at least
/// one percent of it: a power or counter metric has a number there and nowhere
/// else. An energy row is enough for every minimum up to a hundred.
pub proof fn law_minimum_is_inclusive(
    points: Seq<Point>,
    kind: Kind,
    interval: Interval,
    min_coverage_pct: int,
    duplicates: int,
)
    requires
        interval.length.well_formed(),
        points.len() > 0,
    ensures
        kind == Kind::Energy ==> (outcome(
            points,
            kind,
            interval,
            min_coverage_pct,
            duplicates,
        ) is Value <==> min_coverage_pct <= 100),
        kind != Kind::Energy && points[0].at <= points[points.len() - 1].at ==> {
            let span = points[points.len() - 1].at - points[0].at;
            outcome(points, kind, interval, min_coverage_pct, duplicates) is Value <==> span * 100
                >= interval.length@ && span * 100 >= min_coverage_pct * interval.length@
        },
{
    if kind != Kind::Energy && points[0].at <= points[points.len() - 1].at {
        let span = points[points.len() - 1].at - points[0].at;
        let length = interval.length@;
        let covered = coverage_of(points, kind, interval);
        law_coverage_is_the_span(points, kind, interval);
        assert(covered >= min_coverage_pct <==> span * 100 >= min_coverage_pct * length)
            by (nonlinear_arith)
            requires
                0 < length,
                covered * length <= span * 100 < (covered + 1) * length,
        ;
        assert(covered >= 1 <==> span * 100 >= length) by (nonlinear_arith)
            requires
                0 < length,
                covered * length <= span * 100 < (covered + 1) * length,
        ;
        assert(covered >= 0) by (nonlinear_arith)
            requires
                0 < length,
                0 <= span,
                span * 100 < (covered + 1) * length,
        ;
    }
}

/// The number of a power metric is its mean, of an energy metric its sum and
/// of a counter its rise.
pub proof fn law_kind_decides_the_number(
    points: Seq<Point>,
    kind: Kind,
    interval: Interval,
    min_coverage_pct: int,
    duplicates: int,
)
    ensures
        outcome(points, kind, interval, min_coverage_pct, duplicates) matches ReadingView::Value {
            value,
            coverage_pct: _,
            duplicates: counted,
        } ==> {
            &&& kind == Kind::Power ==> value == mean_of(points)
            &&& kind == Kind::Energy ==> value == sum_of(points)
            &&& kind == Kind::Counter ==> value == rise_of(points)
            &&& counted == duplicates
        },
{
}

/// A counter is refused where its span is enough and its last value is less
/// than its first, and nowhere else. Where the span is enough and it did not
/// fall it has a number, its rise, which is nothing where it stood still.
pub proof fn law_only_a_falling_counter_is_refused(
    points: Seq<Point>,
    kind: Kind,
    interval: Interval,
    min_coverage_pct: int,
    duplicates: int,
)
    requires
        interval.length.well_formed(),
        points.len() > 0,
        points[0].at <= points[points.len() - 1].at,
        points[0].value.finite(),
        points[points.len() - 1].value.finite(),
    ensures
        ({
            let span = points[points.len() - 1].at - points[0].at;
            let (first, last) = (points[0].value.exact(), points[points.len() - 1].value.exact());
            let reached = span * 100 >= interval.length@ && span * 100 >= min_coverage_pct
                * interval.length@;
            &&& goes_backwards(points, kind, interval, min_coverage_pct) <==> kind == Kind::Counter
                && reached && last < first
            &&& kind == Kind::Counter && reached && last >= first ==> (outcome(
                points,
                kind,
                interval,
                min_coverage_pct,
                duplicates,
            ) matches ReadingView::Value { value, .. } && value.numerator() == last - first
                && value.denominator() == 1)
        }),
{
    law_minimum_is_inclusive(points, Kind::Counter, interval, min_coverage_pct, duplicates);
}

/// What stands under a metric in the readings is what was measured: the number
/// of its kind where the surviving span is enough, and only how little there
/// was where it is not. Either way the coverage is the span rounded down to a
/// whole percent.
pub proof fn law_reading_is_what_was_measured(
    samples: Seq<Sample>,
    interval: Interval,
    rules: Rules,
    readings: Readings,
    metric: Seq<char>,
)
    requires
        interval.length.well_formed(),
        are_readings(samples, interval, rules, readings),
        kind_of(samples, metric) is Some,
    ensures
        readings.has(metric),
        survivors(feed_of(samples, metric)).len() > 0,
        ({
            let points = survivors(feed_of(samples, metric));
            let kind = kind_of(samples, metric)->0;
            let span = points[points.len() - 1].at - points[0].at;
            let length = interval.length@;
            let reached = if kind == Kind::Energy {
                rules.min_coverage_pct <= 100
            } else {
                span * 100 >= length && span * 100 >= rules.min_coverage_pct * length
            };
            match readings.at(metric) {
                Reading::Value { value, coverage_pct, duplicates } => {
                    &&& reached
                    &&& kind == Kind::Energy ==> coverage_pct == 100 && value@ == sum_of(points)
                    &&& kind != Kind::Energy ==> coverage_pct * length <= span * 100 < (coverage_pct
                        + 1) * length
                    &&& kind == Kind::Power ==> value@ == mean_of(points)
                    &&& kind == Kind::Counter ==> value@ == rise_of(points)
                    &&& duplicates == feed_of(samples, metric).len() - points.len()
                },
                Reading::Missing { coverage_pct } => {
                    &&& !reached
                    &&& kind == Kind::Energy ==> coverage_pct == 100
                    &&& kind != Kind::Energy ==> coverage_pct * length <= span * 100 < (coverage_pct
                        + 1) * length
                },
            }
        }),
{
    let feed = feed_of(samples, metric);
    let points = survivors(feed);
    let kind = kind_of(samples, metric)->0;
    lemma_sampled(samples, metric);
    law_survivors(feed);
    assert(readings.has(metric));
    assert(readings.at(metric)@ == metric_outcome(samples, interval, rules, metric));
    if points.len() > 1 {
        assert(points[0].at < points[points.len() - 1].at);
    }
    law_coverage_is_the_span(points, kind, interval);
    law_minimum_is_inclusive(
        points,
        kind,
        interval,
        rules.min_coverage_pct as int,
        discarded(feed),
    );
}

/// Readings name what was sampled and nothing else.
pub proof fn law_readings_name_the_samples(
    samples: Seq<Sample>,
    interval: Interval,
    rules: Rules,
    readings: Readings,
    metric: Seq<char>,
)
    requires
        are_readings(samples, interval, rules, readings),
    ensures
        readings.has(metric) <==> exists|i: int|
            0 <= i < samples.len() && (#[trigger] samples[i]).metric@ == metric,
        forall|i: int, j: int|
            0 <= i < j < readings@.len() ==> name_before(
                (#[trigger] readings@[i]).key@,
                (#[trigger] readings@[j]).key@,
            ),
{
    assert(readings.has(metric) <==> sampled(samples, metric));
    assert forall|i: int, j: int| 0 <= i < j < readings@.len() implies name_before(
        (#[trigger] readings@[i]).key@,
        (#[trigger] readings@[j]).key@,
    ) by {
        assert(name_before(readings@[i].name(), readings@[j].name()));
    }
}

/// A metric is refused exactly where it is a counter whose surviving points
/// reach the minimum and end below where they started.
pub proof fn law_refused_metric_fell(
    samples: Seq<Sample>,
    interval: Interval,
    rules: Rules,
    metric: Seq<char>,
)
    requires
        interval.length.well_formed(),
        sampled(samples, metric),
        forall|i: int| 0 <= i < samples.len() ==> (#[trigger] samples[i]).value.finite(),
    ensures
        survivors(feed_of(samples, metric)).len() > 0,
        ({
            let points = survivors(feed_of(samples, metric));
            let span = points[points.len() - 1].at - points[0].at;
            metric_backwards(samples, interval, rules, metric) <==> {
                &&& kind_of(samples, metric) == Some(Kind::Counter)
                &&& span * 100 >= interval.length@
                &&& span * 100 >= rules.min_coverage_pct * interval.length@
                &&& points[points.len() - 1].value.exact() < points[0].value.exact()
            }
        }),
{
    let feed = feed_of(samples, metric);
    let points = survivors(feed);
    lemma_sampled(samples, metric);
    law_survivors(feed);
    lemma_brought(samples, metric);
    assert forall|i: int| 0 <= i < points.len() implies (#[trigger] points[i]).value.finite() by {
        assert(points.contains(points[i]));
        assert(stands(feed, points[i]));
        assert(feed.contains(points[i]));
        assert(brings(samples, metric, points[i]));
    }
    if points.len() > 1 {
        assert(points[0].at < points[points.len() - 1].at);
    }
    law_only_a_falling_counter_is_refused(
        points,
        kind_of(samples, metric)->0,
        interval,
        rules.min_coverage_pct as int,
        discarded(feed),
    );
}

} // verus!
