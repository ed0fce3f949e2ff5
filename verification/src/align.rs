//! Samples of one interval, as one number per metric.

use vstd::prelude::*;

use crate::aggregate::{
    falls, mean_of, rise_of, sampled_span, span_of, sum_of, sum_of_values, time_weighted_mean,
    Aggregate, AggregateView,
};
use crate::binary64::Binary64;
use crate::names::{
    in_name_order, index_named, lemma_inserted, lemma_one_index, name_before, names_one, search,
    Entry, NameMap, Named,
};
use crate::series::{deduped, discarded, in_time_order, law_survivors, stands, survivors, Point};

verus! {

/// Seconds since the Unix epoch.
pub type Timestamp = i64;

/// How one metric's samples become one number for one interval.
///
/// The kind is carried on each [`Sample`] and is never inferred from a unit
/// string or from the shape of the data.
#[derive(Debug, Clone, Copy, PartialEq, Eq, Hash, Structural)]
pub enum Kind {
    /// A power-like metric: the interval's time-weighted mean.
    Power,
    /// An energy row already attributed to an instant inside the interval:
    /// the sum.
    Energy,
    /// A monotone cumulative counter: the rise from the first sample to the
    /// last inside the interval.
    Counter,
}

/// One measurement of one metric at one instant.
///
/// Build one with [`Sample::new`], which refuses a non-finite value. The
/// fields are public, so a caller can also write a `Sample` literal directly;
/// in that case the finite-value check is the caller's to have done.
#[derive(Debug, PartialEq)]
pub struct Sample {
    /// The metric this sample belongs to.
    pub metric: String,
    /// Seconds since the Unix epoch.
    pub at: Timestamp,
    /// The measured value.
    pub value: Binary64,
    /// How this sample aggregates.
    pub kind: Kind,
}

impl Sample {
    /// One sample. Refuses a non-finite value.
    #[must_use]
    pub fn new(metric: &str, at: Timestamp, value: Binary64, kind: Kind) -> (sample: Option<Self>)
        ensures
            match sample {
                Some(sample) => {
                    &&& value.finite()
                    &&& sample.metric@ == metric@
                    &&& sample.at == at
                    &&& sample.value == value
                    &&& sample.kind == kind
                },
                None => !value.finite(),
            },
    {
        if value.is_finite() {
            Some(Sample { metric: metric.to_owned(), at, value, kind })
        } else {
            None
        }
    }
}

impl Clone for Sample {
    fn clone(&self) -> (copy: Self)
        ensures
            copy.metric@ == self.metric@,
            copy.at == self.at,
            copy.value == self.value,
            copy.kind == self.kind,
    {
        Sample {
            metric: self.metric.clone(),
            at: self.at,
            value: self.value,
            kind: self.kind,
        }
    }
}

/// A positive length in seconds.
#[derive(Debug, Clone, Copy, PartialEq, Eq, PartialOrd, Ord, Hash)]
pub struct Duration {
    seconds: u64,
}

impl Duration {
    /// The seconds.
    pub closed spec fn view(self) -> int {
        self.seconds as int
    }

    /// A length is positive.
    #[verifier::type_invariant]
    pub open spec fn well_formed(self) -> bool {
        0 < self@ <= u64::MAX
    }

    /// A positive length in seconds. Refuses zero.
    #[must_use]
    pub fn seconds(seconds: u64) -> (length: Option<Self>)
        ensures
            match length {
                Some(length) => seconds > 0 && length@ == seconds,
                None => seconds == 0,
            },
    {
        if seconds > 0 {
            Some(Duration { seconds })
        } else {
            None
        }
    }

    /// The length in seconds.
    #[must_use]
    pub fn as_secs(&self) -> (seconds: u64)
        ensures
            seconds == self@,
            seconds > 0,
    {
        proof {
            use_type_invariant(self);
        }
        self.seconds
    }
}

/// A half-open window of time: `[start, start + length)`.
///
/// Any length is allowed. Start and end are [`Timestamp`]s, seconds since the
/// Unix epoch.
#[derive(Debug, Clone, Copy, PartialEq, Eq, Hash)]
pub struct Interval {
    /// The first second of the interval.
    pub start: Timestamp,
    /// How long the interval is.
    pub length: Duration,
}

impl Interval {
    /// The first second past the interval, where there is one.
    pub open spec fn until(self) -> int {
        if self.start + self.length@ > i64::MAX {
            i64::MAX as int
        } else {
            self.start + self.length@
        }
    }

    /// Whether an instant lies inside the interval.
    pub open spec fn covers(self, at: int) -> bool {
        self.start <= at < self.until()
    }

    /// The first second past the interval, saturating at `i64::MAX`.
    #[must_use]
    pub fn end(&self) -> (end: Timestamp)
        ensures
            end == self.until(),
    {
        let end: i128 = self.start as i128 + self.length.as_secs() as i128;
        if end > i64::MAX as i128 {
            i64::MAX
        } else {
            end as i64
        }
    }

    /// Whether `at` lies inside the interval: `start <= at < end`.
    #[must_use]
    pub fn contains(&self, at: Timestamp) -> (inside: bool)
        ensures
            inside == self.covers(at as int),
    {
        at >= self.start && at < self.end()
    }
}

/// What alignment is allowed to accept.
#[derive(Debug, Clone, Copy, PartialEq, Eq, Hash)]
pub struct Rules {
    /// The minimum coverage a metric needs before its number is used.
    pub min_coverage_pct: u8,
}

/// One metric's outcome for one interval.
///
/// [`Reading::Missing`] carries no value on purpose. There is no field a
/// caller could read "anyway", which is what keeps a thin interval out of a
/// downstream number.
#[derive(Debug, PartialEq)]
pub enum Reading {
    /// The metric was measured well enough to use.
    Value {
        /// The aggregated value.
        value: Aggregate,
        /// How much of the interval this number was measured over, 0-100.
        coverage_pct: u8,
        /// How many duplicate samples were discarded reaching it.
        duplicates: u32,
    },
    /// The metric was sampled too thinly. Nothing is filled in.
    Missing {
        /// How much of the interval was seen, 0-100.
        coverage_pct: u8,
    },
}

/// One metric's outcome, over mathematical values.
pub ghost enum ReadingView {
    /// See [`Reading::Value`].
    Value { value: AggregateView, coverage_pct: int, duplicates: int },
    /// See [`Reading::Missing`].
    Missing { coverage_pct: int },
}

impl View for Reading {
    type V = ReadingView;

    open spec fn view(&self) -> ReadingView {
        match *self {
            Reading::Value { value, coverage_pct, duplicates } => ReadingView::Value {
                value: value@,
                coverage_pct: coverage_pct as int,
                duplicates: duplicates as int,
            },
            Reading::Missing { coverage_pct } => ReadingView::Missing {
                coverage_pct: coverage_pct as int,
            },
        }
    }
}

impl Clone for Reading {
    fn clone(&self) -> (copy: Self)
        ensures
            copy@ == self@,
    {
        match self {
            Reading::Value { value, coverage_pct, duplicates } => Reading::Value {
                value: value.clone(),
                coverage_pct: *coverage_pct,
                duplicates: *duplicates,
            },
            Reading::Missing { coverage_pct } => Reading::Missing { coverage_pct: *coverage_pct },
        }
    }
}

/// What alignment refuses.
#[derive(Debug, PartialEq)]
pub enum AlignError {
    /// A sample belongs to another interval. This is a bug in the caller,
    /// not a row worth dropping, so it is a typed error rather than a silent
    /// skip.
    SampleOutsideInterval {
        /// The metric of the offending sample.
        metric: String,
        /// The offending sample's instant, seconds since the Unix epoch.
        at: Timestamp,
    },
    /// A counter fell between its first and last sample. A meter that rolled
    /// over or reset needs a person, not a guess.
    CounterWentBackwards {
        /// The metric whose counter fell.
        metric: String,
    },
}

impl Clone for AlignError {
    fn clone(&self) -> (copy: Self)
        ensures
            match (*self, copy) {
                (
                    AlignError::SampleOutsideInterval { metric, at },
                    AlignError::SampleOutsideInterval { metric: named, at: when },
                ) => named@ == metric@ && when == at,
                (
                    AlignError::CounterWentBackwards { metric },
                    AlignError::CounterWentBackwards { metric: named },
                ) => named@ == metric@,
                _ => false,
            },
    {
        match self {
            AlignError::SampleOutsideInterval { metric, at } => AlignError::SampleOutsideInterval {
                metric: metric.clone(),
                at: *at,
            },
            AlignError::CounterWentBackwards { metric } => AlignError::CounterWentBackwards {
                metric: metric.clone(),
            },
        }
    }
}

/// One reading per metric that was sampled, in name order.
pub type Readings = NameMap<String, Reading>;

/// The points that the samples bring for one metric, in caller order.
pub open spec fn feed_of(samples: Seq<Sample>, metric: Seq<char>) -> Seq<Point>
    decreases samples.len(),
{
    if samples.len() == 0 {
        Seq::empty()
    } else {
        let before = feed_of(samples.drop_last(), metric);
        let last = samples.last();
        if last.metric@ == metric {
            before.push(Point { at: last.at, value: last.value })
        } else {
            before
        }
    }
}

/// The kind of a metric's last sample in caller order, where it has one.
pub open spec fn kind_of(samples: Seq<Sample>, metric: Seq<char>) -> Option<Kind>
    decreases samples.len(),
{
    if samples.len() == 0 {
        None
    } else if samples.last().metric@ == metric {
        Some(samples.last().kind)
    } else {
        kind_of(samples.drop_last(), metric)
    }
}

/// No metric is sampled more often than a reading can count.
pub open spec fn countable(samples: Seq<Sample>) -> bool {
    ||| samples.len() <= u32::MAX
    ||| forall|metric: Seq<char>| (#[trigger] feed_of(samples, metric)).len() <= u32::MAX
}

/// Some sample is of this metric.
pub open spec fn sampled(samples: Seq<Sample>, metric: Seq<char>) -> bool {
    exists|i: int| 0 <= i < samples.len() && (#[trigger] samples[i]).metric@ == metric
}

/// The sample at `i` is the first one outside the interval.
pub open spec fn first_outside(samples: Seq<Sample>, interval: Interval, i: int) -> bool {
    &&& 0 <= i < samples.len()
    &&& !interval.covers(samples[i].at as int)
    &&& all_inside(samples.take(i), interval)
}

/// Every sample is inside the interval.
pub open spec fn all_inside(samples: Seq<Sample>, interval: Interval) -> bool {
    forall|i: int| 0 <= i < samples.len() ==> interval.covers((#[trigger] samples[i]).at as int)
}

/// How much of the interval points in time order measured, in percent. A row
/// of energy is the interval's energy; anything else measures the span from
/// the first point to the last.
pub open spec fn coverage_of(points: Seq<Point>, kind: Kind, interval: Interval) -> int {
    match kind {
        Kind::Energy => 100,
        Kind::Power | Kind::Counter => span_of(points) * 100 / interval.length@,
    }
}

/// A coverage that is good enough for a number.
pub open spec fn enough(coverage_pct: int, min_coverage_pct: int) -> bool {
    coverage_pct != 0 && coverage_pct >= min_coverage_pct
}

/// The number that points come to.
pub open spec fn value_of(points: Seq<Point>, kind: Kind) -> AggregateView {
    match kind {
        Kind::Energy => sum_of(points),
        Kind::Power => mean_of(points),
        Kind::Counter => rise_of(points),
    }
}

/// A counter that falls although it was measured well enough to use.
pub open spec fn goes_backwards(
    points: Seq<Point>,
    kind: Kind,
    interval: Interval,
    min_coverage_pct: int,
) -> bool {
    &&& kind == Kind::Counter
    &&& enough(coverage_of(points, kind, interval), min_coverage_pct)
    &&& falls(points)
}

/// The outcome for the points of a metric that does not go backwards.
pub open spec fn outcome(
    points: Seq<Point>,
    kind: Kind,
    interval: Interval,
    min_coverage_pct: int,
    duplicates: int,
) -> ReadingView {
    let coverage_pct = coverage_of(points, kind, interval);
    if enough(coverage_pct, min_coverage_pct) {
        ReadingView::Value { value: value_of(points, kind), coverage_pct, duplicates }
    } else {
        ReadingView::Missing { coverage_pct }
    }
}

/// The metric is a counter that goes backwards in these samples.
pub open spec fn metric_backwards(
    samples: Seq<Sample>,
    interval: Interval,
    rules: Rules,
    metric: Seq<char>,
) -> bool {
    &&& kind_of(samples, metric) is Some
    &&& goes_backwards(
        survivors(feed_of(samples, metric)),
        kind_of(samples, metric)->0,
        interval,
        rules.min_coverage_pct as int,
    )
}

/// The outcome for a metric that was sampled and does not go backwards.
pub open spec fn metric_outcome(
    samples: Seq<Sample>,
    interval: Interval,
    rules: Rules,
    metric: Seq<char>,
) -> ReadingView {
    outcome(
        survivors(feed_of(samples, metric)),
        kind_of(samples, metric)->0,
        interval,
        rules.min_coverage_pct as int,
        discarded(feed_of(samples, metric)),
    )
}

/// One reading for each metric that was sampled, in name order.
pub open spec fn are_readings(
    samples: Seq<Sample>,
    interval: Interval,
    rules: Rules,
    readings: Readings,
) -> bool {
    &&& readings.well_formed()
    &&& forall|metric: Seq<char>| #[trigger] readings.has(metric) <==> sampled(samples, metric)
    &&& forall|metric: Seq<char>| #[trigger]
        readings.has(metric) ==> readings.at(metric)@ == metric_outcome(
            samples,
            interval,
            rules,
            metric,
        )
}

/// One metric's samples, gathered in caller order.
struct Group {
    metric: String,
    kind: Kind,
    feed: Vec<Point>,
}

impl Named for Group {
    closed spec fn name(&self) -> Seq<char> {
        self.metric@
    }

    fn text(&self) -> (text: &str) {
        self.metric.as_str()
    }
}

/// The groups of the samples: one for each metric, in name order.
spec fn are_groups(samples: Seq<Sample>, groups: Seq<Group>) -> bool {
    &&& in_name_order(groups)
    &&& forall|i: int|
        0 <= i < groups.len() ==> {
            &&& (#[trigger] groups[i]).feed@ == feed_of(samples, groups[i].name())
            &&& kind_of(samples, groups[i].name()) == Some(groups[i].kind)
        }
    &&& forall|metric: Seq<char>| #[trigger]
        kind_of(samples, metric) is Some ==> names_one(groups, metric)
}

/// A metric has points exactly when it has a kind, which is when it was
/// sampled.
pub proof fn lemma_sampled(samples: Seq<Sample>, metric: Seq<char>)
    ensures
        kind_of(samples, metric) is Some <==> sampled(samples, metric),
        kind_of(samples, metric) is Some <==> feed_of(samples, metric).len() > 0,
    decreases samples.len(),
{
    if samples.len() > 0 {
        let rest = samples.drop_last();
        lemma_sampled(rest, metric);
        if sampled(rest, metric) {
            let i = choose|i: int| 0 <= i < rest.len() && (#[trigger] rest[i]).metric@ == metric;
            assert(samples[i] == rest[i]);
        }
        if sampled(samples, metric) && samples.last().metric@ != metric {
            let i = choose|i: int|
                0 <= i < samples.len() && (#[trigger] samples[i]).metric@ == metric;
            assert(rest[i] == samples[i]);
        }
    }
}

proof fn lemma_group_extended(
    seen: Seq<Sample>,
    now: Seq<Sample>,
    before: Seq<Group>,
    after: Seq<Group>,
    k: int,
)
    requires
        now.len() > 0,
        now.drop_last() == seen,
        are_groups(seen, before),
        0 <= k < before.len(),
        before[k].metric@ == now.last().metric@,
        after == before.update(k, after[k]),
        after[k].metric == before[k].metric,
        after[k].kind == now.last().kind,
        after[k].feed@ == before[k].feed@.push(
            Point { at: now.last().at, value: now.last().value },
        ),
    ensures
        are_groups(now, after),
{
    assert forall|j: int| 0 <= j < after.len() implies (#[trigger] after[j]).name()
        == before[j].name() by {}
    assert forall|i: int, j: int| 0 <= i < j < after.len() implies name_before(
        (#[trigger] after[i]).name(),
        (#[trigger] after[j]).name(),
    ) by {
        assert(name_before(before[i].name(), before[j].name()));
    }
    assert forall|j: int| 0 <= j < after.len() implies {
        &&& (#[trigger] after[j]).feed@ == feed_of(now, after[j].name())
        &&& kind_of(now, after[j].name()) == Some(after[j].kind)
    } by {
        assert(before[j].feed@ == feed_of(seen, before[j].name()));
        if j != k && before[j].name() == before[k].name() {
            lemma_one_index(before, j, k);
        }
    }
    assert forall|metric: Seq<char>| #[trigger] kind_of(now, metric) is Some implies names_one(
        after,
        metric,
    ) by {
        if metric == now.last().metric@ {
            assert(after[k].name() == metric);
        } else {
            assert(kind_of(seen, metric) is Some);
            let j = choose|j: int| 0 <= j < before.len() && (#[trigger] before[j]).name() == metric;
            assert(after[j].name() == metric);
        }
    }
}

proof fn lemma_group_inserted(
    seen: Seq<Sample>,
    now: Seq<Sample>,
    before: Seq<Group>,
    after: Seq<Group>,
    k: int,
)
    requires
        now.len() > 0,
        now.drop_last() == seen,
        are_groups(seen, before),
        0 <= k <= before.len(),
        !names_one(before, now.last().metric@),
        forall|j: int|
            0 <= j < k ==> name_before((#[trigger] before[j]).name(), now.last().metric@),
        forall|j: int|
            k <= j < before.len() ==> name_before(
                now.last().metric@,
                (#[trigger] before[j]).name(),
            ),
        after == before.insert(k, after[k]),
        after[k].metric@ == now.last().metric@,
        after[k].kind == now.last().kind,
        after[k].feed@ == seq![Point { at: now.last().at, value: now.last().value }],
    ensures
        are_groups(now, after),
{
    let metric = now.last().metric@;
    lemma_sampled(seen, metric);
    assert(feed_of(seen, metric) =~= Seq::empty());
    assert(feed_of(now, metric) =~= after[k].feed@);
    lemma_inserted(before, after, k);
    assert forall|j: int| 0 <= j < after.len() implies {
        &&& (#[trigger] after[j]).feed@ == feed_of(now, after[j].name())
        &&& kind_of(now, after[j].name()) == Some(after[j].kind)
    } by {
        if j != k {
            let b = if j < k { j } else { j - 1 };
            assert(after[j] == before[b]);
            assert(before[b].name() != metric);
        }
    }
    assert forall|other: Seq<char>| #[trigger] kind_of(now, other) is Some implies names_one(
        after,
        other,
    ) by {
        if other != metric {
            assert(kind_of(seen, other) is Some);
        }
    }
}

/// The samples, gathered per metric in the order they came.
fn series_by_metric(samples: &[Sample]) -> (groups: Vec<Group>)
    ensures
        are_groups(samples@, groups@),
{
    let mut groups: Vec<Group> = Vec::new();
    let mut i: usize = 0;
    while i < samples.len()
        invariant
            i <= samples.len(),
            are_groups(samples@.take(i as int), groups@),
        decreases samples.len() - i,
    {
        let sample: &Sample = &samples[i];
        let point: Point = Point { at: sample.at, value: sample.value };
        let ghost seen = samples@.take(i as int);
        let ghost now = samples@.take(i + 1);
        let ghost before = groups@;
        proof {
            assert(now.drop_last() =~= seen);
            assert(now.last() == *sample);
        }
        match search(&groups, sample.metric.as_str()) {
            Ok(k) => {
                let group: &mut Group = &mut groups[k];
                group.kind = sample.kind;
                group.feed.push(point);
                proof {
                    lemma_group_extended(seen, now, before, groups@, k as int);
                }
            },
            Err(k) => {
                let mut feed: Vec<Point> = Vec::new();
                feed.push(point);
                groups.insert(k, Group { metric: sample.metric.clone(), kind: sample.kind, feed });
                proof {
                    lemma_group_inserted(seen, now, before, groups@, k as int);
                }
            },
        }
        i = i + 1;
    }
    assert(samples@.take(i as int) =~= samples@);
    groups
}

/// How much of the interval these points measured, as a percent 0-100.
///
/// An energy feed is different in kind: a row stamped once inside the
/// interval *is* the interval's energy, and there is no gap between rows to
/// measure, so one sample covers the interval. A power or counter metric
/// measures a span, so it is the span from the first sample to the last over
/// the interval's length; fewer than two samples span nothing.
pub fn coverage_pct_of(points: &[Point], kind: Kind, interval: Interval) -> (coverage_pct: u8)
    requires
        in_time_order(points@),
        span_of(points@) <= interval.length@,
    ensures
        coverage_pct == coverage_of(points@, kind, interval),
        coverage_pct <= 100,
{
    match kind {
        Kind::Energy => 100,
        Kind::Power | Kind::Counter => {
            let span: u128 = sampled_span(points) as u128;
            let length: u128 = interval.length.as_secs() as u128;
            assert(span * 100 / (length as int) <= 100) by (nonlinear_arith)
                requires
                    0 <= span <= length,
                    0 < length,
            ;
            (span * 100 / length) as u8
        },
    }
}

/// One metric's outcome: enough coverage and a number, or how little there
/// was.
///
/// The duplicates are already gone; `duplicates` says how many were. The
/// coverage minimum comes before the aggregation, so a counter that falls is
/// only a typed error when its coverage reached the minimum in the first place.
pub fn reading_of(
    metric: &str,
    kind: Kind,
    points: &[Point],
    interval: Interval,
    min_coverage_pct: u8,
    duplicates: u32,
) -> (reading: Result<Reading, AlignError>)
    requires
        in_time_order(points@),
        span_of(points@) <= interval.length@,
    ensures
        match reading {
            Ok(reading) => {
                &&& !goes_backwards(points@, kind, interval, min_coverage_pct as int)
                &&& reading@ == outcome(
                    points@,
                    kind,
                    interval,
                    min_coverage_pct as int,
                    duplicates as int,
                )
            },
            Err(error) => {
                &&& goes_backwards(points@, kind, interval, min_coverage_pct as int)
                &&& error matches AlignError::CounterWentBackwards { metric: named }
                &&& named@ == metric@
            },
        },
{
    let coverage_pct: u8 = coverage_pct_of(points, kind, interval);
    if coverage_pct == 0 || coverage_pct < min_coverage_pct {
        return Ok(Reading::Missing { coverage_pct });
    }
    proof {
        use_type_invariant(&interval.length);
        if points.len() == 0 {
            assert(0int * 100 / interval.length@ == 0) by (nonlinear_arith)
                requires
                    interval.length@ != 0,
            ;
        }
    }
    let value: Aggregate = match kind {
        Kind::Energy => sum_of_values(points),
        Kind::Power => time_weighted_mean(points),
        Kind::Counter => {
            let first: Binary64 = points[0].value;
            let last: Binary64 = points[points.len() - 1].value;
            if last.lt(&first) {
                return Err(AlignError::CounterWentBackwards { metric: metric.to_owned() });
            }
            Aggregate::Rise { first, last }
        },
    };
    Ok(Reading::Value { value, coverage_pct, duplicates })
}

/// A metric brings no more points than there are samples.
proof fn lemma_feed_no_longer(samples: Seq<Sample>, metric: Seq<char>)
    ensures
        feed_of(samples, metric).len() <= samples.len(),
    decreases samples.len(),
{
    if samples.len() > 0 {
        lemma_feed_no_longer(samples.drop_last(), metric);
    }
}

/// What a metric brings lies where its samples lie.
pub proof fn lemma_feed_inside(samples: Seq<Sample>, interval: Interval, metric: Seq<char>)
    requires
        all_inside(samples, interval),
    ensures
        forall|i: int|
            0 <= i < feed_of(samples, metric).len() ==> interval.covers(
                (#[trigger] feed_of(samples, metric)[i]).at as int,
            ),
    decreases samples.len(),
{
    if samples.len() > 0 {
        let rest = samples.drop_last();
        assert forall|i: int| 0 <= i < rest.len() implies interval.covers(
            (#[trigger] rest[i]).at as int,
        ) by {
            assert(rest[i] == samples[i]);
        }
        lemma_feed_inside(rest, interval, metric);
        assert(interval.covers(samples[samples.len() - 1].at as int));
        let (feed, before) = (feed_of(samples, metric), feed_of(rest, metric));
        assert forall|i: int| 0 <= i < feed.len() implies interval.covers(
            (#[trigger] feed[i]).at as int,
        ) by {
            if i < before.len() {
                assert(feed[i] == before[i]);
            }
        }
    }
}

/// The survivors of a feed inside the interval are in time order and span
/// less than its length.
pub proof fn lemma_survivors_inside(feed: Seq<Point>, interval: Interval)
    requires
        interval.length.well_formed(),
        forall|i: int| 0 <= i < feed.len() ==> interval.covers((#[trigger] feed[i]).at as int),
    ensures
        in_time_order(survivors(feed)),
        0 <= span_of(survivors(feed)) < interval.length@,
{
    law_survivors(feed);
    let kept = survivors(feed);
    assert forall|i: int| 0 <= i < kept.len() implies interval.covers(
        (#[trigger] kept[i]).at as int,
    ) by {
        assert(kept.contains(kept[i]));
        assert(stands(feed, kept[i]));
    }
    if kept.len() > 1 {
        assert(kept[0].at < kept[kept.len() - 1].at);
    }
}

/// Samples of one interval, as one number per metric.
///
/// A metric with no sample at all is absent from the map rather than
/// `Missing`: nothing was expected of it here, and an expectation is the
/// caller's to hold. The map is in name order, so the same input always
/// yields the same iteration order.
///
/// A metric's kind is taken from its last sample in caller order; a caller
/// that mixes kinds for one metric is a caller to fix.
///
/// # Errors
///
/// Returns [`AlignError::SampleOutsideInterval`] for the first sample whose
/// timestamp lies outside `[interval.start, interval.end)`, and else
/// [`AlignError::CounterWentBackwards`] for the first counter in name order
/// that reached the coverage minimum and falls.
pub fn align(samples: &[Sample], interval: Interval, rules: &Rules) -> (aligned: Result<
    Readings,
    AlignError,
>)
    requires
        all_inside(samples@, interval) ==> countable(samples@),
    ensures
        match aligned {
            Ok(readings) => {
                &&& all_inside(samples@, interval)
                &&& forall|metric: Seq<char>| !metric_backwards(samples@, interval, *rules, metric)
                &&& are_readings(samples@, interval, *rules, readings)
            },
            Err(AlignError::SampleOutsideInterval { metric, at }) => exists|i: int|
                #![trigger samples@[i]]
                {
                    &&& first_outside(samples@, interval, i)
                    &&& metric@ == samples@[i].metric@
                    &&& at == samples@[i].at
                },
            Err(AlignError::CounterWentBackwards { metric }) => {
                &&& all_inside(samples@, interval)
                &&& metric_backwards(samples@, interval, *rules, metric@)
                &&& forall|other: Seq<char>| #[trigger]
                    metric_backwards(samples@, interval, *rules, other) ==> other == metric@
                        || name_before(metric@, other)
            },
        },
{
    let mut i: usize = 0;
    while i < samples.len()
        invariant
            i <= samples.len(),
            all_inside(samples@.take(i as int), interval),
        decreases samples.len() - i,
    {
        let sample: &Sample = &samples[i];
        if !interval.contains(sample.at) {
            assert(first_outside(samples@, interval, i as int));
            return Err(
                AlignError::SampleOutsideInterval { metric: sample.metric.clone(), at: sample.at },
            );
        }
        proof {
            let now = samples@.take(i + 1);
            assert forall|j: int| 0 <= j < now.len() implies interval.covers(
                (#[trigger] now[j]).at as int,
            ) by {
                if j < i {
                    assert(now[j] == samples@.take(i as int)[j]);
                }
            }
        }
        i = i + 1;
    }
    assert(samples@.take(i as int) =~= samples@);

    let groups: Vec<Group> = series_by_metric(samples);
    let mut entries: Vec<Entry<String, Reading>> = Vec::new();
    let mut k: usize = 0;
    while k < groups.len()
        invariant
            k <= groups.len(),
            entries.len() == k,
            countable(samples@),
            all_inside(samples@, interval),
            are_groups(samples@, groups@),
            forall|j: int|
                0 <= j < k ==> {
                    &&& (#[trigger] groups@[j]).name() == entries@[j].key@
                    &&& !metric_backwards(samples@, interval, *rules, groups@[j].name())
                    &&& entries@[j].value@ == metric_outcome(
                        samples@,
                        interval,
                        *rules,
                        groups@[j].name(),
                    )
                },
        decreases groups.len() - k,
    {
        let group: &Group = &groups[k];
        let ghost name = group.name();
        proof {
            assert(groups@[k as int].feed@ == feed_of(samples@, name));
            lemma_feed_inside(samples@, interval, name);
            lemma_feed_no_longer(samples@, name);
            use_type_invariant(&interval.length);
            lemma_survivors_inside(group.feed@, interval);
        }
        let (points, duplicates): (Vec<Point>, u32) = deduped(group.feed.as_slice());
        let read: Result<Reading, AlignError> = reading_of(
            group.metric.as_str(),
            group.kind,
            points.as_slice(),
            interval,
            rules.min_coverage_pct,
            duplicates,
        );
        match read {
            Ok(reading) => {
                entries.push(Entry { key: group.metric.clone(), value: reading });
            },
            Err(error) => {
                proof {
                    assert(metric_backwards(samples@, interval, *rules, name));
                    assert forall|other: Seq<char>| #[trigger]
                        metric_backwards(samples@, interval, *rules, other) implies other == name
                        || name_before(name, other) by {
                        let j = index_named(groups@, other);
                        assert(groups@[j].name() == other);
                        if k < j {
                            assert(name_before(groups@[k as int].name(), groups@[j].name()));
                        }
                    }
                }
                return Err(error);
            },
        }
        k = k + 1;
    }
    proof {
        assert forall|a: int, b: int| 0 <= a < b < entries.len() implies name_before(
            (#[trigger] entries@[a]).name(),
            (#[trigger] entries@[b]).name(),
        ) by {
            assert(name_before(groups@[a].name(), groups@[b].name()));
        }
        assert forall|metric: Seq<char>| !metric_backwards(samples@, interval, *rules, metric) by {
            if kind_of(samples@, metric) is Some {
                let j = index_named(groups@, metric);
                assert(groups@[j].name() == metric);
            }
        }
        assert forall|metric: Seq<char>| #[trigger] names_one(entries@, metric) <==> sampled(
            samples@,
            metric,
        ) by {
            lemma_sampled(samples@, metric);
            if names_one(entries@, metric) {
                let j = index_named(entries@, metric);
                assert(groups@[j].name() == metric);
            }
            if kind_of(samples@, metric) is Some {
                let j = index_named(groups@, metric);
                assert(groups@[j].name() == entries@[j].key@);
                assert(entries@[j].name() == metric);
            }
        }
        assert forall|metric: Seq<char>| #[trigger]
            names_one(entries@, metric) implies entries@[index_named(entries@, metric)].value@
            == metric_outcome(samples@, interval, *rules, metric) by {
            let j = index_named(entries@, metric);
            assert(groups@[j].name() == entries@[j].key@);
        }
    }
    Ok(NameMap::from_ordered(entries))
}

} // verus!
