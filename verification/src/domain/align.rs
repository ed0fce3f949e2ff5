//! Samples into one quarter-hour's readings. The one rule, in one place.
//!
//! Feeds arrive at whatever rate they like, a controller polled every sixty
//! seconds, a collector's sub-minute gauges, a meter row every fifteen
//! minutes, and what is decided on them works on [`Interval15`]. This module
//! is the step between, and it is a calculation: it reads no clock, opens
//! nothing, and takes the interval it is aligning as an argument.
//!
//! **Coverage is the sampled span, not a count of samples.** A feed does not
//! declare its rate, so "how much of this quarter-hour did we see?" cannot be
//! a fraction of an expected row count. It is the span from the first sample
//! to the last over the interval's fifteen minutes: samples for the first six
//! minutes cover 40 %, and samples at minutes 0, 5 and 12 cover 80 %.
//!
//! **Nothing is filled.** A metric under the configured minimum is
//! [`MetricReading::Missing`] carrying the coverage it did have. A gap is
//! reported as a gap; the alternative is a plausible number nobody can tell
//! from a measured one.
//!
//! **How a metric aggregates is declared, never inferred.** A `kWh` sample
//! does not say whether it is this interval's energy or a meter's running
//! total. So [`AlignRules`] names the metrics that are monotone counters and
//! everything else takes the default for its unit.

use vstd::prelude::*;
use vstd::seq_lib::seq_to_set_is_finite;

use super::interval::{
    law_one_quarter_hour_contains_an_instant, Interval15, SECONDS_PER_MINUTE,
};
use super::sample::{MetricName, Sample, Unit};
use super::units::{Percent, Ratio};
use crate::aggregate::{
    mean_of, rise_of, sampled_span, span_of, sum_of, sum_of_values, time_weighted_mean, Aggregate,
    AggregateView,
};
use crate::binary64::Binary64;
use crate::names::{
    in_name_order, index_named, lemma_inserted, lemma_one_index, lemma_taken, lemma_without_last,
    name_before, names_one, same_names, search, Entry, NameMap, Named,
};
use crate::series::{
    deduped, discarded, in_time_order, law_discards_count_replays, law_survivors, stands,
    survivors, Point,
};

verus! {

/// How one metric's samples become one number for one interval.
#[derive(Debug, Clone, Copy, PartialEq, Eq, Structural)]
pub enum Aggregation {
    /// Power held between samples: the interval's time-weighted mean.
    TimeWeightedMean,
    /// Energy already attributed to an instant inside the interval: the sum.
    Sum,
    /// A monotone cumulative counter: the rise from the first sample to the
    /// last. See [`IntervalReading`] for what that is and is not.
    CounterDelta,
}

impl Aggregation {
    /// The default for a unit: power is a mean, energy is a sum.
    pub open spec fn default_for(unit: Unit) -> Self {
        match unit {
            Unit::Watts | Unit::Kilowatts => Aggregation::TimeWeightedMean,
            Unit::KilowattHours => Aggregation::Sum,
        }
    }

    /// The default for a unit: power is a mean, energy is a sum.
    ///
    /// Only [`AlignRules::aggregation_for`] calls this. A second caller would
    /// be a second place that decides how a metric aggregates.
    fn for_unit(unit: Unit) -> (aggregation: Self)
        ensures
            aggregation == Self::default_for(unit),
    {
        match unit {
            Unit::Watts | Unit::Kilowatts => Aggregation::TimeWeightedMean,
            Unit::KilowattHours => Aggregation::Sum,
        }
    }
}

/// What alignment is allowed to accept, as a value the configuration supplies.
///
/// Private fields: the counter set and the minimum are invariants of one
/// decision, and [`AlignRules::aggregation_for`] is the only way to ask it.
#[derive(Debug, PartialEq)]
pub struct AlignRules {
    min_coverage: Percent,
    counters: Vec<MetricName>,
}

impl AlignRules {
    /// The minimum coverage a metric needs before its number is used, in
    /// percent.
    ///
    /// **ESTIMATE.** Eighty percent is a starting value, not a measured one:
    /// it is three missed minutes out of fifteen. A site's configuration
    /// carries its own, and this constant is what it defaults to.
    pub const DEFAULT_MIN_COVERAGE_PCT: u64 = 80;

    /// The minimum coverage.
    pub closed spec fn minimum(self) -> Percent {
        self.min_coverage
    }

    /// The declared counters, in name order.
    pub closed spec fn declared(self) -> Seq<MetricName> {
        self.counters@
    }

    /// No counter is declared twice.
    #[verifier::type_invariant]
    pub open spec fn well_formed(self) -> bool {
        in_name_order(self.declared())
    }

    /// Whether a metric is a declared counter.
    pub open spec fn is_counter(self, metric: Seq<char>) -> bool {
        names_one(self.declared(), metric)
    }

    /// How a metric aggregates.
    pub open spec fn aggregation(self, metric: Seq<char>, unit: Unit) -> Aggregation {
        if self.is_counter(metric) {
            Aggregation::CounterDelta
        } else {
            Aggregation::default_for(unit)
        }
    }

    /// Rules with the metrics that are monotone counters named.
    #[must_use]
    pub fn new(min_coverage: Percent, counters: Vec<MetricName>) -> (rules: Self)
        ensures
            rules.minimum() == min_coverage,
            forall|metric: Seq<char>| #[trigger]
                rules.is_counter(metric) <==> names_one(counters@, metric),
            rules.well_formed(),
    {
        let mut declared: Vec<MetricName> = Vec::new();
        let mut i: usize = 0;
        while i < counters.len()
            invariant
                i <= counters.len(),
                in_name_order(declared@),
                forall|metric: Seq<char>| #[trigger]
                    names_one(declared@, metric) <==> names_one(counters@.take(i as int), metric),
            decreases counters.len() - i,
        {
            let ghost before = declared@;
            let counter: MetricName = counters[i].clone();
            match search(&declared, counter.as_str()) {
                Ok(k) => {
                    assert(names_one(before, counter@)) by {
                        assert(before[k as int].name() == counter@);
                    }
                },
                Err(k) => {
                    declared.insert(k, counter);
                    proof {
                        lemma_inserted(before, declared@, k as int);
                    }
                },
            }
            proof {
                let (seen, now) = (counters@.take(i as int), counters@.take(i + 1));
                assert forall|metric: Seq<char>| #[trigger]
                    names_one(declared@, metric) <==> names_one(now, metric) by {
                    assert(names_one(before, metric) <==> names_one(seen, metric));
                    lemma_taken(counters@, i as int, metric);
                }
            }
            i = i + 1;
        }
        assert(counters@.take(i as int) =~= counters@);
        AlignRules { min_coverage, counters: declared }
    }

    /// The ESTIMATE default minimum with no counters declared.
    #[must_use]
    pub fn default_rules() -> (rules: Self)
        ensures
            rules.minimum()@ == (Ratio { share: 80, whole: 100 }),
            forall|metric: Seq<char>| !#[trigger] rules.is_counter(metric),
    {
        let minimum: Percent = match Percent::new(Self::DEFAULT_MIN_COVERAGE_PCT) {
            Some(minimum) => minimum,
            None => Percent::zero(),
        };
        Self::new(minimum, Vec::new())
    }

    /// The minimum coverage a metric needs before its number is used.
    #[must_use]
    pub fn min_coverage(&self) -> (minimum: Percent)
        ensures
            minimum == self.minimum(),
    {
        self.min_coverage
    }

    /// How this metric aggregates. The one seam that decides.
    #[must_use]
    pub fn aggregation_for(&self, metric: &MetricName, unit: Unit) -> (aggregation: Aggregation)
        ensures
            aggregation == self.aggregation(metric@, unit),
    {
        proof {
            use_type_invariant(self);
        }
        match search(&self.counters, metric.as_str()) {
            Ok(k) => {
                assert(self.counters@[k as int].name() == metric@);
                Aggregation::CounterDelta
            },
            Err(_) => Aggregation::for_unit(unit),
        }
    }
}

impl Clone for AlignRules {
    fn clone(&self) -> (copy: Self)
        ensures
            copy.minimum() == self.minimum(),
            forall|metric: Seq<char>| #[trigger]
                copy.is_counter(metric) <==> self.is_counter(metric),
    {
        let mut counters: Vec<MetricName> = Vec::new();
        let mut i: usize = 0;
        while i < self.counters.len()
            invariant
                i <= self.counters.len(),
                counters.len() == i,
                forall|j: int| 0 <= j < i ==> (#[trigger] counters@[j])@ == self.counters@[j]@,
            decreases self.counters.len() - i,
        {
            counters.push(self.counters[i].clone());
            i = i + 1;
        }
        proof {
            assert forall|metric: Seq<char>| #[trigger]
                names_one(counters@, metric) <==> names_one(self.counters@, metric) by {
                if names_one(counters@, metric) {
                    let j = index_named(counters@, metric);
                    assert(self.counters@[j].name() == counters@[j].name());
                }
                if names_one(self.counters@, metric) {
                    let j = index_named(self.counters@, metric);
                    assert(counters@[j].name() == self.counters@[j].name());
                }
            }
        }
        Self::new(self.min_coverage, counters)
    }
}

/// One metric's number for one interval, with how much of the interval it was
/// measured over and how many duplicates were discarded reaching it.
#[derive(Debug, PartialEq)]
pub struct Reading {
    /// The number.
    pub value: Aggregate,
    /// What it is measured in.
    pub unit: Unit,
    /// How much of the interval it was measured over.
    pub coverage: Percent,
    /// Samples discarded because a later one carried the same instant.
    pub dupes: u32,
}

/// A metric that was measured well enough to use, or one that was not.
///
/// [`MetricReading::Missing`] carries no value on purpose. There is no field
/// a caller could read "anyway", which is what keeps a thin interval out of a
/// ledger.
#[derive(Debug, PartialEq)]
pub enum MetricReading {
    /// Enough of the interval was measured.
    Present(Reading),
    /// Too little of it was.
    Missing {
        /// How much was measured.
        coverage: Percent,
    },
}

/// What a reading says.
pub ghost enum MetricReadingView {
    /// See [`MetricReading::Present`].
    Present { value: AggregateView, unit: Unit, coverage: Ratio, dupes: int },
    /// See [`MetricReading::Missing`].
    Missing { coverage: Ratio },
}

impl Reading {
    /// What the reading says.
    pub open spec fn view(&self) -> MetricReadingView {
        MetricReadingView::Present {
            value: self.value@,
            unit: self.unit,
            coverage: self.coverage@,
            dupes: self.dupes as int,
        }
    }

    /// The number.
    #[must_use]
    pub fn value(&self) -> (value: &Aggregate)
        ensures
            *value == self.value,
    {
        &self.value
    }

    /// What it is measured in.
    #[must_use]
    pub fn unit(&self) -> (unit: Unit)
        ensures
            unit == self.unit,
    {
        self.unit
    }

    /// How much of the interval this number was measured over.
    #[must_use]
    pub fn coverage(&self) -> (coverage: Percent)
        ensures
            coverage == self.coverage,
    {
        self.coverage
    }

    /// Samples discarded because a later one carried the same instant.
    #[must_use]
    pub fn dupes(&self) -> (dupes: u32)
        ensures
            dupes == self.dupes,
    {
        self.dupes
    }
}

impl Clone for Reading {
    fn clone(&self) -> (copy: Self)
        ensures
            copy@ == self@,
    {
        Reading {
            value: self.value.clone(),
            unit: self.unit,
            coverage: self.coverage,
            dupes: self.dupes,
        }
    }
}

impl MetricReading {
    /// What the reading says.
    pub open spec fn view(&self) -> MetricReadingView {
        match *self {
            MetricReading::Present(reading) => reading@,
            MetricReading::Missing { coverage } => MetricReadingView::Missing {
                coverage: coverage@,
            },
        }
    }

    /// How much of the interval was measured, present or not.
    #[must_use]
    pub fn coverage(&self) -> (coverage: Percent)
        ensures
            match *self {
                MetricReading::Present(reading) => coverage == reading.coverage,
                MetricReading::Missing { coverage: had } => coverage == had,
            },
    {
        match self {
            MetricReading::Present(reading) => reading.coverage,
            MetricReading::Missing { coverage } => *coverage,
        }
    }
}

impl Clone for MetricReading {
    fn clone(&self) -> (copy: Self)
        ensures
            copy@ == self@,
    {
        match self {
            MetricReading::Present(reading) => MetricReading::Present(reading.clone()),
            MetricReading::Missing { coverage } => MetricReading::Missing { coverage: *coverage },
        }
    }
}

/// The entries that are present, in order.
pub open spec fn present_among(entries: Seq<Entry<MetricName, MetricReading>>) -> Seq<
    (MetricName, Reading),
>
    decreases entries.len(),
{
    if entries.len() == 0 {
        Seq::empty()
    } else {
        let before = present_among(entries.drop_last());
        match entries.last().value {
            MetricReading::Present(reading) => before.push((entries.last().key, reading)),
            MetricReading::Missing { .. } => before,
        }
    }
}

/// The entries that are missing, in order.
pub open spec fn missing_among(entries: Seq<Entry<MetricName, MetricReading>>) -> Seq<
    (MetricName, Percent),
>
    decreases entries.len(),
{
    if entries.len() == 0 {
        Seq::empty()
    } else {
        let before = missing_among(entries.drop_last());
        match entries.last().value {
            MetricReading::Present(_) => before,
            MetricReading::Missing { coverage } => before.push((entries.last().key, coverage)),
        }
    }
}

/// Everything one quarter-hour was able to say about itself.
///
/// A metric with no sample at all is absent from the map rather than
/// `Missing`: nothing was expected of it here, and an expectation is
/// configuration's to hold, not this calculation's to invent.
///
/// A [`Aggregation::CounterDelta`] reading is the rise between the first and
/// last sample **inside** this interval. The quarter-hour's true energy needs
/// the next interval's first reading, which the alignment of one interval does
/// not have and must not reach for.
#[derive(Debug, PartialEq)]
pub struct IntervalReading {
    interval: Interval15,
    metrics: NameMap<MetricName, MetricReading>,
    discards: u64,
}

impl IntervalReading {
    /// The quarter-hour.
    pub closed spec fn quarter(self) -> Interval15 {
        self.interval
    }

    /// What it said, by metric.
    pub closed spec fn readings(self) -> NameMap<MetricName, MetricReading> {
        self.metrics
    }

    /// How many samples were discarded as duplicates, whether their metric is
    /// present or missing.
    pub closed spec fn discards(self) -> int {
        self.discards as int
    }

    /// The quarter-hour.
    #[must_use]
    pub fn interval(&self) -> (interval: Interval15)
        ensures
            interval == self.quarter(),
    {
        self.interval
    }

    /// What this interval said about one metric, if it said anything.
    #[must_use]
    pub fn get(&self, metric: &MetricName) -> (reading: Option<&MetricReading>)
        ensures
            match reading {
                Some(reading) => {
                    &&& self.readings().has(metric@)
                    &&& *reading == self.readings().at(metric@)
                },
                None => !self.readings().has(metric@),
            },
    {
        self.metrics.get(metric.as_str())
    }

    /// Every metric that was measured well enough to use, in name order.
    #[must_use]
    pub fn present(&self) -> (present: Vec<(&MetricName, &Reading)>)
        ensures
            present@.map_values(|pair: (&MetricName, &Reading)| (*pair.0, *pair.1))
                == present_among(self.readings()@),
            in_name_order(self.readings()@),
    {
        let entries: &Vec<Entry<MetricName, MetricReading>> = self.metrics.entries();
        let mut present: Vec<(&MetricName, &Reading)> = Vec::new();
        let mut i: usize = 0;
        while i < entries.len()
            invariant
                i <= entries.len(),
                present@.map_values(|pair: (&MetricName, &Reading)| (*pair.0, *pair.1))
                    =~= present_among(entries@.take(i as int)),
            decreases entries.len() - i,
        {
            assert(entries@.take(i + 1).drop_last() =~= entries@.take(i as int));
            match &entries[i].value {
                MetricReading::Present(reading) => {
                    present.push((&entries[i].key, reading));
                },
                MetricReading::Missing { .. } => {},
            }
            i = i + 1;
        }
        assert(entries@.take(i as int) =~= entries@);
        present
    }

    /// Every metric that was sampled too thinly, with the coverage it had.
    #[must_use]
    pub fn missing(&self) -> (missing: Vec<(&MetricName, Percent)>)
        ensures
            missing@.map_values(|pair: (&MetricName, Percent)| (*pair.0, pair.1))
                == missing_among(self.readings()@),
            in_name_order(self.readings()@),
    {
        let entries: &Vec<Entry<MetricName, MetricReading>> = self.metrics.entries();
        let mut missing: Vec<(&MetricName, Percent)> = Vec::new();
        let mut i: usize = 0;
        while i < entries.len()
            invariant
                i <= entries.len(),
                missing@.map_values(|pair: (&MetricName, Percent)| (*pair.0, pair.1))
                    =~= missing_among(entries@.take(i as int)),
            decreases entries.len() - i,
        {
            assert(entries@.take(i + 1).drop_last() =~= entries@.take(i as int));
            match &entries[i].value {
                MetricReading::Present(_) => {},
                MetricReading::Missing { coverage } => {
                    missing.push((&entries[i].key, *coverage));
                },
            }
            i = i + 1;
        }
        assert(entries@.take(i as int) =~= entries@);
        missing
    }

    /// Samples this interval discarded as duplicates, across every metric.
    #[must_use]
    pub fn dupes(&self) -> (dupes: u32)
        requires
            self.discards() <= u32::MAX,
        ensures
            dupes == self.discards(),
    {
        self.discards as u32
    }

    /// How many metrics this interval holds an outcome for.
    #[must_use]
    pub fn len(&self) -> (len: usize)
        ensures
            len == self.readings()@.len(),
    {
        self.metrics.len()
    }

    /// Whether it holds an outcome for none.
    #[must_use]
    pub fn is_empty(&self) -> (empty: bool)
        ensures
            empty == (self.readings()@.len() == 0),
            empty == (forall|metric: Seq<char>| !self.readings().has(metric)),
    {
        proof {
            if self.readings()@.len() > 0 {
                assert(self.readings().has(self.readings()@[0].name()));
            }
        }
        self.metrics.is_empty()
    }
}

impl Clone for IntervalReading {
    fn clone(&self) -> (copy: Self)
        ensures
            copy.quarter() == self.quarter(),
            copy.discards() == self.discards(),
            same_names(self.readings()@, copy.readings()@),
            forall|i: int|
                0 <= i < self.readings()@.len() ==> (#[trigger] self.readings()@[i]).value@
                    == copy.readings()@[i].value@,
    {
        let metrics: NameMap<MetricName, MetricReading> = self.metrics.clone();
        assert forall|i: int| 0 <= i < self.metrics@.len() implies (
        #[trigger] self.metrics@[i]).value@ == metrics@[i].value@ by {
            assert(cloned(self.metrics@[i].value, metrics@[i].value));
        }
        IntervalReading { interval: self.interval, metrics, discards: self.discards }
    }
}

/// What alignment refuses.
#[derive(Debug, PartialEq)]
pub enum AlignError {
    /// A sample belongs to another quarter-hour. The caller has already used
    /// [`Interval15::containing`], so this is a bug in the caller rather than
    /// a row worth dropping.
    SampleOutsideInterval {
        /// The metric of the offending sample.
        metric: MetricName,
        /// The offending sample's instant, seconds since the Unix epoch.
        at: i64,
    },
    /// One metric arrived in two units: a decoding mistake, not a measurement.
    UnitChanged {
        /// The metric whose unit changed.
        metric: MetricName,
    },
    /// A declared counter fell. A meter that rolled over or reset needs a
    /// person, not a guess.
    CounterWentBackwards {
        /// The metric whose counter fell.
        metric: MetricName,
    },
}

/// The points that the samples bring for one metric, in the order they came.
pub open spec fn feed_of(samples: Seq<Sample>, metric: Seq<char>) -> Seq<Point>
    decreases samples.len(),
{
    if samples.len() == 0 {
        Seq::empty()
    } else {
        let before = feed_of(samples.drop_last(), metric);
        let last = samples.last()@;
        if last.metric == metric {
            before.push(Point { at: last.at, value: last.value })
        } else {
            before
        }
    }
}

/// The unit of a metric's first sample, where it has one.
pub open spec fn unit_of(samples: Seq<Sample>, metric: Seq<char>) -> Option<Unit>
    decreases samples.len(),
{
    if samples.len() == 0 {
        None
    } else {
        match unit_of(samples.drop_last(), metric) {
            Some(unit) => Some(unit),
            None => if samples.last()@.metric == metric {
                Some(samples.last()@.unit)
            } else {
                None
            },
        }
    }
}

/// Some sample is of this metric.
pub open spec fn sampled(samples: Seq<Sample>, metric: Seq<char>) -> bool {
    exists|i: int| 0 <= i < samples.len() && (#[trigger] samples[i])@.metric == metric
}

/// The sample at `i` is of another quarter-hour.
pub open spec fn is_outside(samples: Seq<Sample>, interval: Interval15, i: int) -> bool {
    !interval.covers(samples[i]@.at as int)
}

/// The sample at `i` is in another unit than an earlier one of its metric.
pub open spec fn changes_unit(samples: Seq<Sample>, i: int) -> bool {
    exists|j: int|
        {
            &&& 0 <= j < i
            &&& (#[trigger] samples[j])@.metric == samples[i]@.metric
            &&& samples[j]@.unit != samples[i]@.unit
        }
}

/// No sample is of another quarter-hour and none changes its metric's unit.
pub open spec fn acceptable(samples: Seq<Sample>, interval: Interval15) -> bool {
    forall|i: int|
        #![trigger samples[i]]
        0 <= i < samples.len() ==> !is_outside(samples, interval, i) && !changes_unit(samples, i)
}

/// The sample at `i` is the first that is not acceptable.
pub open spec fn first_offence(samples: Seq<Sample>, interval: Interval15, i: int) -> bool {
    &&& 0 <= i < samples.len()
    &&& is_outside(samples, interval, i) || changes_unit(samples, i)
    &&& acceptable(samples.take(i), interval)
}

/// No metric is replayed more often than a reading can count.
pub open spec fn countable(samples: Seq<Sample>) -> bool {
    ||| samples.len() <= u32::MAX
    ||| forall|metric: Seq<char>| discarded(#[trigger] feed_of(samples, metric)) <= u32::MAX
}

/// The metric and the instant of each sample.
pub open spec fn pairs_of(samples: Seq<Sample>) -> Seq<(Seq<char>, i64)> {
    samples.map_values(|sample: Sample| (sample@.metric, sample@.at))
}

/// How many different pairs of metric and instant the samples have.
pub open spec fn distinct_pairs(samples: Seq<Sample>) -> nat {
    pairs_of(samples).to_set().len()
}

/// The samples are refused with this error: it is the one that the first
/// sample that is not acceptable calls for.
pub open spec fn refuses(samples: Seq<Sample>, interval: Interval15, error: AlignError) -> bool {
    exists|i: int|
        {
            &&& #[trigger] first_offence(samples, interval, i)
            &&& match error {
                AlignError::SampleOutsideInterval { metric, at } => {
                    &&& is_outside(samples, interval, i)
                    &&& metric@ == samples[i]@.metric
                    &&& at == samples[i]@.at
                },
                AlignError::UnitChanged { metric } => {
                    &&& !is_outside(samples, interval, i)
                    &&& metric@ == samples[i]@.metric
                },
                AlignError::CounterWentBackwards { .. } => false,
            }
        }
}

/// How much of the interval points in time order measured.
pub open spec fn coverage(points: Seq<Point>, aggregation: Aggregation) -> Ratio {
    match aggregation {
        Aggregation::Sum => Ratio {
            share: if points.len() == 0 {
                0
            } else {
                100
            },
            whole: 100,
        },
        Aggregation::TimeWeightedMean | Aggregation::CounterDelta => Ratio {
            share: span_of(points),
            whole: 900,
        },
    }
}

/// A coverage that is good enough for a number.
pub open spec fn enough(coverage: Ratio, minimum: Ratio) -> bool {
    coverage.share != 0 && !coverage.below(minimum)
}

/// The rise from the first point to the last. No point rises by nothing.
pub open spec fn delta_of(points: Seq<Point>) -> AggregateView {
    if points.len() == 0 {
        AggregateView::Rise { first: Binary64 { bits: 0 }, last: Binary64 { bits: 0 } }
    } else {
        rise_of(points)
    }
}

/// The first point is not at most the last.
pub open spec fn falls(points: Seq<Point>) -> bool {
    points.len() > 0 && !points.first().value.at_most(points.last().value)
}

/// The number that points come to.
pub open spec fn value_of(points: Seq<Point>, aggregation: Aggregation) -> AggregateView {
    match aggregation {
        Aggregation::TimeWeightedMean => mean_of(points),
        Aggregation::Sum => sum_of(points),
        Aggregation::CounterDelta => delta_of(points),
    }
}

/// A counter that falls although it was measured well enough to use.
pub open spec fn goes_backwards(
    points: Seq<Point>,
    aggregation: Aggregation,
    minimum: Ratio,
) -> bool {
    &&& aggregation == Aggregation::CounterDelta
    &&& enough(coverage(points, aggregation), minimum)
    &&& falls(points)
}

/// The outcome for the points of a metric that does not go backwards.
pub open spec fn outcome(
    points: Seq<Point>,
    unit: Unit,
    aggregation: Aggregation,
    minimum: Ratio,
    dupes: int,
) -> MetricReadingView {
    let coverage = coverage(points, aggregation);
    if enough(coverage, minimum) {
        MetricReadingView::Present { value: value_of(points, aggregation), unit, coverage, dupes }
    } else {
        MetricReadingView::Missing { coverage }
    }
}

/// How a metric of these samples aggregates.
pub open spec fn metric_aggregation(
    samples: Seq<Sample>,
    rules: AlignRules,
    metric: Seq<char>,
) -> Aggregation {
    rules.aggregation(metric, unit_of(samples, metric)->0)
}

/// The metric is a declared counter that goes backwards in these samples.
pub open spec fn metric_backwards(
    samples: Seq<Sample>,
    rules: AlignRules,
    metric: Seq<char>,
) -> bool {
    &&& unit_of(samples, metric) is Some
    &&& goes_backwards(
        survivors(feed_of(samples, metric)),
        metric_aggregation(samples, rules, metric),
        rules.minimum()@,
    )
}

/// The outcome for a metric that was sampled and does not go backwards.
pub open spec fn metric_outcome(
    samples: Seq<Sample>,
    rules: AlignRules,
    metric: Seq<char>,
) -> MetricReadingView {
    outcome(
        survivors(feed_of(samples, metric)),
        unit_of(samples, metric)->0,
        metric_aggregation(samples, rules, metric),
        rules.minimum()@,
        discarded(feed_of(samples, metric)),
    )
}

/// One reading for each metric that was sampled, in name order.
pub open spec fn are_readings(
    samples: Seq<Sample>,
    rules: AlignRules,
    readings: NameMap<MetricName, MetricReading>,
) -> bool {
    &&& readings.well_formed()
    &&& forall|metric: Seq<char>| #[trigger] readings.has(metric) <==> sampled(samples, metric)
    &&& forall|metric: Seq<char>| #[trigger]
        readings.has(metric) ==> readings.at(metric)@ == metric_outcome(samples, rules, metric)
}

/// The interval's length in seconds, from the one spelling of the length.
#[must_use]
pub fn interval_seconds() -> (seconds: u64)
    ensures
        seconds == 900,
{
    (Interval15::length() * SECONDS_PER_MINUTE) as u64
}

/// How much of the interval these points measured.
///
/// A mean and a counter delta both measure a gap between samples, so both are
/// the sampled span over the interval. A summed feed is different in kind: a
/// 15-minute meter row *is* the interval's energy, stamped once inside it, and
/// there is no gap between rows to measure, so it is fully covered by one row
/// and not covered at all by none.
fn coverage_of(points: &[Point], aggregation: Aggregation) -> (out: Percent)
    requires
        in_time_order(points@),
        span_of(points@) <= 900,
    ensures
        out@ == coverage(points@, aggregation),
{
    let measured: Option<Percent> = match aggregation {
        Aggregation::Sum => if points.len() == 0 {
            Some(Percent::zero())
        } else {
            Percent::new(100)
        },
        Aggregation::TimeWeightedMean | Aggregation::CounterDelta => Percent::of_ratio(
            sampled_span(points),
            interval_seconds(),
        ),
    };
    match measured {
        Some(measured) => measured,
        None => {
            // A share that is no more than the whole is a percentage.
            assert(false);
            Percent::zero()
        },
    }
}

/// The rise from the first sample to the last.
fn counter_delta(metric: &MetricName, points: &[Point]) -> (delta: Result<Aggregate, AlignError>)
    ensures
        match delta {
            Ok(delta) => !falls(points@) && delta@ == delta_of(points@),
            Err(error) => {
                &&& falls(points@)
                &&& error matches AlignError::CounterWentBackwards { metric: named }
                &&& named@ == metric@
            },
        },
{
    if points.len() == 0 {
        let nothing: Binary64 = Binary64::from_bits(0);
        return Ok(Aggregate::Rise { first: nothing, last: nothing });
    }
    let first: Binary64 = points[0].value;
    let last: Binary64 = points[points.len() - 1].value;
    if first.le(&last) {
        Ok(Aggregate::Rise { first, last })
    } else {
        Err(AlignError::CounterWentBackwards { metric: metric.clone() })
    }
}

/// These points as one number, by the rule that was declared for them.
fn aggregate(metric: &MetricName, points: &[Point], aggregation: Aggregation) -> (value: Result<
    Aggregate,
    AlignError,
>)
    requires
        in_time_order(points@),
    ensures
        match value {
            Ok(value) => {
                &&& !(aggregation == Aggregation::CounterDelta && falls(points@))
                &&& value@ == value_of(points@, aggregation)
            },
            Err(error) => {
                &&& aggregation == Aggregation::CounterDelta
                &&& falls(points@)
                &&& error matches AlignError::CounterWentBackwards { metric: named }
                &&& named@ == metric@
            },
        },
{
    match aggregation {
        Aggregation::TimeWeightedMean => Ok(time_weighted_mean(points)),
        Aggregation::Sum => Ok(sum_of_values(points)),
        Aggregation::CounterDelta => counter_delta(metric, points),
    }
}

/// One metric's samples for one interval, in the unit they all share.
struct Series {
    metric: MetricName,
    unit: Unit,
    points: Vec<Point>,
}

impl Named for Series {
    closed spec fn name(&self) -> Seq<char> {
        self.metric@
    }

    fn text(&self) -> (text: &str) {
        self.metric.as_str()
    }
}

/// One metric's outcome: enough coverage and a number, or how little there
/// was. Beside it stands how many of its samples were discarded either way.
fn reading_of(series: &Series, aggregation: Aggregation, min_coverage: Percent) -> (reading: Result<
    (MetricReading, u32),
    AlignError,
>)
    requires
        discarded(series.points@) <= u32::MAX,
        span_of(survivors(series.points@)) <= 900,
    ensures
        match reading {
            Ok((reading, dupes)) => {
                &&& !goes_backwards(survivors(series.points@), aggregation, min_coverage@)
                &&& dupes == discarded(series.points@)
                &&& reading@ == outcome(
                    survivors(series.points@),
                    series.unit,
                    aggregation,
                    min_coverage@,
                    discarded(series.points@),
                )
            },
            Err(error) => {
                &&& goes_backwards(survivors(series.points@), aggregation, min_coverage@)
                &&& error matches AlignError::CounterWentBackwards { metric: named }
                &&& named@ == series.metric@
            },
        },
{
    proof {
        law_survivors(series.points@);
    }
    let (points, dupes): (Vec<Point>, u32) = deduped(series.points.as_slice());
    let coverage: Percent = coverage_of(points.as_slice(), aggregation);
    if coverage.is_zero() || coverage.is_below(&min_coverage) {
        return Ok((MetricReading::Missing { coverage }, dupes));
    }
    match aggregate(&series.metric, points.as_slice(), aggregation) {
        Ok(value) => {
            let present: Reading = Reading { value, unit: series.unit, coverage, dupes };
            Ok((MetricReading::Present(present), dupes))
        },
        Err(error) => Err(error),
    }
}

/// A metric has a unit exactly when it was sampled, which is when it has
/// points.
pub proof fn lemma_sampled(samples: Seq<Sample>, metric: Seq<char>)
    ensures
        unit_of(samples, metric) is Some <==> sampled(samples, metric),
        unit_of(samples, metric) is Some <==> feed_of(samples, metric).len() > 0,
        unit_of(samples, metric) matches Some(unit) ==> exists|i: int|
            {
                &&& 0 <= i < samples.len()
                &&& (#[trigger] samples[i])@.metric == metric
                &&& samples[i]@.unit == unit
            },
    decreases samples.len(),
{
    if samples.len() > 0 {
        let rest = samples.drop_last();
        lemma_sampled(rest, metric);
        if sampled(rest, metric) {
            let i = choose|i: int|
                {
                    &&& 0 <= i < rest.len()
                    &&& (#[trigger] rest[i])@.metric == metric
                    &&& rest[i]@.unit == unit_of(rest, metric)->0
                };
            assert(samples[i] == rest[i]);
        } else if samples.last()@.metric == metric {
            assert(samples[samples.len() - 1]@.metric == metric);
        }
        if sampled(samples, metric) && samples.last()@.metric != metric {
            let i = choose|i: int|
                0 <= i < samples.len() && (#[trigger] samples[i])@.metric == metric;
            assert(rest[i] == samples[i]);
        }
    }
}

/// Some sample brings this point for the metric.
pub open spec fn brings(samples: Seq<Sample>, metric: Seq<char>, point: Point) -> bool {
    exists|i: int|
        {
            &&& 0 <= i < samples.len()
            &&& (#[trigger] samples[i])@.metric == metric
            &&& point == Point { at: samples[i]@.at, value: samples[i]@.value }
        }
}

/// A metric's points are those that its samples bring.
pub proof fn lemma_feed_contains(samples: Seq<Sample>, metric: Seq<char>)
    ensures
        forall|point: Point| #[trigger]
            feed_of(samples, metric).contains(point) <==> brings(samples, metric, point),
    decreases samples.len(),
{
    if samples.len() > 0 {
        let rest = samples.drop_last();
        let last = samples.last()@;
        lemma_feed_contains(rest, metric);
        let (feed, before) = (feed_of(samples, metric), feed_of(rest, metric));
        assert forall|point: Point| #[trigger] feed.contains(point) <==> brings(
            samples,
            metric,
            point,
        ) by {
            assert(before.contains(point) <==> brings(rest, metric, point));
            if feed.contains(point) {
                let i = choose|i: int| 0 <= i < feed.len() && feed[i] == point;
                if i < before.len() {
                    assert(before[i] == point);
                    assert(before.contains(point));
                    let k = choose|k: int|
                        {
                            &&& 0 <= k < rest.len()
                            &&& (#[trigger] rest[k])@.metric == metric
                            &&& point == Point { at: rest[k]@.at, value: rest[k]@.value }
                        };
                    assert(samples[k] == rest[k]);
                } else {
                    assert(samples[samples.len() - 1]@.metric == metric);
                }
            }
            if brings(samples, metric, point) {
                let k = choose|k: int|
                    {
                        &&& 0 <= k < samples.len()
                        &&& (#[trigger] samples[k])@.metric == metric
                        &&& point == Point { at: samples[k]@.at, value: samples[k]@.value }
                    };
                if k < rest.len() {
                    assert(rest[k] == samples[k]);
                    assert(before.contains(point));
                    let i = choose|i: int| 0 <= i < before.len() && before[i] == point;
                    assert(feed[i] == point);
                } else {
                    assert(feed[before.len() as int] == point);
                }
            }
        }
    }
}

/// Acceptable samples of one metric share the unit of the first.
pub proof fn law_one_unit(samples: Seq<Sample>, interval: Interval15, i: int)
    requires
        acceptable(samples, interval),
        0 <= i < samples.len(),
    ensures
        unit_of(samples, samples[i]@.metric) == Some(samples[i]@.unit),
{
    let metric = samples[i]@.metric;
    lemma_sampled(samples, metric);
    assert(sampled(samples, metric));
    let unit = unit_of(samples, metric)->0;
    let j = choose|j: int|
        {
            &&& 0 <= j < samples.len()
            &&& (#[trigger] samples[j])@.metric == metric
            &&& samples[j]@.unit == unit
        };
    if samples[i]@.unit != unit {
        if j < i {
            assert(changes_unit(samples, i));
        } else {
            assert(changes_unit(samples, j));
        }
    }
}

/// One more acceptable sample.
proof fn lemma_accepted(seen: Seq<Sample>, now: Seq<Sample>, interval: Interval15)
    requires
        acceptable(seen, interval),
        now.len() > 0,
        now.drop_last() == seen,
        !is_outside(now, interval, now.len() - 1),
        !changes_unit(now, now.len() - 1),
    ensures
        acceptable(now, interval),
{
    assert forall|i: int|
        #![trigger now[i]]
        0 <= i < now.len() implies !is_outside(now, interval, i) && !changes_unit(now, i) by {
        if i < seen.len() {
            assert(seen[i] == now[i]);
            if changes_unit(now, i) {
                let j = choose|j: int|
                    {
                        &&& 0 <= j < i
                        &&& (#[trigger] now[j])@.metric == now[i]@.metric
                        &&& now[j]@.unit != now[i]@.unit
                    };
                assert(seen[j] == now[j]);
                assert(changes_unit(seen, i));
            }
        }
    }
}

/// What is true of a sample in a batch is true of it in the batch's start.
proof fn lemma_in_prefix(samples: Seq<Sample>, interval: Interval15, i: int)
    requires
        0 <= i < samples.len(),
    ensures
        is_outside(samples.take(i + 1), interval, i) == is_outside(samples, interval, i),
        changes_unit(samples.take(i + 1), i) == changes_unit(samples, i),
{
    let now = samples.take(i + 1);
    assert(now[i] == samples[i]);
    if changes_unit(samples, i) {
        let j = choose|j: int|
            {
                &&& 0 <= j < i
                &&& (#[trigger] samples[j])@.metric == samples[i]@.metric
                &&& samples[j]@.unit != samples[i]@.unit
            };
        assert(now[j] == samples[j]);
    }
    if changes_unit(now, i) {
        let j = choose|j: int|
            {
                &&& 0 <= j < i
                &&& (#[trigger] now[j])@.metric == now[i]@.metric
                &&& now[j]@.unit != now[i]@.unit
            };
        assert(now[j] == samples[j]);
    }
}

/// The series of the samples: one for each metric, in name order.
spec fn are_series(samples: Seq<Sample>, series: Seq<Series>) -> bool {
    &&& in_name_order(series)
    &&& forall|i: int|
        0 <= i < series.len() ==> {
            &&& (#[trigger] series[i]).points@ == feed_of(samples, series[i].name())
            &&& unit_of(samples, series[i].name()) == Some(series[i].unit)
        }
    &&& forall|metric: Seq<char>| #[trigger]
        unit_of(samples, metric) is Some ==> names_one(series, metric)
}

proof fn lemma_series_extended(
    seen: Seq<Sample>,
    now: Seq<Sample>,
    before: Seq<Series>,
    after: Seq<Series>,
    k: int,
)
    requires
        now.len() > 0,
        now.drop_last() == seen,
        are_series(seen, before),
        0 <= k < before.len(),
        before[k].metric@ == now.last()@.metric,
        after == before.update(k, after[k]),
        after[k].metric == before[k].metric,
        after[k].unit == before[k].unit,
        after[k].points@ == before[k].points@.push(
            Point { at: now.last()@.at, value: now.last()@.value },
        ),
    ensures
        are_series(now, after),
{
    assert forall|j: int| 0 <= j < after.len() implies (#[trigger] after[j]).name()
        == before[j].name() by {}
    assert forall|i: int, j: int| 0 <= i < j < after.len() implies name_before(
        (#[trigger] after[i]).name(),
        (#[trigger] after[j]).name(),
    ) by {
        assert(name_before(before[i].name(), before[j].name()));
    }
    assert forall|j: int| 0 <= j < after.len() implies {
        &&& (#[trigger] after[j]).points@ == feed_of(now, after[j].name())
        &&& unit_of(now, after[j].name()) == Some(after[j].unit)
    } by {
        assert(before[j].points@ == feed_of(seen, before[j].name()));
        if j != k && before[j].name() == before[k].name() {
            lemma_one_index(before, j, k);
        }
    }
    assert forall|metric: Seq<char>| #[trigger] unit_of(now, metric) is Some implies names_one(
        after,
        metric,
    ) by {
        if metric == now.last()@.metric {
            assert(after[k].name() == metric);
        } else {
            assert(unit_of(seen, metric) is Some);
            let j = index_named(before, metric);
            assert(after[j].name() == before[j].name());
        }
    }
}

proof fn lemma_series_inserted(
    seen: Seq<Sample>,
    now: Seq<Sample>,
    before: Seq<Series>,
    after: Seq<Series>,
    k: int,
)
    requires
        now.len() > 0,
        now.drop_last() == seen,
        are_series(seen, before),
        0 <= k <= before.len(),
        !names_one(before, now.last()@.metric),
        forall|j: int|
            0 <= j < k ==> name_before((#[trigger] before[j]).name(), now.last()@.metric),
        forall|j: int|
            k <= j < before.len() ==> name_before(
                now.last()@.metric,
                (#[trigger] before[j]).name(),
            ),
        after == before.insert(k, after[k]),
        after[k].metric@ == now.last()@.metric,
        after[k].unit == now.last()@.unit,
        after[k].points@ == seq![Point { at: now.last()@.at, value: now.last()@.value }],
    ensures
        are_series(now, after),
{
    let metric = now.last()@.metric;
    lemma_sampled(seen, metric);
    assert(unit_of(seen, metric) is None);
    assert(feed_of(seen, metric) =~= Seq::empty());
    assert(feed_of(now, metric) =~= after[k].points@);
    lemma_inserted(before, after, k);
    assert forall|j: int| 0 <= j < after.len() implies {
        &&& (#[trigger] after[j]).points@ == feed_of(now, after[j].name())
        &&& unit_of(now, after[j].name()) == Some(after[j].unit)
    } by {
        if j != k {
            let b = if j < k { j } else { j - 1 };
            assert(after[j] == before[b]);
            assert(before[b].name() != metric);
        }
    }
    assert forall|other: Seq<char>| #[trigger] unit_of(now, other) is Some implies names_one(
        after,
        other,
    ) by {
        if other != metric {
            assert(unit_of(seen, other) is Some);
        }
    }
}

/// The samples of this interval, gathered per metric in the order they came.
fn series_by_metric(samples: &[Sample], interval: Interval15) -> (out: Result<
    Vec<Series>,
    AlignError,
>)
    ensures
        match out {
            Ok(series) => acceptable(samples@, interval) && are_series(samples@, series@),
            Err(error) => refuses(samples@, interval, error),
        },
{
    let mut series: Vec<Series> = Vec::new();
    let mut i: usize = 0;
    while i < samples.len()
        invariant
            i <= samples.len(),
            acceptable(samples@.take(i as int), interval),
            are_series(samples@.take(i as int), series@),
        decreases samples.len() - i,
    {
        let sample: &Sample = &samples[i];
        let ghost seen = samples@.take(i as int);
        let ghost now = samples@.take(i + 1);
        let ghost before = series@;
        let ghost metric = sample@.metric;
        let containing: Interval15 = Interval15::containing(sample.at());
        proof {
            assert(now.drop_last() =~= seen);
            assert(now.last() == *sample);
            lemma_in_prefix(samples@, interval, i as int);
            use_type_invariant(&interval);
            if interval.covers(sample@.at as int) {
                law_one_quarter_hour_contains_an_instant(containing, interval, sample@.at as int);
            }
        }
        if !containing.same_as(&interval) {
            assert(first_offence(samples@, interval, i as int));
            return Err(
                AlignError::SampleOutsideInterval {
                    metric: sample.metric().clone(),
                    at: sample.at().get(),
                },
            );
        }
        let point: Point = Point { at: sample.at().get(), value: sample.value() };
        match search(&series, sample.metric().as_str()) {
            Ok(k) => {
                if series[k].unit != sample.unit() {
                    proof {
                        lemma_sampled(seen, metric);
                        assert(before[k as int].name() == metric);
                        let j = choose|j: int|
                            {
                                &&& 0 <= j < seen.len()
                                &&& (#[trigger] seen[j])@.metric == metric
                                &&& seen[j]@.unit == unit_of(seen, metric)->0
                            };
                        assert(samples@[j] == seen[j]);
                        assert(changes_unit(samples@, i as int));
                        assert(first_offence(samples@, interval, i as int));
                    }
                    return Err(AlignError::UnitChanged { metric: sample.metric().clone() });
                }
                let one: &mut Series = &mut series[k];
                one.points.push(point);
                proof {
                    assert(before[k as int].name() == metric);
                    if changes_unit(now, i as int) {
                        let j = choose|j: int|
                            {
                                &&& 0 <= j < i
                                &&& (#[trigger] now[j])@.metric == now[i as int]@.metric
                                &&& now[j]@.unit != now[i as int]@.unit
                            };
                        assert(seen[j] == now[j]);
                        law_one_unit(seen, interval, j);
                    }
                    lemma_accepted(seen, now, interval);
                    lemma_series_extended(seen, now, before, series@, k as int);
                }
            },
            Err(k) => {
                let mut points: Vec<Point> = Vec::new();
                points.push(point);
                series.insert(
                    k,
                    Series { metric: sample.metric().clone(), unit: sample.unit(), points },
                );
                proof {
                    lemma_sampled(seen, metric);
                    assert(unit_of(seen, metric) is None);
                    if changes_unit(now, i as int) {
                        let j = choose|j: int|
                            {
                                &&& 0 <= j < i
                                &&& (#[trigger] now[j])@.metric == now[i as int]@.metric
                                &&& now[j]@.unit != now[i as int]@.unit
                            };
                        assert(seen[j] == now[j]);
                    }
                    lemma_accepted(seen, now, interval);
                    lemma_series_inserted(seen, now, before, series@, k as int);
                }
            },
        }
        i = i + 1;
    }
    assert(samples@.take(i as int) =~= samples@);
    Ok(series)
}

/// How many points of these series are discarded, all together.
spec fn discards_for(samples: Seq<Sample>, series: Seq<Series>) -> int
    decreases series.len(),
{
    if series.len() == 0 {
        0
    } else {
        discards_for(samples, series.drop_last()) + discarded(
            feed_of(samples, series.last().name()),
        )
    }
}

/// A sample is one more discard where its metric has its instant already, and
/// none for any other metric.
proof fn lemma_discards_one_more(samples: Seq<Sample>, series: Seq<Series>)
    requires
        in_name_order(series),
        samples.len() > 0,
    ensures
        discards_for(samples, series) == discards_for(samples.drop_last(), series) + if names_one(
            series,
            samples.last()@.metric,
        ) && pairs_of(samples.drop_last()).contains(
            (samples.last()@.metric, samples.last()@.at),
        ) {
            1int
        } else {
            0int
        },
    decreases series.len(),
{
    if series.len() > 0 {
        let rest = series.drop_last();
        let before = samples.drop_last();
        let last = samples.last()@;
        assert forall|i: int, j: int| 0 <= i < j < rest.len() implies name_before(
            (#[trigger] rest[i]).name(),
            (#[trigger] rest[j]).name(),
        ) by {
            assert(name_before(series[i].name(), series[j].name()));
        }
        lemma_discards_one_more(samples, rest);
        lemma_without_last(series, last.metric);
        if series.last().name() == last.metric {
            assert(series[series.len() - 1].name() == last.metric);
            let feed = feed_of(before, last.metric);
            law_discards_count_replays(feed, Point { at: last.at, value: last.value });
            lemma_feed_contains(before, last.metric);
            if pairs_of(before).contains((last.metric, last.at)) {
                let k = choose|k: int|
                    0 <= k < before.len() && pairs_of(before)[k] == (last.metric, last.at);
                let point = Point { at: before[k]@.at, value: before[k]@.value };
                assert(brings(before, last.metric, point));
                assert(feed.contains(point));
                let i = choose|i: int| 0 <= i < feed.len() && feed[i] == point;
                assert(feed[i].at == last.at);
            }
            if exists|i: int| 0 <= i < feed.len() && (#[trigger] feed[i]).at == last.at {
                let i = choose|i: int| 0 <= i < feed.len() && (#[trigger] feed[i]).at == last.at;
                assert(feed.contains(feed[i]));
                let k = choose|k: int|
                    {
                        &&& 0 <= k < before.len()
                        &&& (#[trigger] before[k])@.metric == last.metric
                        &&& feed[i] == Point { at: before[k]@.at, value: before[k]@.value }
                    };
                assert(pairs_of(before)[k] == (last.metric, last.at));
            }
        }
    }
}

/// Where every metric has its series, what is discarded is every sample but
/// one for each pair of metric and instant.
proof fn lemma_discards(samples: Seq<Sample>, series: Seq<Series>)
    requires
        in_name_order(series),
        forall|i: int|
            0 <= i < samples.len() ==> names_one(series, (#[trigger] samples[i])@.metric),
    ensures
        discards_for(samples, series) == samples.len() - distinct_pairs(samples),
    decreases samples.len(),
{
    seq_to_set_is_finite(pairs_of(samples));
    if samples.len() == 0 {
        assert(pairs_of(samples).to_set() =~= Set::empty());
        lemma_nothing_discarded(samples, series);
    } else {
        let before = samples.drop_last();
        let pair = (samples.last()@.metric, samples.last()@.at);
        assert forall|i: int| 0 <= i < before.len() implies names_one(
            series,
            (#[trigger] before[i])@.metric,
        ) by {
            assert(before[i] == samples[i]);
        }
        assert(names_one(series, samples[samples.len() - 1]@.metric));
        lemma_discards(before, series);
        lemma_discards_one_more(samples, series);
        seq_to_set_is_finite(pairs_of(before));
        assert(pairs_of(samples) =~= pairs_of(before).push(pair));
        pairs_of(before).lemma_push_to_set_commute(pair);
    }
}

proof fn lemma_nothing_discarded(samples: Seq<Sample>, series: Seq<Series>)
    requires
        samples.len() == 0,
    ensures
        discards_for(samples, series) == 0,
    decreases series.len(),
{
    if series.len() > 0 {
        law_survivors(feed_of(samples, series.last().name()));
        lemma_nothing_discarded(samples, series.drop_last());
    }
}

/// The first series discard no more than all of them.
proof fn lemma_discards_grow(samples: Seq<Sample>, series: Seq<Series>, n: int)
    requires
        0 <= n <= series.len(),
    ensures
        discards_for(samples, series.take(n)) <= discards_for(samples, series),
    decreases series.len() - n,
{
    if n < series.len() {
        lemma_discards_grow(samples, series, n + 1);
        law_survivors(feed_of(samples, series[n].name()));
        assert(series.take(n + 1).drop_last() =~= series.take(n));
        assert(series.take(n + 1).last() == series[n]);
    } else {
        assert(series.take(n) =~= series);
    }
}

/// The survivors of a feed inside the quarter-hour span less than it.
proof fn lemma_survivors_inside(samples: Seq<Sample>, interval: Interval15, metric: Seq<char>)
    requires
        acceptable(samples, interval),
    ensures
        0 <= span_of(survivors(feed_of(samples, metric))) < 900,
{
    let feed = feed_of(samples, metric);
    lemma_feed_inside(samples, interval, metric);
    law_survivors(feed);
    let kept = survivors(feed);
    assert forall|i: int| 0 <= i < kept.len() implies interval.covers(
        (#[trigger] kept[i]).at as int,
    ) by {
        assert(kept.contains(kept[i]));
        assert(stands(feed, kept[i]));
    }
    if kept.len() > 1 {
        assert(kept[0].at < kept[kept.len() - 1].at);
    }
}

/// What a metric brings lies where its samples lie.
proof fn lemma_feed_inside(samples: Seq<Sample>, interval: Interval15, metric: Seq<char>)
    requires
        forall|i: int|
            0 <= i < samples.len() ==> interval.covers((#[trigger] samples[i])@.at as int),
    ensures
        forall|i: int|
            0 <= i < feed_of(samples, metric).len() ==> interval.covers(
                (#[trigger] feed_of(samples, metric)[i]).at as int,
            ),
    decreases samples.len(),
{
    if samples.len() > 0 {
        let rest = samples.drop_last();
        assert forall|i: int| 0 <= i < rest.len() implies interval.covers(
            (#[trigger] rest[i])@.at as int,
        ) by {
            assert(rest[i] == samples[i]);
        }
        lemma_feed_inside(rest, interval, metric);
        assert(interval.covers(samples[samples.len() - 1]@.at as int));
        let (feed, before) = (feed_of(samples, metric), feed_of(rest, metric));
        assert forall|i: int| 0 <= i < feed.len() implies interval.covers(
            (#[trigger] feed[i]).at as int,
        ) by {
            if i < before.len() {
                assert(feed[i] == before[i]);
            }
        }
    }
}

/// A metric brings no more points than there are samples.
proof fn lemma_feed_no_longer(samples: Seq<Sample>, metric: Seq<char>)
    ensures
        feed_of(samples, metric).len() <= samples.len(),
    decreases samples.len(),
{
    if samples.len() > 0 {
        lemma_feed_no_longer(samples.drop_last(), metric);
    }
}

/// One interval's samples, as one number per metric.
///
/// # Errors
///
/// Returns [`AlignError::SampleOutsideInterval`] when the first unacceptable
/// sample belongs to another quarter-hour, [`AlignError::UnitChanged`] when it
/// brings its metric in a second unit, and else
/// [`AlignError::CounterWentBackwards`] for the first declared counter in name
/// order that reached the coverage minimum and falls.
pub fn align(samples: &[Sample], interval: Interval15, rules: &AlignRules) -> (aligned: Result<
    IntervalReading,
    AlignError,
>)
    requires
        acceptable(samples@, interval) ==> countable(samples@),
    ensures
        match aligned {
            Ok(reading) => {
                &&& acceptable(samples@, interval)
                &&& forall|metric: Seq<char>| !metric_backwards(samples@, *rules, metric)
                &&& reading.quarter() == interval
                &&& are_readings(samples@, *rules, reading.readings())
                &&& reading.discards() == samples@.len() - distinct_pairs(samples@)
            },
            Err(AlignError::CounterWentBackwards { metric }) => {
                &&& acceptable(samples@, interval)
                &&& metric_backwards(samples@, *rules, metric@)
                &&& forall|other: Seq<char>| #[trigger]
                    metric_backwards(samples@, *rules, other) ==> other == metric@ || name_before(
                        metric@,
                        other,
                    )
            },
            Err(error) => refuses(samples@, interval, error),
        },
{
    let series: Vec<Series> = match series_by_metric(samples, interval) {
        Ok(series) => series,
        Err(error) => {
            return Err(error);
        },
    };
    let mut entries: Vec<Entry<MetricName, MetricReading>> = Vec::new();
    let mut discards: u64 = 0;
    let mut k: usize = 0;
    proof {
        assert forall|i: int| 0 <= i < samples@.len() implies names_one(
            series@,
            (#[trigger] samples@[i])@.metric,
        ) by {
            lemma_sampled(samples@, samples@[i]@.metric);
        }
        lemma_discards(samples@, series@);
        seq_to_set_is_finite(pairs_of(samples@));
    }
    while k < series.len()
        invariant
            k <= series.len(),
            entries.len() == k,
            discards == discards_for(samples@, series@.take(k as int)),
            discards_for(samples@, series@) <= samples.len(),
            acceptable(samples@, interval),
            countable(samples@),
            are_series(samples@, series@),
            forall|j: int|
                0 <= j < k ==> {
                    &&& (#[trigger] series@[j]).name() == entries@[j].key@
                    &&& !metric_backwards(samples@, *rules, series@[j].name())
                    &&& entries@[j].value@ == metric_outcome(samples@, *rules, series@[j].name())
                },
        decreases series.len() - k,
    {
        let one: &Series = &series[k];
        let ghost name = one.name();
        proof {
            assert(series@[k as int].points@ == feed_of(samples@, name));
            lemma_survivors_inside(samples@, interval, name);
            lemma_feed_no_longer(samples@, name);
            law_survivors(one.points@);
            lemma_discards_grow(samples@, series@, k + 1);
            assert(series@.take(k + 1).drop_last() =~= series@.take(k as int));
        }
        let aggregation: Aggregation = rules.aggregation_for(&one.metric, one.unit);
        match reading_of(one, aggregation, rules.min_coverage()) {
            Ok((reading, dupes)) => {
                discards = discards + dupes as u64;
                entries.push(Entry { key: one.metric.clone(), value: reading });
            },
            Err(error) => {
                proof {
                    assert(metric_backwards(samples@, *rules, name));
                    assert forall|other: Seq<char>| #[trigger]
                        metric_backwards(samples@, *rules, other) implies other == name
                        || name_before(name, other) by {
                        let j = index_named(series@, other);
                        assert(series@[j].name() == other);
                        if k < j {
                            assert(name_before(series@[k as int].name(), series@[j].name()));
                        }
                    }
                }
                return Err(error);
            },
        }
        k = k + 1;
    }
    proof {
        assert forall|a: int, b: int| 0 <= a < b < entries.len() implies name_before(
            (#[trigger] entries@[a]).name(),
            (#[trigger] entries@[b]).name(),
        ) by {
            assert(name_before(series@[a].name(), series@[b].name()));
        }
        assert forall|metric: Seq<char>| !metric_backwards(samples@, *rules, metric) by {
            if unit_of(samples@, metric) is Some {
                let j = index_named(series@, metric);
                assert(series@[j].name() == metric);
            }
        }
        assert forall|metric: Seq<char>| #[trigger] names_one(entries@, metric) <==> sampled(
            samples@,
            metric,
        ) by {
            lemma_sampled(samples@, metric);
            if names_one(entries@, metric) {
                let j = index_named(entries@, metric);
                assert(series@[j].name() == metric);
            }
            if unit_of(samples@, metric) is Some {
                let j = index_named(series@, metric);
                assert(series@[j].name() == entries@[j].key@);
                assert(entries@[j].name() == metric);
            }
        }
        assert forall|metric: Seq<char>| #[trigger]
            names_one(entries@, metric) implies entries@[index_named(entries@, metric)].value@
            == metric_outcome(samples@, *rules, metric) by {
            let j = index_named(entries@, metric);
            assert(series@[j].name() == entries@[j].key@);
        }
        assert(series@.take(k as int) =~= series@);
    }
    Ok(IntervalReading { interval, metrics: NameMap::from_ordered(entries), discards })
}

} // verus!
