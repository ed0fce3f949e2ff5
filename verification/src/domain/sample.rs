//! Samples as a feed delivers them.

use vstd::prelude::*;

use super::interval::UnixSeconds;
use crate::binary64::Binary64;
use crate::names::{Named, Twin};

verus! {

/// What a sample is measured in.
#[derive(Debug, Clone, Copy, PartialEq, Eq, Structural)]
pub enum Unit {
    /// Power, in watts.
    Watts,
    /// Power, in kilowatts.
    Kilowatts,
    /// Energy, in kilowatt-hours.
    KilowattHours,
}

/// The name of a metric.
#[derive(Debug, PartialEq, Eq)]
pub struct MetricName {
    name: String,
}

impl MetricName {
    /// The text of the name.
    pub closed spec fn view(&self) -> Seq<char> {
        self.name@
    }

    /// The metric with this name.
    #[must_use]
    pub fn new(name: &str) -> (metric: Self)
        ensures
            metric@ == name@,
    {
        MetricName { name: name.to_owned() }
    }

    /// The text of the name.
    #[must_use]
    pub fn as_str(&self) -> (text: &str)
        ensures
            text@ == self@,
    {
        self.name.as_str()
    }
}

impl Clone for MetricName {
    fn clone(&self) -> (copy: Self)
        ensures
            copy@ == self@,
    {
        MetricName { name: self.name.clone() }
    }
}

impl Named for MetricName {
    open spec fn name(&self) -> Seq<char> {
        self@
    }

    fn text(&self) -> (text: &str) {
        self.as_str()
    }
}

impl Twin for MetricName {
    fn twin(&self) -> (twin: Self) {
        self.clone()
    }
}

/// One measurement of one metric at one instant, in one unit.
#[derive(Debug, PartialEq)]
pub struct Sample {
    at: UnixSeconds,
    metric: MetricName,
    value: Binary64,
    unit: Unit,
}

/// What a sample says.
pub ghost struct SampleView {
    /// The instant, in seconds since the Unix epoch.
    pub at: i64,
    /// The name of the metric.
    pub metric: Seq<char>,
    /// The measured value.
    pub value: Binary64,
    /// What it is measured in.
    pub unit: Unit,
}

impl Sample {
    /// What the sample says.
    pub closed spec fn view(&self) -> SampleView {
        SampleView { at: self.at@, metric: self.metric@, value: self.value, unit: self.unit }
    }

    /// A sample's value is finite.
    #[verifier::type_invariant]
    pub open spec fn well_formed(self) -> bool {
        self@.value.finite()
    }

    /// One sample. Refuses a non-finite value.
    #[must_use]
    pub fn new(at: UnixSeconds, metric: MetricName, value: Binary64, unit: Unit) -> (sample: Option<
        Self,
    >)
        ensures
            match sample {
                Some(sample) => value.finite() && sample@ == (SampleView {
                    at: at@,
                    metric: metric@,
                    value,
                    unit,
                }),
                None => !value.finite(),
            },
    {
        if value.is_finite() {
            Some(Sample { at, metric, value, unit })
        } else {
            None
        }
    }

    /// The instant.
    #[must_use]
    pub fn at(&self) -> (at: UnixSeconds)
        ensures
            at@ == self@.at,
    {
        self.at
    }

    /// The metric.
    #[must_use]
    pub fn metric(&self) -> (metric: &MetricName)
        ensures
            metric@ == self@.metric,
    {
        &self.metric
    }

    /// The measured value.
    #[must_use]
    pub fn value(&self) -> (value: Binary64)
        ensures
            value == self@.value,
            value.finite(),
    {
        proof {
            use_type_invariant(self);
        }
        self.value
    }

    /// What it is measured in.
    #[must_use]
    pub fn unit(&self) -> (unit: Unit)
        ensures
            unit == self@.unit,
    {
        self.unit
    }
}

} // verus!
