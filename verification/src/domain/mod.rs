//! Quarter-hours: samples in physical units, as one number per metric per
//! fifteen minutes.

pub mod align;
pub mod interval;
pub mod laws;
pub mod sample;
pub mod units;

pub use align::{
    align, Aggregation, AlignError, AlignRules, IntervalReading, MetricReading, Reading,
};
pub use interval::{Interval15, UnixMinutes, UnixSeconds};
pub use sample::{MetricName, Sample, Unit};
pub use units::Percent;
