//! Consumer contract: alignment types and golden numbers must not drift.
//! All timestamps and values are synthetic.

use interval_align::{
    align, Aggregate, AlignError, Binary64, Duration, Interval, Kind, Reading, Readings, Rules,
    Sample, Timestamp,
};

type AlignResult = Result<Readings, AlignError>;

const _: fn(Timestamp) -> i64 = timestamp_as_i64;
const _: fn(&[Sample], Interval, &Rules) -> AlignResult = align;

/// 2026-03-08T06:00Z as Unix seconds. Synthetic; this crate reads no clock.
const START: Timestamp = 29_549_160 * 60;
/// 2026-11-01T05:00Z as Unix seconds. Synthetic; derived by hand, not a zone db.
const AUTUMN_START: Timestamp = 29_891_820 * 60;

fn timestamp_as_i64(at: Timestamp) -> i64 {
    at
}

fn kind_name(kind: Kind) -> &'static str {
    match kind {
        Kind::Power => "Power",
        Kind::Energy => "Energy",
        Kind::Counter => "Counter",
    }
}

fn default_length() -> Duration {
    Duration::seconds(900).expect("a positive length")
}

fn default_interval() -> Interval {
    Interval {
        start: START,
        length: default_length(),
    }
}

fn default_rules() -> Rules {
    Rules {
        min_coverage_pct: 80,
    }
}

fn number(value: f64) -> Binary64 {
    Binary64::from_bits(value.to_bits())
}

fn float(value: &Binary64) -> f64 {
    f64::from_bits(value.to_bits())
}

fn evaluate(aggregate: &Aggregate) -> f64 {
    match aggregate {
        Aggregate::Mean { held, span } => {
            let weighted: f64 = held
                .iter()
                .map(|held| float(&held.value) * held.seconds as f64)
                .sum();
            weighted / *span as f64
        }
        Aggregate::Sum { values } => values.iter().map(float).sum(),
        Aggregate::Rise { first, last } => float(last) - float(first),
    }
}

fn sample(metric: &str, at: Timestamp, value: f64, kind: Kind) -> Sample {
    Sample::new(metric, at, number(value), kind).expect("a finite value")
}

fn walk_starts(start: Timestamp, window_secs: i64) -> Vec<Timestamp> {
    let length = default_length();
    let end = start + window_secs;
    let mut starts = Vec::new();
    let mut next = start;
    while next < end {
        let interval = Interval {
            start: next,
            length,
        };
        starts.push(interval.start);
        next += i64::try_from(length.as_secs()).expect("length fits i64");
    }
    starts
}

fn assert_strictly_stepping(starts: &[Timestamp], step: i64) {
    for pair in starts.windows(2) {
        assert_eq!(pair[1] - pair[0], step);
        assert!(pair[1] > pair[0]);
    }
}

#[test]
fn kinds_are_power_energy_and_counter() {
    assert_eq!(kind_name(Kind::Power), "Power");
    assert_eq!(kind_name(Kind::Energy), "Energy");
    assert_eq!(kind_name(Kind::Counter), "Counter");
}

#[test]
fn timestamp_is_i64() {
    let at: Timestamp = START;
    let as_i64: i64 = timestamp_as_i64(at);
    assert_eq!(as_i64, 29_549_160 * 60);
}

#[test]
fn power_hand_example_is_the_time_weighted_mean() {
    let samples = [
        sample("hall.kw", START, 100.0, Kind::Power),
        sample("hall.kw", START + 300, 200.0, Kind::Power),
        sample("hall.kw", START + 720, 100.0, Kind::Power),
    ];

    let aligned: Readings =
        align(&samples, default_interval(), &default_rules()).expect("three samples align");

    match aligned.get("hall.kw").expect("hall.kw was sampled") {
        Reading::Value {
            value,
            coverage_pct,
            duplicates,
        } => {
            let value = evaluate(value);
            assert!(
                (value - 158.333_333_333_333_33).abs() < 1e-9,
                "mean was {value}"
            );
            assert_eq!(*coverage_pct, 80);
            assert_eq!(*duplicates, 0);
        }
        Reading::Missing { coverage_pct } => {
            panic!("expected Value, got Missing {{ coverage_pct: {coverage_pct} }}")
        }
    }
}

#[test]
fn thin_power_is_missing_with_no_value_field() {
    let samples = [
        sample("hall.kw", START, 100.0, Kind::Power),
        sample("hall.kw", START + 180, 110.0, Kind::Power),
        sample("hall.kw", START + 360, 120.0, Kind::Power),
    ];

    let aligned: Readings =
        align(&samples, default_interval(), &default_rules()).expect("three samples align");

    match aligned.get("hall.kw").expect("hall.kw was sampled") {
        Reading::Missing { coverage_pct } => assert_eq!(*coverage_pct, 40),
        Reading::Value {
            value,
            coverage_pct,
            duplicates,
        } => panic!(
            "expected Missing with no value, got Value {{ value: {value:?}, coverage_pct: {coverage_pct}, duplicates: {duplicates} }}"
        ),
    }
}

#[test]
fn replay_before_the_kept_sample_counts_as_one_duplicate() {
    let samples = [
        sample("hall.kw", START, 100.0, Kind::Power),
        sample("hall.kw", START + 300, 999.0, Kind::Power),
        sample("hall.kw", START + 300, 200.0, Kind::Power),
        sample("hall.kw", START + 720, 100.0, Kind::Power),
    ];

    let aligned: Readings =
        align(&samples, default_interval(), &default_rules()).expect("four samples align");

    match aligned.get("hall.kw").expect("hall.kw was sampled") {
        Reading::Value {
            value,
            coverage_pct,
            duplicates,
        } => {
            let value = evaluate(value);
            assert!(
                (value - 158.333_333_333_333_33).abs() < 1e-9,
                "the replayed 999 survived: {value}"
            );
            assert_eq!(*coverage_pct, 80);
            assert_eq!(*duplicates, 1);
        }
        Reading::Missing { coverage_pct } => {
            panic!("expected Value, got Missing {{ coverage_pct: {coverage_pct} }}")
        }
    }
}

#[test]
fn utc_interval_walks_are_ninety_two_and_one_hundred_starts() {
    let spring = walk_starts(START, 23 * 3_600);
    assert_eq!(spring.len(), 92);
    assert_strictly_stepping(&spring, 900);
    assert_eq!(spring[0], START);

    let autumn = walk_starts(AUTUMN_START, 25 * 3_600);
    assert_eq!(autumn.len(), 100);
    assert_strictly_stepping(&autumn, 900);
    assert_eq!(autumn[0], AUTUMN_START);
}

#[test]
fn one_power_sample_is_missing_even_at_zero_minimum() {
    let samples = [sample("hall.kw", START, 100.0, Kind::Power)];
    let rules = Rules {
        min_coverage_pct: 0,
    };

    let aligned: Readings =
        align(&samples, default_interval(), &rules).expect("one sample aligns");

    match aligned.get("hall.kw").expect("hall.kw was sampled") {
        Reading::Missing { coverage_pct } => assert_eq!(*coverage_pct, 0),
        Reading::Value {
            value,
            coverage_pct,
            duplicates,
        } => panic!(
            "expected Missing with no value, got Value {{ value: {value:?}, coverage_pct: {coverage_pct}, duplicates: {duplicates} }}"
        ),
    }
}

#[test]
fn one_energy_sample_is_the_value_itself() {
    let samples = [sample("meter.kwh", START, 42.0, Kind::Energy)];

    let aligned: Readings =
        align(&samples, default_interval(), &default_rules()).expect("one row aligns");

    match aligned.get("meter.kwh").expect("meter.kwh was sampled") {
        Reading::Value {
            value,
            coverage_pct,
            duplicates: _,
        } => {
            assert_eq!(evaluate(value), 42.0);
            assert_eq!(*coverage_pct, 100);
        }
        Reading::Missing { coverage_pct } => {
            panic!("expected Value, got Missing {{ coverage_pct: {coverage_pct} }}")
        }
    }
}

#[test]
fn counter_rise_is_the_difference() {
    let samples = [
        sample("meter.total", START, 1_000_000.0, Kind::Counter),
        sample("meter.total", START + 540, 1_000_364.0, Kind::Counter),
    ];
    let rules = Rules {
        min_coverage_pct: 50,
    };

    let aligned: Readings =
        align(&samples, default_interval(), &rules).expect("a counter aligns");

    match aligned.get("meter.total").expect("meter.total was sampled") {
        Reading::Value {
            value,
            coverage_pct: _,
            duplicates: _,
        } => assert_eq!(evaluate(value), 364.0),
        Reading::Missing { coverage_pct } => {
            panic!("expected Value, got Missing {{ coverage_pct: {coverage_pct} }}")
        }
    }
}

#[test]
fn falling_counter_is_counter_went_backwards() {
    let samples = [
        sample("meter.total", START, 1_000_000.0, Kind::Counter),
        sample("meter.total", START + 720, 7.0, Kind::Counter),
    ];

    let refused = align(&samples, default_interval(), &default_rules());

    assert_eq!(
        refused,
        Err(AlignError::CounterWentBackwards {
            metric: "meter.total".to_owned()
        })
    );
}

#[test]
fn sample_at_interval_end_is_outside() {
    let samples = [sample("hall.kw", START + 900, 100.0, Kind::Power)];

    let refused = align(&samples, default_interval(), &default_rules());

    assert_eq!(
        refused,
        Err(AlignError::SampleOutsideInterval {
            metric: "hall.kw".to_owned(),
            at: START + 900,
        })
    );
}

#[test]
fn zero_duration_and_nan_sample_are_none() {
    assert!(Duration::seconds(0).is_none());
    assert!(Sample::new("hall.kw", START, number(f64::NAN), Kind::Power).is_none());
}

#[test]
fn unsampled_metric_is_absent_not_missing() {
    let samples = [
        sample("hall.kw", START, 100.0, Kind::Power),
        sample("hall.kw", START + 300, 200.0, Kind::Power),
        sample("hall.kw", START + 720, 100.0, Kind::Power),
    ];

    let aligned: Readings =
        align(&samples, default_interval(), &default_rules()).expect("three samples align");

    assert_eq!(aligned.get("never.sampled"), None);
    assert!(!matches!(
        aligned.get("never.sampled"),
        Some(Reading::Missing { .. })
    ));
}
