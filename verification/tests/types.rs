//! The types that alignment speaks in.

use interval_align::{align, Binary64, Duration, Interval, Kind, Rules, Sample, Timestamp};

// Synthetic instants; nothing here reads a clock.
const START: Timestamp = 1_772_949_600;

fn duration(secs: u64) -> Duration {
    Duration::seconds(secs).expect("a positive length")
}

fn number(value: f64) -> Binary64 {
    Binary64::from_bits(value.to_bits())
}

fn sample(metric: &str, offset: i64, value: f64, kind: Kind) -> Sample {
    Sample::new(metric, START + offset, number(value), kind).expect("a finite value")
}

#[test]
fn a_sample_refuses_a_non_finite_value() {
    assert!(Sample::new("hall.kw", START, number(f64::NAN), Kind::Power).is_none());
    assert!(Sample::new("hall.kw", START, number(f64::INFINITY), Kind::Power).is_none());
    assert!(sample("hall.kw", 0, 1.0, Kind::Power).value == number(1.0));
}

#[test]
fn a_duration_refuses_zero() {
    assert!(Duration::seconds(0).is_none());
    assert_eq!(duration(900).as_secs(), 900);
}

#[test]
fn an_interval_contains_its_start_but_not_its_end() {
    let interval = Interval {
        start: START,
        length: duration(900),
    };
    assert!(interval.contains(START));
    assert!(interval.contains(START + 899));
    assert!(!interval.contains(START + 900));
    assert_eq!(interval.end(), START + 900);
}

#[test]
fn an_interval_end_saturates() {
    let interval = Interval {
        start: i64::MAX - 10,
        length: duration(900),
    };
    assert_eq!(interval.end(), i64::MAX);
}

#[test]
fn empty_input_aligns_to_an_empty_map() {
    let interval = Interval {
        start: START,
        length: duration(900),
    };
    let aligned = align(
        &[],
        interval,
        &Rules {
            min_coverage_pct: 80,
        },
    )
    .expect("empty aligns");
    assert!(aligned.is_empty());
}

/// The longest lengths are lengths too: the end is the start plus the length,
/// or the last representable second.
#[test]
fn the_longest_interval_ends_where_it_should() {
    let longest = Interval {
        start: START,
        length: duration(u64::MAX),
    };
    assert_eq!(longest.end(), i64::MAX);
    assert!(longest.contains(START));

    let from_the_bottom = Interval {
        start: i64::MIN,
        length: duration(1 << 63),
    };
    assert_eq!(from_the_bottom.end(), 0);
    assert!(from_the_bottom.contains(-1));
    assert!(!from_the_bottom.contains(0));
}

/// The order that is decided on the bits is the order of the numbers.
#[test]
fn numbers_compare_as_numbers() {
    let ordered = [
        f64::NEG_INFINITY,
        f64::MIN,
        -1.5,
        -f64::MIN_POSITIVE,
        -f64::from_bits(1),
        0.0,
        f64::from_bits(1),
        f64::MIN_POSITIVE,
        1.0,
        1.5,
        1e300,
        f64::MAX,
        f64::INFINITY,
    ];
    for (i, a) in ordered.iter().enumerate() {
        for (j, b) in ordered.iter().enumerate() {
            assert_eq!(number(*a).lt(&number(*b)), i < j, "{a} < {b}");
            assert_eq!(number(*a).le(&number(*b)), i <= j, "{a} <= {b}");
        }
        assert_eq!(number(*a).is_finite(), a.is_finite());
        assert!(!number(*a).lt(&number(f64::NAN)));
        assert!(!number(f64::NAN).le(&number(*a)));
    }
    assert!(!number(-0.0).lt(&number(0.0)));
    assert!(number(0.0).le(&number(-0.0)));
    assert!(!number(f64::NAN).is_finite());
    assert_eq!(number(2.5).to_bits(), 2.5_f64.to_bits());
}
