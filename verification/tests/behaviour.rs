//! What alignment promises as a whole, on concrete values.

use interval_align::names::{place_of, Place};
use interval_align::series::{deduped, Point};
use interval_align::{
    align, Aggregate, AlignError, Binary64, Duration, Held, Interval, Kind, Reading, Rules, Sample,
};

const START: i64 = 1_772_949_600;

fn number(value: f64) -> Binary64 {
    Binary64::from_bits(value.to_bits())
}

fn interval() -> Interval {
    Interval {
        start: START,
        length: Duration::seconds(900).expect("a positive length"),
    }
}

fn rules(min_coverage_pct: u8) -> Rules {
    Rules { min_coverage_pct }
}

fn sample(metric: &str, offset: i64, value: f64, kind: Kind) -> Sample {
    Sample::new(metric, START + offset, number(value), kind).expect("a finite value")
}

fn held(value: f64, seconds: u64) -> Held {
    Held {
        value: number(value),
        seconds,
    }
}

/// The spans that the samples open fill the sampled span, and the last sample
/// opens none.
#[test]
fn a_mean_weighs_each_sample_until_the_next() {
    let samples = [
        sample("hall.kw", 720, 7.0, Kind::Power),
        sample("hall.kw", 0, 100.0, Kind::Power),
        sample("hall.kw", 300, 200.0, Kind::Power),
    ];
    let aligned = align(&samples, interval(), &rules(80)).expect("three samples align");
    assert_eq!(
        aligned.get("hall.kw"),
        Some(&Reading::Value {
            value: Aggregate::Mean {
                held: vec![held(100.0, 300), held(200.0, 420)],
                span: 720
            },
            coverage_pct: 80,
            duplicates: 0
        })
    );
}

/// A batch that is sent twice reads the same, with every sample of the second
/// sending counted.
#[test]
fn a_replayed_batch_only_counts() {
    let once = vec![
        sample("meter.kwh", 10, 1.0, Kind::Energy),
        sample("meter.kwh", 20, 2.0, Kind::Energy),
    ];
    let mut twice = once.clone();
    twice.extend(once.clone());
    let first = align(&once, interval(), &rules(80)).expect("aligns");
    let second = align(&twice, interval(), &rules(80)).expect("aligns");
    let sum = |duplicates: u32| Reading::Value {
        value: Aggregate::Sum {
            values: vec![number(1.0), number(2.0)],
        },
        coverage_pct: 100,
        duplicates,
    };
    assert_eq!(first.get("meter.kwh"), Some(&sum(0)));
    assert_eq!(second.get("meter.kwh"), Some(&sum(2)));
    assert_eq!(second.clone(), second);
}

/// The kind of a metric is its last sample's.
#[test]
fn the_last_kind_in_caller_order_decides() {
    let samples = [
        sample("m", 600, 3.0, Kind::Power),
        sample("m", 0, 1.0, Kind::Counter),
    ];
    let aligned = align(&samples, interval(), &rules(0)).expect("aligns");
    assert_eq!(
        aligned.get("m"),
        Some(&Reading::Value {
            value: Aggregate::Rise {
                first: number(1.0),
                last: number(3.0)
            },
            coverage_pct: 66,
            duplicates: 0
        })
    );
}

/// A falling counter below the minimum is missing; above it the first in name
/// order is refused.
#[test]
fn only_a_counter_that_reached_the_minimum_is_refused() {
    let samples = [
        sample("z", 0, 5.0, Kind::Counter),
        sample("z", 800, 4.0, Kind::Counter),
        sample("y", 0, 5.0, Kind::Counter),
        sample("y", 800, 4.0, Kind::Counter),
        sample("a", 0, 5.0, Kind::Counter),
        sample("a", 90, 4.0, Kind::Counter),
    ];
    assert_eq!(
        align(&samples, interval(), &rules(50)),
        Err(AlignError::CounterWentBackwards {
            metric: "y".to_owned()
        })
    );
    let thin = align(&samples, interval(), &rules(90)).expect("all are thin");
    assert_eq!(thin.get("a"), Some(&Reading::Missing { coverage_pct: 10 }));
    assert_eq!(thin.get("z"), Some(&Reading::Missing { coverage_pct: 88 }));
}

/// The first sample outside, in caller order, is the one reported, before any
/// counter is looked at.
#[test]
fn the_first_sample_outside_is_reported() {
    let samples = [
        sample("z", 0, 5.0, Kind::Counter),
        sample("z", 800, 4.0, Kind::Counter),
        sample("m", -1, 5.0, Kind::Power),
        sample("a", 900, 5.0, Kind::Power),
    ];
    assert_eq!(
        align(&samples, interval(), &rules(0)),
        Err(AlignError::SampleOutsideInterval {
            metric: "m".to_owned(),
            at: START - 1
        })
    );
}

/// Names read back in byte order, whatever the order of arrival.
#[test]
fn readings_are_in_name_order() {
    let samples = [
        sample("b", 0, 1.0, Kind::Energy),
        sample("\u{e9}", 0, 1.0, Kind::Energy),
        sample("", 0, 1.0, Kind::Energy),
        sample("ab", 0, 1.0, Kind::Energy),
        sample("a", 0, 1.0, Kind::Energy),
        sample("z", 0, 1.0, Kind::Energy),
    ];
    let aligned = align(&samples, interval(), &rules(80)).expect("aligns");
    let names: Vec<&str> = aligned
        .entries()
        .iter()
        .map(|entry| entry.key.as_str())
        .collect();
    assert_eq!(names, ["", "a", "ab", "b", "z", "\u{e9}"]);
    for a in &names {
        for b in &names {
            let place = if a < b {
                Place::Before
            } else if a == b {
                Place::Same
            } else {
                Place::After
            };
            assert_eq!(place_of(a, b), place);
        }
    }
}

/// One point per instant, in time order, the later in the feed standing.
#[test]
fn a_feed_is_deduplicated_in_time_order() {
    let point = |at: i64, value: f64| Point {
        at,
        value: number(value),
    };
    let (kept, dupes) = deduped(&[
        point(5, 1.0),
        point(3, 2.0),
        point(5, 3.0),
        point(4, 4.0),
        point(3, 5.0),
        point(3, 6.0),
    ]);
    assert_eq!(kept, [point(3, 6.0), point(4, 4.0), point(5, 3.0)]);
    assert_eq!(dupes, 3);
}

/// A minimum above a hundred is never reached, and coverage rounds down.
#[test]
fn coverage_rounds_down_and_the_minimum_is_inclusive() {
    let samples = [
        sample("m", 0, 1.0, Kind::Power),
        sample("m", 899, 1.0, Kind::Power),
    ];
    let at = |min: u8| align(&samples, interval(), &rules(min)).expect("aligns");
    assert!(matches!(
        at(99).get("m"),
        Some(Reading::Value {
            coverage_pct: 99,
            ..
        })
    ));
    assert_eq!(
        at(100).get("m"),
        Some(&Reading::Missing { coverage_pct: 99 })
    );
    let energy = [sample("e", 0, 1.0, Kind::Energy)];
    assert_eq!(
        align(&energy, interval(), &rules(101))
            .expect("aligns")
            .get("e"),
        Some(&Reading::Missing { coverage_pct: 100 })
    );
}

/// A span of less than a percent is no coverage at all.
#[test]
fn less_than_a_percent_is_missing() {
    let samples = [
        sample("m", 0, 9.0, Kind::Counter),
        sample("m", 8, 1.0, Kind::Counter),
    ];
    let aligned = align(&samples, interval(), &rules(0)).expect("aligns");
    assert_eq!(aligned.get("m"), Some(&Reading::Missing { coverage_pct: 0 }));
}

/// Samples of different instants, or of different metrics, may arrive in any
/// order, and the same input reads back the same.
#[test]
fn arrival_order_does_not_matter() {
    let ordered = vec![
        sample("a", 0, 1.0, Kind::Power),
        sample("a", 400, 2.0, Kind::Power),
        sample("a", 800, 3.0, Kind::Power),
        sample("b", 0, 4.0, Kind::Counter),
        sample("b", 800, 5.0, Kind::Counter),
    ];
    let mut shuffled = ordered.clone();
    shuffled.reverse();
    shuffled.swap(1, 3);
    let first = align(&ordered, interval(), &rules(80)).expect("aligns");
    assert_eq!(align(&ordered, interval(), &rules(80)).as_ref(), Ok(&first));
    assert_eq!(align(&shuffled, interval(), &rules(80)), Ok(first));
}

/// What the last sample measured, and what a counter read between its ends,
/// changes nothing.
#[test]
fn only_the_samples_that_count_are_read() {
    let power = |last: f64| {
        let samples = [
            sample("m", 0, 10.0, Kind::Power),
            sample("m", 800, last, Kind::Power),
        ];
        align(&samples, interval(), &rules(80)).expect("aligns")
    };
    assert_eq!(power(1.0), power(-7.0));

    let counter = |between: f64| {
        let samples = [
            sample("m", 0, 10.0, Kind::Counter),
            sample("m", 400, between, Kind::Counter),
            sample("m", 800, 12.0, Kind::Counter),
        ];
        align(&samples, interval(), &rules(80)).expect("aligns")
    };
    assert_eq!(counter(11.0), counter(2.0));
}

/// A sample of one metric leaves the others alone, and a further sample of a
/// metric never lowers its coverage.
#[test]
fn a_further_sample_only_adds() {
    let mut samples = vec![
        sample("a", 100, 1.0, Kind::Power),
        sample("a", 190, 2.0, Kind::Power),
    ];
    let before = align(&samples, interval(), &rules(0)).expect("aligns");
    samples.push(sample("b", 5, 2.0, Kind::Energy));
    let beside = align(&samples, interval(), &rules(0)).expect("aligns");
    assert_eq!(before.get("a"), beside.get("a"));
    let mut least: u8 = 10;
    for offset in [150, 100, 280, 10, 550] {
        samples.push(sample("a", offset, 3.0, Kind::Power));
        let aligned = align(&samples, interval(), &rules(0)).expect("aligns");
        match aligned.get("a") {
            Some(Reading::Value { coverage_pct, .. }) => {
                assert!(least <= *coverage_pct);
                least = *coverage_pct;
            }
            other => panic!("expected a value, got {other:?}"),
        }
    }
    assert_eq!(least, 60);
}

/// What comes after a refused sample neither cures nor replaces the refusal.
#[test]
fn a_later_sample_does_not_change_a_refusal() {
    let mut samples = vec![
        sample("m", 5, 1.0, Kind::Power),
        sample("m", 900, 1.0, Kind::Power),
    ];
    let refused = align(&samples, interval(), &rules(0));
    assert_eq!(
        refused,
        Err(AlignError::SampleOutsideInterval {
            metric: "m".to_owned(),
            at: START + 900
        })
    );
    samples.push(sample("a", -5, 1.0, Kind::Power));
    samples.push(sample("m", 6, 1.0, Kind::Power));
    assert_eq!(align(&samples, interval(), &rules(0)), refused);
}

/// A metric reads as its own samples read alone.
#[test]
fn a_metric_reads_as_it_reads_alone() {
    let batch = [
        sample("b", 0, 9.0, Kind::Energy),
        sample("a", 10, 1.0, Kind::Power),
        sample("b", 20, 8.0, Kind::Energy),
        sample("a", 810, 2.0, Kind::Power),
        sample("a", 810, 3.0, Kind::Power),
    ];
    let all = align(&batch, interval(), &rules(80)).expect("aligns");
    for name in ["a", "b"] {
        let own: Vec<Sample> = batch.iter().filter(|s| s.metric == name).cloned().collect();
        let alone = align(&own, interval(), &rules(80)).expect("aligns");
        assert_eq!(alone.len(), 1);
        assert_eq!(alone.get(name), all.get(name));
    }
}

/// A value that is measured again while it is held leaves the mean as it was.
#[test]
fn a_repeated_value_keeps_the_mean() {
    let mean = |offsets: &[(i64, f64)]| {
        let samples: Vec<Sample> = offsets
            .iter()
            .map(|(offset, value)| sample("m", *offset, *value, Kind::Power))
            .collect();
        match align(&samples, interval(), &rules(80))
            .expect("aligns")
            .get("m")
        {
            Some(Reading::Value {
                value: Aggregate::Mean { held, span },
                ..
            }) => {
                let weighted: f64 = held
                    .iter()
                    .map(|held| f64::from_bits(held.value.to_bits()) * held.seconds as f64)
                    .sum();
                (weighted, *span)
            }
            other => panic!("expected a mean, got {other:?}"),
        }
    };
    let sparse = mean(&[(0, 100.0), (300, 200.0), (720, 0.0)]);
    assert_eq!(sparse, (114_000.0, 720));
    assert_eq!(
        mean(&[(0, 100.0), (120, 100.0), (300, 200.0), (301, 200.0), (720, 0.0)]),
        sparse
    );
}
