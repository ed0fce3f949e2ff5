//! Quarter-hour alignment. All timestamps and values are synthetic.

use interval_align::domain::align::interval_seconds;
use interval_align::domain::{
    align, Aggregation, AlignError, AlignRules, Interval15, IntervalReading, MetricName,
    MetricReading, Percent, Reading, Sample, Unit, UnixMinutes, UnixSeconds,
};
use interval_align::{Aggregate, Binary64};

/// 2026-09-01T00:00Z, the first interval, in minutes.
const FIXTURE_EPOCH_MIN: i64 = 29_803_680;

fn interval() -> Interval15 {
    Interval15::new(UnixMinutes::new(FIXTURE_EPOCH_MIN).expect("after the epoch"))
        .expect("the fixture epoch is a quarter hour")
}

fn metric(name: &str) -> MetricName {
    MetricName::new(name)
}

fn number(value: f64) -> Binary64 {
    Binary64::from_bits(value.to_bits())
}

fn float(value: &Binary64) -> f64 {
    f64::from_bits(value.to_bits())
}

fn evaluate(aggregate: &Aggregate) -> f64 {
    match aggregate {
        Aggregate::Mean { held, span } => {
            let weighted: f64 = held
                .iter()
                .map(|held| float(&held.value) * held.seconds as f64)
                .sum();
            weighted / *span as f64
        }
        Aggregate::Sum { values } => values.iter().map(float).sum(),
        Aggregate::Rise { first, last } => float(last) - float(first),
    }
}

/// A sample of `name` at `minute` minutes into the interval under test.
fn at_minute(name: &str, minute: i64, value: f64, unit: Unit) -> Sample {
    let at = UnixSeconds::new((FIXTURE_EPOCH_MIN + minute) * 60).expect("after the epoch");
    Sample::new(at, metric(name), number(value), unit).expect("a finite sample")
}

fn rules() -> AlignRules {
    AlignRules::default_rules()
}

fn present(reading: &IntervalReading, name: &str) -> Reading {
    match reading.get(&metric(name)) {
        Some(MetricReading::Present(present)) => present.clone(),
        other => panic!("expected {name} to be present, got {other:?}"),
    }
}

#[test]
fn an_interval_is_nine_hundred_seconds() {
    assert_eq!(interval_seconds(), 900);
}

/// A hand example: 100 kW held for five minutes, then 200 kW held for seven,
/// and a last sample that opens no span. The expected mean is
/// (100 x 300 + 200 x 420) / 720 = 158.3333... kW, written out rather than
/// recomputed by the test.
#[test]
fn align_power_aligns_to_the_time_weighted_mean() {
    let samples = [
        at_minute("hall.kw", 0, 100.0, Unit::Kilowatts),
        at_minute("hall.kw", 5, 200.0, Unit::Kilowatts),
        at_minute("hall.kw", 12, 100.0, Unit::Kilowatts),
    ];

    let aligned = align(&samples, interval(), &rules()).expect("three samples align");

    let hall = present(&aligned, "hall.kw");
    let mean = evaluate(hall.value());
    assert!(
        (mean - 158.333_333_333_333_33).abs() < 1e-9,
        "mean was {}",
        mean
    );
    assert_eq!(hall.unit(), Unit::Kilowatts);
}

/// The same example is the boundary case for the default minimum: twelve
/// minutes of fifteen is exactly 80 %.
#[test]
fn the_sampled_span_is_the_coverage() {
    let samples = [
        at_minute("hall.kw", 0, 100.0, Unit::Kilowatts),
        at_minute("hall.kw", 5, 200.0, Unit::Kilowatts),
        at_minute("hall.kw", 12, 100.0, Unit::Kilowatts),
    ];

    let aligned = align(&samples, interval(), &rules()).expect("three samples align");

    assert_eq!(
        present(&aligned, "hall.kw").coverage(),
        Percent::new(80).expect("a percentage")
    );
}

/// Six minutes of fifteen is 40 %, under the minimum. The reading carries
/// the coverage it had and no value at all.
#[test]
fn align_a_metric_under_the_minimum_is_missing_and_never_filled() {
    let samples = [
        at_minute("hall.kw", 0, 100.0, Unit::Kilowatts),
        at_minute("hall.kw", 3, 110.0, Unit::Kilowatts),
        at_minute("hall.kw", 6, 120.0, Unit::Kilowatts),
    ];

    let aligned = align(&samples, interval(), &rules()).expect("three samples align");

    assert_eq!(
        aligned.get(&metric("hall.kw")),
        Some(&MetricReading::Missing {
            coverage: Percent::new(40).expect("a percentage")
        })
    );
    assert_eq!(
        aligned.missing(),
        vec![(&metric("hall.kw"), Percent::new(40).expect("a percent"))]
    );
}

/// One sample spans nothing, so there is no mean to take, whatever the
/// configured minimum says.
#[test]
fn align_one_sample_covers_nothing_even_when_nothing_is_required() {
    let permissive = AlignRules::new(Percent::zero(), Vec::new());
    let samples = [at_minute("hall.kw", 4, 100.0, Unit::Kilowatts)];

    let aligned = align(&samples, interval(), &permissive).expect("one sample aligns");

    assert_eq!(
        aligned.get(&metric("hall.kw")),
        Some(&MetricReading::Missing {
            coverage: Percent::zero()
        })
    );
}

#[test]
fn align_a_duplicate_instant_keeps_the_later_value_and_is_counted() {
    let samples = [
        at_minute("hall.kw", 0, 100.0, Unit::Kilowatts),
        at_minute("hall.kw", 5, 999.0, Unit::Kilowatts),
        at_minute("hall.kw", 5, 200.0, Unit::Kilowatts),
        at_minute("hall.kw", 12, 100.0, Unit::Kilowatts),
    ];

    let aligned = align(&samples, interval(), &rules()).expect("four samples align");

    let hall = present(&aligned, "hall.kw");
    assert_eq!(hall.dupes(), 1);
    assert_eq!(aligned.dupes(), 1);
    let mean = evaluate(hall.value());
    assert!(
        (mean - 158.333_333_333_333_33).abs() < 1e-9,
        "the replayed 999 survived: {}",
        mean
    );
}

#[test]
fn a_declared_counter_aligns_to_its_rise() {
    let counter = metric("meter.main.import_kw");
    let declared = AlignRules::new(
        Percent::new(50).expect("a percentage"),
        vec![counter.clone()],
    );
    let samples = [
        at_minute("meter.main.import_kw", 0, 1_000_000.0, Unit::KilowattHours),
        at_minute("meter.main.import_kw", 7, 1_000_182.0, Unit::KilowattHours),
        at_minute("meter.main.import_kw", 14, 1_000_364.0, Unit::KilowattHours),
    ];

    let aligned = align(&samples, interval(), &declared).expect("a counter aligns");

    let rise = present(&aligned, "meter.main.import_kw");
    assert!((evaluate(rise.value()) - 364.0).abs() < f64::EPSILON);
}

/// The same samples, undeclared, are a summed energy feed. Which rule
/// applies is the declaration's to say and never the data's.
#[test]
fn the_same_samples_undeclared_are_summed() {
    let samples = [
        at_minute("meter.main.import_kw", 0, 10.0, Unit::KilowattHours),
        at_minute("meter.main.import_kw", 7, 20.0, Unit::KilowattHours),
    ];

    let aligned = align(&samples, interval(), &rules()).expect("an energy feed aligns");

    let summed = present(&aligned, "meter.main.import_kw");
    assert!((evaluate(summed.value()) - 30.0).abs() < f64::EPSILON);
}

/// A summed feed has no gap between rows to measure, so one row covers the
/// interval and none leaves the metric absent rather than thin.
#[test]
fn one_summed_row_covers_the_interval() {
    let samples = [at_minute("meter.main.kwh", 9, 42.0, Unit::KilowattHours)];

    let aligned = align(&samples, interval(), &rules()).expect("one row aligns");

    let row = present(&aligned, "meter.main.kwh");
    assert_eq!(row.coverage(), Percent::new(100).expect("a percentage"));
    assert!((evaluate(row.value()) - 42.0).abs() < f64::EPSILON);
}

#[test]
fn a_metric_with_no_sample_is_absent_rather_than_missing() {
    let samples = [at_minute("hall.kw", 0, 100.0, Unit::Kilowatts)];

    let aligned = align(&samples, interval(), &rules()).expect("one sample aligns");

    assert_eq!(aligned.get(&metric("cooling.kw")), None);
    assert_eq!(aligned.len(), 1);
}

#[test]
fn an_empty_interval_holds_no_metric_at_all() {
    let aligned = align(&[], interval(), &rules()).expect("nothing aligns to nothing");

    assert!(aligned.is_empty());
    assert_eq!(aligned.interval(), interval());
}

#[test]
fn a_sample_from_another_quarter_hour_is_refused() {
    let samples = [at_minute("hall.kw", 15, 100.0, Unit::Kilowatts)];

    let refused = align(&samples, interval(), &rules());

    assert_eq!(
        refused,
        Err(AlignError::SampleOutsideInterval {
            metric: metric("hall.kw"),
            at: (FIXTURE_EPOCH_MIN + 15) * 60,
        })
    );
}

#[test]
fn a_metric_that_changes_unit_is_refused() {
    let samples = [
        at_minute("hall.kw", 0, 100.0, Unit::Kilowatts),
        at_minute("hall.kw", 5, 100_000.0, Unit::Watts),
    ];

    let refused = align(&samples, interval(), &rules());

    assert_eq!(
        refused,
        Err(AlignError::UnitChanged {
            metric: metric("hall.kw")
        })
    );
}

#[test]
fn align_a_counter_that_falls_is_refused() {
    let counter = metric("meter.main.import_kw");
    let declared = AlignRules::new(Percent::zero(), vec![counter.clone()]);
    let samples = [
        at_minute("meter.main.import_kw", 0, 1_000_000.0, Unit::KilowattHours),
        at_minute("meter.main.import_kw", 9, 7.0, Unit::KilowattHours),
    ];

    let refused = align(&samples, interval(), &declared);

    assert_eq!(
        refused,
        Err(AlignError::CounterWentBackwards { metric: counter })
    );
}

#[test]
fn watts_and_kilowatts_default_to_a_mean_and_energy_to_a_sum() {
    let rules = rules();

    assert_eq!(
        rules.aggregation_for(&metric("gpu.power_w"), Unit::Watts),
        Aggregation::TimeWeightedMean
    );
    assert_eq!(
        rules.aggregation_for(&metric("hall.kw"), Unit::Kilowatts),
        Aggregation::TimeWeightedMean
    );
    assert_eq!(
        rules.aggregation_for(&metric("meter.main.kwh"), Unit::KilowattHours),
        Aggregation::Sum
    );
}

#[test]
fn a_declared_counter_overrides_the_units_default() {
    let counter = metric("meter.main.import_kw");
    let declared = AlignRules::new(Percent::zero(), vec![counter.clone()]);

    assert_eq!(
        declared.aggregation_for(&counter, Unit::KilowattHours),
        Aggregation::CounterDelta
    );
}

#[test]
fn the_default_rules_carry_the_estimate_minimum() {
    assert_eq!(
        rules().min_coverage(),
        Percent::new(AlignRules::DEFAULT_MIN_COVERAGE_PCT).expect("a percentage")
    );
}

#[test]
fn metrics_are_read_in_name_order_whatever_order_they_arrived_in() {
    let samples = [
        at_minute("pdu.a1.kw", 0, 400.0, Unit::Kilowatts),
        at_minute("cooling.kw", 0, 200.0, Unit::Kilowatts),
        at_minute("pdu.a1.kw", 14, 400.0, Unit::Kilowatts),
        at_minute("cooling.kw", 14, 200.0, Unit::Kilowatts),
    ];

    let aligned = align(&samples, interval(), &rules()).expect("two metrics align");

    let names: Vec<&str> = aligned
        .present()
        .iter()
        .map(|(metric, _)| metric.as_str())
        .collect();
    assert_eq!(names, ["cooling.kw", "pdu.a1.kw"]);
}

/// A reading's coverage can be read without knowing whether it was good
/// enough, which is what the day report needs.
#[test]
fn a_reading_reports_its_coverage_either_way() {
    let thin = MetricReading::Missing {
        coverage: Percent::new(40).expect("a percentage"),
    };
    let full = MetricReading::Present(Reading {
        value: Aggregate::Sum {
            values: vec![number(1.0)],
        },
        unit: Unit::Kilowatts,
        coverage: Percent::new(100).expect("a percentage"),
        dupes: 0,
    });

    assert_eq!(thin.coverage(), Percent::new(40).expect("a percentage"));
    assert_eq!(full.coverage(), Percent::new(100).expect("a percentage"));
}

/// A percentage is a part of a whole, however it is written.
#[test]
fn percentages_are_exact() {
    assert_eq!(Percent::of_ratio(720, 900), Percent::new(80));
    assert_ne!(Percent::of_ratio(719, 900), Percent::new(80));
    assert!(Percent::of_ratio(719, 900)
        .expect("a part of the whole")
        .is_below(&Percent::new(80).expect("a percentage")));
    assert!(!Percent::new(80)
        .expect("a percentage")
        .is_below(&Percent::of_ratio(720, 900).expect("a part of the whole")));
    assert!(Percent::new(101).is_none());
    assert!(Percent::of_ratio(1, 0).is_none());
    assert!(Percent::of_ratio(2, 1).is_none());
    assert!(Percent::zero().is_zero());
    assert_eq!(Percent::zero(), Percent::new(0).expect("a percentage"));
    assert!(Percent::of_ratio(u64::MAX - 1, u64::MAX)
        .expect("a part of the whole")
        .is_below(&Percent::new(100).expect("a percentage")));
}

/// One sample a minute for fifteen minutes covers fourteen of them: the last
/// minute opens no span.
#[test]
fn a_sample_a_minute_covers_fourteen_fifteenths() {
    let samples: Vec<Sample> = (0..15)
        .map(|minute| at_minute("hall.kw", minute, 10.0, Unit::Kilowatts))
        .collect();

    let aligned = align(&samples, interval(), &rules()).expect("fifteen samples align");

    let hall = present(&aligned, "hall.kw");
    assert_eq!(Some(hall.coverage()), Percent::of_ratio(14, 15));
    assert_eq!(evaluate(hall.value()), 10.0);
    assert_eq!(
        *hall.value(),
        Aggregate::Mean {
            held: (0..14)
                .map(|_| interval_align::Held {
                    value: number(10.0),
                    seconds: 60
                })
                .collect(),
            span: 840
        }
    );
}

/// The first sample that is not acceptable decides the error.
#[test]
fn the_first_offence_is_reported() {
    let unit_first = [
        at_minute("hall.kw", 0, 1.0, Unit::Kilowatts),
        at_minute("hall.kw", 1, 1.0, Unit::Watts),
        at_minute("hall.kw", 20, 1.0, Unit::Kilowatts),
    ];
    assert_eq!(
        align(&unit_first, interval(), &rules()),
        Err(AlignError::UnitChanged {
            metric: metric("hall.kw")
        })
    );
    let outside_first = [
        at_minute("hall.kw", 0, 1.0, Unit::Kilowatts),
        at_minute("hall.kw", -1, 1.0, Unit::Watts),
        at_minute("hall.kw", 1, 1.0, Unit::Watts),
    ];
    assert_eq!(
        align(&outside_first, interval(), &rules()),
        Err(AlignError::SampleOutsideInterval {
            metric: metric("hall.kw"),
            at: (FIXTURE_EPOCH_MIN - 1) * 60
        })
    );
}

/// Of several counters that fall, the first in name order is reported, and a
/// thin one is not reported at all.
#[test]
fn the_first_falling_counter_in_name_order_is_reported() {
    let declared = AlignRules::new(
        Percent::new(50).expect("a percentage"),
        vec![metric("c"), metric("b"), metric("a"), metric("b")],
    );
    let samples = [
        at_minute("c", 0, 9.0, Unit::KilowattHours),
        at_minute("b", 0, 9.0, Unit::KilowattHours),
        at_minute("a", 0, 9.0, Unit::KilowattHours),
        at_minute("a", 2, 1.0, Unit::KilowattHours),
        at_minute("b", 9, 1.0, Unit::KilowattHours),
        at_minute("c", 9, 1.0, Unit::KilowattHours),
    ];
    assert_eq!(
        align(&samples, interval(), &declared),
        Err(AlignError::CounterWentBackwards {
            metric: metric("b")
        })
    );
    assert_eq!(
        declared,
        AlignRules::new(
            Percent::new(50).expect("a percentage"),
            vec![metric("a"), metric("b"), metric("c")],
        )
    );
    assert_eq!(declared.clone(), declared);
}

/// Every metric is present or missing, and duplicates add up over all of
/// them.
#[test]
fn present_and_missing_make_up_the_interval() {
    let samples = [
        at_minute("a", 0, 1.0, Unit::Watts),
        at_minute("a", 14, 1.0, Unit::Watts),
        at_minute("a", 14, 2.0, Unit::Watts),
        at_minute("b", 0, 1.0, Unit::Watts),
        at_minute("b", 0, 1.0, Unit::Watts),
        at_minute("c", 7, 1.0, Unit::KilowattHours),
        at_minute("c", 7, 5.0, Unit::KilowattHours),
    ];
    let aligned = align(&samples, interval(), &rules()).expect("three metrics align");

    assert_eq!(aligned.len(), 3);
    assert_eq!(aligned.present().len(), 2);
    assert_eq!(aligned.missing().len(), 1);
    assert_eq!(aligned.dupes(), 3);
    assert_eq!(evaluate(present(&aligned, "c").value()), 5.0);
    assert_eq!(aligned.clone(), aligned);
}

/// An instant falls in the quarter-hour that starts at or before it and ends
/// after it.
#[test]
fn an_instant_falls_in_its_quarter_hour() {
    let start = FIXTURE_EPOCH_MIN * 60;
    for offset in [0, 1, 899] {
        let at = UnixSeconds::new(start + offset).expect("after the epoch");
        assert_eq!(Interval15::containing(at), interval());
    }
    let at = UnixSeconds::new(start + 900).expect("after the epoch");
    assert_eq!(Interval15::containing(at), interval().next());
    assert!(interval().same_as(&interval()));
    assert!(!interval().same_as(&interval().next()));
    assert!(UnixSeconds::new(-1).is_none());
    assert!(UnixMinutes::new(-1).is_none());
    assert!(Interval15::new(UnixMinutes::new(7).expect("after the epoch")).is_none());
    let at = UnixSeconds::new(0).expect("the epoch");
    assert!(Sample::new(at, metric("m"), number(f64::NAN), Unit::Watts).is_none());
}

/// Samples may arrive in any order and a replay only counts.
#[test]
fn order_and_replays_leave_the_numbers_alone() {
    let batch = || {
        vec![
            at_minute("a", 0, 1.0, Unit::Watts),
            at_minute("a", 6, 2.0, Unit::Watts),
            at_minute("a", 14, 3.0, Unit::Watts),
            at_minute("b", 3, 4.0, Unit::KilowattHours),
        ]
    };
    let mut shuffled = batch();
    shuffled.reverse();
    let first = align(&batch(), interval(), &rules()).expect("aligns");
    assert_eq!(align(&shuffled, interval(), &rules()).as_ref(), Ok(&first));

    let mut twice = batch();
    twice.extend(batch());
    let second = align(&twice, interval(), &rules()).expect("aligns");
    assert_eq!(second.dupes(), 4);
    for name in ["a", "b"] {
        let (once, again) = (present(&first, name), present(&second, name));
        assert_eq!(once.value(), again.value());
        assert_eq!(once.coverage(), again.coverage());
        assert_eq!(once.unit(), again.unit());
    }
}

/// Thirteen minutes of fifteen is 86.6 %: the exact share here, the whole
/// percent there.
#[test]
fn the_whole_percent_is_the_share_rounded_down() {
    let samples = [
        at_minute("hall.kw", 1, 1.0, Unit::Kilowatts),
        at_minute("hall.kw", 14, 1.0, Unit::Kilowatts),
    ];
    let aligned = align(&samples, interval(), &rules()).expect("aligns");
    assert_eq!(
        Some(present(&aligned, "hall.kw").coverage()),
        Percent::of_ratio(13, 15)
    );

    let start = FIXTURE_EPOCH_MIN * 60;
    let plain = [(60, 1.0), (840, 1.0)].map(|(offset, value)| {
        interval_align::Sample::new(
            "hall.kw",
            start + offset,
            number(value),
            interval_align::Kind::Power,
        )
        .expect("a finite value")
    });
    let whole = interval_align::align(
        &plain,
        interval_align::Interval {
            start,
            length: interval_align::Duration::seconds(900).expect("a positive length"),
        },
        &interval_align::Rules {
            min_coverage_pct: 80,
        },
    )
    .expect("aligns");
    assert!(matches!(
        whole.get("hall.kw"),
        Some(interval_align::Reading::Value {
            coverage_pct: 86,
            ..
        })
    ));
}

/// A replay is visible although its metric was sampled too thinly to use.
#[test]
fn a_replay_of_a_missing_metric_is_counted() {
    let samples = [
        at_minute("hall.kw", 4, 100.0, Unit::Kilowatts),
        at_minute("hall.kw", 4, 200.0, Unit::Kilowatts),
    ];
    let aligned = align(&samples, interval(), &rules()).expect("a replay aligns");

    assert_eq!(
        aligned.get(&metric("hall.kw")),
        Some(&MetricReading::Missing {
            coverage: Percent::zero()
        })
    );
    assert_eq!(aligned.dupes(), 1);
    assert_eq!(aligned.clone().dupes(), 1);
}

/// What comes after a refused sample neither cures nor replaces the refusal.
#[test]
fn a_refusal_stands_whatever_is_appended() {
    let changed = || {
        vec![
            at_minute("hall.kw", 0, 1.0, Unit::Kilowatts),
            at_minute("hall.kw", 1, 1.0, Unit::Watts),
        ]
    };
    let refused = align(&changed(), interval(), &rules());
    assert_eq!(
        refused,
        Err(AlignError::UnitChanged {
            metric: metric("hall.kw")
        })
    );
    for later in [
        at_minute("hall.kw", 2, 1.0, Unit::Kilowatts),
        at_minute("hall.kw", 40, 1.0, Unit::Kilowatts),
        at_minute("cooling.kw", 2, 1.0, Unit::Watts),
    ] {
        let mut longer = changed();
        longer.push(later);
        assert_eq!(align(&longer, interval(), &rules()), refused);
    }
}

/// Every metric is found by name where it is listed, and nowhere else.
#[test]
fn the_lists_agree_with_lookups() {
    let samples = [
        at_minute("d", 3, 1.0, Unit::Watts),
        at_minute("c", 0, 1.0, Unit::Watts),
        at_minute("c", 14, 1.0, Unit::Watts),
        at_minute("b", 3, 1.0, Unit::Watts),
        at_minute("a", 3, 1.0, Unit::KilowattHours),
    ];
    let aligned = align(&samples, interval(), &rules()).expect("four metrics align");

    let present: Vec<&str> = aligned.present().iter().map(|(m, _)| m.as_str()).collect();
    let missing: Vec<&str> = aligned.missing().iter().map(|(m, _)| m.as_str()).collect();
    assert_eq!(present, ["a", "c"]);
    assert_eq!(missing, ["b", "d"]);
    for (name, reading) in aligned.present() {
        assert_eq!(
            aligned.get(name),
            Some(&MetricReading::Present(reading.clone()))
        );
    }
    for (name, coverage) in aligned.missing() {
        assert_eq!(aligned.get(name), Some(&MetricReading::Missing { coverage }));
    }
}
