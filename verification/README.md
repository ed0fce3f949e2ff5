# interval-align

A verified Verus library that aligns timestamped samples onto intervals and
returns one number per metric: a time-weighted mean for power-like metrics, a
sum for energy rows, or a rise for monotone counters, each with a coverage
figure and nothing interpolated.

## Layout

* `src/` is the library. Every function in it is proved against its contract.
  * `binary64.rs`: measured values, held by their bits, and their order.
  * `series.rs`: one metric's points, deduplicated into time order.
  * `aggregate.rs`: the mean, the sum and the rise, with exact results.
  * `names.rs`: metric names in order, and a map by name.
  * `align.rs`: intervals of any length, kinds, rules and alignment.
  * `laws.rs`: what holds of alignment as a whole.
  * `domain/`: quarter-hours, with units, declared counters and exact
    percentages.
* `tests/` runs the library on synthetic data.
* `app/` offers the same calls on `f64` values: it converts them by their bits
  and evaluates the results.

## The rules in one place

* A sample declares its `Kind`; nothing is inferred from a unit string.
  `Kind::Power` is the interval's time-weighted mean (each sample held until
  the next; the last opens no span), `Kind::Energy` is the sum of the values
  inside the interval, and `Kind::Counter` is the last value minus the first.
* Coverage for power and counter metrics is the span from the first sample
  to the last, over the interval's length, as a percent. Fewer than two
  samples means zero coverage. One energy sample covers the whole interval.
* Coverage below the configured minimum, or zero coverage, yields
  `Reading::Missing { coverage_pct }` and no value.
* Two samples of one metric at one instant is a replay: the later one in
  caller order wins, and the discard is counted in `duplicates`.
* A sample outside the interval, or a counter that falls, is a typed error
  rather than a row quietly dropped.
* A metric with no samples at all is absent from the result rather than
  `Missing`. The result is in name order, so the same input always yields the
  same iteration order.

The library does not convert time zones, read files or the network, or decide
what a good coverage threshold is. Timestamps are plain seconds since the Unix
epoch as `i64`.
