//! What a metric's surviving points come to.
//!
//! An [`Aggregate`] names the arithmetic and holds its operands, in order: the
//! values and how long each was held, the values to add up, or the two ends of
//! a rise. Evaluating one rounds as its user's arithmetic rounds. What it
//! stands for before any rounding is [`AggregateView::numerator`] over
//! [`AggregateView::denominator`].

use vstd::prelude::*;

use crate::binary64::Binary64;
use crate::series::{in_time_order, Point};

verus! {

/// One value and for how many seconds it was held.
#[derive(Debug, Clone, Copy, PartialEq)]
pub struct Held {
    /// The value.
    pub value: Binary64,
    /// The seconds until the next point.
    pub seconds: u64,
}

/// The operands of one aggregation.
#[derive(Debug, PartialEq)]
pub enum Aggregate {
    /// The sum of each value times its seconds, over the span.
    Mean {
        /// The values that were held, in time order.
        held: Vec<Held>,
        /// The seconds from the first point to the last.
        span: u64,
    },
    /// The sum of the values.
    Sum {
        /// The values, in time order.
        values: Vec<Binary64>,
    },
    /// The last value minus the first.
    Rise {
        /// The first value.
        first: Binary64,
        /// The last value.
        last: Binary64,
    },
}

/// The operands of one aggregation, as sequences.
pub ghost enum AggregateView {
    /// See [`Aggregate::Mean`].
    Mean { held: Seq<Held>, span: int },
    /// See [`Aggregate::Sum`].
    Sum { values: Seq<Binary64> },
    /// See [`Aggregate::Rise`].
    Rise { first: Binary64, last: Binary64 },
}

impl View for Aggregate {
    type V = AggregateView;

    open spec fn view(&self) -> AggregateView {
        match *self {
            Aggregate::Mean { held, span } => AggregateView::Mean {
                held: held@,
                span: span as int,
            },
            Aggregate::Sum { values } => AggregateView::Sum { values: values@ },
            Aggregate::Rise { first, last } => AggregateView::Rise { first, last },
        }
    }
}

impl Clone for Aggregate {
    fn clone(&self) -> (copy: Self)
        ensures
            copy@ == self@,
    {
        match self {
            Aggregate::Mean { held, span } => {
                let held: Vec<Held> = held.clone();
                assert(held@ =~= self->held@);
                Aggregate::Mean { held, span: *span }
            },
            Aggregate::Sum { values } => {
                let values: Vec<Binary64> = values.clone();
                assert(values@ =~= self->values@);
                Aggregate::Sum { values }
            },
            Aggregate::Rise { first, last } => Aggregate::Rise { first: *first, last: *last },
        }
    }
}

impl AggregateView {
    /// The exact result times [`AggregateView::denominator`], in the unit of
    /// [`Binary64::exact`].
    pub open spec fn numerator(self) -> int {
        match self {
            AggregateView::Mean { held, span } => weighted(held),
            AggregateView::Sum { values } => total(values),
            AggregateView::Rise { first, last } => last.exact() - first.exact(),
        }
    }

    /// What the exact result is a fraction of.
    pub open spec fn denominator(self) -> int {
        match self {
            AggregateView::Mean { held, span } => span,
            AggregateView::Sum { values } => 1,
            AggregateView::Rise { first, last } => 1,
        }
    }
}

/// The sum of each value times its seconds.
pub open spec fn weighted(held: Seq<Held>) -> int
    decreases held.len(),
{
    if held.len() == 0 {
        0
    } else {
        weighted(held.drop_last()) + held.last().value.exact() * held.last().seconds
    }
}

/// The sum of the seconds.
pub open spec fn seconds_held(held: Seq<Held>) -> int
    decreases held.len(),
{
    if held.len() == 0 {
        0
    } else {
        seconds_held(held.drop_last()) + held.last().seconds
    }
}

/// The sum of the values.
pub open spec fn total(values: Seq<Binary64>) -> int
    decreases values.len(),
{
    if values.len() == 0 {
        0
    } else {
        total(values.drop_last()) + values.last().exact()
    }
}

/// The seconds from the first point to the last. Fewer than two points span
/// nothing.
pub open spec fn span_of(points: Seq<Point>) -> int {
    if points.len() == 0 {
        0
    } else {
        points.last().at - points.first().at
    }
}

/// Each value but the last, with the seconds until the next point.
pub open spec fn holds_of(points: Seq<Point>) -> Seq<Held> {
    Seq::new(
        if points.len() == 0 {
            0
        } else {
            (points.len() - 1) as nat
        },
        |i: int|
            Held { value: points[i].value, seconds: (points[i + 1].at - points[i].at) as u64 },
    )
}

/// The time-weighted mean of points in time order.
pub open spec fn mean_of(points: Seq<Point>) -> AggregateView {
    AggregateView::Mean { held: holds_of(points), span: span_of(points) }
}

/// The sum of the values of points.
pub open spec fn sum_of(points: Seq<Point>) -> AggregateView {
    AggregateView::Sum { values: points.map_values(|point: Point| point.value) }
}

/// The rise from the first point to the last.
pub open spec fn rise_of(points: Seq<Point>) -> AggregateView {
    AggregateView::Rise { first: points.first().value, last: points.last().value }
}

/// The rise from the first point to the last is a fall.
pub open spec fn falls(points: Seq<Point>) -> bool {
    points.last().value.less_than(points.first().value)
}

/// The seconds from the first point to the last.
pub fn sampled_span(points: &[Point]) -> (span: u64)
    requires
        in_time_order(points@),
    ensures
        span == span_of(points@),
{
    if points.len() == 0 {
        0
    } else {
        let first: i64 = points[0].at;
        let last: i64 = points[points.len() - 1].at;
        proof {
            if points.len() > 1 {
                assert(points@[0].at < points@[points@.len() - 1].at);
            }
        }
        (last as i128 - first as i128) as u64
    }
}

/// Each sample weighted by the span until the next one.
///
/// The last sample opens no span and so carries no weight: nothing is held
/// past it and nothing is back-filled before the first.
pub fn time_weighted_mean(points: &[Point]) -> (mean: Aggregate)
    requires
        in_time_order(points@),
    ensures
        mean@ == mean_of(points@),
{
    let mut held: Vec<Held> = Vec::new();
    let mut i: usize = 0;
    while points.len() > 0 && i < points.len() - 1
        invariant
            i <= holds_of(points@).len(),
            in_time_order(points@),
            held@ == holds_of(points@).take(i as int),
        decreases points.len() - i,
    {
        let value: Binary64 = points[i].value;
        assert(points@[i as int].at < points@[i + 1].at);
        let seconds: u64 = (points[i + 1].at as i128 - points[i].at as i128) as u64;
        held.push(Held { value, seconds });
        assert(holds_of(points@).take(i + 1) =~= holds_of(points@).take(i as int).push(
            holds_of(points@)[i as int],
        ));
        i = i + 1;
    }
    assert(holds_of(points@).take(i as int) =~= holds_of(points@));
    Aggregate::Mean { held, span: sampled_span(points) }
}

/// The values of the points, to be added up.
pub fn sum_of_values(points: &[Point]) -> (sum: Aggregate)
    ensures
        sum@ == sum_of(points@),
{
    let ghost all = points@.map_values(|point: Point| point.value);
    let mut values: Vec<Binary64> = Vec::new();
    let mut i: usize = 0;
    while i < points.len()
        invariant
            i <= points.len(),
            all == points@.map_values(|point: Point| point.value),
            values@ == all.take(i as int),
        decreases points.len() - i,
    {
        values.push(points[i].value);
        assert(all.take(i + 1) =~= all.take(i as int).push(all[i as int]));
        i = i + 1;
    }
    assert(all.take(i as int) =~= all);
    Aggregate::Sum { values }
}

/// The spans that the points open fill the whole sampled span: no second is
/// weighted twice and none is left out.
pub proof fn law_weights_fill_the_span(points: Seq<Point>)
    requires
        in_time_order(points),
    ensures
        seconds_held(holds_of(points)) == span_of(points),
    decreases points.len(),
{
    if points.len() > 1 {
        let rest = points.drop_last();
        law_weights_fill_the_span(rest);
        lemma_holds_drop_last(points);
    }
}

proof fn lemma_holds_drop_last(points: Seq<Point>)
    requires
        in_time_order(points),
        points.len() > 1,
    ensures
        holds_of(points).drop_last() == holds_of(points.drop_last()),
        holds_of(points).last().value == points[points.len() - 2].value,
        holds_of(points).last().seconds == points.last().at - points[points.len() - 2].at,
        in_time_order(points.drop_last()),
{
    let rest = points.drop_last();
    assert(points[points.len() - 2].at < points[points.len() - 1].at);
    assert(holds_of(points).drop_last() =~= holds_of(rest));
    assert forall|i: int, j: int| 0 <= i < j < rest.len() implies (#[trigger] rest[i]).at < (
    #[trigger] rest[j]).at by {
        assert(points[i].at < points[j].at);
    }
}

/// A mean lies between any bounds on the values that were held.
pub proof fn law_mean_lies_between_bounds(points: Seq<Point>, low: int, high: int)
    requires
        in_time_order(points),
        forall|i: int|
            0 <= i < points.len() - 1 ==> low <= (#[trigger] points[i]).value.exact() <= high,
    ensures
        low * mean_of(points).denominator() <= mean_of(points).numerator(),
        mean_of(points).numerator() <= high * mean_of(points).denominator(),
    decreases points.len(),
{
    if points.len() > 1 {
        let rest = points.drop_last();
        lemma_holds_drop_last(points);
        assert forall|i: int| 0 <= i < rest.len() - 1 implies low <= (
        #[trigger] rest[i]).value.exact() <= high by {
            assert(rest[i] == points[i]);
        }
        law_mean_lies_between_bounds(rest, low, high);
        let value = points[points.len() - 2].value.exact();
        let seconds = holds_of(points).last().seconds as int;
        let before = span_of(rest);
        assert(span_of(points) == before + seconds);
        assert(low <= value <= high);
        assert(low * (before + seconds) <= low * before + value * seconds && low * before + value
            * seconds <= low * before + high * seconds && high * before + high * seconds == high * (
        before + seconds)) by (nonlinear_arith)
            requires
                low <= value <= high,
                0 <= seconds,
        ;
    } else {
        assert(low * 0 == 0 && high * 0 == 0) by (nonlinear_arith);
        assert(span_of(points) == 0);
        assert(weighted(holds_of(points)) == 0);
    }
}

/// A feed that held one value throughout has that value as its mean.
pub proof fn law_steady_feed_keeps_its_value(points: Seq<Point>, value: int)
    requires
        in_time_order(points),
        forall|i: int| 0 <= i < points.len() - 1 ==> (#[trigger] points[i]).value.exact() == value,
    ensures
        mean_of(points).numerator() == value * mean_of(points).denominator(),
{
    law_mean_lies_between_bounds(points, value, value);
}

/// The last sample opens no span: whatever its value, the mean is the same.
pub proof fn law_last_sample_carries_no_weight(points: Seq<Point>, value: Binary64)
    requires
        points.len() > 0,
    ensures
        mean_of(points.update(points.len() - 1, Point { at: points.last().at, value })) == mean_of(
            points,
        ),
{
    let other = points.update(points.len() - 1, Point { at: points.last().at, value });
    assert(holds_of(other) =~= holds_of(points));
}

proof fn lemma_weighted_parts(a: Seq<Held>, b: Seq<Held>)
    ensures
        weighted(a + b) == weighted(a) + weighted(b),
    decreases b.len(),
{
    if b.len() == 0 {
        assert(a + b =~= a);
    } else {
        lemma_weighted_parts(a, b.drop_last());
        assert((a + b).drop_last() =~= a + b.drop_last());
    }
}

/// A value that is measured once more while it is held changes nothing: the
/// mean comes to what it came to without the point in between.
pub proof fn law_repeated_value_keeps_the_mean(points: Seq<Point>, i: int, at: i64)
    requires
        in_time_order(points),
        0 <= i < points.len() - 1,
        points[i].at < at < points[i + 1].at,
    ensures
        ({
            let longer = points.insert(i + 1, Point { at, value: points[i].value });
            &&& in_time_order(longer)
            &&& mean_of(longer).numerator() == mean_of(points).numerator()
            &&& mean_of(longer).denominator() == mean_of(points).denominator()
        }),
{
    let value = points[i].value;
    let longer = points.insert(i + 1, Point { at, value });
    let held = holds_of(points);
    let (head, tail) = (held.take(i), held.skip(i + 1));
    let first = Held { value, seconds: (at - points[i].at) as u64 };
    let second = Held { value, seconds: (points[i + 1].at - at) as u64 };
    assert forall|j: int, k: int| 0 <= j < k < longer.len() implies (#[trigger] longer[j]).at < (
    #[trigger] longer[k]).at by {
        let a = if j <= i { j } else { j - 1 };
        let b = if k <= i { k } else { k - 1 };
        if j != i + 1 {
            assert(longer[j] == points[a]);
        }
        if k != i + 1 {
            assert(longer[k] == points[b]);
        }
        if a < b {
            assert(points[a].at < points[b].at);
        }
        if j == i + 1 && i + 1 < b {
            assert(points[i + 1].at < points[b].at);
        }
        if k == i + 1 && a < i {
            assert(points[a].at < points[i].at);
        }
    }
    assert(held =~= head + seq![held[i]] + tail);
    assert(holds_of(longer) =~= head + seq![first, second] + tail);
    lemma_weighted_parts(head + seq![held[i]], tail);
    lemma_weighted_parts(head, seq![held[i]]);
    lemma_weighted_parts(head + seq![first, second], tail);
    lemma_weighted_parts(head, seq![first, second]);
    lemma_weighted_parts(seq![first], seq![second]);
    assert(seq![first] + seq![second] =~= seq![first, second]);
    lemma_weighted_one(held[i]);
    lemma_weighted_one(first);
    lemma_weighted_one(second);
    assert(held[i].value.exact() * held[i].seconds == first.value.exact() * first.seconds
        + second.value.exact() * second.seconds) by (nonlinear_arith)
        requires
            held[i].value == first.value,
            first.value == second.value,
            held[i].seconds == first.seconds + second.seconds,
    ;
}

proof fn lemma_weighted_one(held: Held)
    ensures
        weighted(seq![held]) == held.value.exact() * held.seconds,
{
    assert(seq![held].drop_last() =~= Seq::empty());
    assert(weighted(seq![held].drop_last()) == 0);
}

/// One energy row sums to itself.
pub proof fn law_one_row_sums_to_itself(point: Point)
    ensures
        sum_of(seq![point]).numerator() == point.value.exact(),
{
    let values = seq![point].map_values(|point: Point| point.value);
    assert(values.last() == point.value);
    assert(values.drop_last() =~= Seq::empty());
    assert(total(values.drop_last()) == 0);
}

/// A rise that is no fall is not negative.
pub proof fn law_rise_is_not_negative(points: Seq<Point>)
    requires
        points.first().value.finite(),
        points.last().value.finite(),
        !falls(points),
    ensures
        rise_of(points).numerator() >= 0,
{
}

/// Every row counts once: one more row raises the sum by its value, and the
/// sum of no rows is nothing.
pub proof fn law_every_row_counts_once(points: Seq<Point>, next: Point)
    ensures
        sum_of(points.push(next)).numerator() == sum_of(points).numerator() + next.value.exact(),
        sum_of(Seq::<Point>::empty()).numerator() == 0,
        sum_of(points).denominator() == 1,
{
    let before = points.map_values(|point: Point| point.value);
    let after = points.push(next).map_values(|point: Point| point.value);
    assert(after =~= before.push(next.value));
    assert(after.drop_last() =~= before);
    assert(Seq::<Point>::empty().map_values(|point: Point| point.value) =~= Seq::empty());
}

/// A sum holds the value of every point and nothing else, in time order.
pub proof fn law_sum_holds_every_value(points: Seq<Point>)
    ensures
        sum_of(points) matches AggregateView::Sum { values } && values.len() == points.len() && (
        forall|i: int| 0 <= i < points.len() ==> #[trigger] values[i] == points[i].value),
{
}

/// Two feeds that follow each other sum to their two sums.
pub proof fn law_sums_add_up(a: Seq<Point>, b: Seq<Point>)
    ensures
        sum_of(a + b).numerator() == sum_of(a).numerator() + sum_of(b).numerator(),
    decreases b.len(),
{
    if b.len() == 0 {
        assert(a + b =~= a);
        assert(b =~= Seq::empty());
        if a.len() > 0 {
            law_every_row_counts_once(a, a.last());
        } else {
            assert(a =~= Seq::empty());
        }
        law_every_row_counts_once(b, Point { at: 0, value: Binary64 { bits: 0 } });
    } else {
        let rest = b.drop_last();
        law_sums_add_up(a, rest);
        law_every_row_counts_once(a + rest, b.last());
        law_every_row_counts_once(rest, b.last());
        assert((a + rest).push(b.last()) =~= a + b);
        assert(rest.push(b.last()) =~= b);
    }
}

/// A value is held until the next point: one more point adds the last value
/// times the seconds until it, and lengthens the span by those seconds. Before
/// there are two points nothing is held.
pub proof fn law_value_is_held_until_the_next(points: Seq<Point>, next: Point)
    requires
        in_time_order(points.push(next)),
        points.len() > 0,
    ensures
        mean_of(points.push(next)).numerator() == mean_of(points).numerator()
            + points.last().value.exact() * (next.at - points.last().at),
        mean_of(points.push(next)).denominator() == mean_of(points).denominator() + (next.at
            - points.last().at),
        mean_of(seq![next]).numerator() == 0,
        mean_of(seq![next]).denominator() == 0,
{
    let longer = points.push(next);
    lemma_holds_drop_last(longer);
    assert(longer.drop_last() =~= points);
    assert(longer[longer.len() - 2] == points.last());
    assert(holds_of(seq![next]) =~= Seq::empty());
}

/// A mean holds every point but the last, each with the seconds until the next
/// one, over the seconds from the first point to the last.
pub proof fn law_mean_holds_all_but_the_last(points: Seq<Point>)
    requires
        in_time_order(points),
        points.len() > 0,
    ensures
        mean_of(points) matches AggregateView::Mean { held, span } && held.len() == points.len()
            - 1 && span == points[points.len() - 1].at - points[0].at && (forall|i: int|
            0 <= i < points.len() - 1 ==> (#[trigger] held[i]).value == points[i].value
                && held[i].seconds == points[i + 1].at - points[i].at),
{
    assert forall|i: int| 0 <= i < points.len() - 1 implies (#[trigger] holds_of(points)[i]).seconds
        == points[i + 1].at - points[i].at by {
        assert(points[i].at < points[i + 1].at);
    }
}

/// The span from the first point to the last grows by what the next point
/// comes later, and one point spans nothing.
pub proof fn law_span_grows(points: Seq<Point>, next: Point)
    ensures
        span_of(Seq::<Point>::empty()) == 0,
        span_of(seq![next]) == 0,
        points.len() > 0 ==> span_of(points.push(next)) == span_of(points) + (next.at
            - points[points.len() - 1].at),
{
}

/// What an aggregate comes to follows from its operands alone: a mean adds up
/// value times seconds over its span, a sum adds up its values, and a rise is
/// the last value less the first.
pub proof fn law_operands_decide(
    held: Seq<Held>,
    one: Held,
    span: int,
    values: Seq<Binary64>,
    value: Binary64,
    first: Binary64,
    last: Binary64,
)
    ensures
        (AggregateView::Mean { held: held.push(one), span }).numerator() == (AggregateView::Mean {
            held,
            span,
        }).numerator() + one.value.exact() * one.seconds,
        (AggregateView::Mean { held: Seq::empty(), span }).numerator() == 0,
        (AggregateView::Mean { held, span }).denominator() == span,
        (AggregateView::Sum { values: values.push(value) }).numerator() == (AggregateView::Sum {
            values,
        }).numerator() + value.exact(),
        (AggregateView::Sum { values: Seq::empty() }).numerator() == 0,
        (AggregateView::Sum { values }).denominator() == 1,
        (AggregateView::Rise { first, last }).numerator() == last.exact() - first.exact(),
        (AggregateView::Rise { first, last }).denominator() == 1,
{
    assert(held.push(one).drop_last() =~= held);
    assert(values.push(value).drop_last() =~= values);
}

/// A rise is the last value less the first: nothing where the two are equal,
/// and rises that follow each other add up.
pub proof fn law_rises_add_up(points: Seq<Point>, i: int)
    requires
        0 <= i < points.len(),
    ensures
        rise_of(points).numerator() == points[points.len() - 1].value.exact()
            - points[0].value.exact(),
        rise_of(points).denominator() == 1,
        rise_of(points).numerator() == rise_of(points.take(i + 1)).numerator() + rise_of(
            points.skip(i),
        ).numerator(),
        rise_of(seq![points[i]]).numerator() == 0,
{
}

/// A rise holds the first point's value and the last point's.
pub proof fn law_rise_holds_its_ends(points: Seq<Point>)
    requires
        points.len() > 0,
    ensures
        rise_of(points) == (AggregateView::Rise {
            first: points[0].value,
            last: points[points.len() - 1].value,
        }),
{
}

/// Points fall where the last value is less than the first, and not where the
/// two are equal.
pub proof fn law_fall_is_a_fall(points: Seq<Point>)
    requires
        points.len() > 0,
        points[0].value.finite(),
        points[points.len() - 1].value.finite(),
    ensures
        falls(points) <==> points[points.len() - 1].value.exact() < points[0].value.exact(),
        falls(points) <==> rise_of(points).numerator() < 0,
{
}

/// An aggregate says the operands that it holds.
pub proof fn law_aggregate_says_its_operands(aggregate: Aggregate)
    ensures
        match aggregate {
            Aggregate::Mean { held, span } => aggregate@ == (AggregateView::Mean {
                held: held@,
                span: span as int,
            }),
            Aggregate::Sum { values } => aggregate@ == (AggregateView::Sum { values: values@ }),
            Aggregate::Rise { first, last } => aggregate@ == (AggregateView::Rise { first, last }),
        },
{
}

} // verus!
