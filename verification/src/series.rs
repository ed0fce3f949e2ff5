//! One metric's points inside one interval.
//!
//! Two points at one instant are a feed that replayed, not a measurement that
//! happened twice: the later one in the feed's own order stands and the other
//! is discarded. What is left is one point per instant, in time order.

use vstd::prelude::*;
use vstd::seq_lib::{to_multiset_contains, to_multiset_remove};

use crate::binary64::Binary64;

verus! {

/// One value at one instant, in seconds since the Unix epoch.
#[derive(Debug, Clone, Copy, PartialEq)]
pub struct Point {
    /// The instant.
    pub at: i64,
    /// The value measured at it.
    pub value: Binary64,
}

/// Strictly ordered by instant.
pub open spec fn in_time_order(points: Seq<Point>) -> bool {
    forall|i: int, j: int|
        0 <= i < j < points.len() ==> (#[trigger] points[i]).at < (#[trigger] points[j]).at
}

/// `point` is in the feed, and nothing after it in the feed has its instant.
pub open spec fn stands(feed: Seq<Point>, point: Point) -> bool {
    exists|i: int|
        {
            &&& 0 <= i < feed.len()
            &&& #[trigger] feed[i] == point
            &&& forall|j: int| i < j < feed.len() ==> (#[trigger] feed[j]).at != point.at
        }
}

/// `kept` lists the points of the feed that stand, in time order.
pub open spec fn are_survivors(feed: Seq<Point>, kept: Seq<Point>) -> bool {
    &&& in_time_order(kept)
    &&& forall|point: Point| #[trigger] kept.contains(point) <==> stands(feed, point)
}

/// The points of a feed that stand, in time order: see [`law_survivors`].
pub open spec fn survivors(feed: Seq<Point>) -> Seq<Point> {
    choose|kept: Seq<Point>| are_survivors(feed, kept)
}

/// How many points of a feed are discarded.
pub open spec fn discarded(feed: Seq<Point>) -> int {
    feed.len() - survivors(feed).len()
}

/// How many points come before the instant.
spec fn is_slot(kept: Seq<Point>, at: i64, slot: int) -> bool {
    &&& 0 <= slot <= kept.len()
    &&& forall|i: int| 0 <= i < slot ==> (#[trigger] kept[i]).at < at
    &&& forall|i: int| slot <= i < kept.len() ==> at <= (#[trigger] kept[i]).at
}

/// A list with one more point in its place, in the stead of one at its
/// instant.
spec fn with_point(kept: Seq<Point>, slot: int, point: Point) -> Seq<Point> {
    if slot < kept.len() && kept[slot].at == point.at {
        kept.update(slot, point)
    } else {
        kept.insert(slot, point)
    }
}

proof fn lemma_slot_exists(kept: Seq<Point>, at: i64) -> (slot: int)
    requires
        in_time_order(kept),
    ensures
        is_slot(kept, at, slot),
    decreases kept.len(),
{
    if kept.len() == 0 || kept.last().at < at {
        kept.len() as int
    } else {
        let rest = kept.drop_last();
        let slot = lemma_slot_exists(rest, at);
        assert forall|i: int| 0 <= i < slot implies (#[trigger] kept[i]).at < at by {
            assert(rest[i] == kept[i]);
        }
        assert forall|i: int| slot <= i < kept.len() implies at <= (#[trigger] kept[i]).at by {
            if i < rest.len() {
                assert(rest[i] == kept[i]);
            }
        }
        slot
    }
}

proof fn lemma_stands_push(feed: Seq<Point>, next: Point, point: Point)
    ensures
        stands(feed.push(next), point) <==> point == next || (stands(feed, point) && point.at
            != next.at),
{
    let longer = feed.push(next);
    if point == next {
        assert(longer[feed.len() as int] == point);
    }
    if stands(longer, point) && point != next {
        let i = choose|i: int|
            {
                &&& 0 <= i < longer.len()
                &&& #[trigger] longer[i] == point
                &&& forall|j: int| i < j < longer.len() ==> (#[trigger] longer[j]).at != point.at
            };
        assert(longer[feed.len() as int] == next);
        assert(feed[i] == point);
        assert forall|j: int| i < j < feed.len() implies (#[trigger] feed[j]).at != point.at by {
            assert(longer[j] == feed[j]);
        }
    }
    if stands(feed, point) && point.at != next.at {
        let i = choose|i: int|
            {
                &&& 0 <= i < feed.len()
                &&& #[trigger] feed[i] == point
                &&& forall|j: int| i < j < feed.len() ==> (#[trigger] feed[j]).at != point.at
            };
        assert(longer[i] == point);
    }
}

proof fn lemma_with_point(feed: Seq<Point>, kept: Seq<Point>, slot: int, next: Point)
    requires
        are_survivors(feed, kept),
        is_slot(kept, next.at, slot),
    ensures
        are_survivors(feed.push(next), with_point(kept, slot, next)),
{
    let placed = with_point(kept, slot, next);
    assert(placed[slot] == next);
    if slot < kept.len() && kept[slot].at == next.at {
        assert forall|i: int, j: int| 0 <= i < j < placed.len() implies (#[trigger] placed[i]).at
            < (#[trigger] placed[j]).at by {
            assert(kept[i].at < kept[j].at);
        }
    } else {
        assert forall|i: int, j: int| 0 <= i < j < placed.len() implies (#[trigger] placed[i]).at
            < (#[trigger] placed[j]).at by {
            let a = if i < slot { i } else { i - 1 };
            let b = if j < slot { j } else { j - 1 };
            if i != slot {
                assert(placed[i] == kept[a]);
            }
            if j != slot {
                assert(placed[j] == kept[b]);
            }
            if slot < kept.len() {
                assert(kept[slot].at != next.at);
                if slot < b {
                    assert(kept[slot].at < kept[b].at);
                }
            }
        }
    }
    assert forall|point: Point| #[trigger] placed.contains(point) <==> stands(
        feed.push(next),
        point,
    ) by {
        lemma_stands_push(feed, next, point);
        if placed.contains(point) && point != next {
            let i = choose|i: int| 0 <= i < placed.len() && placed[i] == point;
            assert(i != slot);
            assert(placed[i].at != placed[slot].at);
            if slot < kept.len() && kept[slot].at == next.at {
                assert(kept[i] == point);
            } else {
                assert(kept[if i < slot { i } else { i - 1 }] == point);
            }
            assert(kept.contains(point));
        }
        if kept.contains(point) && point.at != next.at {
            let i = choose|i: int| 0 <= i < kept.len() && kept[i] == point;
            if slot < kept.len() && kept[slot].at == next.at {
                assert(placed[i] == point);
            } else {
                assert(placed[if i < slot { i } else { i + 1 }] == point);
            }
        }
        assert(kept.contains(point) <==> stands(feed, point));
    }
}

proof fn lemma_survivors_exist(feed: Seq<Point>) -> (kept: Seq<Point>)
    ensures
        are_survivors(feed, kept),
        kept.len() <= feed.len(),
        feed.len() > 0 ==> kept.len() > 0,
    decreases feed.len(),
{
    if feed.len() == 0 {
        Seq::empty()
    } else {
        let rest = lemma_survivors_exist(feed.drop_last());
        let slot = lemma_slot_exists(rest, feed.last().at);
        lemma_with_point(feed.drop_last(), rest, slot, feed.last());
        assert(feed.drop_last().push(feed.last()) =~= feed);
        with_point(rest, slot, feed.last())
    }
}

/// Two lists in time order of the same points are one list.
proof fn lemma_same_points(a: Seq<Point>, b: Seq<Point>)
    requires
        in_time_order(a),
        in_time_order(b),
        forall|point: Point| #[trigger] a.contains(point) <==> b.contains(point),
    ensures
        a == b,
    decreases a.len(),
{
    if a.len() == 0 {
        if b.len() > 0 {
            assert(b.contains(b[0]));
            assert(!a.contains(b[0]));
        }
        assert(a =~= b);
    } else {
        assert(a.contains(a.last()));
        assert(b.len() > 0);
        let i = choose|i: int| 0 <= i < b.len() && b[i] == a.last();
        assert(b.contains(b.last()));
        assert(a.contains(b.last()));
        let j = choose|j: int| 0 <= j < a.len() && a[j] == b.last();
        assert(a.last() == b.last()) by {
            if i < b.len() - 1 && j < a.len() - 1 {
                assert(b[i].at < b[b.len() - 1].at);
                assert(a[j].at < a[a.len() - 1].at);
            }
        }
        let (x, y) = (a.drop_last(), b.drop_last());
        assert forall|point: Point| #[trigger] x.contains(point) <==> y.contains(point) by {
            if x.contains(point) {
                let k = choose|k: int| 0 <= k < x.len() && x[k] == point;
                assert(a[k] == point);
                assert(a.contains(point));
                assert(b.contains(point));
                let l = choose|l: int| 0 <= l < b.len() && b[l] == point;
                assert(a[k].at < a[a.len() - 1].at);
                assert(l < b.len() - 1);
                assert(y[l] == point);
            }
            if y.contains(point) {
                let k = choose|k: int| 0 <= k < y.len() && y[k] == point;
                assert(b[k] == point);
                assert(b.contains(point));
                assert(a.contains(point));
                let l = choose|l: int| 0 <= l < a.len() && a[l] == point;
                assert(b[k].at < b[b.len() - 1].at);
                assert(l < a.len() - 1);
                assert(x[l] == point);
            }
        }
        lemma_same_points(x, y);
        assert(a =~= x.push(a.last()));
        assert(b =~= y.push(b.last()));
    }
}

/// Every feed has survivors, and they are one list.
pub proof fn law_survivors(feed: Seq<Point>)
    ensures
        are_survivors(feed, survivors(feed)),
        forall|kept: Seq<Point>| #[trigger]
            are_survivors(feed, kept) ==> kept == survivors(feed),
        survivors(feed).len() <= feed.len(),
        feed.len() > 0 ==> survivors(feed).len() > 0,
{
    let witness = lemma_survivors_exist(feed);
    let chosen = survivors(feed);
    assert forall|kept: Seq<Point>| #[trigger] are_survivors(feed, kept) implies kept
        == chosen by {
        assert forall|point: Point| #[trigger] kept.contains(point) <==> chosen.contains(point) by {
            assert(kept.contains(point) <==> stands(feed, point));
            assert(chosen.contains(point) <==> stands(feed, point));
        }
        lemma_same_points(kept, chosen);
    }
    assert(witness == chosen);
}

/// A point survives exactly when nothing after it in the feed has its
/// instant.
pub proof fn law_survivor_stands(feed: Seq<Point>, point: Point)
    ensures
        survivors(feed).contains(point) <==> stands(feed, point),
{
    law_survivors(feed);
}

/// The newest point of a feed always stands, it displaces whatever stood at
/// its instant, and it touches no other instant.
pub proof fn law_latest_wins(feed: Seq<Point>, next: Point)
    ensures
        survivors(feed.push(next)).contains(next),
        forall|point: Point|
            point != next ==> (#[trigger] survivors(feed.push(next)).contains(point) <==> (
            survivors(feed).contains(point) && point.at != next.at)),
{
    law_survivors(feed);
    law_survivors(feed.push(next));
    lemma_stands_push(feed, next, next);
    assert forall|point: Point| point != next implies (#[trigger] survivors(
        feed.push(next),
    ).contains(point) <==> (survivors(feed).contains(point) && point.at != next.at)) by {
        lemma_stands_push(feed, next, point);
        assert(survivors(feed).contains(point) <==> stands(feed, point));
    }
}

/// A point at an instant that the feed has already is one more discard, and a
/// point at a new instant is one more survivor.
pub proof fn law_discards_count_replays(feed: Seq<Point>, next: Point)
    ensures
        discarded(feed) >= 0,
        discarded(feed.push(next)) == discarded(feed) + if (exists|i: int|
            0 <= i < feed.len() && (#[trigger] feed[i]).at == next.at) {
            1int
        } else {
            0int
        },
{
    law_survivors(feed);
    law_survivors(feed.push(next));
    let kept = survivors(feed);
    let slot = lemma_slot_exists(kept, next.at);
    lemma_with_point(feed, kept, slot, next);
    if exists|i: int| 0 <= i < feed.len() && (#[trigger] feed[i]).at == next.at {
        let i = choose|i: int| 0 <= i < feed.len() && (#[trigger] feed[i]).at == next.at;
        let point = lemma_instant_stands(feed, i);
        assert(kept.contains(point));
        let k = choose|k: int| 0 <= k < kept.len() && kept[k] == point;
        assert(kept[k].at == next.at);
        assert(k == slot) by {
            if slot < k {
                assert(kept[slot].at < kept[k].at);
            }
        }
    } else if slot < kept.len() {
        assert(kept.contains(kept[slot]));
        assert(stands(feed, kept[slot]));
    }
}

/// Some point stands at every instant of a feed.
proof fn lemma_instant_stands(feed: Seq<Point>, i: int) -> (point: Point)
    requires
        0 <= i < feed.len(),
    ensures
        stands(feed, point),
        point.at == feed[i].at,
    decreases feed.len() - i,
{
    if exists|j: int| i < j < feed.len() && (#[trigger] feed[j]).at == feed[i].at {
        let j = choose|j: int| i < j < feed.len() && (#[trigger] feed[j]).at == feed[i].at;
        lemma_instant_stands(feed, j)
    } else {
        assert(stands(feed, feed[i]));
        feed[i]
    }
}

/// Feeds in which the same points stand have the same survivors.
pub proof fn law_only_standing_points_matter(a: Seq<Point>, b: Seq<Point>)
    requires
        forall|point: Point| #[trigger] stands(a, point) <==> stands(b, point),
    ensures
        survivors(a) == survivors(b),
{
    law_survivors(a);
    law_survivors(b);
    let kept = survivors(a);
    assert forall|point: Point| #[trigger] kept.contains(point) <==> stands(b, point) by {
        assert(kept.contains(point) <==> stands(a, point));
    }
    assert(are_survivors(b, kept));
}

/// A feed that is sent twice aligns as it did the first time, and every point
/// of the second sending counts as a discard.
pub proof fn law_replay_changes_nothing(feed: Seq<Point>)
    ensures
        survivors(feed + feed) == survivors(feed),
        discarded(feed + feed) == discarded(feed) + feed.len(),
{
    let twice = feed + feed;
    let n = feed.len() as int;
    assert forall|point: Point| #[trigger] stands(twice, point) <==> stands(feed, point) by {
        if stands(twice, point) {
            let i = choose|i: int|
                {
                    &&& 0 <= i < twice.len()
                    &&& #[trigger] twice[i] == point
                    &&& forall|j: int| i < j < twice.len() ==> (#[trigger] twice[j]).at != point.at
                };
            if i < n {
                assert(twice[i + n] == feed[i]);
            } else {
                assert(feed[i - n] == point);
                assert forall|j: int| i - n < j < n implies (#[trigger] feed[j]).at
                    != point.at by {
                    assert(twice[j + n] == feed[j]);
                }
            }
        }
        if stands(feed, point) {
            let i = choose|i: int|
                {
                    &&& 0 <= i < feed.len()
                    &&& #[trigger] feed[i] == point
                    &&& forall|j: int| i < j < feed.len() ==> (#[trigger] feed[j]).at != point.at
                };
            assert(twice[i + n] == point);
            assert forall|j: int| i + n < j < twice.len() implies (#[trigger] twice[j]).at
                != point.at by {
                assert(twice[j] == feed[j - n]);
            }
        }
    }
    law_only_standing_points_matter(twice, feed);
}

/// The order in which points of different instants arrive does not matter:
/// two neighbours may trade places.
pub proof fn law_arrival_order_is_free(feed: Seq<Point>, i: int)
    requires
        0 <= i < feed.len() - 1,
        feed[i].at != feed[i + 1].at,
    ensures
        survivors(feed.update(i, feed[i + 1]).update(i + 1, feed[i])) == survivors(feed),
{
    let traded = feed.update(i, feed[i + 1]).update(i + 1, feed[i]);
    assert(feed =~= traded.update(i, traded[i + 1]).update(i + 1, traded[i]));
    assert forall|point: Point| #[trigger] stands(traded, point) <==> stands(feed, point) by {
        if stands(feed, point) {
            lemma_stands_traded(feed, i, point);
        }
        if stands(traded, point) {
            lemma_stands_traded(traded, i, point);
        }
    }
    law_only_standing_points_matter(traded, feed);
}

/// No instant comes twice.
pub open spec fn unreplayed(feed: Seq<Point>) -> bool {
    forall|i: int, j: int|
        0 <= i < j < feed.len() ==> (#[trigger] feed[i]).at != (#[trigger] feed[j]).at
}

/// A feed without a replay keeps all its points.
pub proof fn law_without_replay_nothing_is_discarded(feed: Seq<Point>)
    requires
        unreplayed(feed),
    ensures
        discarded(feed) == 0,
        forall|point: Point| #[trigger] stands(feed, point) <==> feed.contains(point),
    decreases feed.len(),
{
    assert forall|point: Point| #[trigger] stands(feed, point) <==> feed.contains(point) by {
        if feed.contains(point) {
            let i = choose|i: int| 0 <= i < feed.len() && feed[i] == point;
            assert forall|j: int| i < j < feed.len() implies (#[trigger] feed[j]).at
                != point.at by {
                assert(feed[i].at != feed[j].at);
            }
        }
    }
    law_survivors(feed);
    if feed.len() > 0 {
        let rest = feed.drop_last();
        assert forall|i: int, j: int| 0 <= i < j < rest.len() implies (#[trigger] rest[i]).at != (
        #[trigger] rest[j]).at by {
            assert(feed[i].at != feed[j].at);
        }
        law_without_replay_nothing_is_discarded(rest);
        assert forall|i: int| 0 <= i < rest.len() implies (#[trigger] rest[i]).at
            != feed.last().at by {
            assert(feed[i].at != feed[feed.len() - 1].at);
        }
        law_discards_count_replays(rest, feed.last());
        assert(rest.push(feed.last()) =~= feed);
    }
}

/// Feeds of the same points without a replay have the same survivors, in
/// whatever order the points came.
pub proof fn law_any_order_survives_the_same(a: Seq<Point>, b: Seq<Point>)
    requires
        unreplayed(a),
        unreplayed(b),
        forall|point: Point| #[trigger] a.contains(point) <==> b.contains(point),
    ensures
        survivors(a) == survivors(b),
        discarded(a) == discarded(b),
{
    law_without_replay_nothing_is_discarded(a);
    law_without_replay_nothing_is_discarded(b);
    assert forall|point: Point| #[trigger] stands(a, point) <==> stands(b, point) by {
        assert(a.contains(point) <==> b.contains(point));
    }
    law_only_standing_points_matter(a, b);
}

/// What stands at one place in a list stands at some place in each of its
/// rearrangements.
pub proof fn lemma_found<A>(a: Seq<A>, b: Seq<A>, i: int) -> (k: int)
    requires
        a.to_multiset() == b.to_multiset(),
        0 <= i < b.len(),
    ensures
        0 <= k < a.len(),
        a[k] == b[i],
{
    to_multiset_contains(b, b[i]);
    assert(b.contains(b[i]));
    to_multiset_contains(a, b[i]);
    choose|k: int| 0 <= k < a.len() && a[k] == b[i]
}

/// What stands at two places in a list stands at two places in each of its
/// rearrangements.
pub proof fn lemma_found_apart<A>(a: Seq<A>, b: Seq<A>, i: int, j: int) -> (places: (int, int))
    requires
        a.to_multiset() == b.to_multiset(),
        0 <= i < b.len(),
        0 <= j < b.len(),
        i != j,
    ensures
        0 <= places.0 < a.len(),
        0 <= places.1 < a.len(),
        places.0 != places.1,
        a[places.0] == b[i],
        a[places.1] == b[j],
{
    let k = lemma_found(a, b, i);
    to_multiset_remove(a, k);
    to_multiset_remove(b, i);
    let (x, y) = (a.remove(k), b.remove(i));
    assert(y[if j < i { j } else { j - 1 }] == b[j]);
    let l = lemma_found(x, y, if j < i { j } else { j - 1 });
    if l < k {
        assert(x[l] == a[l]);
        (k, l)
    } else {
        assert(x[l] == a[l + 1]);
        (k, l + 1)
    }
}

proof fn lemma_stands_traded(feed: Seq<Point>, i: int, point: Point)
    requires
        0 <= i < feed.len() - 1,
        feed[i].at != feed[i + 1].at,
        stands(feed, point),
    ensures
        stands(feed.update(i, feed[i + 1]).update(i + 1, feed[i]), point),
{
    let traded = feed.update(i, feed[i + 1]).update(i + 1, feed[i]);
    let k = choose|k: int|
        {
            &&& 0 <= k < feed.len()
            &&& #[trigger] feed[k] == point
            &&& forall|j: int| k < j < feed.len() ==> (#[trigger] feed[j]).at != point.at
        };
    let m = if k == i {
        i + 1
    } else if k == i + 1 {
        i
    } else {
        k
    };
    assert(traded[m] == point);
    assert forall|j: int| m < j < traded.len() implies (#[trigger] traded[j]).at != point.at by {
        if j == i {
            assert(traded[j] == feed[i + 1]);
        } else if j == i + 1 {
            assert(traded[j] == feed[i]);
        } else {
            assert(traded[j] == feed[j]);
        }
    }
}

/// How many points of `kept` come before `at`.
fn slot_of(kept: &Vec<Point>, at: i64) -> (slot: usize)
    requires
        in_time_order(kept@),
    ensures
        is_slot(kept@, at, slot as int),
{
    let mut low: usize = 0;
    let mut high: usize = kept.len();
    while low < high
        invariant
            low <= high <= kept.len(),
            in_time_order(kept@),
            forall|i: int| 0 <= i < low ==> (#[trigger] kept@[i]).at < at,
            forall|i: int| high <= i < kept.len() ==> at <= (#[trigger] kept@[i]).at,
        decreases high - low,
    {
        let middle: usize = low + (high - low) / 2;
        if kept[middle].at < at {
            assert forall|i: int| 0 <= i < middle + 1 implies (#[trigger] kept@[i]).at < at by {
                if i < middle {
                    assert(kept@[i].at < kept@[middle as int].at);
                }
            }
            low = middle + 1;
        } else {
            assert forall|i: int| middle <= i < kept.len() implies at <= (
            #[trigger] kept@[i]).at by {
                if middle < i {
                    assert(kept@[middle as int].at < kept@[i].at);
                }
            }
            high = middle;
        }
    }
    low
}

/// One point per instant, the later one in the feed's order standing, and how
/// many were discarded.
pub fn deduped(feed: &[Point]) -> (out: (Vec<Point>, u32))
    requires
        discarded(feed@) <= u32::MAX,
    ensures
        out.0@ == survivors(feed@),
        out.1 == discarded(feed@),
{
    let mut kept: Vec<Point> = Vec::new();
    let mut i: usize = 0;
    while i < feed.len()
        invariant
            i <= feed.len(),
            kept.len() <= i,
            are_survivors(feed@.take(i as int), kept@),
        decreases feed.len() - i,
    {
        let next: Point = feed[i];
        let slot: usize = slot_of(&kept, next.at);
        proof {
            lemma_with_point(feed@.take(i as int), kept@, slot as int, next);
            assert(feed@.take(i + 1) =~= feed@.take(i as int).push(next));
        }
        if slot < kept.len() && kept[slot].at == next.at {
            kept.set(slot, next);
        } else {
            kept.insert(slot, next);
        }
        i = i + 1;
    }
    proof {
        assert(feed@.take(i as int) =~= feed@);
        law_survivors(feed@);
    }
    let dupes: u32 = (feed.len() - kept.len()) as u32;
    (kept, dupes)
}

/// Survivors come one per instant, the earlier before the later, and each is a
/// point of the feed.
pub proof fn law_survivors_ascend(feed: Seq<Point>, i: int, j: int)
    requires
        0 <= i < j < survivors(feed).len(),
    ensures
        survivors(feed)[i].at < survivors(feed)[j].at,
        feed.contains(survivors(feed)[i]),
        feed.contains(survivors(feed)[j]),
{
    law_survivors(feed);
    assert(survivors(feed).contains(survivors(feed)[i]));
    assert(survivors(feed).contains(survivors(feed)[j]));
    assert(stands(feed, survivors(feed)[i]));
    assert(stands(feed, survivors(feed)[j]));
}

/// Of no points nothing survives and nothing is discarded, and of one point
/// the point survives.
pub proof fn law_small_feeds(point: Point)
    ensures
        survivors(Seq::<Point>::empty()) == Seq::<Point>::empty(),
        discarded(Seq::<Point>::empty()) == 0,
        survivors(seq![point]) == seq![point],
        discarded(seq![point]) == 0,
{
    let nothing = Seq::<Point>::empty();
    law_survivors(nothing);
    law_survivors(seq![point]);
    law_latest_wins(nothing, point);
    assert(nothing.push(point) =~= seq![point]);
    let kept = survivors(seq![point]);
    assert(kept.contains(point));
    assert(kept =~= seq![point]);
    assert(survivors(nothing) =~= nothing);
}

/// Every point of a feed survives or is discarded.
pub proof fn law_survivors_and_discards_make_the_feed(feed: Seq<Point>)
    ensures
        survivors(feed).len() + discarded(feed) == feed.len(),
        0 <= discarded(feed) <= feed.len(),
{
    law_survivors(feed);
}

} // verus!
