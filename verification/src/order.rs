//! Stable ordering of events by their start minute.

use crate::types::Event;
use vstd::prelude::*;

verus! {

/// The first position in `events` whose event does not start before `start`;
/// the length of `events` if every event starts before it.
pub open spec fn first_not_earlier(events: Seq<Event>, start: u16) -> int
    decreases events.len(),
{
    if events.len() == 0 {
        0
    } else if events[0].starts_at >= start {
        0
    } else {
        1 + first_not_earlier(events.drop_first(), start)
    }
}

/// The events in ascending order of `starts_at`; events that start at the
/// same minute keep the order they have in `events`.
pub open spec fn sorted_by_start(events: Seq<Event>) -> Seq<Event>
    decreases events.len(),
{
    if events.len() == 0 {
        Seq::empty()
    } else {
        let rest = sorted_by_start(events.drop_first());
        rest.insert(first_not_earlier(rest, events[0].starts_at), events[0])
    }
}

/// For each position of `sorted_by_start(events)`, the position in `events`
/// of the event that stands there.
pub open spec fn sorted_order(events: Seq<Event>) -> Seq<int>
    decreases events.len(),
{
    if events.len() == 0 {
        Seq::empty()
    } else {
        let rest = sorted_by_start(events.drop_first());
        let order = sorted_order(events.drop_first());
        Seq::new(order.len(), |i: int| order[i] + 1).insert(
            first_not_earlier(rest, events[0].starts_at),
            0,
        )
    }
}

/// Event `a` of `events` comes before event `b` in the stable order: it starts
/// earlier, or at the same minute and stands earlier in `events`.
pub open spec fn stands_before(events: Seq<Event>, a: int, b: int) -> bool {
    events[a].starts_at < events[b].starts_at || (events[a].starts_at == events[b].starts_at && a
        < b)
}

/// Start minutes never decrease along `events`.
pub open spec fn ascending_starts(events: Seq<Event>) -> bool {
    forall|i: int, j: int|
        0 <= i <= j < events.len() ==> events[i].starts_at <= events[j].starts_at
}

/// `first_not_earlier` splits events that start before `start` from the rest.
pub proof fn lemma_first_not_earlier(events: Seq<Event>, start: u16)
    ensures
        0 <= first_not_earlier(events, start) <= events.len(),
        forall|j: int|
            0 <= j < first_not_earlier(events, start) ==> events[j].starts_at < start,
        first_not_earlier(events, start) < events.len() ==> events[first_not_earlier(
            events,
            start,
        )].starts_at >= start,
    decreases events.len(),
{
    if events.len() > 0 && events[0].starts_at < start {
        let tail = events.drop_first();
        lemma_first_not_earlier(tail, start);
        assert forall|j: int| 0 <= j < first_not_earlier(events, start) implies events[j].starts_at
            < start by {
            if j > 0 {
                assert(events[j] == tail[j - 1]);
            }
        }
        if first_not_earlier(events, start) < events.len() {
            let p = first_not_earlier(tail, start);
            assert(events[p + 1] == tail[p]);
        }
    }
}

/// A position that splits `events` as `first_not_earlier` does is that position.
pub proof fn lemma_first_not_earlier_is(events: Seq<Event>, start: u16, p: int)
    requires
        0 <= p <= events.len(),
        forall|j: int| 0 <= j < p ==> events[j].starts_at < start,
        p < events.len() ==> events[p].starts_at >= start,
    ensures
        first_not_earlier(events, start) == p,
{
    lemma_first_not_earlier(events, start);
    let q = first_not_earlier(events, start);
    if q < p {
        assert(events[q].starts_at < start);
    } else if p < q {
        assert(events[p].starts_at < start);
    }
}

/// What the stable order is: `sorted_by_start(events)` holds exactly the
/// events of `events`, each once, in ascending order of `starts_at`, and
/// events that start at the same minute stand in it as they stand in `events`.
pub proof fn lemma_sorted_by_start(events: Seq<Event>)
    ensures
        sorted_by_start(events).len() == events.len(),
        sorted_order(events).len() == events.len(),
        forall|i: int|
            0 <= i < events.len() ==> 0 <= #[trigger] sorted_order(events)[i] < events.len()
                && sorted_by_start(events)[i] == events[sorted_order(events)[i]],
        forall|i: int, j: int|
            0 <= i < j < events.len() ==> stands_before(
                events,
                #[trigger] sorted_order(events)[i],
                #[trigger] sorted_order(events)[j],
            ),
        forall|a: int| 0 <= a < events.len() ==> #[trigger] sorted_order(events).contains(a),
        ascending_starts(sorted_by_start(events)),
    decreases events.len(),
{
    if events.len() > 0 {
        let tail = events.drop_first();
        let rest = sorted_by_start(tail);
        let below = sorted_order(tail);
        let p = first_not_earlier(rest, events[0].starts_at);
        let sorted = sorted_by_start(events);
        let order = sorted_order(events);
        lemma_sorted_by_start(tail);
        lemma_first_not_earlier(rest, events[0].starts_at);
        let shifted = Seq::new(below.len(), |i: int| below[i] + 1);
        assert(order == shifted.insert(p, 0));
        assert(sorted == rest.insert(p, events[0]));
        assert forall|i: int| 0 <= i < events.len() implies 0 <= #[trigger] order[i] < events.len()
            && sorted[i] == events[order[i]] by {
            if i < p {
                assert(order[i] == below[i] + 1);
                assert(sorted[i] == rest[i]);
                assert(tail[below[i]] == events[below[i] + 1]);
            } else if i > p {
                assert(order[i] == below[i - 1] + 1);
                assert(sorted[i] == rest[i - 1]);
                assert(tail[below[i - 1]] == events[below[i - 1] + 1]);
            }
        }
        assert forall|i: int, j: int| 0 <= i < j < events.len() implies stands_before(
            events,
            #[trigger] order[i],
            #[trigger] order[j],
        ) by {
            let bi = if i < p { i } else { i - 1 };
            let bj = if j < p { j } else { j - 1 };
            if i != p {
                assert(order[i] == below[bi] + 1);
                assert(tail[below[bi]] == events[below[bi] + 1]);
                assert(rest[bi] == tail[below[bi]]);
            }
            if j != p {
                assert(order[j] == below[bj] + 1);
                assert(tail[below[bj]] == events[below[bj] + 1]);
                assert(rest[bj] == tail[below[bj]]);
            }
            if i != p && j != p {
                assert(stands_before(tail, below[bi], below[bj]));
            } else if i == p {
                assert(rest[p].starts_at >= events[0].starts_at);
                assert(rest[p].starts_at <= rest[bj].starts_at);
            } else {
                assert(rest[bi].starts_at < events[0].starts_at);
            }
        }
        assert forall|a: int| 0 <= a < events.len() implies #[trigger] order.contains(a) by {
            if a == 0 {
                assert(order[p] == 0);
            } else {
                assert(below.contains(a - 1));
                let k = choose|k: int| 0 <= k < below.len() && below[k] == a - 1;
                let i = if k < p { k } else { k + 1 };
                assert(order[i] == below[k] + 1);
            }
        }
        assert forall|i: int, j: int| 0 <= i <= j < sorted.len() implies sorted[i].starts_at
            <= sorted[j].starts_at by {
            if i < j {
                assert(stands_before(events, order[i], order[j]));
            }
        }
    }
}

/// Events that start at the same minute keep their order: of two such
/// events, the one that stands earlier in `events` stands earlier in
/// `sorted_by_start(events)`.
pub proof fn lemma_ties_keep_their_order(events: Seq<Event>, i: int, j: int)
    requires
        0 <= i < events.len(),
        0 <= j < events.len(),
        sorted_by_start(events)[i].starts_at == sorted_by_start(events)[j].starts_at,
        sorted_order(events)[i] < sorted_order(events)[j],
    ensures
        i < j,
{
    let order = sorted_order(events);
    lemma_sorted_by_start(events);
    assert(sorted_by_start(events)[i] == events[order[i]]);
    assert(sorted_by_start(events)[j] == events[order[j]]);
    if j < i {
        assert(stands_before(events, order[j], order[i]));
    }
}

/// Events that stand in ascending order of `starts_at` stay as they are.
pub proof fn lemma_sorted_stays(events: Seq<Event>)
    requires
        ascending_starts(events),
    ensures
        sorted_by_start(events) == events,
    decreases events.len(),
{
    if events.len() > 0 {
        let tail = events.drop_first();
        assert(ascending_starts(tail)) by {
            assert forall|i: int, j: int| 0 <= i <= j < tail.len() implies tail[i].starts_at
                <= tail[j].starts_at by {
                assert(tail[i] == events[i + 1] && tail[j] == events[j + 1]);
            }
        }
        lemma_sorted_stays(tail);
        if tail.len() > 0 {
            assert(tail[0] == events[1]);
        }
        assert(first_not_earlier(tail, events[0].starts_at) == 0);
        assert(tail.insert(0, events[0]) =~= events);
    } else {
        assert(sorted_by_start(events) =~= events);
    }
}

/// Sorting what is sorted changes nothing.
pub proof fn lemma_sorting_twice(events: Seq<Event>)
    ensures
        sorted_by_start(sorted_by_start(events)) == sorted_by_start(events),
{
    lemma_sorted_by_start(events);
    lemma_sorted_stays(sorted_by_start(events));
}

/// The position at which an event that starts at `start` enters `sorted`
/// ahead of those that start at the same minute.
fn insertion_point(sorted: &Vec<Event>, start: u16) -> (p: usize)
    ensures
        p == first_not_earlier(sorted@, start),
{
    let mut p: usize = 0;
    while p < sorted.len() && sorted[p].starts_at < start
        invariant
            p <= sorted.len(),
            forall|j: int| 0 <= j < p ==> sorted@[j].starts_at < start,
        decreases sorted.len() - p,
    {
        p += 1;
    }
    proof {
        lemma_first_not_earlier_is(sorted@, start, p as int);
    }
    p
}

/// Sorts the events by `starts_at`, smallest first, keeping the given order
/// among events that start at the same minute.
pub fn sort_by_start(events: Vec<Event>) -> (sorted: Vec<Event>)
    ensures
        sorted@ == sorted_by_start(events@),
{
    let ghost given = events@;
    let mut rest = events;
    let mut sorted: Vec<Event> = Vec::new();
    while rest.len() > 0
        invariant
            rest.len() <= given.len(),
            rest@ == given.subrange(0, rest.len() as int),
            sorted@ == sorted_by_start(given.subrange(rest.len() as int, given.len() as int)),
        decreases rest.len(),
    {
        let ghost k = rest.len() as int;
        let event = rest.pop().unwrap();
        let p = insertion_point(&sorted, event.starts_at);
        proof {
            let suffix = given.subrange(k - 1, given.len() as int);
            assert(suffix.drop_first() =~= given.subrange(k, given.len() as int));
            assert(suffix[0] == event);
            lemma_first_not_earlier(sorted@, event.starts_at);
            assert(rest@ =~= given.subrange(0, k - 1));
        }
        sorted.insert(p, event);
    }
    proof {
        assert(given.subrange(0, given.len() as int) =~= given);
    }
    sorted
}

} // verus!
