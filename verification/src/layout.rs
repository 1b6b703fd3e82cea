//! The layout as a whole: from the events to their positions, and what holds
//! of it.

use crate::matrix::{
    band_views, bands_of, build, event_of, knows_id, needs_new_band, no_band_empty, place, sweep,
    walk,
};
use crate::order::{lemma_sorted_by_start, sorted_by_start, sorted_order, stands_before};
use crate::positions::{
    band_width, bands_fit, calculate, cluster_bands_meet_widest, cluster_of_bands, distinct_ids,
    is_placed, lemma_cluster_width, lemma_positions_of, lemma_widest_sharing_bounds,
    lemma_widest_sharing_own, positions_of, seated, seated_at, touches,
};
use crate::bands::{
    among_first, holds_id, lemma_event_of_unique, lemma_sweep, lemma_sweep_members_overlap,
    members_overlap,
};
use crate::types::{lasting, unique_ids, Event, EventPosition};
use vstd::prelude::*;

verus! {

/// The positions of the events: those of the bands that the events form.
pub open spec fn layout_of(events: Seq<Event>) -> Seq<EventPosition> {
    positions_of(bands_of(events))
}

/// Lays the events out: groups them into bands and gives each its position.
pub fn layout(events: Vec<Event>) -> (positions: Vec<EventPosition>)
    ensures
        positions@ == layout_of(events@),
        forall|k: int| 0 <= k < positions.len() ==> (#[trigger] positions@[k]).columns >= 1,
{
    calculate(build(events))
}

/// No two events overlap.
pub open spec fn none_overlap(events: Seq<Event>) -> bool {
    forall|i: int, j: int|
        #![trigger events[i], events[j]]
        0 <= i < events.len() && 0 <= j < events.len() && i != j ==> !events[i].overlaps(events[j])
}

/// Sorting keeps the identifiers: the sorted events have the identifiers of
/// the given ones, and unique ones if those are unique.
pub proof fn lemma_sorted_ids(events: Seq<Event>)
    ensures
        forall|id: u16| knows_id(sorted_by_start(events), id) <==> knows_id(events, id),
        unique_ids(events) ==> unique_ids(sorted_by_start(events)),
        none_overlap(events) ==> none_overlap(sorted_by_start(events)),
{
    let sorted = sorted_by_start(events);
    let order = sorted_order(events);
    lemma_sorted_by_start(events);
    assert forall|id: u16| knows_id(sorted, id) <==> knows_id(events, id) by {
        if knows_id(sorted, id) {
            let i = choose|i: int| 0 <= i < sorted.len() && #[trigger] sorted[i].id == id;
            assert(sorted[i] == events[order[i]]);
            assert(events[order[i]].id == id);
        }
        if knows_id(events, id) {
            let a = choose|a: int| 0 <= a < events.len() && #[trigger] events[a].id == id;
            assert(order.contains(a));
            let i = choose|i: int| 0 <= i < order.len() && order[i] == a;
            assert(sorted[i] == events[order[i]]);
            assert(sorted[i].id == id);
        }
    }
    assert forall|i: int, j: int| 0 <= i < j < sorted.len() implies order[i] != order[j] by {
        assert(stands_before(events, order[i], order[j]));
    }
    if unique_ids(events) {
        assert forall|i: int, j: int|
            #![trigger sorted[i], sorted[j]]
            0 <= i < j < sorted.len() implies sorted[i].id != sorted[j].id by {
            assert(sorted[i] == events[order[i]]);
            assert(sorted[j] == events[order[j]]);
            if order[i] < order[j] {
                assert(events[order[i]].id != events[order[j]].id);
            } else {
                assert(events[order[j]].id != events[order[i]].id);
            }
        }
    }
    if none_overlap(events) {
        assert forall|i: int, j: int|
            #![trigger sorted[i], sorted[j]]
            0 <= i < sorted.len() && 0 <= j < sorted.len() && i != j implies !sorted[i].overlaps(
            sorted[j],
        ) by {
            assert(sorted[i] == events[order[i]]);
            assert(sorted[j] == events[order[j]]);
            if i < j {
                assert(order[i] != order[j]);
            } else {
                assert(order[j] != order[i]);
            }
            assert(!events[order[i]].overlaps(events[order[j]]));
        }
    }
}

/// The bands of events with unique identifiers hold the identifier of every
/// event and no other, and none of the bands is empty.
pub proof fn lemma_bands_hold_each_event(events: Seq<Event>)
    requires
        unique_ids(events),
    ensures
        forall|i: int|
            0 <= i < events.len() ==> #[trigger] holds_id(bands_of(events), events[i].id),
        forall|b: int, j: int|
            0 <= b < bands_of(events).len() && 0 <= j < bands_of(events)[b].len() ==> knows_id(
                events,
                #[trigger] bands_of(events)[b][j],
            ),
        no_band_empty(bands_of(events)),
{
    let sorted = sorted_by_start(events);
    let bands = bands_of(events);
    lemma_sorted_by_start(events);
    lemma_sorted_ids(events);
    lemma_sweep(sorted, sorted.len() as int);
    assert forall|i: int| 0 <= i < events.len() implies #[trigger] holds_id(
        bands,
        events[i].id,
    ) by {
        assert(knows_id(events, events[i].id));
        assert(knows_id(sorted, events[i].id));
        let k = choose|k: int| 0 <= k < sorted.len() && #[trigger] sorted[k].id == events[i].id;
        assert(holds_id(bands, sorted[k].id));
    }
    assert forall|b: int, j: int| 0 <= b < bands.len() && 0 <= j < bands[b].len() implies knows_id(
        events,
        #[trigger] bands[b][j],
    ) by {
        assert(among_first(sorted, sorted.len() as int, bands[b][j]));
        let k = choose|k: int|
            0 <= k < sorted.len() && k < sorted.len() && #[trigger] sorted[k].id == bands[b][j];
        assert(knows_id(sorted, bands[b][j]));
    }
}

/// Every event gets exactly one position: where the events have unique
/// identifiers, each identifier has a position, no position is for an
/// identifier that no event has, no two positions are for the same
/// identifier, and there are as many positions as events.
pub proof fn lemma_each_event_has_one_position(events: Seq<Event>)
    requires
        unique_ids(events),
    ensures
        forall|i: int|
            0 <= i < events.len() ==> #[trigger] is_placed(layout_of(events), events[i].id),
        forall|k: int|
            0 <= k < layout_of(events).len() ==> #[trigger] knows_id(
                events,
                layout_of(events)[k].id,
            ),
        distinct_ids(layout_of(events)),
        layout_of(events).len() == events.len(),
{
    let bands = bands_of(events);
    let positions = layout_of(events);
    lemma_bands_hold_each_event(events);
    lemma_positions_of(bands);
    assert forall|i: int| 0 <= i < events.len() implies #[trigger] is_placed(
        positions,
        events[i].id,
    ) by {
        assert(holds_id(bands, events[i].id));
        let b = choose|b: int| 0 <= b < bands.len() && (#[trigger] bands[b]).contains(events[i].id);
        let j = choose|j: int| 0 <= j < bands[b].len() && bands[b][j] == events[i].id;
        assert(is_placed(positions, bands[b][j]));
    }
    assert forall|k: int| 0 <= k < positions.len() implies #[trigger] knows_id(
        events,
        positions[k].id,
    ) by {
        assert(seated(bands, positions[k], bands.len() as int));
        let (b, j) = choose|b: int, j: int|
            0 <= b < bands.len() && #[trigger] seated_at(bands, positions[k], b, j);
        assert(knows_id(events, bands[b][j]));
    }
    let event_ids = events.map_values(|e: Event| e.id);
    let position_ids = positions.map_values(|p: EventPosition| p.id);
    assert(event_ids.no_duplicates()) by {
        assert forall|i: int, j: int|
            0 <= i < event_ids.len() && 0 <= j < event_ids.len() && i != j implies event_ids[i]
            != event_ids[j] by {
            if i < j {
                assert(events[i].id != events[j].id);
            } else {
                assert(events[j].id != events[i].id);
            }
        }
    }
    assert(position_ids.no_duplicates()) by {
        assert forall|i: int, j: int|
            0 <= i < position_ids.len() && 0 <= j < position_ids.len() && i != j implies
                position_ids[i]
            != position_ids[j] by {
            if i < j {
                assert(positions[i].id != positions[j].id);
            } else {
                assert(positions[j].id != positions[i].id);
            }
        }
    }
    assert(event_ids.to_set() =~= position_ids.to_set()) by {
        assert forall|id: u16| event_ids.to_set().contains(id) <==> position_ids.to_set().contains(
            id,
        ) by {
            if event_ids.to_set().contains(id) {
                let i = choose|i: int| 0 <= i < event_ids.len() && event_ids[i] == id;
                assert(is_placed(positions, events[i].id));
                let k = choose|k: int| 0 <= k < positions.len() && #[trigger] positions[k].id == id;
                assert(position_ids[k] == id);
            }
            if position_ids.to_set().contains(id) {
                let k = choose|k: int| 0 <= k < position_ids.len() && position_ids[k] == id;
                assert(knows_id(events, positions[k].id));
                let i = choose|i: int| 0 <= i < events.len() && #[trigger] events[i].id == id;
                assert(event_ids[i] == id);
            }
        }
    }
    event_ids.unique_seq_to_set();
    position_ids.unique_seq_to_set();
}

/// One band for each of the first `n` events, with that event alone.
pub open spec fn single_bands(events: Seq<Event>, n: int) -> Seq<Seq<u16>> {
    Seq::new(n as nat, |k: int| seq![events[k].id])
}

proof fn lemma_sweep_apart(sorted: Seq<Event>, n: int)
    requires
        unique_ids(sorted),
        none_overlap(sorted),
        0 <= n <= sorted.len(),
    ensures
        sweep(sorted, n) == single_bands(sorted, n),
    decreases n,
{
    if n <= 0 {
        assert(sweep(sorted, n) =~= single_bands(sorted, n));
    } else {
        lemma_sweep_apart(sorted, n - 1);
        let so_far = sweep(sorted, n - 1);
        let event = sorted[n - 1];
        if n == 1 {
            assert(place(so_far, event, sorted) =~= single_bands(sorted, n));
        } else {
            let last = so_far.last();
            assert(last == seq![sorted[n - 2].id]);
            lemma_event_of_unique(sorted, n - 2);
            assert(!event.overlaps(event_of(sorted, last[0])));
            assert(needs_new_band(event, last, sorted));
            let grown = so_far.push(Seq::empty());
            let prev = grown[grown.len() - 2];
            assert(prev == last);
            let empty = Seq::<u16>::empty();
            assert(walk(prev, 0, empty, event, sorted) == (empty, false));
            assert(walk(prev, 1, empty, event, sorted) == (empty.push(event.id), true));
            assert(place(so_far, event, sorted) == grown.update(
                grown.len() - 1,
                empty.push(event.id),
            ));
            assert(place(so_far, event, sorted) =~= single_bands(sorted, n)) by {
                assert(empty.push(event.id) =~= seq![event.id]);
            }
        }
    }
}

/// Events of which no two overlap each take the whole width: every one
/// stands alone in a band of its own, and its position has one column and
/// the offset 0.
pub proof fn lemma_apart_events_take_the_width(events: Seq<Event>)
    requires
        unique_ids(events),
        none_overlap(events),
    ensures
        bands_of(events) == single_bands(sorted_by_start(events), events.len() as int),
        forall|k: int|
            0 <= k < layout_of(events).len() ==> (#[trigger] layout_of(events)[k]).columns == 1
                && layout_of(events)[k].offset == 0,
{
    let sorted = sorted_by_start(events);
    let bands = bands_of(events);
    let positions = layout_of(events);
    lemma_sorted_by_start(events);
    lemma_sorted_ids(events);
    lemma_sweep_apart(sorted, sorted.len() as int);
    lemma_positions_of(bands);
    assert forall|k: int| 0 <= k < positions.len() implies (#[trigger] positions[k]).columns == 1
        && positions[k].offset == 0 by {
        assert(seated(bands, positions[k], bands.len() as int));
        let (b, j) = choose|b: int, j: int|
            0 <= b < bands.len() && #[trigger] seated_at(bands, positions[k], b, j);
        assert(bands[b].len() == 1);
        lemma_widest_sharing_own(bands, b, bands.len() as int);
        lemma_widest_sharing_bounds(bands, b, bands.len() as int, 1);
        assert(band_width(bands, b) == 1);
    }
}

/// The layout is a function of the events: two runs on the same events give
/// the same bands and the same positions.
pub proof fn lemma_same_events_same_layout(
    events: Seq<Event>,
    first_bands: Seq<Vec<u16>>,
    first: Seq<EventPosition>,
    second_bands: Seq<Vec<u16>>,
    second: Seq<EventPosition>,
)
    requires
        band_views(first_bands) == bands_of(events),
        first == positions_of(band_views(first_bands)),
        band_views(second_bands) == bands_of(events),
        second == positions_of(band_views(second_bands)),
    ensures
        first_bands.len() == second_bands.len(),
        forall|b: int|
            0 <= b < first_bands.len() ==> (#[trigger] first_bands[b])@ == second_bands[b]@,
        first == second,
        first == layout_of(events),
{
    assert(band_views(first_bands).len() == band_views(second_bands).len());
    assert forall|b: int| 0 <= b < first_bands.len() implies (#[trigger] first_bands[b])@
        == second_bands[b]@ by {
        assert(band_views(first_bands)[b] == band_views(second_bands)[b]);
    }
}

/// The cluster is closed under overlap: an event that overlaps an event of
/// the cluster is in the cluster too.
pub open spec fn cluster_of_events(events: Seq<Event>, cluster: Set<u16>) -> bool {
    forall|i: int, j: int|
        0 <= i < events.len() && 0 <= j < events.len() && cluster.contains(
            (#[trigger] events[i]).id,
        ) && events[i].overlaps(#[trigger] events[j]) ==> cluster.contains(events[j].id)
}

/// Sorting keeps the event of each identifier, where identifiers are unique.
pub proof fn lemma_sorted_event_of(events: Seq<Event>, i: int)
    requires
        unique_ids(events),
        0 <= i < events.len(),
    ensures
        event_of(sorted_by_start(events), events[i].id) == events[i],
{
    let sorted = sorted_by_start(events);
    let order = sorted_order(events);
    lemma_sorted_by_start(events);
    lemma_sorted_ids(events);
    assert(order.contains(i));
    let k = choose|k: int| 0 <= k < order.len() && order[k] == i;
    assert(sorted[k] == events[order[k]]);
    lemma_event_of_unique(sorted, k);
}

/// Among events that last, take a cluster: a set of events that holds every
/// event that overlaps one of its own. Where every band that holds an event
/// of the cluster shares an event with a longest of these bands, all events
/// of the cluster get the same share of the width: one column of as many as
/// the longest band that holds an event of the cluster has members.
pub proof fn lemma_overlap_cluster_width(events: Seq<Event>, cluster: Set<u16>, k: int)
    requires
        unique_ids(events),
        lasting(events),
        cluster_of_events(events, cluster),
        cluster_bands_meet_widest(bands_of(events), cluster),
        bands_fit(bands_of(events)),
        0 <= k < layout_of(events).len(),
        cluster.contains(layout_of(events)[k].id),
    ensures
        forall|b: int|
            0 <= b < bands_of(events).len() && #[trigger] touches(bands_of(events)[b], cluster)
                ==> bands_of(events)[b].len() <= layout_of(events)[k].columns,
        exists|b: int|
            0 <= b < bands_of(events).len() && #[trigger] touches(bands_of(events)[b], cluster)
                && bands_of(events)[b].len() == layout_of(events)[k].columns,
{
    let sorted = sorted_by_start(events);
    let order = sorted_order(events);
    let bands = bands_of(events);
    lemma_sorted_by_start(events);
    lemma_sorted_ids(events);
    assert(lasting(sorted)) by {
        assert forall|i: int| 0 <= i < sorted.len() implies (#[trigger] sorted[i]).duration > 0 by {
            assert(sorted[i] == events[order[i]]);
        }
    }
    lemma_sweep_members_overlap(sorted, sorted.len() as int);
    lemma_bands_hold_each_event(events);
    assert(cluster_of_bands(bands, cluster)) by {
        assert forall|b: int, i: int|
            0 <= b < bands.len() && 0 <= i < bands[b].len() && touches(
                bands[b],
                cluster,
            ) implies cluster.contains(#[trigger] bands[b][i]) by {
            let h = choose|h: int|
                0 <= h < bands[b].len() && cluster.contains(#[trigger] bands[b][h]);
            assert(members_overlap(bands[b], sorted));
            assert(event_of(sorted, bands[b][h]).overlaps(event_of(sorted, bands[b][i])));
            assert(knows_id(events, bands[b][h]));
            assert(knows_id(events, bands[b][i]));
            let x = choose|x: int| 0 <= x < events.len() && #[trigger] events[x].id == bands[b][h];
            let y = choose|y: int| 0 <= y < events.len() && #[trigger] events[y].id == bands[b][i];
            lemma_sorted_event_of(events, x);
            lemma_sorted_event_of(events, y);
            assert(events[x].overlaps(events[y]));
        }
    }
    lemma_cluster_width(bands, cluster, k);
}

} // verus!
