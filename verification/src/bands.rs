//! What holds of the bands while the events are swept.

use crate::matrix::{
    event_of, lemma_place_not_empty, lemma_position_of_id_is, lemma_walk_inserts,
    lemma_walk_members, needs_new_band, no_band_empty, place, sweep, walk,
};
use crate::order::ascending_starts;
use crate::types::{lasting, unique_ids, Event};
use vstd::prelude::*;

verus! {

/// One of the first `n` events has the identifier `id`.
pub open spec fn among_first(events: Seq<Event>, n: int, id: u16) -> bool {
    exists|k: int| 0 <= k < n && k < events.len() && #[trigger] events[k].id == id
}

/// Some band holds the identifier `id`.
pub open spec fn holds_id(bands: Seq<Seq<u16>>, id: u16) -> bool {
    exists|b: int| 0 <= b < bands.len() && (#[trigger] bands[b]).contains(id)
}

/// Every identifier in the bands is that of one of the first `n` events.
pub open spec fn ids_among_first(bands: Seq<Seq<u16>>, events: Seq<Event>, n: int) -> bool {
    forall|b: int, j: int|
        0 <= b < bands.len() && 0 <= j < bands[b].len() ==> #[trigger] among_first(
            events,
            n,
            bands[b][j],
        )
}

/// The bands hold the identifier of each of the first `n` events.
pub open spec fn first_held(bands: Seq<Seq<u16>>, events: Seq<Event>, n: int) -> bool {
    forall|k: int| 0 <= k < n ==> #[trigger] holds_id(bands, events[k].id)
}

/// Member `i` of the band before the last and member `j` of the last band
/// part the two bands: the event of the first does not start later than the
/// event of the second, and the two do not overlap.
pub open spec fn parted_at(bands: Seq<Seq<u16>>, events: Seq<Event>, i: int, j: int) -> bool {
    let prev = bands[bands.len() - 2];
    let last = bands[bands.len() - 1];
    &&& 0 <= i < prev.len()
    &&& 0 <= j < last.len()
    &&& !event_of(events, last[j]).overlaps(event_of(events, prev[i]))
    &&& event_of(events, prev[i]).starts_at <= event_of(events, last[j]).starts_at
}

/// Where there are two bands or more, some members part the last two.
pub open spec fn last_bands_parted(bands: Seq<Seq<u16>>, events: Seq<Event>) -> bool {
    bands.len() >= 2 ==> exists|i: int, j: int| #[trigger] parted_at(bands, events, i, j)
}

/// What holds of the bands after the first `n` events were swept: the bands
/// hold the identifiers of these events and no others, no band is empty, and
/// the last two bands are parted.
pub open spec fn swept(bands: Seq<Seq<u16>>, events: Seq<Event>, n: int) -> bool {
    &&& ids_among_first(bands, events, n)
    &&& first_held(bands, events, n)
    &&& no_band_empty(bands)
    &&& last_bands_parted(bands, events)
}

/// The events of any two members of the band overlap.
pub open spec fn members_overlap(band: Seq<u16>, events: Seq<Event>) -> bool {
    forall|i: int, j: int|
        #![trigger band[i], band[j]]
        0 <= i < band.len() && 0 <= j < band.len() ==> event_of(events, band[i]).overlaps(
            event_of(events, band[j]),
        )
}

/// In every band, the events of any two members overlap.
pub open spec fn bands_overlap(bands: Seq<Seq<u16>>, events: Seq<Event>) -> bool {
    forall|b: int| 0 <= b < bands.len() ==> #[trigger] members_overlap(bands[b], events)
}

/// No event of a member of the band starts later than the event of `id`.
pub open spec fn starts_after_band(band: Seq<u16>, events: Seq<Event>, id: u16) -> bool {
    forall|i: int|
        0 <= i < band.len() ==> event_of(events, #[trigger] band[i]).starts_at <= event_of(
            events,
            id,
        ).starts_at
}

/// The identifier is a member of the band, or its event starts no earlier
/// than the event of any member.
pub open spec fn follows_band(band: Seq<u16>, events: Seq<Event>, id: u16) -> bool {
    band.contains(id) || starts_after_band(band, events, id)
}

/// Where there are two bands or more, each member of the last band follows
/// the band before it.
pub open spec fn last_band_follows(bands: Seq<Seq<u16>>, events: Seq<Event>) -> bool {
    bands.len() >= 2 ==> forall|j: int|
        0 <= j < bands[bands.len() - 1].len() ==> #[trigger] follows_band(
            bands[bands.len() - 2],
            events,
            bands[bands.len() - 1][j],
        )
}

/// Among events with unique identifiers, each is the event of its identifier.
pub proof fn lemma_event_of_unique(events: Seq<Event>, k: int)
    requires
        unique_ids(events),
        0 <= k < events.len(),
    ensures
        event_of(events, events[k].id) == events[k],
{
    lemma_position_of_id_is(events, events[k].id, k);
}

/// Among events in ascending order with unique identifiers, the event of an
/// identifier of the first `n` is one of them: it starts no later than any
/// event from the last of them on.
pub proof fn lemma_event_among_first(sorted: Seq<Event>, n: int, id: u16)
    requires
        unique_ids(sorted),
        ascending_starts(sorted),
        0 <= n <= sorted.len(),
        among_first(sorted, n, id),
    ensures
        event_of(sorted, id).id == id,
        forall|m: int|
            #![trigger sorted[m]]
            n - 1 <= m < sorted.len() ==> event_of(sorted, id).starts_at <= sorted[m].starts_at,
        lasting(sorted) ==> event_of(sorted, id).duration > 0,
{
    let k = choose|k: int| 0 <= k < n && k < sorted.len() && #[trigger] sorted[k].id == id;
    lemma_event_of_unique(sorted, k);
}

/// What a walk for an event does to the last band `row`, told member by
/// member: the band keeps its members at their places, and each further
/// member is the event's own identifier or a member of the walked band whose
/// event overlaps the event.
pub open spec fn filled_from(
    filled: Seq<u16>,
    prev: Seq<u16>,
    row: Seq<u16>,
    event: Event,
    events: Seq<Event>,
) -> bool {
    &&& row.len() <= filled.len()
    &&& forall|j: int| 0 <= j < row.len() ==> #[trigger] filled[j] == row[j]
    &&& forall|j: int|
        #![trigger filled[j]]
        row.len() <= j < filled.len() ==> filled[j] == event.id || (prev.contains(filled[j])
            && event.overlaps(event_of(events, filled[j])))
}

/// A walk fills the band as `filled_from` tells.
pub proof fn lemma_walk_fills(prev: Seq<u16>, row: Seq<u16>, event: Event, events: Seq<Event>)
    ensures
        filled_from(walk(prev, prev.len() as int, row, event, events).0, prev, row, event, events),
{
    let filled = walk(prev, prev.len() as int, row, event, events).0;
    lemma_walk_members(prev, prev.len() as int, row, event, events);
    assert forall|j: int| 0 <= j < row.len() implies #[trigger] filled[j] == row[j] by {
        assert(filled.subrange(0, row.len() as int)[j] == filled[j]);
    }
    assert forall|j: int|
        #![trigger filled[j]]
        row.len() <= j < filled.len() implies filled[j] == event.id || (prev.contains(filled[j])
        && event.overlaps(event_of(events, filled[j]))) by {
        if filled[j] != event.id {
            let i = choose|i: int|
                0 <= i < prev.len() && prev[i] == filled[j] && event.overlaps(
                    event_of(events, prev[i]),
                );
            assert(prev[i] == filled[j]);
        }
    }
}

/// Some member of the band that is walked for the next event does not
/// overlap it, so that the walk appends the event's identifier.
proof fn lemma_walk_finds_room(bands: Seq<Seq<u16>>, sorted: Seq<Event>, n: int) -> (i: int)
    requires
        unique_ids(sorted),
        ascending_starts(sorted),
        1 <= n <= sorted.len(),
        ids_among_first(bands, sorted, n - 1),
        last_bands_parted(bands, sorted),
        bands.len() >= 1,
        needs_new_band(sorted[n - 1], bands.last(), sorted) || bands.len() >= 2,
    ensures
        ({
            let prev = if needs_new_band(sorted[n - 1], bands.last(), sorted) {
                bands.last()
            } else {
                bands[bands.len() - 2]
            };
            0 <= i < prev.len() && !sorted[n - 1].overlaps(event_of(sorted, prev[i]))
        }),
{
    let event = sorted[n - 1];
    if needs_new_band(event, bands.last(), sorted) {
        let last = bands.last();
        choose|i: int| 0 <= i < last.len() && !event.overlaps(event_of(sorted, #[trigger] last[i]))
    } else {
        let (i, j) = choose|i: int, j: int| #[trigger] parted_at(bands, sorted, i, j);
        let prev = bands[bands.len() - 2];
        let last = bands[bands.len() - 1];
        let first = event_of(sorted, prev[i]);
        let second = event_of(sorted, last[j]);
        assert(event.overlaps(event_of(sorted, bands.last()[j])));
        assert(among_first(sorted, n - 1, bands[bands.len() - 1][j]));
        lemma_event_among_first(sorted, n - 1, last[j]);
        assert(second.starts_at <= sorted[n - 1].starts_at);
        assert(!second.overlaps(first));
        assert(first.starts_at <= second.starts_at);
        assert(!event.overlaps(first));
        i
    }
}

/// Placing the next event of the sweep keeps what holds of the bands.
pub proof fn lemma_place_swept(bands: Seq<Seq<u16>>, sorted: Seq<Event>, n: int)
    requires
        unique_ids(sorted),
        ascending_starts(sorted),
        1 <= n <= sorted.len(),
        swept(bands, sorted, n - 1),
    ensures
        swept(place(bands, sorted[n - 1], sorted), sorted, n),
        place(bands, sorted[n - 1], sorted).len() > 0,
{
    let event = sorted[n - 1];
    let placed = place(bands, event, sorted);
    lemma_event_of_unique(sorted, n - 1);
    if bands.len() == 0 {
        assert(placed =~= seq![seq![event.id]]);
        assert(n == 1) by {
            if n > 1 {
                assert(holds_id(bands, sorted[0].id));
            }
        }
        assert(placed[0][0] == sorted[n - 1].id);
        assert(placed[0].contains(event.id));
        assert(ids_among_first(placed, sorted, n)) by {
            assert forall|b: int, j: int|
                0 <= b < placed.len() && 0 <= j < placed[b].len() implies #[trigger] among_first(
                sorted,
                n,
                placed[b][j],
            ) by {
                assert(sorted[n - 1].id == placed[b][j]);
            }
        }
        assert(first_held(placed, sorted, n)) by {
            assert forall|k: int| 0 <= k < n implies #[trigger] holds_id(placed, sorted[k].id) by {
                assert(placed[0].contains(sorted[k].id));
            }
        }
    } else {
        let fresh = needs_new_band(event, bands.last(), sorted);
        let grown = if fresh {
            bands.push(Seq::empty())
        } else {
            bands
        };
        let last = grown.len() - 1;
        let row = grown[last];
        let filled = placed[last];
        assert(placed.len() == grown.len());
        assert forall|b: int| 0 <= b < last implies #[trigger] placed[b] == bands[b] by {}
        // the last band keeps its members and gets the event's identifier
        let own = if grown.len() == 1 {
            assert(filled == row.push(event.id));
            row.len() as int
        } else {
            let prev = grown[last - 1];
            assert(filled == walk(prev, prev.len() as int, row, event, sorted).0);
            let i = lemma_walk_finds_room(bands, sorted, n);
            lemma_walk_inserts(prev, prev.len() as int, row, event, sorted);
            assert(prev[i] == prev[i]);
            choose|j: int| row.len() <= j < filled.len() && filled[j] == event.id
        };
        assert(row.len() <= own < filled.len() && filled[own] == event.id);
        assert(grown.len() >= 2 ==> filled_from(filled, grown[last - 1], row, event, sorted)) by {
            if grown.len() >= 2 {
                lemma_walk_fills(grown[last - 1], row, event, sorted);
            }
        }
        assert forall|j: int| 0 <= j < row.len() implies #[trigger] filled[j] == row[j] by {}
        assert(ids_among_first(placed, sorted, n)) by {
            assert forall|b: int, j: int|
                0 <= b < placed.len() && 0 <= j < placed[b].len() implies #[trigger] among_first(
                sorted,
                n,
                placed[b][j],
            ) by {
                let id = placed[b][j];
                if b < last || j < row.len() {
                    assert(id == bands[b][j]);
                    assert(among_first(sorted, n - 1, bands[b][j]));
                    let k = choose|k: int|
                        0 <= k < n - 1 && k < sorted.len() && #[trigger] sorted[k].id == id;
                    assert(0 <= k < n && sorted[k].id == id);
                } else if id == event.id {
                    assert(sorted[n - 1].id == id);
                } else {
                    let prev = grown[last - 1];
                    assert(prev.contains(filled[j]));
                    let m = choose|m: int| 0 <= m < prev.len() && prev[m] == id;
                    assert(among_first(sorted, n - 1, bands[last - 1][m]));
                    let k = choose|k: int|
                        0 <= k < n - 1 && k < sorted.len() && #[trigger] sorted[k].id == id;
                    assert(0 <= k < n && sorted[k].id == id);
                }
            }
        }
        assert(first_held(placed, sorted, n)) by {
            assert forall|k: int| 0 <= k < n implies #[trigger] holds_id(placed, sorted[k].id) by {
                if k < n - 1 {
                    assert(holds_id(bands, sorted[k].id));
                    let b = choose|b: int|
                        0 <= b < bands.len() && (#[trigger] bands[b]).contains(sorted[k].id);
                    let j = choose|j: int| 0 <= j < bands[b].len() && bands[b][j] == sorted[k].id;
                    assert(placed[b][j] == sorted[k].id);
                    assert(placed[b].contains(sorted[k].id));
                } else {
                    assert(placed[last][own] == event.id);
                    assert(placed[last].contains(event.id));
                }
            }
        }
        lemma_place_not_empty(bands, event, sorted);
        assert(last_bands_parted(placed, sorted)) by {
            if placed.len() >= 2 {
                if fresh {
                    let i = lemma_walk_finds_room(bands, sorted, n);
                    let prev = bands[bands.len() - 1];
                    assert(placed[placed.len() - 2] == prev);
                    assert(among_first(sorted, n - 1, bands[bands.len() - 1][i]));
                    lemma_event_among_first(sorted, n - 1, prev[i]);
                    assert(event_of(sorted, prev[i]).starts_at <= sorted[n - 1].starts_at);
                    assert(parted_at(placed, sorted, i, own));
                } else {
                    let (i, j) = choose|i: int, j: int| #[trigger] parted_at(bands, sorted, i, j);
                    assert(filled[j] == row[j]);
                    assert(parted_at(placed, sorted, i, j));
                }
            }
        }
    }
}

/// What holds of the bands while the events are swept in ascending order of
/// `starts_at`, after the first `n` of them: the bands hold the identifiers
/// of these events and no others, no band is empty, and the last two bands
/// are parted.
pub proof fn lemma_sweep(sorted: Seq<Event>, n: int)
    requires
        unique_ids(sorted),
        ascending_starts(sorted),
        0 <= n <= sorted.len(),
    ensures
        swept(sweep(sorted, n), sorted, n),
        n > 0 ==> sweep(sorted, n).len() > 0,
    decreases n,
{
    if n > 0 {
        lemma_sweep(sorted, n - 1);
        lemma_place_swept(sweep(sorted, n - 1), sorted, n);
    }
}

/// A band that is filled for an event whose every member overlaps, from a
/// walked band whose members overlap one another, is again a band whose
/// members overlap one another.
proof fn lemma_filled_overlaps(
    prev: Seq<u16>,
    row: Seq<u16>,
    filled: Seq<u16>,
    event: Event,
    sorted: Seq<Event>,
)
    requires
        event.duration > 0,
        event_of(sorted, event.id) == event,
        members_overlap(prev, sorted),
        members_overlap(row, sorted),
        filled_from(filled, prev, row, event, sorted),
        forall|j: int|
            0 <= j < row.len() ==> {
                let member = event_of(sorted, #[trigger] row[j]);
                event.overlaps(member) && member.starts_at <= event.starts_at && member.duration > 0
            },
        forall|j: int| 0 <= j < row.len() ==> #[trigger] follows_band(prev, sorted, row[j]),
    ensures
        members_overlap(filled, sorted),
{
    assert forall|x: int, y: int| 0 <= x < filled.len() && 0 <= y < filled.len() implies event_of(
        sorted,
        #[trigger] filled[x],
    ).overlaps(event_of(sorted, #[trigger] filled[y])) by {
        let a = event_of(sorted, filled[x]);
        let b = event_of(sorted, filled[y]);
        let x_kept = x < row.len();
        let y_kept = y < row.len();
        if x_kept {
            assert(filled[x] == row[x]);
            assert(event.overlaps(event_of(sorted, row[x])));
        }
        if y_kept {
            assert(filled[y] == row[y]);
            assert(event.overlaps(event_of(sorted, row[y])));
        }
        if filled[x] == event.id || filled[y] == event.id {
            // the event overlaps itself and every member
            assert(event.overlaps(event));
            if !x_kept && filled[x] != event.id {
                assert(event.overlaps(a));
            }
            if !y_kept && filled[y] != event.id {
                assert(event.overlaps(b));
            }
        } else if x_kept && y_kept {
            assert(event_of(sorted, row[x]).overlaps(event_of(sorted, row[y])));
        } else if !x_kept && !y_kept {
            let i = choose|i: int| 0 <= i < prev.len() && prev[i] == filled[x];
            let j = choose|j: int| 0 <= j < prev.len() && prev[j] == filled[y];
            assert(event_of(sorted, prev[i]).overlaps(event_of(sorted, prev[j])));
        } else {
            // one was in the band, the other is carried from the walked band
            let h = if x_kept { x } else { y };
            let c = if x_kept { y } else { x };
            let kept = event_of(sorted, row[h]);
            let carried = event_of(sorted, filled[c]);
            let i = choose|i: int| 0 <= i < prev.len() && prev[i] == filled[c];
            assert(follows_band(prev, sorted, row[h]));
            if prev.contains(row[h]) {
                let j = choose|j: int| 0 <= j < prev.len() && prev[j] == row[h];
                assert(event_of(sorted, prev[i]).overlaps(event_of(sorted, prev[j])));
                assert(event_of(sorted, prev[j]).overlaps(event_of(sorted, prev[i])));
            } else {
                assert(event_of(sorted, prev[i]).starts_at <= kept.starts_at);
                assert(event.overlaps(carried));
                assert(kept.overlaps(carried));
                assert(carried.overlaps(kept));
            }
        }
    }
}

/// Placing the next event of a sweep over events that last keeps the events
/// of any two members of a band overlapping.
pub proof fn lemma_place_overlaps(bands: Seq<Seq<u16>>, sorted: Seq<Event>, n: int)
    requires
        unique_ids(sorted),
        lasting(sorted),
        ascending_starts(sorted),
        1 <= n <= sorted.len(),
        swept(bands, sorted, n - 1),
        bands_overlap(bands, sorted),
        last_band_follows(bands, sorted),
    ensures
        bands_overlap(place(bands, sorted[n - 1], sorted), sorted),
        last_band_follows(place(bands, sorted[n - 1], sorted), sorted),
{
    let event = sorted[n - 1];
    let placed = place(bands, event, sorted);
    lemma_event_of_unique(sorted, n - 1);
    assert(event.duration > 0);
    if bands.len() == 0 {
        assert(placed =~= seq![seq![event.id]]);
        assert(members_overlap(placed[0], sorted));
    } else {
        let fresh = needs_new_band(event, bands.last(), sorted);
        let grown = if fresh {
            bands.push(Seq::empty())
        } else {
            bands
        };
        let last = grown.len() - 1;
        let row = grown[last];
        let filled = placed[last];
        let prev = if grown.len() == 1 {
            Seq::<u16>::empty()
        } else {
            grown[last - 1]
        };
        assert(placed.len() == grown.len());
        assert forall|b: int| 0 <= b < last implies #[trigger] placed[b] == bands[b] by {}
        assert(filled_from(filled, prev, row, event, sorted)) by {
            if grown.len() == 1 {
                assert(filled == row.push(event.id));
            } else {
                lemma_walk_fills(prev, row, event, sorted);
            }
        }
        assert(members_overlap(prev, sorted)) by {
            if grown.len() >= 2 {
                assert(prev == bands[last - 1]);
                assert(members_overlap(bands[last - 1], sorted));
            }
        }
        assert(members_overlap(row, sorted)) by {
            if !fresh {
                assert(members_overlap(bands[last], sorted));
            }
        }
        assert forall|j: int| 0 <= j < row.len() implies {
            let member = event_of(sorted, #[trigger] row[j]);
            event.overlaps(member) && member.starts_at <= event.starts_at && member.duration > 0
        } by {
            assert(!fresh);
            assert(row[j] == bands.last()[j]);
            assert(among_first(sorted, n - 1, bands[last][j]));
            lemma_event_among_first(sorted, n - 1, row[j]);
            assert(event_of(sorted, row[j]).starts_at <= sorted[n - 1].starts_at);
        }
        assert forall|j: int| 0 <= j < row.len() implies #[trigger] follows_band(
            prev,
            sorted,
            row[j],
        ) by {
            if grown.len() >= 2 {
                assert(follows_band(bands[bands.len() - 2], sorted, bands[bands.len() - 1][j]));
            }
        }
        lemma_filled_overlaps(prev, row, filled, event, sorted);
        assert(bands_overlap(placed, sorted)) by {
            assert forall|b: int| 0 <= b < placed.len() implies #[trigger] members_overlap(
                placed[b],
                sorted,
            ) by {
                if b < last {
                    assert(members_overlap(bands[b], sorted));
                }
            }
        }
        assert(last_band_follows(placed, sorted)) by {
            if placed.len() >= 2 {
                assert(placed[placed.len() - 2] == prev);
                assert forall|i: int| 0 <= i < prev.len() implies event_of(
                    sorted,
                    #[trigger] prev[i],
                ).starts_at <= event.starts_at by {
                    assert(among_first(sorted, n - 1, bands[last - 1][i]));
                    lemma_event_among_first(sorted, n - 1, prev[i]);
                    assert(event_of(sorted, prev[i]).starts_at <= sorted[n - 1].starts_at);
                }
                assert forall|j: int| 0 <= j < filled.len() implies #[trigger] follows_band(
                    prev,
                    sorted,
                    filled[j],
                ) by {
                    if j < row.len() {
                        assert(filled[j] == row[j]);
                        assert(follows_band(prev, sorted, row[j]));
                    } else if filled[j] == event.id {
                        assert(starts_after_band(prev, sorted, event.id));
                    }
                }
            }
        }
    }
}

/// While events that last are swept in ascending order of `starts_at`, the
/// events of any two members of a band overlap.
pub proof fn lemma_sweep_members_overlap(sorted: Seq<Event>, n: int)
    requires
        unique_ids(sorted),
        lasting(sorted),
        ascending_starts(sorted),
        0 <= n <= sorted.len(),
    ensures
        bands_overlap(sweep(sorted, n), sorted),
        last_band_follows(sweep(sorted, n), sorted),
    decreases n,
{
    if n > 0 {
        lemma_sweep_members_overlap(sorted, n - 1);
        lemma_sweep(sorted, n - 1);
        lemma_place_overlaps(sweep(sorted, n - 1), sorted, n);
    }
}

} // verus!
