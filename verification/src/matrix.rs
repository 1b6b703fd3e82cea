//! The band builder: one sweep over the events in start order that groups
//! their identifiers into bands.

use crate::order::{lemma_sorted_by_start, sort_by_start, sorted_by_start};
use crate::types::{Event, EventsMatrix};
use vstd::prelude::*;

verus! {

/// The bands of a matrix as sequences of identifiers.
pub open spec fn band_views(matrix: Seq<Vec<u16>>) -> Seq<Seq<u16>> {
    Seq::new(matrix.len(), |b: int| matrix[b]@)
}

/// Some event of `events` has the identifier `id`.
pub open spec fn knows_id(events: Seq<Event>, id: u16) -> bool {
    exists|i: int| 0 <= i < events.len() && #[trigger] events[i].id == id
}

/// The position of the first event of `events` with the identifier `id`;
/// the length of `events` if there is none.
pub open spec fn position_of_id(events: Seq<Event>, id: u16) -> int
    decreases events.len(),
{
    if events.len() == 0 {
        0
    } else {
        let before = position_of_id(events.drop_last(), id);
        if before < events.len() - 1 {
            before
        } else if events.last().id == id {
            events.len() - 1
        } else {
            events.len() as int
        }
    }
}

/// The first event of `events` with the identifier `id`.
pub open spec fn event_of(events: Seq<Event>, id: u16) -> Event
    recommends
        knows_id(events, id),
{
    events[position_of_id(events, id)]
}

/// Every identifier in every band belongs to an event of `events`.
pub open spec fn ids_known(bands: Seq<Seq<u16>>, events: Seq<Event>) -> bool {
    forall|b: int, j: int|
        0 <= b < bands.len() && 0 <= j < bands[b].len() ==> knows_id(events, #[trigger] bands[b][j])
}

/// Some member of the band `last` does not overlap `event`.
pub open spec fn needs_new_band(event: Event, last: Seq<u16>, events: Seq<Event>) -> bool {
    exists|i: int|
        0 <= i < last.len() && !event.overlaps(event_of(events, #[trigger] last[i]))
}

/// The band `row` after the first `n` members of `prev` were walked for
/// `event`, and whether the event's own identifier was appended on the way.
///
/// A member that overlaps the event is carried into the band if the band is
/// empty or the member stands beyond the band's last filled position. At the
/// first member that does not overlap it the event's own identifier is
/// appended.
pub open spec fn walk(
    prev: Seq<u16>,
    n: int,
    row: Seq<u16>,
    event: Event,
    events: Seq<Event>,
) -> (Seq<u16>, bool)
    decreases n,
{
    if n <= 0 {
        (row, false)
    } else {
        let before = walk(prev, n - 1, row, event, events);
        let member = prev[n - 1];
        if event.overlaps(event_of(events, member)) {
            if before.0.len() == 0 || before.0.len() - 1 < n - 1 {
                (before.0.push(member), before.1)
            } else {
                before
            }
        } else if !before.1 {
            (before.0.push(event.id), true)
        } else {
            before
        }
    }
}

/// The bands after `event` was placed.
///
/// The first event opens the first band. A later event opens a new, empty
/// band if some member of the last band does not overlap it. If there is then
/// only one band, the event is appended to it; otherwise the band before the
/// last is walked and the last band filled from it.
pub open spec fn place(bands: Seq<Seq<u16>>, event: Event, events: Seq<Event>) -> Seq<Seq<u16>> {
    if bands.len() == 0 {
        seq![seq![event.id]]
    } else {
        let grown = if needs_new_band(event, bands.last(), events) {
            bands.push(Seq::empty())
        } else {
            bands
        };
        if grown.len() == 1 {
            grown.update(0, grown[0].push(event.id))
        } else {
            let prev = grown[grown.len() - 2];
            grown.update(
                grown.len() - 1,
                walk(prev, prev.len() as int, grown.last(), event, events).0,
            )
        }
    }
}

/// The bands after the first `n` events of `sorted` were placed, in order.
pub open spec fn sweep(sorted: Seq<Event>, n: int) -> Seq<Seq<u16>>
    decreases n,
{
    if n <= 0 {
        Seq::empty()
    } else {
        place(sweep(sorted, n - 1), sorted[n - 1], sorted)
    }
}

/// The bands of a collection of events: the sweep over all of them in
/// ascending order of `starts_at`, ties in the given order.
pub open spec fn bands_of(events: Seq<Event>) -> Seq<Seq<u16>> {
    sweep(sorted_by_start(events), events.len() as int)
}

/// `position_of_id` finds the first event with the identifier, if any.
pub proof fn lemma_position_of_id(events: Seq<Event>, id: u16)
    ensures
        0 <= position_of_id(events, id) <= events.len(),
        position_of_id(events, id) < events.len() <==> knows_id(events, id),
        knows_id(events, id) ==> event_of(events, id).id == id,
        forall|j: int| 0 <= j < position_of_id(events, id) ==> events[j].id != id,
    decreases events.len(),
{
    if events.len() > 0 {
        let front = events.drop_last();
        lemma_position_of_id(front, id);
        let before = position_of_id(front, id);
        if before < front.len() {
            assert(front[before] == events[before]);
            assert(events[before].id == id);
        } else {
            assert forall|j: int| 0 <= j < front.len() implies events[j].id != id by {
                assert(front[j] == events[j]);
            }
        }
        assert forall|j: int| 0 <= j < position_of_id(events, id) implies events[j].id != id by {
            if j < front.len() {
                assert(front[j] == events[j]);
            }
        }
    }
}

/// The first event with the identifier stands where none before it has it.
pub proof fn lemma_position_of_id_is(events: Seq<Event>, id: u16, p: int)
    requires
        0 <= p < events.len(),
        events[p].id == id,
        forall|j: int| 0 <= j < p ==> events[j].id != id,
    ensures
        position_of_id(events, id) == p,
        event_of(events, id) == events[p],
{
    lemma_position_of_id(events, id);
    let q = position_of_id(events, id);
    if q < p {
        assert(events[q].id == id);
    }
}

/// A walk keeps what the band held and appends only members of the walked
/// band and the event's own identifier.
pub proof fn lemma_walk_members(
    prev: Seq<u16>,
    n: int,
    row: Seq<u16>,
    event: Event,
    events: Seq<Event>,
)
    requires
        0 <= n <= prev.len(),
    ensures
        row.len() <= walk(prev, n, row, event, events).0.len() <= row.len() + n,
        walk(prev, n, row, event, events).0.subrange(0, row.len() as int) == row,
        forall|j: int|
            row.len() <= j < walk(prev, n, row, event, events).0.len() ==> {
                let id = #[trigger] walk(prev, n, row, event, events).0[j];
                id == event.id || exists|i: int|
                    0 <= i < n && prev[i] == id && event.overlaps(event_of(events, prev[i]))
            },
    decreases n,
{
    if n > 0 {
        lemma_walk_members(prev, n - 1, row, event, events);
        let before = walk(prev, n - 1, row, event, events).0;
        let after = walk(prev, n, row, event, events).0;
        assert(before.subrange(0, row.len() as int) == row);
        assert(after.subrange(0, row.len() as int) =~= before.subrange(0, row.len() as int));
        assert forall|j: int| row.len() <= j < after.len() implies {
            let id = #[trigger] after[j];
            id == event.id || exists|i: int|
                0 <= i < n && prev[i] == id && event.overlaps(event_of(events, prev[i]))
        } by {
            if j < before.len() {
                let id = before[j];
                if id != event.id {
                    let i = choose|i: int|
                        0 <= i < n - 1 && prev[i] == id && event.overlaps(
                            event_of(events, prev[i]),
                        );
                    assert(0 <= i < n && prev[i] == id);
                    assert(event.overlaps(event_of(events, prev[i])));
                }
            } else if after[j] != event.id {
                assert(after[j] == prev[n - 1] && event.overlaps(event_of(events, prev[n - 1])));
            }
        }
    } else {
        assert(row.subrange(0, row.len() as int) =~= row);
    }
}

/// Placing an event whose identifier is known keeps every identifier known.
pub proof fn lemma_place_known(bands: Seq<Seq<u16>>, event: Event, events: Seq<Event>)
    requires
        ids_known(bands, events),
        knows_id(events, event.id),
    ensures
        ids_known(place(bands, event, events), events),
{
    let placed = place(bands, event, events);
    if bands.len() > 0 {
        let grown = if needs_new_band(event, bands.last(), events) {
            bands.push(Seq::empty())
        } else {
            bands
        };
        assert(ids_known(grown, events)) by {
            assert forall|b: int, j: int|
                0 <= b < grown.len() && 0 <= j < grown[b].len() implies knows_id(
                events,
                #[trigger] grown[b][j],
            ) by {
                assert(grown[b][j] == bands[b][j]);
            }
        }
        if grown.len() > 1 {
            let prev = grown[grown.len() - 2];
            let row = grown.last();
            let filled = walk(prev, prev.len() as int, row, event, events).0;
            lemma_walk_members(prev, prev.len() as int, row, event, events);
            assert forall|b: int, j: int|
                0 <= b < placed.len() && 0 <= j < placed[b].len() implies knows_id(
                events,
                #[trigger] placed[b][j],
            ) by {
                if b < grown.len() - 1 {
                    assert(placed[b][j] == grown[b][j]);
                } else if j < row.len() {
                    assert(filled.subrange(0, row.len() as int)[j] == filled[j]);
                    assert(placed[b][j] == grown[b][j]);
                } else {
                    let id = filled[j];
                    if id != event.id {
                        let i = choose|i: int|
                            0 <= i < prev.len() && prev[i] == id && event.overlaps(
                                event_of(events, prev[i]),
                            );
                        assert(grown[grown.len() - 2][i] == id);
                    }
                }
            }
        } else {
            assert forall|b: int, j: int|
                0 <= b < placed.len() && 0 <= j < placed[b].len() implies knows_id(
                events,
                #[trigger] placed[b][j],
            ) by {
                if j < grown[0].len() {
                    assert(placed[b][j] == grown[0][j]);
                }
            }
        }
    }
}

/// A walk appends the event's own identifier if and only if some walked
/// member does not overlap the event.
pub proof fn lemma_walk_inserts(
    prev: Seq<u16>,
    n: int,
    row: Seq<u16>,
    event: Event,
    events: Seq<Event>,
)
    requires
        0 <= n <= prev.len(),
    ensures
        walk(prev, n, row, event, events).1 <==> exists|i: int|
            0 <= i < n && !event.overlaps(event_of(events, #[trigger] prev[i])),
        walk(prev, n, row, event, events).1 ==> exists|j: int|
            row.len() <= j < walk(prev, n, row, event, events).0.len() && walk(
                prev,
                n,
                row,
                event,
                events,
            ).0[j] == event.id,
    decreases n,
{
    if n > 0 {
        lemma_walk_inserts(prev, n - 1, row, event, events);
        lemma_walk_members(prev, n - 1, row, event, events);
        let before = walk(prev, n - 1, row, event, events);
        let after = walk(prev, n, row, event, events);
        if before.1 {
            let i = choose|i: int|
                0 <= i < n - 1 && !event.overlaps(event_of(events, #[trigger] prev[i]));
            assert(0 <= i < n && !event.overlaps(event_of(events, prev[i])));
            let j = choose|j: int| row.len() <= j < before.0.len() && before.0[j] == event.id;
            assert(after.0[j] == event.id);
        } else if !event.overlaps(event_of(events, prev[n - 1])) {
            assert(after.0[before.0.len() as int] == event.id);
        } else {
            assert forall|i: int| 0 <= i < n implies event.overlaps(
                event_of(events, #[trigger] prev[i]),
            ) by {}
        }
    }
}

/// No band is empty.
pub open spec fn no_band_empty(bands: Seq<Seq<u16>>) -> bool {
    forall|b: int| 0 <= b < bands.len() ==> (#[trigger] bands[b]).len() > 0
}

/// Placing an event leaves no band empty: a band is opened only for an event
/// that then enters it.
pub proof fn lemma_place_not_empty(bands: Seq<Seq<u16>>, event: Event, events: Seq<Event>)
    requires
        no_band_empty(bands),
    ensures
        no_band_empty(place(bands, event, events)),
        place(bands, event, events).len() > 0,
{
    let placed = place(bands, event, events);
    if bands.len() > 0 {
        let fresh = needs_new_band(event, bands.last(), events);
        let grown = if fresh {
            bands.push(Seq::empty())
        } else {
            bands
        };
        let last = grown.len() - 1;
        if grown.len() > 1 {
            let prev = grown[last - 1];
            lemma_walk_members(prev, prev.len() as int, grown[last], event, events);
            lemma_walk_inserts(prev, prev.len() as int, grown[last], event, events);
            if !fresh {
                assert(bands[last].len() > 0);
            }
        }
        assert forall|b: int| 0 <= b < placed.len() implies (#[trigger] placed[b]).len() > 0 by {
            if b < last {
                assert(bands[b].len() > 0);
            }
        }
    }
}

/// No band of a sweep is empty.
pub proof fn lemma_sweep_not_empty(sorted: Seq<Event>, n: int)
    ensures
        no_band_empty(sweep(sorted, n)),
        n > 0 ==> sweep(sorted, n).len() > 0,
    decreases n,
{
    if n > 0 {
        lemma_sweep_not_empty(sorted, n - 1);
        lemma_place_not_empty(sweep(sorted, n - 1), sorted[n - 1], sorted);
    }
}

/// Looks up the first event with the identifier `id`.
pub fn get_event_by_id(events: &Vec<Event>, id: u16) -> (found: Option<&Event>)
    ensures
        found is Some <==> knows_id(events@, id),
        found matches Some(event) ==> *event == event_of(events@, id) && event.id == id,
{
    let mut i: usize = 0;
    while i < events.len()
        invariant
            i <= events.len(),
            forall|j: int| 0 <= j < i ==> events@[j].id != id,
        decreases events.len() - i,
    {
        if events[i].id == id {
            proof {
                lemma_position_of_id_is(events@, id, i as int);
            }
            return Some(&events[i]);
        }
        i += 1;
    }
    None
}

/// Tells whether `event` opens a new band: whether some member of the last
/// band does not overlap it.
pub fn should_create_row(event: &Event, last_row: &Vec<u16>, events: &Vec<Event>) -> (create: bool)
    requires
        forall|i: int| 0 <= i < last_row.len() ==> knows_id(events@, #[trigger] last_row@[i]),
    ensures
        create == needs_new_band(*event, last_row@, events@),
{
    let mut i: usize = 0;
    while i < last_row.len()
        invariant
            i <= last_row.len(),
            forall|j: int| 0 <= j < last_row.len() ==> knows_id(events@, #[trigger] last_row@[j]),
            forall|j: int|
                0 <= j < i ==> event.overlaps(event_of(events@, #[trigger] last_row@[j])),
        decreases last_row.len() - i,
    {
        assert(knows_id(events@, last_row@[i as int]));
        let cur_event = get_event_by_id(events, last_row[i]).unwrap();
        if !event.overlap(cur_event) {
            return true;
        }
        i += 1;
    }
    false
}

/// Walks the band before the last for `event` and fills the last band: the
/// members that overlap the event are carried forward, and the event takes
/// the place of the first member that does not.
pub fn carry_forward(
    prev_row: &Vec<u16>,
    row_to_push: &mut Vec<u16>,
    event: &Event,
    events: &Vec<Event>,
)
    requires
        forall|i: int| 0 <= i < prev_row.len() ==> knows_id(events@, #[trigger] prev_row@[i]),
    ensures
        final(row_to_push)@ == walk(
            prev_row@,
            prev_row.len() as int,
            old(row_to_push)@,
            *event,
            events@,
        ).0,
{
    let ghost start = row_to_push@;
    let mut pushed = false;
    let mut idx: usize = 0;
    while idx < prev_row.len()
        invariant
            idx <= prev_row.len(),
            forall|i: int| 0 <= i < prev_row.len() ==> knows_id(events@, #[trigger] prev_row@[i]),
            (row_to_push@, pushed) == walk(prev_row@, idx as int, start, *event, events@),
        decreases prev_row.len() - idx,
    {
        assert(knows_id(events@, prev_row@[idx as int]));
        let cur_event = get_event_by_id(events, prev_row[idx]).unwrap();
        if event.overlap(cur_event) {
            let row_len = row_to_push.len();
            if row_len == 0 || row_len - 1 < idx {
                row_to_push.push(cur_event.id);
            }
        } else if !pushed {
            row_to_push.push(event.id);
            pushed = true;
        }
        idx += 1;
    }
}

/// The last band, to be filled, and the band before it, to be walked.
pub fn get_two_last_rows(matrix: &mut EventsMatrix) -> (rows: (&Vec<u16>, &mut Vec<u16>))
    requires
        old(matrix).len() >= 2,
    ensures
        *rows.0 == old(matrix)@[old(matrix).len() - 2],
        *rows.1 == old(matrix)@[old(matrix).len() - 1],
        final(matrix)@ == old(matrix)@.update(old(matrix).len() - 1, *final(rows.1)),
{
    let split_index = matrix.len() - 1;
    let (head, tail) = matrix.split_at_mut(split_index);
    let last_row = tail.last_mut().unwrap();
    let before_last_row = head.last().unwrap();
    (before_last_row, last_row)
}

/// Places one event of the sweep into the bands.
pub fn place_event(matrix: &mut EventsMatrix, event: &Event, events: &Vec<Event>)
    requires
        ids_known(band_views(old(matrix)@), events@),
    ensures
        band_views(final(matrix)@) == place(band_views(old(matrix)@), *event, events@),
{
    let ghost bands = band_views(matrix@);
    if matrix.is_empty() {
        let mut row: Vec<u16> = Vec::new();
        row.push(event.id);
        matrix.push(row);
        assert(band_views(matrix@) =~= seq![seq![event.id]]);
        return ;
    }
    let mut last_row_idx = matrix.len() - 1;
    assert forall|i: int| 0 <= i < matrix@[last_row_idx as int].len() implies knows_id(
        events@,
        #[trigger] matrix@[last_row_idx as int]@[i],
    ) by {
        assert(bands[last_row_idx as int][i] == matrix@[last_row_idx as int]@[i]);
    }
    assert(bands.last() == matrix@[last_row_idx as int]@);
    let create_row = should_create_row(event, &matrix[last_row_idx], events);
    if create_row {
        matrix.push(Vec::new());
        last_row_idx += 1;
    }
    let ghost grown = band_views(matrix@);
    assert(grown =~= if create_row {
        bands.push(Seq::empty())
    } else {
        bands
    });
    if last_row_idx == 0 {
        matrix[last_row_idx].push(event.id);
        assert(band_views(matrix@) =~= grown.update(0, grown[0].push(event.id)));
        return ;
    }
    assert forall|i: int| 0 <= i < matrix@[last_row_idx - 1].len() implies knows_id(
        events@,
        #[trigger] matrix@[last_row_idx - 1]@[i],
    ) by {
        assert(bands[last_row_idx - 1][i] == matrix@[last_row_idx - 1]@[i]);
    }
    assert(grown[grown.len() - 2] == matrix@[last_row_idx - 1]@);
    let (prev_row, row_to_push) = get_two_last_rows(matrix);
    carry_forward(prev_row, row_to_push, event, events);
    assert(band_views(matrix@) =~= grown.update(
        grown.len() - 1,
        walk(
            grown[grown.len() - 2],
            grown[grown.len() - 2].len() as int,
            grown.last(),
            *event,
            events@,
        ).0,
    ));
}

/// Groups the events into bands: sorts them by `starts_at`, ties in the given
/// order, and places them one after the other.
pub fn build(events: Vec<Event>) -> (matrix: EventsMatrix)
    ensures
        band_views(matrix@) == bands_of(events@),
        no_band_empty(band_views(matrix@)),
{
    let ghost given = events@;
    let events = sort_by_start(events);
    proof {
        lemma_sorted_by_start(given);
        lemma_sweep_not_empty(events@, events@.len() as int);
    }
    let mut matrix: EventsMatrix = Vec::new();
    let mut i: usize = 0;
    assert(band_views(matrix@) =~= sweep(events@, 0));
    while i < events.len()
        invariant
            i <= events.len(),
            band_views(matrix@) == sweep(events@, i as int),
            ids_known(band_views(matrix@), events@),
        decreases events.len() - i,
    {
        let ghost bands = band_views(matrix@);
        place_event(&mut matrix, &events[i], &events);
        proof {
            assert(events@[i as int].id == events@[i as int].id);
            lemma_place_known(bands, events@[i as int], events@);
        }
        i += 1;
    }
    matrix
}

} // verus!

