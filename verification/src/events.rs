//! Events as they come in: records without identifiers, which get their
//! place in the list as identifier.

use crate::types::{unique_ids, Event, ExternalEvent};
use vstd::prelude::*;

verus! {

/// The record at place `i` as an event: its identifier is its place, cut to
/// the 16 bits of an identifier.
pub open spec fn identified(raw: ExternalEvent, i: int) -> Event {
    Event {
        id: i as u16,
        starts_at: raw.starts_at,
        duration: raw.duration,
        title: raw.title,
        location: raw.location,
    }
}

/// The records as events, in the same order.
pub open spec fn with_ids(raw_events: Seq<ExternalEvent>) -> Seq<Event> {
    Seq::new(raw_events.len(), |i: int| identified(raw_events[i], i))
}

/// Up to 65536 records get identifiers that are their places, and so no two
/// the same.
pub proof fn lemma_with_ids(raw_events: Seq<ExternalEvent>)
    requires
        raw_events.len() <= 0x10000,
    ensures
        unique_ids(with_ids(raw_events)),
        forall|i: int| 0 <= i < raw_events.len() ==> (#[trigger] with_ids(raw_events)[i]).id == i,
{
}

/// Turns the records into events: each keeps what it holds and gets its
/// place in the list, counted from zero, as identifier.
pub fn deserialize(raw_events: Vec<ExternalEvent>) -> (events: Vec<Event>)
    ensures
        events@ == with_ids(raw_events@),
{
    let ghost given = raw_events@;
    let mut events: Vec<Event> = Vec::new();
    for raw_event in it: raw_events
        invariant
            it.seq() == given,
            it.index() <= given.len(),
            events@ == with_ids(given).subrange(0, it.index() as int),
    {
        let id = events.len();
        events.push(
            Event {
                id: #[verifier::truncate] (id as u16),
                starts_at: raw_event.starts_at,
                duration: raw_event.duration,
                title: raw_event.title,
                location: raw_event.location,
            },
        );
        assert(events@ =~= with_ids(given).subrange(0, it.index() + 1));
    }
    assert(events@ =~= with_ids(given));
    events
}

} // verus!
