use vstd::prelude::*;
use vstd::string::*;

verus! {

/// The bands of a layout: each band is a row of event identifiers.
pub type EventsMatrix = Vec<Vec<u16>>;

/// Where an event is drawn within its band: the event takes one of `columns`
/// columns of equal width, so its width is the fraction `1 / columns` of the
/// room there is, and `offset` counts the columns to its left.
#[derive(Debug, Clone, Copy, PartialEq, Eq, Structural)]
pub struct EventPosition {
    pub id: u16,
    pub columns: usize,
    pub offset: usize,
}

/// The room an event takes on the canvas, as the text that the markup holds:
/// the width of its box and the distance of the box from the left.
#[derive(Debug, Clone)]
pub struct EventBox {
    pub id: u16,
    pub width: String,
    pub left: String,
}

/// Why a layout cannot be drawn.
#[derive(Debug, Clone, Copy, PartialEq, Eq, Structural)]
pub enum LayoutError {
    /// An event to draw is missing, lasts no time or ends beyond the last
    /// minute that can be counted.
    InvalidInput,
}

impl LayoutError {
    /// What went wrong, in words.
    pub fn message(&self) -> (text: String)
        ensures
            text@ == "invalid event layout input"@,
    {
        String::from_str("invalid event layout input")
    }
}

/// An event as it is handed in: without an identifier.
#[derive(Debug, Clone)]
pub struct ExternalEvent {
    pub starts_at: u16,
    pub duration: u16,
    pub title: Option<String>,
    pub location: Option<String>,
}

/// A calendar event; times are minutes counted from the first hour of the grid.
#[derive(Debug, Clone)]
pub struct Event {
    pub id: u16,
    pub starts_at: u16,
    pub duration: u16,
    pub title: Option<String>,
    pub location: Option<String>,
}

impl Event {
    /// The minute at which the event ends, as a mathematical integer.
    pub open spec fn end_minute(self) -> int {
        self.starts_at + self.duration
    }

    /// Half-open interval overlap: intervals that only touch do not overlap.
    pub open spec fn overlaps(self, other: Event) -> bool {
        self.starts_at < other.end_minute() && other.starts_at < self.end_minute()
    }

    /// Overlap is mutual. An event that lasts overlaps itself; one of no
    /// duration overlaps neither itself nor an event that starts with it.
    pub proof fn lemma_overlaps(self, other: Event)
        ensures
            self.overlaps(other) == other.overlaps(self),
            self.overlaps(self) <==> self.duration > 0,
            self.duration == 0 && self.starts_at == other.starts_at ==> !self.overlaps(other),
    {
    }

    /// The minute at which the event ends.
    pub fn ends_at(&self) -> (end: u16)
        requires
            self.end_minute() <= u16::MAX,
        ensures
            end == self.end_minute(),
    {
        self.starts_at + self.duration
    }

    /// Tells whether the two events overlap.
    pub fn overlap(&self, event: &Event) -> (r: bool)
        ensures
            r == self.overlaps(*event),
    {
        let self_end: u32 = self.starts_at as u32 + self.duration as u32;
        let other_end: u32 = event.starts_at as u32 + event.duration as u32;
        (self.starts_at as u32) < other_end && (event.starts_at as u32) < self_end
    }
}

/// No two events have the same identifier.
pub open spec fn unique_ids(events: Seq<Event>) -> bool {
    forall|i: int, j: int|
        0 <= i < j < events.len() ==> (#[trigger] events[i]).id != (#[trigger] events[j]).id
}

/// Every event lasts at least a minute.
pub open spec fn lasting(events: Seq<Event>) -> bool {
    forall|i: int| 0 <= i < events.len() ==> (#[trigger] events[i]).duration > 0
}

} // verus!
