use calendar_layout::layout::layout;
use calendar_layout::matrix::build;
use calendar_layout::positions::calculate;
use calendar_layout::types::{Event, EventPosition};

fn event(id: u16, starts_at: u16, duration: u16) -> Event {
    Event { id, starts_at, duration, title: None, location: None }
}

fn position(id: u16, columns: usize, offset: usize) -> EventPosition {
    EventPosition { id, columns, offset }
}

fn day() -> Vec<Event> {
    vec![
        event(0, 60, 60),
        event(1, 70, 30),
        event(2, 110, 120),
        event(3, 110, 30),
        event(4, 200, 30),
        event(5, 220, 100),
        event(6, 310, 100),
    ]
}

#[test]
fn layout_is_calculate_of_build() {
    assert_eq!(layout(day()), calculate(build(day())));
}

#[test]
fn layout_of_the_day() {
    assert_eq!(
        layout(day()),
        vec![
            position(0, 3, 0),
            position(1, 3, 1),
            position(2, 3, 1),
            position(3, 3, 2),
            position(4, 3, 0),
            position(5, 3, 2),
            position(6, 3, 0),
        ]
    );
}

#[test]
fn events_that_do_not_overlap_take_the_whole_width() {
    let positions = layout(vec![
        event(0, 300, 30),
        event(1, 0, 30),
        event(2, 30, 30),
        event(3, 100, 1),
        event(4, 200, 100),
    ]);
    assert_eq!(positions.len(), 5);
    for p in &positions {
        assert_eq!(p.columns, 1);
        assert_eq!(p.offset, 0);
    }
}

#[test]
fn two_disjoint_events_take_the_whole_width() {
    let events = vec![event(0, 0, 30), event(1, 60, 30)];
    assert_eq!(build(events.clone()), vec![vec![0], vec![1]]);
    assert_eq!(layout(events), vec![position(0, 1, 0), position(1, 1, 0)]);
}

#[test]
fn every_event_gets_one_position() {
    let events = vec![
        event(0, 0, 10),
        event(1, 0, 10),
        event(2, 0, 10),
        event(3, 0, 100),
        event(4, 20, 30),
        event(5, 30, 30),
        event(6, 500, 0),
        event(7, 90, 20),
    ];
    let positions = layout(events.clone());
    assert_eq!(positions.len(), events.len());
    for e in &events {
        assert_eq!(positions.iter().filter(|p| p.id == e.id).count(), 1);
    }
}

#[test]
fn events_of_a_cluster_share_the_width_alike() {
    // three events that all run at minute 20
    let positions = layout(vec![event(0, 0, 60), event(1, 10, 60), event(2, 20, 60)]);
    assert_eq!(positions, vec![position(0, 3, 0), position(1, 3, 1), position(2, 3, 2)]);
}

#[test]
fn events_of_a_chain_may_get_different_widths() {
    // all five overlap in a chain, yet the first band shares nothing with the widest
    let positions = layout(vec![
        event(0, 0, 100),
        event(1, 10, 10),
        event(2, 50, 150),
        event(3, 150, 10),
        event(4, 151, 10),
    ]);
    assert_eq!(
        positions,
        vec![
            position(0, 2, 0),
            position(1, 2, 1),
            position(2, 3, 1),
            position(3, 3, 0),
            position(4, 3, 2),
        ]
    );
}

#[test]
fn members_of_a_band_may_get_the_same_offset() {
    let events =
        vec![event(0, 0, 10), event(1, 0, 10), event(2, 0, 100), event(3, 20, 30), event(4, 30, 30)];
    assert_eq!(build(events.clone()), vec![vec![0, 1, 2], vec![3, 2, 4]]);
    assert_eq!(
        layout(events),
        vec![
            position(0, 3, 0),
            position(1, 3, 1),
            position(2, 3, 2),
            position(3, 3, 0),
            position(4, 3, 2),
        ]
    );
}

#[test]
fn layout_twice_gives_the_same_positions() {
    assert_eq!(layout(day()), layout(day()));
}

#[test]
fn layout_of_no_events() {
    assert_eq!(layout(vec![]), vec![]);
}
