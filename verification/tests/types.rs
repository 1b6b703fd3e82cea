use calendar_layout::events::deserialize;
use calendar_layout::types::{Event, ExternalEvent, LayoutError};

fn event(starts_at: u16, duration: u16) -> Event {
    Event { id: 0, starts_at, duration, title: None, location: None }
}

#[test]
fn ends_at_is_start_plus_duration() {
    assert_eq!(event(60, 45).ends_at(), 105);
    assert_eq!(event(0, 0).ends_at(), 0);
    assert_eq!(event(65000, 535).ends_at(), 65535);
}

#[test]
fn overlap_of_half_open_intervals() {
    assert!(event(0, 30).overlap(&event(29, 10)));
    assert!(!event(0, 30).overlap(&event(30, 10)));
    assert!(!event(30, 10).overlap(&event(0, 30)));
    assert!(event(10, 10).overlap(&event(0, 100)));
}

#[test]
fn overlap_is_symmetric() {
    let a = event(60, 60);
    let b = event(110, 120);
    let c = event(200, 30);
    assert_eq!(a.overlap(&b), b.overlap(&a));
    assert_eq!(a.overlap(&c), c.overlap(&a));
    assert_eq!(b.overlap(&c), c.overlap(&b));
}

#[test]
fn overlap_of_an_event_of_no_duration() {
    assert!(!event(10, 0).overlap(&event(10, 0)));
    assert!(!event(10, 0).overlap(&event(10, 5)));
    assert!(event(10, 0).overlap(&event(5, 10)));
}

#[test]
fn overlap_beyond_the_last_minute_of_a_u16() {
    assert!(event(65000, 1000).overlap(&event(65500, 1000)));
    assert!(!event(100, 65535).overlap(&event(0, 100)));
}

#[test]
fn deserialize_numbers_the_events() {
    let events = deserialize(vec![
        ExternalEvent { starts_at: 60, duration: 60, title: Some("a".to_string()), location: None },
        ExternalEvent { starts_at: 10, duration: 5, title: None, location: Some("b".to_string()) },
        ExternalEvent { starts_at: 70, duration: 30, title: None, location: None },
    ]);
    assert_eq!(events.len(), 3);
    assert_eq!(events[0].id, 0);
    assert_eq!(events[1].id, 1);
    assert_eq!(events[2].id, 2);
    assert_eq!(events[0].starts_at, 60);
    assert_eq!(events[0].title, Some("a".to_string()));
    assert_eq!(events[1].duration, 5);
    assert_eq!(events[1].location, Some("b".to_string()));
    assert_eq!(events[2].title, None);
}

#[test]
fn deserialize_of_nothing() {
    assert_eq!(deserialize(vec![]).len(), 0);
}

#[test]
fn layout_error_says_what_it_is() {
    assert_eq!(LayoutError::InvalidInput.message(), "invalid event layout input");
}
