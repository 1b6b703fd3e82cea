use calendar_layout::order::sort_by_start;
use calendar_layout::types::Event;

fn event(id: u16, starts_at: u16) -> Event {
    Event { id, starts_at, duration: 10, title: None, location: None }
}

fn ids(events: Vec<Event>) -> Vec<u16> {
    events.iter().map(|e| e.id).collect()
}

#[test]
fn sort_by_start_orders_by_start() {
    let sorted = sort_by_start(vec![event(0, 120), event(1, 240), event(2, 75), event(3, 0)]);
    assert_eq!(ids(sorted), vec![3, 2, 0, 1]);
}

#[test]
fn sort_by_start_is_stable() {
    let sorted = sort_by_start(vec![
        event(0, 50),
        event(1, 10),
        event(2, 50),
        event(3, 10),
        event(4, 50),
        event(5, 10),
    ]);
    assert_eq!(ids(sorted), vec![1, 3, 5, 0, 2, 4]);
}

#[test]
fn sort_by_start_of_nothing() {
    assert_eq!(sort_by_start(vec![]).len(), 0);
}

#[test]
fn sort_by_start_keeps_what_the_events_hold() {
    let sorted = sort_by_start(vec![
        Event { id: 0, starts_at: 9, duration: 3, title: Some("b".to_string()), location: None },
        Event { id: 1, starts_at: 4, duration: 7, title: None, location: Some("a".to_string()) },
    ]);
    assert_eq!(sorted[0].id, 1);
    assert_eq!(sorted[0].duration, 7);
    assert_eq!(sorted[0].location, Some("a".to_string()));
    assert_eq!(sorted[1].title, Some("b".to_string()));
}
