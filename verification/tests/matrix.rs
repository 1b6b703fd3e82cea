use calendar_layout::matrix::{
    build, carry_forward, get_event_by_id, get_two_last_rows, should_create_row,
};
use calendar_layout::types::Event;

fn event(id: u16, starts_at: u16, duration: u16) -> Event {
    Event { id, starts_at, duration, title: None, location: None }
}

#[test]
fn test_build() {
    assert_eq!(
        build(vec![
            event(0, 120, 45),
            event(1, 240, 60),
            event(2, 75, 60),
            event(3, 360, 25),
            event(4, 420, 120),
        ]),
        vec![vec![2, 0], vec![1], vec![3], vec![4]]
    );

    assert_eq!(
        build(vec![
            event(0, 120, 45),
            event(1, 240, 160),
            event(2, 75, 60),
            event(3, 360, 25),
            event(4, 420, 120),
            event(5, 90, 280),
        ]),
        vec![vec![2, 5, 0], vec![1, 5, 3], vec![4]]
    );

    assert_eq!(
        build(vec![
            event(0, 60, 60),
            event(1, 70, 30),
            event(2, 110, 120),
            event(3, 110, 30),
            event(4, 200, 30),
            event(5, 220, 100),
            event(6, 310, 100),
        ]),
        vec![vec![0, 1], vec![0, 2, 3], vec![4, 2, 5], vec![6, 5]]
    );
}

#[test]
fn build_of_no_events_is_no_bands() {
    assert_eq!(build(vec![]), Vec::<Vec<u16>>::new());
}

#[test]
fn build_of_one_event_is_one_band() {
    assert_eq!(build(vec![event(7, 30, 15)]), vec![vec![7]]);
}

#[test]
fn build_of_a_day_of_seven_events() {
    assert_eq!(
        build(vec![
            event(0, 60, 60),
            event(1, 70, 30),
            event(2, 110, 120),
            event(3, 110, 30),
            event(4, 200, 30),
            event(5, 220, 100),
            event(6, 310, 100),
        ]),
        vec![vec![0, 1], vec![0, 2, 3], vec![4, 2, 5], vec![6, 5]]
    );
}

#[test]
fn build_of_two_disjoint_events_is_two_singleton_bands() {
    assert_eq!(build(vec![event(0, 0, 30), event(1, 60, 30)]), vec![vec![0], vec![1]]);
}

#[test]
fn build_keeps_touching_events_apart() {
    // the first ends at the minute at which the second starts
    assert_eq!(build(vec![event(0, 0, 30), event(1, 30, 30)]), vec![vec![0], vec![1]]);
}

#[test]
fn build_keeps_input_order_among_equal_starts() {
    assert_eq!(
        build(vec![event(3, 10, 20), event(1, 10, 20), event(2, 10, 20)]),
        vec![vec![3, 1, 2]]
    );
    assert_eq!(
        build(vec![event(2, 10, 20), event(1, 10, 20), event(3, 10, 20)]),
        vec![vec![2, 1, 3]]
    );
    // an earlier start goes first wherever it stands in the input
    assert_eq!(
        build(vec![event(3, 10, 20), event(1, 10, 20), event(2, 5, 20)]),
        vec![vec![2, 3, 1]]
    );
}

#[test]
fn build_carries_overlapping_members_forward() {
    // a and b end early, c goes on; e starts after a and b ended
    assert_eq!(
        build(vec![event(0, 0, 10), event(1, 0, 10), event(2, 0, 100), event(3, 20, 30)]),
        vec![vec![0, 1, 2], vec![3, 2]]
    );
}

#[test]
fn build_may_hold_an_identifier_twice_in_a_band() {
    assert_eq!(
        build(vec![
            event(0, 0, 10),
            event(1, 0, 10),
            event(2, 0, 10),
            event(3, 0, 100),
            event(4, 20, 30),
            event(5, 30, 30),
        ]),
        vec![vec![0, 1, 2, 3], vec![4, 3, 5, 3]]
    );
}

#[test]
fn build_with_events_of_no_duration() {
    // an event of no duration overlaps nothing that starts with it
    assert_eq!(build(vec![event(0, 10, 0), event(1, 10, 5)]), vec![vec![0], vec![1]]);
    // but it overlaps an event that runs across it
    assert_eq!(build(vec![event(0, 0, 20), event(1, 10, 0)]), vec![vec![0, 1]]);
}

#[test]
fn build_takes_ends_beyond_the_last_minute_of_a_u16() {
    assert_eq!(
        build(vec![event(0, 65000, 1000), event(1, 65500, 1000)]),
        vec![vec![0, 1]]
    );
}

#[test]
fn build_twice_gives_the_same_bands() {
    let events = vec![event(0, 60, 60), event(1, 70, 30), event(2, 110, 120), event(3, 110, 30)];
    assert_eq!(build(events.clone()), build(events));
}

#[test]
fn get_event_by_id_finds_the_first() {
    let events = vec![event(4, 0, 10), event(9, 5, 10), event(4, 7, 10)];
    assert_eq!(get_event_by_id(&events, 9).map(|e| e.starts_at), Some(5));
    assert_eq!(get_event_by_id(&events, 4).map(|e| e.starts_at), Some(0));
    assert!(get_event_by_id(&events, 5).is_none());
}

#[test]
fn should_create_row_when_a_member_does_not_overlap() {
    let events = vec![event(0, 0, 10), event(1, 5, 30), event(2, 20, 10)];
    assert_eq!(should_create_row(&events[2], &vec![0, 1], &events), true);
    assert_eq!(should_create_row(&events[2], &vec![1], &events), false);
    assert_eq!(should_create_row(&events[2], &vec![], &events), false);
}

#[test]
fn carry_forward_fills_the_row() {
    let events = vec![event(0, 0, 10), event(1, 0, 10), event(2, 0, 100), event(3, 20, 30)];
    let mut row = vec![];
    carry_forward(&vec![0, 1, 2], &mut row, &events[3], &events);
    assert_eq!(row, vec![3, 2]);
}

#[test]
fn get_two_last_rows_gives_the_last_two() {
    let mut matrix = vec![vec![1], vec![2, 3], vec![4]];
    {
        let (before_last, last) = get_two_last_rows(&mut matrix);
        assert_eq!(before_last, &vec![2, 3]);
        last.push(5);
    }
    assert_eq!(matrix, vec![vec![1], vec![2, 3], vec![4, 5]]);
}
