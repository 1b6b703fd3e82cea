use calendar_layout::positions::{calculate, width_of_band};
use calendar_layout::types::EventPosition;

fn as_fractions(positions: Vec<EventPosition>) -> Vec<(u16, f32, usize)> {
    positions.iter().map(|p| (p.id, 1.0 / p.columns as f32, p.offset)).collect()
}

#[test]
fn test_calculate() {
    assert_eq!(
        as_fractions(calculate(vec![vec![0, 1], vec![2, 1, 3], vec![2, 1, 4], vec![5]])),
        &[
            (0, 1.0 / 3.0, 0),
            (1, 1.0 / 3.0, 1),
            (2, 1.0 / 3.0, 0),
            (3, 1.0 / 3.0, 2),
            (4, 1.0 / 3.0, 2),
            (5, 1.0, 0),
        ]
    );

    assert_eq!(
        as_fractions(calculate(vec![vec![0], vec![1, 2], vec![3, 2, 4, 5], vec![6]])),
        &[
            (0, 1., 0),
            (1, 0.25, 0),
            (2, 0.25, 1),
            (3, 0.25, 0),
            (4, 0.25, 2),
            (5, 0.25, 3),
            (6, 1.0, 0),
        ]
    );
}

fn position(id: u16, columns: usize, offset: usize) -> EventPosition {
    EventPosition { id, columns, offset }
}

#[test]
fn calculate_of_no_bands_is_no_positions() {
    assert_eq!(calculate(vec![]), vec![]);
}

#[test]
fn calculate_counts_columns_exactly() {
    assert_eq!(
        calculate(vec![vec![0, 1], vec![2, 1, 3], vec![2, 1, 4], vec![5]]),
        vec![
            position(0, 3, 0),
            position(1, 3, 1),
            position(2, 3, 0),
            position(3, 3, 2),
            position(4, 3, 2),
            position(5, 1, 0),
        ]
    );
}

#[test]
fn calculate_for_a_day_of_seven_events() {
    assert_eq!(
        calculate(vec![vec![0, 1], vec![0, 2, 3], vec![4, 2, 5], vec![6, 5]]),
        vec![
            position(0, 3, 0),
            position(1, 3, 1),
            position(2, 3, 1),
            position(3, 3, 2),
            position(4, 3, 0),
            position(5, 3, 2),
            position(6, 3, 0),
        ]
    );
}

#[test]
fn calculate_keeps_the_first_placement() {
    // 1 stands at place 1 first and at place 0 later
    assert_eq!(
        calculate(vec![vec![0, 1], vec![1, 2]]),
        vec![position(0, 2, 0), position(1, 2, 1), position(2, 2, 1)]
    );
}

#[test]
fn calculate_width_looks_no_further_than_one_band() {
    // the first band shares nothing with the widest
    assert_eq!(
        calculate(vec![vec![0, 1], vec![0, 2], vec![3, 2, 4]]),
        vec![
            position(0, 2, 0),
            position(1, 2, 1),
            position(2, 3, 1),
            position(3, 3, 0),
            position(4, 3, 2),
        ]
    );
}

#[test]
fn calculate_passes_over_an_empty_band() {
    assert_eq!(calculate(vec![vec![], vec![8]]), vec![position(8, 1, 0)]);
}

#[test]
fn calculate_gives_every_position_a_column() {
    let positions = calculate(vec![vec![0, 1], vec![0, 2, 3], vec![4, 2, 5], vec![6, 5]]);
    assert!(positions.iter().all(|p| p.columns >= 1));
}

#[test]
fn width_of_band_is_the_longest_sharing_band() {
    let matrix = vec![vec![0, 1], vec![0, 2, 3], vec![4, 2, 5], vec![6]];
    assert_eq!(width_of_band(&matrix, 0), 3);
    assert_eq!(width_of_band(&matrix, 3), 1);
}
