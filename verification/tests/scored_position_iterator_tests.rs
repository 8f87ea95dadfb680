use connect_four::board::scored_position_iterator::ScoredPositionIterator;
use connect_four::board::{Position, GAME_WIDTH};

fn get_single_square_positions() -> Vec<Position> {
    (0..GAME_WIDTH).map(|col| {
        let mut single_square_position = Position::new_blank_game();
        let _ = single_square_position.play_column(col);
        single_square_position
    }).collect()
}

// Tests that the iterator returns results then repeatedly returns None
#[test]
fn test_sorter_with_zero_elements() {
    let mut scored_position_iterator = ScoredPositionIterator::new();
    assert_eq!(None, scored_position_iterator.next());
    assert_eq!(None, scored_position_iterator.next());
}

#[test]
fn test_sorter_with_one_elements() {
    let input_positions = get_single_square_positions();
    let mut scored_position_iterator = ScoredPositionIterator::new();

    scored_position_iterator.add(input_positions[0], 0);

    assert_eq!(Some(input_positions[0]), scored_position_iterator.next());
    assert_eq!(None, scored_position_iterator.next());
    assert_eq!(None, scored_position_iterator.next());
}

#[test]
fn test_sorter_with_two_elements() {
    let input_positions = get_single_square_positions();
    let mut scored_position_iterator = ScoredPositionIterator::new();

    scored_position_iterator.add(input_positions[0], 0);
    scored_position_iterator.add(input_positions[1], 0);

    assert_eq!(Some(input_positions[1]), scored_position_iterator.next());
    assert_eq!(Some(input_positions[0]), scored_position_iterator.next());
    assert_eq!(None, scored_position_iterator.next());
    assert_eq!(None, scored_position_iterator.next());
}

// Tests the fact that if we put in all ties, it will function as a stack
#[test]
fn test_stable_sort() {
    let input_positions = get_single_square_positions();
    let mut scored_position_iterator = ScoredPositionIterator::new();

    for &position in &input_positions {
        scored_position_iterator.add(position, 0);
    }

    let mut iterator_result: Vec<Position> = scored_position_iterator.collect_positions();
    iterator_result.reverse();
    assert_eq!(input_positions, iterator_result)
}

#[test]
fn test_normal_sort() {
    let input_positions = get_single_square_positions();
    let mut scored_position_iterator = ScoredPositionIterator::new();

    let scores = [3, 2, 6, 7, 5, 4, 1];
    let expected_order = [3, 2, 4, 5, 0, 1, 6];

    let mut expected_output_positions = Vec::new();

    for i in 0..scores.len() {
        expected_output_positions.push(input_positions[expected_order[i]]);
        scored_position_iterator.add(input_positions[i], scores[i]);
    }

    let actual_positions: Vec<Position> = scored_position_iterator.collect_positions();
    assert_eq!(expected_output_positions, actual_positions);
}

// Some ties, some different scores
// Expect to sort as much as possible, then treat the ties like a stack
#[test]
fn test_hybrid_sort() {
    let input_positions = get_single_square_positions();
    let mut scored_position_iterator = ScoredPositionIterator::new();

    let scores = [3, 3, 6, 7, 5, 5, 1];
    let expected_order = [3, 2, 5, 4, 1, 0, 6];

    let mut expected_output_positions = Vec::new();

    for i in 0..scores.len() {
        expected_output_positions.push(input_positions[expected_order[i]]);
        scored_position_iterator.add(input_positions[i], scores[i]);
    }

    let actual_positions: Vec<Position> = scored_position_iterator.collect_positions();
    assert_eq!(expected_output_positions, actual_positions);
}
