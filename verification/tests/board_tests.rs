use connect_four::board::bitmap::{
    compute_playable_column_mask, BITMAP_COLUMN_HEIGHT, BITMAP_ROW_WIDTH,
};
use connect_four::board::gameplay_methods::{EndState, GameState, PlayColumnError};
use connect_four::live_evaluation::mtd::Solver;
use connect_four::board::scored_position_iterator::INSIDE_OUT_COLUMN_ORDER;
use connect_four::board::{Position, GAME_WIDTH};

/* Blank Position:
    * * * * * * *
    * * * * * * *
    * * * * * * *
    * * * * * * *
    * * * * * * *
    * * * * * * *
 */
const BLANK_POSITION: Position = Position { current_player_stones: 0, both_players_mask: 0, moves_played: 0 };

/* Vertical Position:
    * * * * * * *
    * * * * * * *
    * * * * * * *
    1 0 * * * * *
    1 0 * * * * *
    1 0 * * * * *
 */
const VERTICAL: Position = Position { current_player_stones: 0x7, both_players_mask: 0x387, moves_played: 6 };

/* Horizontal Position:
    * * * * * * *
    * * * * * * *
    * * * * * * *
    * * * * * * *
    * * 0 0 0 * *
    * * 1 1 1 * *
 */
const HORIZONTAL: Position = Position { current_player_stones: 0x10204000, both_players_mask: 0x3060C000, moves_played: 6 };

/* Pre-Horizontal Position:
    * * * * * * *
    * * * * * * *
    * * * * * * *
    * * * * * * *
    * * 0 0 * * *
    * * 1 1 * * *
 */
const PRE_HORIZONTAL: Position = Position { current_player_stones: 0x204000, both_players_mask: 0x60C000, moves_played: 4 };

/* Up-Left-Down-Right Diagonal Position:
    * * * * * * *
    * * * * * * *
    * 1 1 * * * *
    * 0 0 1 * * *
    * 1 1 0 1 * *
    0 0 0 1 0 * *
 */
const UP_LEFT_DOWN_RIGHT_DIAGONAL: Position = Position { current_player_stones: 0x20A28500, both_players_mask: 0x30E3C781, moves_played: 14 };

/* Down-Left-Up-Right Diagonal Position:
    * * * * * * *
    * * * * * * *
    * * * * 1 1 *
    * * * 1 0 0 *
    * * 1 0 1 1 *
    * * 0 1 0 0 0
 */
const DOWN_LEFT_UP_RIGHT_DIAGONAL: Position = Position { current_player_stones: 0x50A0A08000, both_players_mask: 0x478F0E0C000, moves_played: 14 };

/* Drawn Position:
   0 0 0 1 0 0 1
   0 1 1 0 1 1 1
   0 0 0 1 0 0 1
   1 1 1 0 1 1 0
   1 0 0 1 0 0 0
   1 1 1 0 1 1 0
*/
const DRAWN: Position = Position { current_player_stones: 0xE0A955454A87, both_players_mask: 0xFDFBF7EFDFBF, moves_played: 42 };

/* Connect 20 (just won in middle column, the numbers switch. So the 0's won):
   1 0 1 * 1 0 *
   1 1 0 * 0 1 1
   0 0 0 0 0 0 0
   1 1 0 0 0 1 1
   1 0 1 0 1 0 1
   0 1 1 0 1 1 0
*/
const CONNECT_TWENTY: Position = Position { current_player_stones: 0x58AA3008CAB6, both_players_mask: 0x7DFBF1EFDFBF, moves_played: 39 };

/* Complex Position:
    * * 0 * * * *
    * 1 0 1 0 0 *
    * 1 1 1 0 0 *
    0 1 0 0 1 0 *
    0 0 1 0 1 1 *
    1 0 0 1 1 0 *
 */
const COMPLEX_POSITION: Position = Position { current_player_stones: 0x1073228E01, both_players_mask: 0xF9F3EFCF87, moves_played: 29 };

/* Middle-Column-Full Position:
    * * * 0 * * *
    * * * 1 * * *
    * * * 0 * * *
    * * * 1 * * *
    * * * 0 * * *
    * * * 1 * * *
 */
const MIDDLE_COLUMN_FULL: Position = Position { current_player_stones: 0x2A00000, both_players_mask: 0x7E00000, moves_played: 6 };

const TESTING_POSITIONS: [Position; 10] = [
    BLANK_POSITION,
    VERTICAL,
    HORIZONTAL,
    PRE_HORIZONTAL,
    UP_LEFT_DOWN_RIGHT_DIAGONAL,
    DOWN_LEFT_UP_RIGHT_DIAGONAL,
    DRAWN,
    CONNECT_TWENTY,
    COMPLEX_POSITION,
    MIDDLE_COLUMN_FULL,
];

// bitmap

#[test]
fn test_transposition_table_can_hold_bitmap() {
    // The table stores 32 bits of the key and indexes by about 2^23 slots
    assert!(BITMAP_ROW_WIDTH * BITMAP_COLUMN_HEIGHT <= 54);
}

#[test]
fn test_compute_playable_column_mask() {
    assert_eq!(0x3F, compute_playable_column_mask(0));
    assert_eq!(0x7E00000, compute_playable_column_mask(3));
}

// display

#[test]
fn test_display_blank() {
    let expected = "\
position:
* * * * * * *
* * * * * * *
* * * * * * *
* * * * * * *
* * * * * * *
* * * * * * *

moves_played: 0";
    assert_eq!(expected, BLANK_POSITION.display_string());
}

#[test]
fn test_display_vertical() {
    let expected = "\
position:
* * * * * * *
* * * * * * *
* * * * * * *
1 0 * * * * *
1 0 * * * * *
1 0 * * * * *

moves_played: 6";
    assert_eq!(expected, VERTICAL.display_string());
}

#[test]
fn test_display_complex() {
    let expected = "\
position:
* * 0 * * * *
* 1 0 1 0 0 *
* 1 1 1 0 0 *
0 1 0 0 1 0 *
0 0 1 0 1 1 *
1 0 0 1 1 0 *

moves_played: 29";
    assert_eq!(expected, COMPLEX_POSITION.display_string());
}

#[test]
fn test_to_connect_four_indices() {
    assert!(Position::to_connect_four_indices(DRAWN.current_player_stones ^ DRAWN.both_players_mask).is_empty());

    let expected_twenty_indices = vec![
             1,              5,
                 9,     11,
        14, 15, 16, 17, 18, 19, 20,
                23, 24, 25,
            29,     31,     33,
        35,         38,         41,
    ];
    let mut actual_twenty_indices = Position::to_connect_four_indices(CONNECT_TWENTY.current_player_stones ^ CONNECT_TWENTY.both_players_mask);
    actual_twenty_indices.sort();
    assert_eq!(expected_twenty_indices, actual_twenty_indices);
}

// gameplay

#[test]
fn test_prior_player_has_won() {
    // First show that neither player won the complex position prior to these moves
    assert!(!Position::position_has_connect_four(COMPLEX_POSITION.current_player_stones));
    assert!(!Position::position_has_connect_four(COMPLEX_POSITION.current_player_stones ^ COMPLEX_POSITION.both_players_mask));

    let mut vertical_complex_win = COMPLEX_POSITION;
    let _ = vertical_complex_win.play_column(1);
    assert!(vertical_complex_win.get_game_state() == GameState::Ended(EndState::PriorPlayerWon));

    let mut horizontal_complex_win = COMPLEX_POSITION;
    let _ = horizontal_complex_win.play_column(0);
    assert!(horizontal_complex_win.get_game_state() == GameState::Ended(EndState::PriorPlayerWon));

    let mut up_left_down_right_diagonal_win = COMPLEX_POSITION;
    let _ = up_left_down_right_diagonal_win.play_column(6);
    assert!(up_left_down_right_diagonal_win.get_game_state() == GameState::Ended(EndState::PriorPlayerWon));

    let mut down_left_up_right_diagonal_win = COMPLEX_POSITION;
    let _ = down_left_up_right_diagonal_win.play_column(4);
    assert!(down_left_up_right_diagonal_win.get_game_state() == GameState::Ended(EndState::PriorPlayerWon));
}

#[test]
fn test_can_play_blank() {
    let all_true = [true; GAME_WIDTH as usize];
    let actual: [bool; GAME_WIDTH as usize] = std::array::from_fn(|col| BLANK_POSITION.column_is_open(col as u8));
    assert_eq!(all_true, actual);
}

#[test]
fn test_can_play_complex() {
    let all_columns_except_one = [true, true, false, true, true, true, true];
    let actual: [bool; GAME_WIDTH as usize] = std::array::from_fn(|col| COMPLEX_POSITION.column_is_open(col as u8));
    assert_eq!(all_columns_except_one, actual);
}

#[test]
fn test_is_winning_move_complex() {
    let expected = [true, true, false, false, true, false, true];
    let actual: [bool; GAME_WIDTH as usize] = std::array::from_fn(|col| {
        let mut complex_position = COMPLEX_POSITION;
        let _ = complex_position.play_column(col as u8);
        complex_position.get_game_state() == GameState::Ended(EndState::PriorPlayerWon)
    });
    assert_eq!(expected, actual);
}

#[test]
fn test_blank_has_no_winning_moves() {
    let all_false = [false; GAME_WIDTH as usize];
    let actual: [bool; GAME_WIDTH as usize] = std::array::from_fn(|col| {
        let mut blank_position = BLANK_POSITION;
        let _ = blank_position.play_column(col as u8);
        blank_position.get_game_state() == GameState::Ended(EndState::PriorPlayerWon)
    });
    assert_eq!(all_false, actual);
}

#[test]
fn test_play_col_throws_the_win() {
    let either_player_can_win = COMPLEX_POSITION;

    let mut plays_winning_column = either_player_can_win;
    let _ = plays_winning_column.play_column(0);
    assert!(plays_winning_column.get_game_state() == GameState::Ended(EndState::PriorPlayerWon));

    let mut plays_losing_column = either_player_can_win;
    let _ = plays_losing_column.play_column(3);
    assert!(plays_losing_column.get_game_state() == GameState::InProgress);

    let _ = plays_losing_column.play_column(5);
    assert!(plays_losing_column.get_game_state() == GameState::Ended(EndState::PriorPlayerWon));
}

// keys

#[test]
fn test_get_key() {
    assert_eq!(0, BLANK_POSITION.get_key());
    assert_eq!(0x10A67125D88, COMPLEX_POSITION.get_key());
}

#[test]
fn test_get_mirror_key() {
    /* The mirrored complex position should look like:
            * * * * 0 * *
            * 0 0 1 0 1 *
            * 0 0 1 1 1 *
            * 0 1 0 0 1 0
            * 1 1 0 1 0 0
            * 0 1 1 0 0 1
     */
    let mirror_complex = Position { current_player_stones: 0x4E0A321C100, both_players_mask: 0x1CFBF3E7CF80, moves_played: 29 };

    // Proves that the positions are different (non symmetrical position)
    assert_ne!(COMPLEX_POSITION.get_key(), mirror_complex.get_key());

    // But they are actually mirrors of each other
    assert_eq!(mirror_complex.get_key(), COMPLEX_POSITION.get_mirror_key());
    assert_eq!(COMPLEX_POSITION.get_key(), mirror_complex.get_mirror_key());

    let mut symmetrical_position = BLANK_POSITION;

    // Fill in the bottom-row
    for i in 0..GAME_WIDTH {
        let _ = symmetrical_position.play_column(i);
    }
    assert_eq!(symmetrical_position.get_key(), symmetrical_position.get_mirror_key());

    // Fill in the middle column
    let _ = symmetrical_position.play_column(GAME_WIDTH / 2);
    assert_eq!(symmetrical_position.get_key(), symmetrical_position.get_mirror_key());
}

#[test]
fn test_from_key_round_trip() {
    let original = TESTING_POSITIONS;
    let after_round_trip: [Position; 10] = std::array::from_fn(|i| Position::from_key(TESTING_POSITIONS[i].get_key()));
    assert_eq!(original, after_round_trip);
}

#[test]
fn test_from_key_and_moves_played_round_trip() {
    let original = TESTING_POSITIONS;
    let after_round_trip: [Position; 10] = std::array::from_fn(|i| {
        let key = TESTING_POSITIONS[i].get_key();
        let moves_played = TESTING_POSITIONS[i].moves_played;
        Position::from_key_and_moves_played(key, moves_played)
    });
    assert_eq!(original, after_round_trip);
}

// min-max methods

#[test]
fn test_play_square_throws_the_win() {
    let either_player_can_win = COMPLEX_POSITION;

    let mut plays_winning_column = either_player_can_win;
    let _ = plays_winning_column.play_column(0);
    assert!(plays_winning_column.get_game_state() == GameState::Ended(EndState::PriorPlayerWon));

    let mut plays_losing_square = either_player_can_win;
    // Corresponds to playing the 3rd column
    plays_losing_square.play_square(0x4000000);
    assert!(plays_losing_square.get_game_state() == GameState::InProgress);

    let _ = plays_losing_square.play_column(5);
    assert!(plays_losing_square.get_game_state() == GameState::Ended(EndState::PriorPlayerWon));
}

// Test can_win_next in each possible way
#[test]
fn test_can_win_next_vertical() {
    let mut vertical = VERTICAL;
    assert!(vertical.can_win_next());

    // block off the winning column
    let _ = vertical.play_column(1);
    let _ = vertical.play_column(0);
    assert!(!vertical.can_win_next());
}

#[test]
fn test_can_win_next_horizontal() {
    let mut horizontal = HORIZONTAL;
    assert!(horizontal.can_win_next());

    // block off one winning column
    let _ = horizontal.play_column(3);
    let _ = horizontal.play_column(1);
    assert!(horizontal.can_win_next());

    // block off the other
    let _ = horizontal.play_column(1);
    let _ = horizontal.play_column(5);
    assert!(!horizontal.can_win_next());
}

#[test]
fn test_can_win_next_up_left_down_right_diagonal() {
    let mut up_left_down_right_diagonal = UP_LEFT_DOWN_RIGHT_DIAGONAL;
    assert!(up_left_down_right_diagonal.can_win_next());

    // block off one winning column
    let _ = up_left_down_right_diagonal.play_column(0);
    let _ = up_left_down_right_diagonal.play_column(1);
    assert!(up_left_down_right_diagonal.can_win_next());

    // block off the other
    let _ = up_left_down_right_diagonal.play_column(6);
    let _ = up_left_down_right_diagonal.play_column(5);
    assert!(!up_left_down_right_diagonal.can_win_next());
}

#[test]
fn test_can_win_next_down_right_up_left_diagonal() {
    let mut down_right_up_left_diagonal = DOWN_LEFT_UP_RIGHT_DIAGONAL;
    assert!(down_right_up_left_diagonal.can_win_next());

    // block off one winning column
    let _ = down_right_up_left_diagonal.play_column(6);
    let _ = down_right_up_left_diagonal.play_column(5);
    assert!(down_right_up_left_diagonal.can_win_next());

    // block off the other
    let _ = down_right_up_left_diagonal.play_column(0);
    let _ = down_right_up_left_diagonal.play_column(1);
    assert!(!down_right_up_left_diagonal.can_win_next());
}

// Test possible NonLosing Moves in several ways
#[test]
fn test_possible_non_losing_moves() {
    // Every Move is playable
    assert_eq!(0x40810204081, BLANK_POSITION.possible_non_losing_moves());
    assert!(!BLANK_POSITION.all_moves_immediately_lose());

    // The playable moves are simply non-full columns
    let mut complex_position = COMPLEX_POSITION;
    let _ = complex_position.play_column(5);
    let _ = complex_position.play_column(6);
    assert_eq!(0x80204001008, complex_position.possible_non_losing_moves());
    assert!(!complex_position.all_moves_immediately_lose());

    // The only playable move blocks an opponent's winning move
    let mut vertical = VERTICAL;
    let _ = vertical.play_column(1);
    assert_eq!(0x8, vertical.possible_non_losing_moves());
    assert!(!vertical.all_moves_immediately_lose());

    // Opponent can win in two spots, so we are done
    let mut horizontal = HORIZONTAL;
    let _ = horizontal.play_column(0);
    assert_eq!(0x0, horizontal.possible_non_losing_moves());
    assert!(horizontal.all_moves_immediately_lose());

    // Do not build under an opponent and let them win
    let _ = horizontal.play_column(1);
    let _ = horizontal.play_column(1);
    let _ = horizontal.play_column(5);
    let _ = horizontal.play_column(5);
    let _ = horizontal.play_column(3);
    assert_eq!(0x42001000202, horizontal.possible_non_losing_moves());
    assert!(!horizontal.all_moves_immediately_lose());

    // You play a move to block a direct win, but that builds under a different win
    let _ = horizontal.play_column(6);
    let _ = horizontal.play_column(2);
    let _ = horizontal.play_column(6);
    let _ = horizontal.play_column(1);
    assert_eq!(0x0, horizontal.possible_non_losing_moves());
    assert!(horizontal.all_moves_immediately_lose());
}

#[test]
fn test_move_score() {
    let mut down_left_up_right_diagonal = DOWN_LEFT_UP_RIGHT_DIAGONAL;
    assert_eq!(2, down_left_up_right_diagonal.move_score(0x1));

    // Flip whose move it is by playing a useless move
    down_left_up_right_diagonal.play_square(0x1);

    // Check creating an alignment versus one that does not
    assert_eq!(0, down_left_up_right_diagonal.move_score(0x2));
    assert_eq!(1, down_left_up_right_diagonal.move_score(0x10000));
}

#[test]
fn test_blank_position_iterates_middle_out() {
    let expected_middle_out: Vec<Position> = INSIDE_OUT_COLUMN_ORDER.into_iter()
        .map(|col| {
            let mut first_move_played = BLANK_POSITION;
            let _ = first_move_played.play_column(col);
            first_move_played})
        .collect();
    let actual: Vec<Position> = BLANK_POSITION.get_non_losing_child_positions().collect_positions();
    assert_eq!(expected_middle_out, actual);
}

#[test]
fn test_child_positions_prefer_alignments() {
    let expected_column_order = [4, 1, 5, 0, 3, 2, 6];

    let expected_child_positions: Vec<Position> = expected_column_order.into_iter()
        .map(|col| {
            let mut fifth_move_played = PRE_HORIZONTAL;
            let _ = fifth_move_played.play_column(col);
            fifth_move_played})
        .collect();
    let actual: Vec<Position> = PRE_HORIZONTAL.get_non_losing_child_positions().collect_positions();
    assert_eq!(expected_child_positions, actual);
}

#[test]
fn test_child_positions_iterator_skips_full_columns() {
    let expected_column_order = [2, 4, 1, 5, 0, 6];

    let expected_child_positions: Vec<Position> = expected_column_order.into_iter()
        .map(|col| {
            let mut seventh_move_played = MIDDLE_COLUMN_FULL;
            let _ = seventh_move_played.play_column(col);
            seventh_move_played})
        .collect();
    let actual: Vec<Position> = MIDDLE_COLUMN_FULL.get_non_losing_child_positions().collect_positions();
    assert_eq!(expected_child_positions, actual);
}

#[test]
fn test_full_board_is_drawn_and_refuses_moves() {
    assert_eq!(GameState::Ended(EndState::Drawn), DRAWN.get_game_state());
    let mut position = DRAWN;
    assert_eq!(Err(PlayColumnError::GameOver(EndState::Drawn)), position.play_column(3));
    assert_eq!(DRAWN, position);
    assert!(!DRAWN.can_win_next());
    assert!(DRAWN.all_moves_immediately_lose());
    // A full board scores a draw
    let mut solver = Solver::new();
    assert_eq!(0, solver.solve(DRAWN));
}

#[test]
fn test_play_column_order_of_refusals() {
    // A column that does not exist is refused before anything else
    let mut position = DRAWN;
    assert_eq!(Err(PlayColumnError::ColumnDoesNotExist(7)), position.play_column(7));
    // A finished game is refused before a full column
    let mut won = VERTICAL;
    won.play_column(0).unwrap();
    assert_eq!(GameState::Ended(EndState::PriorPlayerWon), won.get_game_state());
    assert_eq!(Err(PlayColumnError::GameOver(EndState::PriorPlayerWon)), won.play_column(0));
}
