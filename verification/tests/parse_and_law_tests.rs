use connect_four::board::gameplay_methods::{EndState, GameState, PlayColumnError};
use connect_four::board::Position;
use connect_four::live_evaluation::transposition_table::{
    is_prime, TableKey, TableResult, TranspositionTable, TABLE_SIZE_U32,
};
use connect_four::parse::{parse_line, ParseLineError};

#[test]
fn test_parse_line_reads_moves_and_score() {
    let (position, eval) = parse_line("4455 -3").unwrap();
    assert_eq!(-3, eval);
    assert_eq!(4, position.moves_played);
    // Columns 4 and 5 (indices 3 and 4) hold two stones each
    assert_eq!((0b11u64 << 21) | (0b11u64 << 28), position.both_players_mask);
    // The player to move played the bottom stone of each
    assert_eq!((1u64 << 21) | (1u64 << 28), position.current_player_stones);
}

#[test]
fn test_parse_line_signed_scores() {
    assert_eq!(5, parse_line("1 +5").unwrap().1);
    assert_eq!(-128, parse_line("1 -128").unwrap().1);
    assert_eq!(127, parse_line("1 127").unwrap().1);
    assert_eq!(0, parse_line(" 0").unwrap().1);
}

#[test]
fn test_parse_line_missing_space() {
    assert_eq!(Err(ParseLineError::MissingSpace), parse_line("4455"));
}

#[test]
fn test_parse_line_not_a_digit() {
    assert_eq!(Err(ParseLineError::NotADigit('a')), parse_line("44a5 0"));
}

#[test]
fn test_parse_line_column_does_not_exist() {
    assert_eq!(
        Err(ParseLineError::IllegalMove(PlayColumnError::ColumnDoesNotExist(7))),
        parse_line("8 0"),
    );
}

#[test]
fn test_parse_line_column_full() {
    assert_eq!(Err(ParseLineError::IllegalMove(PlayColumnError::ColumnFull(0))), parse_line("1111111 0"));
}

#[test]
fn test_parse_line_game_over() {
    // The first player completes four in column 1 with the seventh stone
    assert_eq!(
        Err(ParseLineError::IllegalMove(PlayColumnError::GameOver(EndState::PriorPlayerWon))),
        parse_line("12121212 0"),
    );
}

#[test]
fn test_parse_line_invalid_evaluation() {
    assert_eq!(Err(ParseLineError::InvalidEvaluation), parse_line("12 x"));
    assert_eq!(Err(ParseLineError::InvalidEvaluation), parse_line("12 128"));
    assert_eq!(Err(ParseLineError::InvalidEvaluation), parse_line("12 -129"));
    assert_eq!(Err(ParseLineError::InvalidEvaluation), parse_line("12 "));
    assert_eq!(Err(ParseLineError::InvalidEvaluation), parse_line("12 -"));
}

#[test]
fn test_parsed_positions_alternate() {
    for line in ["1 0", "4455 0", "121744726561114647625524372541 -2", "177736561733566374376634215 2"] {
        let (position, _) = parse_line(line).unwrap();
        assert!(position.is_valid());
        assert_eq!(position.moves_played as u32 / 2, position.current_player_stones.count_ones());
    }
}

#[test]
fn test_game_state_after_win_and_draw() {
    let (won, _) = parse_line("1212121 0").unwrap();
    assert_eq!(GameState::Ended(EndState::PriorPlayerWon), won.get_game_state());
    let (in_progress, _) = parse_line("121212 0").unwrap();
    assert_eq!(GameState::InProgress, in_progress.get_game_state());
}

#[test]
fn test_keys_tell_positions_apart() {
    let (a, _) = parse_line("4455 0").unwrap();
    // The same moves in another order give the same position, and the same key
    let (same, _) = parse_line("5544 0").unwrap();
    assert_eq!(a, same);
    assert_eq!(a.get_key(), same.get_key());
    let (b, _) = parse_line("4545 0").unwrap();
    assert_ne!(a, b);
    assert_ne!(a.get_key(), b.get_key());
    assert_eq!(a, Position::from_key(a.get_key()));
    assert_eq!(b, Position::from_key(b.get_key()));
}

#[test]
fn test_table_keys_tell_keys_apart() {
    let key: u64 = 0x10A67125D88;
    let same_slot = key + TABLE_SIZE_U32 as u64;
    let same_low_bits = key + (1u64 << 32);
    let a = TableKey::from(key);
    let b = TableKey::from(same_slot);
    let c = TableKey::from(same_low_bits);
    assert_eq!(a.table_index, b.table_index);
    assert_ne!(a.truncated_key, b.truncated_key);
    assert_eq!(a.truncated_key, c.truncated_key);
    assert_ne!(a.table_index, c.table_index);
}

#[test]
fn test_table_size_is_the_first_prime_from_two_to_the_23() {
    assert!(is_prime(TABLE_SIZE_U32));
    for n in (1u32 << 23)..TABLE_SIZE_U32 {
        assert!(!is_prime(n), "{}", n);
    }
    assert!(is_prime(2));
    assert!(is_prime(97));
    assert!(!is_prime(91));
}

#[test]
fn test_stored_bounds_past_the_score_range() {
    let mut table = TranspositionTable::new();
    let key = TableKey::from(12345);
    // An upper bound of 19 is stored where lower bounds start: it reads back as -18
    table.put_upper_bound(key, 19);
    assert_eq!(TableResult::LowerBound(-18), table.get(key));
    // A lower bound of -19 is stored where upper bounds end: it reads back as 18
    table.put_lower_bound(key, -19);
    assert_eq!(TableResult::UpperBound(18), table.get(key));
    // An upper bound of -19 is stored as an empty slot
    table.put_upper_bound(key, -19);
    assert_eq!(TableResult::Miss, table.get(key));
}

#[test]
fn test_parse_line_column_zero() {
    // The moves number the columns from 1: a 0 wraps around to column 255
    assert_eq!(
        Err(ParseLineError::IllegalMove(PlayColumnError::ColumnDoesNotExist(255))),
        parse_line("0 1"),
    );
    // Errors met before a 0 come first
    assert_eq!(Err(ParseLineError::NotADigit('a')), parse_line("a0 1"));
    assert_eq!(Err(ParseLineError::IllegalMove(PlayColumnError::ColumnFull(0))), parse_line("11111110 1"));
}

#[test]
fn test_parse_line_names_a_non_ascii_character() {
    assert_eq!(Err(ParseLineError::NotADigit('é')), parse_line("4é 0"));
    assert_eq!(Err(ParseLineError::InvalidEvaluation), parse_line("4 é"));
}
