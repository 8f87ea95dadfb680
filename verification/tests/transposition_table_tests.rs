use connect_four::live_evaluation::transposition_table::{TableKey, TableResult, TranspositionTable};

#[test]
fn test_table_is_initially_empty() {
    let table = TranspositionTable::new();
    let dummy_table_key = TableKey::from(0);
    assert_eq!(TableResult::Miss, table.get(dummy_table_key));
}

#[test]
fn test_put_and_get_lower_bound() {
    let mut table = TranspositionTable::new();
    let dummy_table_key = TableKey::from(0);
    let dummy_bound = 1;

    table.put_lower_bound(dummy_table_key, dummy_bound);
    assert_eq!(TableResult::LowerBound(dummy_bound), table.get(dummy_table_key));
}

#[test]
fn test_put_and_get_upper_bound() {
    let mut table = TranspositionTable::new();
    let dummy_table_key = TableKey::from(0);
    let dummy_bound = 1;

    table.put_upper_bound(dummy_table_key, dummy_bound);
    assert_eq!(TableResult::UpperBound(dummy_bound), table.get(dummy_table_key));
}

#[test]
fn test_collision_picks_later() {
    let mut table = TranspositionTable::new();
    let dummy_table_key = TableKey::from(0);
    let dummy_bound = 1;

    table.put_lower_bound(dummy_table_key, dummy_bound);
    table.put_upper_bound(dummy_table_key, dummy_bound);
    assert_eq!(TableResult::UpperBound(dummy_bound), table.get(dummy_table_key));

    table.put_lower_bound(dummy_table_key, dummy_bound);
    assert_eq!(TableResult::LowerBound(dummy_bound), table.get(dummy_table_key));
}

#[test]
fn test_reset_causes_miss() {
    let mut table = TranspositionTable::new();
    let dummy_table_key = TableKey::from(0);
    let dummy_bound = 1;

    table.put_lower_bound(dummy_table_key, dummy_bound);
    assert_eq!(TableResult::LowerBound(dummy_bound), table.get(dummy_table_key));

    table.reset();
    assert_eq!(TableResult::Miss, table.get(dummy_table_key));
}
