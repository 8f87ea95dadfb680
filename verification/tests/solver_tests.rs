use connect_four::board::Position;
use connect_four::live_evaluation::mtd::Solver;
use connect_four::live_evaluation::null_window_search::NullWindowSearch;
use connect_four::live_evaluation::transposition_table::{TableKey, TranspositionTable};
use connect_four::parse::parse_line;

/// Lines of the input format with the exact score of each position, computed
/// separately by a plain negamax over the whole game tree.
const SCORED_LINES: [&str; 10] = [
    "121744726561114647625524372541 -2",
    "151233372166121452677551567326 -2",
    "634624222234424337764777571353 -4",
    "537742113642734733641265773521 -1",
    "211177541421653543321323236766 -3",
    "177736561733566374376634215 2",
    "147642115775531612741527372 -6",
    "754416442765265343176566321 -2",
    "137244457627744457622372211661316313 0",
    "44276122537725234254556347417537166663 0",
];

fn solve_fresh(position: Position) -> i8 {
    let mut solver = Solver::new();
    solver.solve(position)
}

#[test]
fn test_solve_matches_exact_scores() {
    let mut solver = Solver::new();
    for line in SCORED_LINES {
        let (position, expected) = parse_line(line).unwrap();
        assert_eq!(expected, solver.solve(position), "line {}", line);
        solver.reset();
    }
}

#[test]
fn test_solve_without_reset_reuses_the_table() {
    let mut solver = Solver::new();
    for line in SCORED_LINES {
        let (position, expected) = parse_line(line).unwrap();
        assert_eq!(expected, solver.solve(position), "line {}", line);
        assert_eq!(expected, solver.solve(position), "line {}", line);
    }
}

#[test]
fn test_solve_immediate_win() {
    // The player to move completes four with the 34th stone: (43 - 33) / 2
    let (position, expected) = parse_line("473725347123341712511124675567466 5").unwrap();
    assert!(position.can_win_next());
    assert_eq!(expected, solve_fresh(position));
}

#[test]
fn test_solve_first_player_wins_with_fourth_stone() {
    // 1 2 1 2 1 2: three stones each in columns 1 and 2; the player to move
    // completes four with the seventh stone: (43 - 6) / 2
    let (position, _) = parse_line("121212 0").unwrap();
    assert_eq!(18, solve_fresh(position));
}

#[test]
fn test_solve_when_every_move_loses() {
    // The other player holds columns 3, 4 and 5 of the bottom row, with columns
    // 2 and 6 open beside them: whatever the player to move blocks, the other
    // player wins with their fourth stone: -(42 - 6) / 2
    let (position, _) = parse_line("131475 0").unwrap();
    assert!(position.all_moves_immediately_lose());
    assert_eq!(-18, solve_fresh(position));
}

#[test]
fn test_null_window_search_brackets_the_score() {
    // Exact score -2 (see SCORED_LINES)
    let (position, _) = parse_line("121744726561114647625524372541 -2").unwrap();
    for alpha in -10i8..=10 {
        let mut table = TranspositionTable::new();
        let mut node_count: u64 = 0;
        let mut search = NullWindowSearch { transposition_table: &mut table, node_count: &mut node_count };
        let result = search.search(position, alpha);
        if -2 <= alpha {
            assert!(-2 <= result && result <= alpha, "alpha {} result {}", alpha, result);
        } else {
            assert!(alpha < result && result <= -2, "alpha {} result {}", alpha, result);
        }
        assert!(node_count >= 1);
    }
}

#[test]
fn test_solver_counts_nodes_and_reset_clears_them() {
    let (position, _) = parse_line("177736561733566374376634215 2").unwrap();
    let mut solver = Solver::new();
    solver.solve(position);
    assert!(solver.node_count > 0);
    solver.reset();
    assert_eq!(0, solver.node_count);
}

#[test]
fn test_null_window_search_when_every_move_loses() {
    // The other player threatens two cells of the bottom row: -(42 - 6) / 2
    let (position, _) = parse_line("131475 0").unwrap();
    for alpha in [-20i8, -18, 0, 19] {
        let mut table = TranspositionTable::new();
        let mut node_count: u64 = 41;
        let mut search = NullWindowSearch { transposition_table: &mut table, node_count: &mut node_count };
        assert_eq!(-18, search.search(position, alpha));
        assert_eq!(42, node_count);
    }
}

#[test]
fn test_null_window_search_ignores_bounds_of_other_keys() {
    let (position, _) = parse_line("121744726561114647625524372541 -2").unwrap();
    let mut table = TranspositionTable::new();
    // A large lower bound under a key that no position has
    table.put_lower_bound(TableKey::from(u64::MAX), 50);
    let mut node_count: u64 = 0;
    let mut search = NullWindowSearch { transposition_table: &mut table, node_count: &mut node_count };
    let result = search.search(position, 0);
    assert!(-2 <= result && result <= 0);
}
