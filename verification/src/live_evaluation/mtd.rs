//! The solver: binary search on the score with null window searches.
use vstd::prelude::*;
use crate::board::Position;
use crate::live_evaluation::exact_score::{exact_score, lemma_exact_score_range};
use crate::live_evaluation::null_window_search::{
    NullWindowSearch,
    bounds_hold,
    counted,
    game_position,
    searched_position,
};
use crate::live_evaluation::transposition_table::{
    TABLE_SIZE,
    TranspositionTable,
    bound_holds,
    lemma_empty_misses,
    lemma_table_index_in_range,
    table_key_of,
};

verus! {

/// The highest score: winning with the fourth stone.
pub const MAXIMUM_SCORE: u8 = 18;

/// Minus the lowest score: losing to the other player's fourth stone.
pub const NEGATED_MINIMUM_SCORE: u8 = 18;

/// Stones on a full board.
pub const MAX_MOVES_PLAYED: i8 = 42;

/// Theoretically similar to MTD(f), but without the f parameter: scores a
/// position by a binary search made of null window searches.
pub struct Solver {
    pub transposition_table: TranspositionTable,
    pub node_count: u64,
}

impl Solver {
    /// The table is well-formed, and every bound it answers for a position of
    /// a game where the players took turns holds of that position's exact score.
    pub open spec fn wf(self) -> bool {
        &&& self.transposition_table.wf()
        &&& bounds_hold(self.transposition_table)
    }

    /// A solver with a cleared table (every slot empty, under key 0) and no node counted.
    pub fn new() -> (solver: Self)
        ensures
            solver.wf(),
            solver.transposition_table.is_empty(),
            solver.transposition_table.is_cleared(),
            solver.node_count == 0,
    {
        let transposition_table = TranspositionTable::new();
        proof {
            lemma_empty_bounds(transposition_table);
        }
        Self { transposition_table, node_count: 0 }
    }

    /// Empties the table and sets the node count back to zero.
    pub fn reset(&mut self)
        requires
            old(self).transposition_table.wf(),
        ensures
            final(self).wf(),
            final(self).transposition_table.is_empty(),
            final(self).transposition_table.is_cleared(),
            final(self).node_count == 0,
    {
        self.transposition_table.reset();
        proof {
            lemma_empty_bounds(self.transposition_table);
        }
        self.node_count = 0;
    }

    /// Scores a position under perfect play (see `exact_score`): positive when the
    /// player to move wins, the more the earlier the win; negative when they
    /// lose; 0 for a draw. A position of a game where the players took turns
    /// gets exactly its score.
    ///
    /// # Assumptions:
    /// - No one has already won the game (the score of a finished game is that
    ///   of play going on as if no four were on the board)
    pub fn solve(&mut self, position: Position) -> (score: i8)
        requires
            old(self).wf(),
            position.wf(),
        ensures
            final(self).wf(),
            -21 <= score <= 71,
            position.wins_next() ==> score == (43 - position.moves_played) / 2,
            position.alternating() ==> score == exact_score(position),
            exists|n: int| n >= 0 && #[trigger] counted(old(self).node_count, final(self).node_count, n),
            position.wins_next() ==> final(self).node_count == old(self).node_count,
            !position.wins_next() && position.moves_played < 42 ==> exists|n: int|
                n >= 1 && #[trigger] counted(old(self).node_count, final(self).node_count, n),
    {
        proof {
            crate::board::lemma_wf_facts(position);
            lemma_exact_score_range(position);
        }
        // Check if we can win in one move on this turn, as Negamax will now assume that we cannot
        let ghost count_at_start = self.node_count;
        proof {
            assert(counted(count_at_start, self.node_count, 0));
        }
        if position.can_win_next() {
            proof {
                let c = choose|c: int|
                    0 <= c < 7 && position.height(c) < 6 && #[trigger] crate::board::lines::completes_four(
                        position.current_player_stones,
                        c,
                        position.height(c),
                    );
                crate::board::min_max_methods::lemma_fewer_than_all_cells(position, c);
            }
            return (MAX_MOVES_PLAYED + 1 - position.moves_played as i8) / 2;
        }
        let ghost searched = searched_position(position);
        let ghost mut searched_once = false;
        // Use Negamax and null window search
        // Comparable to using binary search, where we are searching for the true position score
        let mut min = -(MAX_MOVES_PLAYED - position.moves_played as i8) / 2;
        let mut max = (MAX_MOVES_PLAYED - position.moves_played as i8 + 1) / 2;

        while min < max
            invariant
                position.wf(),
                self.wf(),
                -21 <= min <= 71,
                -21 <= max <= 21,
                count_at_start == old(self).node_count,
                exists|n: int| n >= 0 && #[trigger] counted(count_at_start, self.node_count, n),
                !searched_once ==> self.node_count == count_at_start,
                !searched_once && position.moves_played < 42 ==> min < max,
                searched_once ==> exists|n: int| n >= 1 && #[trigger] counted(count_at_start, self.node_count, n),
                searched == searched_position(position),
                !position.wins_next(),
                searched ==> min <= exact_score(position) <= max,
            decreases if min < max {
                max - min
            } else {
                0
            },
        {
            /* This is the true middle value between max and min
            We do this instead of (min + max) / 2, because we want the floor division to always
            round down to -inf, instead of towards 0.
            This is relevant if say min = -2, and max = -1. */
            let mut middle = min + (max - min) / 2;

            /* Problem is, if max = 21 and min = -21, then middle = 0
            We don't want to use this value in Negamax, because it will involve looking deeply
            We want to find quick winning paths or quick loosing paths
            So, if this happens, we set middle = max /2, or middle = min / 2 */
            if middle <= 0 && min / 2 < middle {
                middle = min / 2;
            } else if middle >= 0 && max / 2 > middle {
                middle = max / 2;
            }
            let ghost count_before = self.node_count;
            let mut null_window_search = NullWindowSearch {
                transposition_table: &mut self.transposition_table,
                node_count: &mut self.node_count,
            };
            let result = null_window_search.search(position, middle);
            proof {
                lemma_count_more(count_at_start, count_before, self.node_count);
                searched_once = true;
            }


            // This result tells us if the true position score is <= or >= middle
            if result <= middle {
                max = result;
            } else {
                min = result;
            }
        }
        // Loop ends when min = max = true score.
        min
    }
}

/// Counting `n1 >= 0` then `n2 >= 1` is counting at least one.
proof fn lemma_count_more(a: u64, b: u64, c: u64)
    requires
        exists|n: int| n >= 0 && #[trigger] counted(a, b, n),
        exists|n: int| n >= 1 && #[trigger] counted(b, c, n),
    ensures
        exists|n: int| n >= 1 && #[trigger] counted(a, c, n),
        exists|n: int| n >= 0 && #[trigger] counted(a, c, n),
{
    let n1 = choose|n: int| n >= 0 && #[trigger] counted(a, b, n);
    let n2 = choose|n: int| n >= 1 && #[trigger] counted(b, c, n);
    vstd::arithmetic::div_mod::lemma_add_mod_noop(a + n1, n2, 0x1_0000_0000_0000_0000);
    vstd::arithmetic::div_mod::lemma_add_mod_noop(b as int, n2, 0x1_0000_0000_0000_0000);
    vstd::arithmetic::div_mod::lemma_mod_twice(a + n1, 0x1_0000_0000_0000_0000);
    assert(counted(a, c, n1 + n2));
}

/// An empty table holds no bound at all, so every bound it answers holds.
pub proof fn lemma_empty_bounds(table: TranspositionTable)
    requires
        table.is_empty(),
    ensures
        bounds_hold(table),
{
    assert forall|q: Position| #[trigger] game_position(q) implies bound_holds(
        table.lookup(table_key_of(q.key() as u64)),
        exact_score(q),
    ) by {
        lemma_table_index_in_range(q.key() as u64);
        lemma_empty_misses(table, table_key_of(q.key() as u64));
    }
}

} // verus!
