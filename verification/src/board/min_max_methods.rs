//! What the solver asks of a position: winning cells, safe moves, and child positions.
use vstd::prelude::*;
use crate::bits::{bit, group_bits, lemma_bits_equal, lemma_some_bit, lemma_zero_iff_no_bit};
use crate::board::bitmap::{
    BITMAP_COLUMN_HEIGHT,
    BOTTOM_ROW_MASK,
    Bitmap,
    compute_playable_column_mask,
    DOWN_LEFT_UP_RIGHT_OFFSET,
    PLAYABLE_BOARD_MASK,
    UP_LEFT_DOWN_RIGHT_OFFSET,
    cell_bit,
    is_cell,
    is_cell_bit,
    lemma_bottom_bit,
    lemma_cell_of_bit,
    lemma_div_mod_7,
    lemma_on_board_bit,
    lemma_on_board_from_bits,
    lemma_playable_bit,
    on_board,
    popcount,
    stone,
};
use crate::board::lines::{
    bit_step,
    col_step,
    completes_four,
    is_direction,
    lemma_column_height,
    lemma_settled_below,
    lemma_settled_bits,
    lemma_three_around_bits,
    row_step,
    settled,
    stone_at_step,
    three_around,
    three_bits,
};
use crate::board::{lemma_wf_facts, Position};
use crate::board::scored_position_iterator::{
    OUTSIDE_IN_COLUMN_ORDER,
    ScoredEntry,
    ScoredPositionIterator,
    insert_scored,
};

verus! {

broadcast use group_bits;

/// Every stone of `x` above the bottom row rests on a stone of `mask`.
pub open spec fn rests_on(x: Bitmap, mask: Bitmap) -> bool {
    forall|c: int, r: int| 0 < r && #[trigger] stone(x, c, r) ==> stone(mask, c, r - 1)
}

/// The cells empty in `mask` where a stone of `x` would make four in a line.
pub open spec fn is_winning_cell(x: Bitmap, mask: Bitmap, c: int, r: int) -> bool {
    is_cell(c, r) && !stone(mask, c, r) && completes_four(x, c, r)
}

/// The bit-level pattern that `compute_winning_positions` tests at bit `j`.
pub open spec fn winning_bit_pattern(x: Bitmap, j: int) -> bool {
    ||| three_bits(x, j, 0, 3)
    ||| exists|d: int, t: int| 1 <= d < 4 && 0 <= t < 4 && #[trigger] three_bits(x, j, d, t)
}

/// The bitmap that `compute_winning_positions` returns: the cells empty in `mask`
/// at which the bit pattern of a line completed by `x` is found.
pub open spec fn winning_positions(x: Bitmap, mask: Bitmap) -> Bitmap {
    choose|w: Bitmap| #[trigger] has_winning_bits(w, x, mask)
}

/// The bits of `w` are those of `winning_positions(x, mask)`.
pub open spec fn has_winning_bits(w: Bitmap, x: Bitmap, mask: Bitmap) -> bool {
    forall|j: int| #[trigger] bit(w, j) == (is_cell_bit(j) != bit(mask, j) && winning_bit_pattern(x, j))
}

/// Cell (`c`, `r`) is where the next stone of column `c` lands.
pub open spec fn is_landing(p: Position, c: int, r: int) -> bool {
    is_cell(c, r) && r == p.height(c)
}

/// `square` is the bitmap of the single cell where the next stone of column `c` lands.
pub open spec fn is_landing_square(p: Position, square: Bitmap, c: int) -> bool {
    &&& 0 <= c < 7
    &&& p.height(c) < 6
    &&& forall|j: int| #[trigger] bit(square, j) == (j == cell_bit(c, p.height(c)))
}

/// The position after the player to move drops a stone in column `c`.
pub open spec fn child_of(p: Position, c: int) -> Position {
    Position {
        current_player_stones: p.current_player_stones ^ p.both_players_mask,
        both_players_mask: p.both_players_mask | landing_square(p, c),
        moves_played: (p.moves_played + 1) as u8,
    }
}

/// The bitmap of the landing cell of column `c`.
pub open spec fn landing_square(p: Position, c: int) -> Bitmap {
    1u64 << (cell_bit(c, p.height(c)) as u64)
}

/// The score `move_score` gives to dropping a stone in column `c`.
pub open spec fn score_of(p: Position, c: int) -> u8 {
    popcount(winning_positions(landing_square(p, c) | p.current_player_stones, p.both_players_mask)) as u8
}

/// The entries that `get_non_losing_child_positions` holds once it has looked at
/// the first `k` columns of `OUTSIDE_IN_COLUMN_ORDER`: for each non-losing one,
/// the child position with its score, added in that order.
pub open spec fn child_entries(p: Position, k: nat) -> Seq<ScoredEntry>
    decreases k,
{
    if k == 0 {
        Seq::empty()
    } else {
        let prev = child_entries(p, (k - 1) as nat);
        let c = OUTSIDE_IN_COLUMN_ORDER@[k - 1] as int;
        if p.is_non_losing_move(c) {
            insert_scored(prev, ScoredEntry { child_position: child_of(p, c), score: score_of(p, c) })
        } else {
            prev
        }
    }
}

impl Position {
    /// Column `c` is where the player who moved last would win on the next move,
    /// so the player to move must play there.
    pub open spec fn is_forced(self, c: int) -> bool {
        0 <= c < 7 && self.height(c) < 6 && completes_four(self.opponent_stones(), c, self.height(c))
    }

    /// The player to move can complete four in a line with the next stone.
    pub open spec fn wins_next(self) -> bool {
        exists|c: int|
            0 <= c < 7 && self.height(c) < 6 && #[trigger] completes_four(
                self.current_player_stones,
                c,
                self.height(c),
            )
    }

    /// Playing column `c` does not let the other player win at once: the column is
    /// open, no other column is forced, and the cell above the new stone would not
    /// complete four for the other player.
    pub open spec fn is_non_losing_move(self, c: int) -> bool {
        &&& 0 <= c < 7
        &&& self.height(c) < 6
        &&& forall|c2: int| #[trigger] self.is_forced(c2) ==> c2 == c
        &&& !is_winning_cell(self.opponent_stones(), self.both_players_mask, c, self.height(c) + 1)
    }

    /// The empty cells where a stone of `x` would make four in a line.
    ///
    /// Vertical lines are only looked for downwards: this is exact when the stones of
    /// `x` rest on stones of `both_players_mask`, as they do in a position.
    pub fn compute_winning_positions(current_player_stones: Bitmap, both_players_mask: Bitmap) -> (winning: Bitmap)
        ensures
            forall|j: int| #[trigger]
                bit(winning, j) == (is_cell_bit(j) != bit(both_players_mask, j) && winning_bit_pattern(
                    current_player_stones,
                    j,
                )),
            winning == winning_positions(current_player_stones, both_players_mask),
            on_board(both_players_mask) ==> on_board(winning),
            on_board(current_player_stones) && on_board(both_players_mask) && settled(
                both_players_mask,
            ) && rests_on(current_player_stones, both_players_mask) ==> forall|c: int, r: int| #[trigger]
                stone(winning, c, r) == is_winning_cell(
                    current_player_stones,
                    both_players_mask,
                    c,
                    r,
                ),
    {
        let x = current_player_stones;
        // Vertical
        let mut winning = x << 1u64 & x << 2u64 & x << 3u64;
        proof {
            assert forall|j: int| #[trigger] bit(winning, j) == (0 <= j < 64 && (three_bits(x, j, 0, 3))) by {}
        }

        // Horizontal
        // We will redefine pair many times, right now it means there are a pair of 1's to the left
        let mut pair = x << BITMAP_COLUMN_HEIGHT & x << 2 * BITMAP_COLUMN_HEIGHT;

        // Compute three to the left, then two left and one right
        winning |= pair & x << 3 * BITMAP_COLUMN_HEIGHT;
        proof {
            assert forall|j: int| #[trigger] bit(winning, j) == (0 <= j < 64 && (three_bits(x, j, 0, 3) || three_bits(x, j, 1, 3))) by {}
        }
        winning |= pair & x >> BITMAP_COLUMN_HEIGHT;
        proof {
            assert forall|j: int| #[trigger] bit(winning, j) == (0 <= j < 64 && (three_bits(x, j, 0, 3) || three_bits(x, j, 1, 3) || three_bits(x, j, 1, 2))) by {}
        }

        // Now, pair means there are a pair of 1's to the right
        pair = x >> BITMAP_COLUMN_HEIGHT & x >> 2 * BITMAP_COLUMN_HEIGHT;

        // Compute three to the right, then two right and one left
        winning |= pair & x >> 3 * BITMAP_COLUMN_HEIGHT;
        proof {
            assert forall|j: int| #[trigger] bit(winning, j) == (0 <= j < 64 && (three_bits(x, j, 0, 3) || three_bits(x, j, 1, 3) || three_bits(x, j, 1, 2) || three_bits(x, j, 1, 0))) by {}
        }
        winning |= pair & x << BITMAP_COLUMN_HEIGHT;
        proof {
            assert forall|j: int| #[trigger] bit(winning, j) == (0 <= j < 64 && (three_bits(x, j, 0, 3) || three_bits(x, j, 1, 3) || three_bits(x, j, 1, 2) || three_bits(x, j, 1, 0) || three_bits(x, j, 1, 1))) by {}
        }

        // Up-Left-Down-Right Diagonal
        // Now, pair means there are a pair of 1's up-left
        pair = x << UP_LEFT_DOWN_RIGHT_OFFSET & x << 2 * UP_LEFT_DOWN_RIGHT_OFFSET;

        // Compute 3 up-left, then two up-left and one down-right
        winning |= pair & x << 3 * UP_LEFT_DOWN_RIGHT_OFFSET;
        proof {
            assert forall|j: int| #[trigger] bit(winning, j) == (0 <= j < 64 && (three_bits(x, j, 0, 3) || three_bits(x, j, 1, 3) || three_bits(x, j, 1, 2) || three_bits(x, j, 1, 0) || three_bits(x, j, 1, 1) || three_bits(x, j, 3, 3))) by {}
        }
        winning |= pair & x >> UP_LEFT_DOWN_RIGHT_OFFSET;
        proof {
            assert forall|j: int| #[trigger] bit(winning, j) == (0 <= j < 64 && (three_bits(x, j, 0, 3) || three_bits(x, j, 1, 3) || three_bits(x, j, 1, 2) || three_bits(x, j, 1, 0) || three_bits(x, j, 1, 1) || three_bits(x, j, 3, 3) || three_bits(x, j, 3, 2))) by {}
        }

        // Now, pair means there are a pair of 1's down-right
        pair = x >> UP_LEFT_DOWN_RIGHT_OFFSET & x >> 2 * UP_LEFT_DOWN_RIGHT_OFFSET;

        // Compute 3 down-right, then two down-right and one up-left
        winning |= pair & x >> 3 * UP_LEFT_DOWN_RIGHT_OFFSET;
        proof {
            assert forall|j: int| #[trigger] bit(winning, j) == (0 <= j < 64 && (three_bits(x, j, 0, 3) || three_bits(x, j, 1, 3) || three_bits(x, j, 1, 2) || three_bits(x, j, 1, 0) || three_bits(x, j, 1, 1) || three_bits(x, j, 3, 3) || three_bits(x, j, 3, 2) || three_bits(x, j, 3, 0))) by {}
        }
        winning |= pair & x << UP_LEFT_DOWN_RIGHT_OFFSET;
        proof {
            assert forall|j: int| #[trigger] bit(winning, j) == (0 <= j < 64 && (three_bits(x, j, 0, 3) || three_bits(x, j, 1, 3) || three_bits(x, j, 1, 2) || three_bits(x, j, 1, 0) || three_bits(x, j, 1, 1) || three_bits(x, j, 3, 3) || three_bits(x, j, 3, 2) || three_bits(x, j, 3, 0) || three_bits(x, j, 3, 1))) by {}
        }

        // Down-Left-Up-Right Diagonal
        // Now, pair means there are a pair of 1's down-left
        pair = x << DOWN_LEFT_UP_RIGHT_OFFSET & x << 2 * DOWN_LEFT_UP_RIGHT_OFFSET;

        // Compute three down-left, then two down-left and one up-right
        winning |= pair & x << 3 * DOWN_LEFT_UP_RIGHT_OFFSET;
        proof {
            assert forall|j: int| #[trigger] bit(winning, j) == (0 <= j < 64 && (three_bits(x, j, 0, 3) || three_bits(x, j, 1, 3) || three_bits(x, j, 1, 2) || three_bits(x, j, 1, 0) || three_bits(x, j, 1, 1) || three_bits(x, j, 3, 3) || three_bits(x, j, 3, 2) || three_bits(x, j, 3, 0) || three_bits(x, j, 3, 1) || three_bits(x, j, 2, 3))) by {}
        }
        winning |= pair & x >> DOWN_LEFT_UP_RIGHT_OFFSET;
        proof {
            assert forall|j: int| #[trigger] bit(winning, j) == (0 <= j < 64 && (three_bits(x, j, 0, 3) || three_bits(x, j, 1, 3) || three_bits(x, j, 1, 2) || three_bits(x, j, 1, 0) || three_bits(x, j, 1, 1) || three_bits(x, j, 3, 3) || three_bits(x, j, 3, 2) || three_bits(x, j, 3, 0) || three_bits(x, j, 3, 1) || three_bits(x, j, 2, 3) || three_bits(x, j, 2, 2))) by {}
        }

        // Now, pair means there are a pair of 1's up-right
        pair = x >> DOWN_LEFT_UP_RIGHT_OFFSET & x >> 2 * DOWN_LEFT_UP_RIGHT_OFFSET;

        // Compute three up-right, then two up-right and one down-left
        winning |= pair & x >> 3 * DOWN_LEFT_UP_RIGHT_OFFSET;
        proof {
            assert forall|j: int| #[trigger] bit(winning, j) == (0 <= j < 64 && (three_bits(x, j, 0, 3) || three_bits(x, j, 1, 3) || three_bits(x, j, 1, 2) || three_bits(x, j, 1, 0) || three_bits(x, j, 1, 1) || three_bits(x, j, 3, 3) || three_bits(x, j, 3, 2) || three_bits(x, j, 3, 0) || three_bits(x, j, 3, 1) || three_bits(x, j, 2, 3) || three_bits(x, j, 2, 2) || three_bits(x, j, 2, 0))) by {}
        }
        winning |= pair & x << DOWN_LEFT_UP_RIGHT_OFFSET;
        proof {
            assert forall|j: int| #[trigger] bit(winning, j) == (0 <= j < 64 && (three_bits(x, j, 0, 3) || three_bits(x, j, 1, 3) || three_bits(x, j, 1, 2) || three_bits(x, j, 1, 0) || three_bits(x, j, 1, 1) || three_bits(x, j, 3, 3) || three_bits(x, j, 3, 2) || three_bits(x, j, 3, 0) || three_bits(x, j, 3, 1) || three_bits(x, j, 2, 3) || three_bits(x, j, 2, 2) || three_bits(x, j, 2, 0) || three_bits(x, j, 2, 1))) by {}
        }

        // Need to be a winning position, and there need to not already be a chip there
        let result = winning & (PLAYABLE_BOARD_MASK ^ both_players_mask);
        proof {
            lemma_winning_bits(x, both_players_mask, winning, result);
            assert(has_winning_bits(result, x, both_players_mask));
            let w = winning_positions(x, both_players_mask);
            assert forall|j: int| 0 <= j < 64 implies #[trigger] bit(w, j) == bit(result, j) by {}
            lemma_bits_equal(w, result);
        }
        result
    }

    /// The empty cells where a stone of the player to move would make four in a line.
    pub fn get_current_player_winning_positions(&self) -> (winning: Bitmap)
        requires
            self.wf(),
        ensures
            winning == winning_positions(self.current_player_stones, self.both_players_mask),
            on_board(winning),
            forall|c: int, r: int| #[trigger]
                stone(winning, c, r) == is_winning_cell(
                    self.current_player_stones,
                    self.both_players_mask,
                    c,
                    r,
                ),
    {
        proof {
            lemma_rests_on(*self);
        }
        Self::compute_winning_positions(self.current_player_stones, self.both_players_mask)
    }

    /// The empty cells where a stone of the player who moved last would make four in a line.
    pub fn get_opponent_winning_positions(&self) -> (winning: Bitmap)
        requires
            self.wf(),
        ensures
            winning == winning_positions(self.opponent_stones(), self.both_players_mask),
            on_board(winning),
            forall|c: int, r: int| #[trigger]
                stone(winning, c, r) == is_winning_cell(
                    self.opponent_stones(),
                    self.both_players_mask,
                    c,
                    r,
                ),
    {
        proof {
            lemma_rests_on(*self);
        }
        Self::compute_winning_positions(
            self.current_player_stones ^ self.both_players_mask,
            self.both_players_mask,
        )
    }

    /// The cells where the next stone of each open column lands.
    pub fn get_playable_squares(&self) -> (squares: Bitmap)
        requires
            self.wf(),
        ensures
            on_board(squares),
            forall|c: int, r: int| #[trigger] stone(squares, c, r) == is_landing(*self, c, r),
    {
        proof {
            lemma_playable_squares(*self);
        }
        self.both_players_mask + BOTTOM_ROW_MASK & PLAYABLE_BOARD_MASK
    }

    /// The player to move can make four in a line with the next stone.
    pub fn can_win_next(&self) -> (can_win: bool)
        requires
            self.wf(),
        ensures
            can_win == self.wins_next(),
    {
        let winning = self.get_current_player_winning_positions();
        let playable = self.get_playable_squares();
        proof {
            lemma_wf_facts(*self);
            let both = winning & playable;
            lemma_zero_iff_no_bit(both);
            if both != 0 {
                let j = lemma_some_bit(both);
                lemma_on_board_bit(playable, j);
                let c = j / 7;
                assert(stone(winning, c, j % 7));
                assert(completes_four(self.current_player_stones, c, self.height(c)));
            }
            if exists|c: int|
                0 <= c < 7 && self.height(c) < 6 && #[trigger] completes_four(
                    self.current_player_stones,
                    c,
                    self.height(c),
                ) {
                let c = choose|c: int|
                    0 <= c < 7 && self.height(c) < 6 && #[trigger] completes_four(
                        self.current_player_stones,
                        c,
                        self.height(c),
                    );
                assert(!self.filled(c, self.height(c)));
                assert(stone(winning, c, self.height(c)));
                assert(stone(playable, c, self.height(c)));
                assert(stone(both, c, self.height(c)));
            }
        }
        winning & playable != 0
    }

    /// The landing cells of the moves after which the other player cannot win at once.
    ///
    /// When the other player threatens two cells, no move saves the game and the
    /// result is empty; when one, only that cell is a candidate; and a move is
    /// dropped when it would let the other player win on the cell above it.
    pub fn possible_non_losing_moves(&self) -> (moves: Bitmap)
        requires
            self.wf(),
        ensures
            on_board(moves),
            forall|c: int, r: int| #[trigger]
                stone(moves, c, r) == (is_landing(*self, c, r) && self.is_non_losing_move(c)),
    {
        let mut possible_moves = self.get_playable_squares();
        let opponent_win_squares = self.get_opponent_winning_positions();
        let forced_moves = possible_moves & opponent_win_squares;
        proof {
            lemma_rests_on(*self);
            lemma_wf_facts(*self);
            lemma_forced_cells(*self, possible_moves, opponent_win_squares);
        }
        if forced_moves != 0 {
            // This indicates that there are multiple forced moves, so we lose
            proof {
                crate::board::bitmap::lemma_clear_lowest_bit(forced_moves);
            }
            if forced_moves & (forced_moves - 1) != 0 {
                proof {
                    lemma_two_forced(*self, forced_moves);
                    lemma_zero_iff_no_bit(0u64);
                    lemma_on_board_from_bits(0u64);
                }
                return 0;
            }
            possible_moves = forced_moves;
        }
        /* At this point, possibleMoves is one of two cases:
        Case 1: There are no forced moves, so possibleMoves is just all playable columns
        Case 2: There is a single forced move, so possibleMoves is that one move
        We now want to remove any moves which "build up" and reveal a new winning move to the opponent */
        let moves = possible_moves & !(opponent_win_squares >> 1u64);
        proof {
            lemma_non_losing_result(*self, forced_moves, possible_moves, opponent_win_squares, moves);
        }
        moves
    }

    /// The positions after each non-losing move, highest score first; of equal
    /// scores, the column nearer the middle first.
    pub fn get_non_losing_child_positions(&self) -> (children: ScoredPositionIterator)
        requires
            self.wf(),
        ensures
            children@ == child_entries(*self, 7),
            exists|places: Seq<int>| entries_in_order(*self, children@, places),
    {
        let non_losing = self.possible_non_losing_moves();
        let mut sorted_child_position_iterator = ScoredPositionIterator::new();
        proof {
            lemma_wf_facts(*self);
        }
        // Iterate through each column from the outside in, adding to the sorter:
        // ties come out last-added first, so from the middle out
        let mut i: usize = 0;
        while i < 7
            invariant
                self.wf(),
                i <= 7,
                on_board(non_losing),
                forall|c: int, r: int| #[trigger]
                    stone(non_losing, c, r) == (is_landing(*self, c, r) && self.is_non_losing_move(c)),
                sorted_child_position_iterator@ == child_entries(*self, i as nat),
                sorted_child_position_iterator@.len() <= i,
            decreases 7 - i,
        {
            let col = OUTSIDE_IN_COLUMN_ORDER[i];
            let non_losing_square = non_losing & compute_playable_column_mask(col);
            proof {
                assert(col < 7) by {
                    assert(OUTSIDE_IN_COLUMN_ORDER@[i as int] < 7);
                }
                lemma_column_square(*self, non_losing, non_losing_square, col as int);
            }
            if non_losing_square != 0 {
                let score = self.move_score(non_losing_square);
                let mut child_position = *self;
                child_position.play_square(non_losing_square);
                proof {
                    lemma_dropped_unique(*self, child_position, col as int);
                }
                proof {
                    crate::board::scored_position_iterator::lemma_insert_index_range(
                        sorted_child_position_iterator@,
                        score,
                    );
                }
                sorted_child_position_iterator.add(child_position, score);
            }
            i += 1;
        }
        proof {
            let places = lemma_child_entries_order(*self, 7);
        }
        sorted_child_position_iterator
    }

    /// Every move lets the other player win at once.
    pub fn all_moves_immediately_lose(&self) -> (lose: bool)
        requires
            self.wf(),
        ensures
            lose == forall|c: int| !#[trigger] self.is_non_losing_move(c),
    {
        let moves = self.possible_non_losing_moves();
        proof {
            lemma_wf_facts(*self);
            lemma_zero_iff_no_bit(moves);
            if moves != 0 {
                let j = lemma_some_bit(moves);
                lemma_on_board_bit(moves, j);
                assert(self.is_non_losing_move(j / 7));
            }
            if exists|c: int| #[trigger] self.is_non_losing_move(c) {
                let c = choose|c: int| #[trigger] self.is_non_losing_move(c);
                assert(stone(moves, c, self.height(c)));
            }
        }
        moves == 0
    }

    /// How many empty cells would complete four for the player to move once `square`
    /// is added to their stones: the higher, the more promising the move.
    pub fn move_score(&self, square: Bitmap) -> (score: u8)
        ensures
            score == popcount(winning_positions(square | self.current_player_stones, self.both_players_mask)),
    {
        crate::board::bitmap::count_ones_in_bitmap(
            Self::compute_winning_positions(square | self.current_player_stones, self.both_players_mask),
        )
    }

    /// Drops a stone of the player to move on `square`, the landing cell of a column,
    /// and passes the turn. The caller has checked that the move is legal.
    pub fn play_square(&mut self, square: Bitmap)
        requires
            old(self).wf(),
            exists|c: int| #[trigger] is_landing_square(*old(self), square, c),
        ensures
            forall|c: int| #[trigger] is_landing_square(*old(self), square, c) ==> old(self).dropped(*final(self), c),
    {
        let ghost before = *self;
        proof {
            lemma_wf_facts(before);
        }
        self.current_player_stones ^= self.both_players_mask;
        self.both_players_mask |= square;
        self.moves_played += 1;
        proof {
            assert forall|c: int| #[trigger] is_landing_square(before, square, c) implies before.dropped(*self, c) by {
                crate::board::gameplay_methods::lemma_dropped(before, *self, c);
            }
        }
    }
}

/// The bits of `playable & opponent_winning` are the landing cells of the forced columns.
proof fn lemma_forced_cells(p: Position, playable: Bitmap, opponent_winning: Bitmap)
    requires
        p.wf(),
        on_board(playable),
        forall|c: int, r: int| #[trigger] stone(playable, c, r) == is_landing(p, c, r),
        on_board(opponent_winning),
        forall|c: int, r: int| #[trigger]
            stone(opponent_winning, c, r) == is_winning_cell(p.opponent_stones(), p.both_players_mask, c, r),
    ensures
        on_board(playable & opponent_winning),
        forall|c: int, r: int| #[trigger]
            stone(playable & opponent_winning, c, r) == (is_landing(p, c, r) && p.is_forced(c)),
        (playable & opponent_winning != 0) == exists|c: int| #[trigger] p.is_forced(c),
{
    lemma_wf_facts(p);
    let f = playable & opponent_winning;
    assert forall|j: int| #[trigger] bit(f, j) implies is_cell_bit(j) by {
        lemma_on_board_bit(playable, j);
    }
    lemma_on_board_from_bits(f);
    assert forall|c: int, r: int| #[trigger] stone(f, c, r) == (is_landing(p, c, r) && p.is_forced(c)) by {
        assert(stone(f, c, r) == (stone(playable, c, r) && stone(opponent_winning, c, r)));
        if is_landing(p, c, r) {
            assert(!p.filled(c, r));
        }
    }
    lemma_zero_iff_no_bit(f);
    if f != 0 {
        let j = lemma_some_bit(f);
        lemma_on_board_bit(f, j);
        assert(p.is_forced(j / 7));
    }
    if exists|c: int| #[trigger] p.is_forced(c) {
        let c = choose|c: int| #[trigger] p.is_forced(c);
        assert(stone(f, c, p.height(c)));
    }
}

/// Two bits in the forced cells mean two forced columns, so no move is safe.
proof fn lemma_two_forced(p: Position, forced: Bitmap)
    requires
        p.wf(),
        on_board(forced),
        forall|c: int, r: int| #[trigger] stone(forced, c, r) == (is_landing(p, c, r) && p.is_forced(c)),
        exists|i: int, k: int| i != k && #[trigger] bit(forced, i) && #[trigger] bit(forced, k),
    ensures
        forall|c: int| !#[trigger] p.is_non_losing_move(c),
{
    let (i, k) = choose|i: int, k: int| i != k && #[trigger] bit(forced, i) && #[trigger] bit(forced, k);
    lemma_on_board_bit(forced, i);
    lemma_on_board_bit(forced, k);
    assert(p.is_forced(i / 7) && p.is_forced(k / 7));
    assert(i / 7 != k / 7);
    assert forall|c: int| !#[trigger] p.is_non_losing_move(c) by {
        if p.is_non_losing_move(c) {
            assert(i / 7 == c);
            assert(k / 7 == c);
        }
    }
}

/// The result of `possible_non_losing_moves` in the cases with at most one forced column.
proof fn lemma_non_losing_result(
    p: Position,
    forced: Bitmap,
    candidates: Bitmap,
    opponent_winning: Bitmap,
    moves: Bitmap,
)
    requires
        p.wf(),
        on_board(forced),
        forall|c: int, r: int| #[trigger] stone(forced, c, r) == (is_landing(p, c, r) && p.is_forced(c)),
        (forced != 0) == exists|c: int| #[trigger] p.is_forced(c),
        forced != 0 ==> candidates == forced && !(exists|i: int, k: int|
            i != k && #[trigger] bit(forced, i) && #[trigger] bit(forced, k)),
        forced == 0 ==> forall|c: int, r: int| #[trigger] stone(candidates, c, r) == is_landing(p, c, r),
        on_board(candidates),
        on_board(opponent_winning),
        forall|c: int, r: int| #[trigger]
            stone(opponent_winning, c, r) == is_winning_cell(p.opponent_stones(), p.both_players_mask, c, r),
        moves == candidates & !(opponent_winning >> 1u64),
    ensures
        on_board(moves),
        forall|c: int, r: int| #[trigger]
            stone(moves, c, r) == (is_landing(p, c, r) && p.is_non_losing_move(c)),
{
    lemma_wf_facts(p);
    assert forall|j: int| #[trigger] bit(moves, j) implies is_cell_bit(j) by {
        lemma_on_board_bit(candidates, j);
    }
    lemma_on_board_from_bits(moves);
    assert forall|c: int, r: int| #[trigger]
        stone(moves, c, r) == (is_landing(p, c, r) && p.is_non_losing_move(c)) by {
        if is_cell(c, r) {
            let j = cell_bit(c, r);
            lemma_div_mod_7(c, r);
            assert(stone(moves, c, r) == (stone(candidates, c, r) && !bit(opponent_winning, j + 1)));
            // the bit above the cell
            if r + 1 < 6 {
                lemma_div_mod_7(c, r + 1);
                assert(bit(opponent_winning, j + 1) == stone(opponent_winning, c, r + 1));
            } else {
                if bit(opponent_winning, j + 1) {
                    lemma_on_board_bit(opponent_winning, j + 1);
                    lemma_div_mod_7(c, 6);
                }
            }
            assert(bit(opponent_winning, j + 1) == is_winning_cell(
                p.opponent_stones(),
                p.both_players_mask,
                c,
                r + 1,
            ));
            if forced != 0 {
                let c0 = choose|c: int| #[trigger] p.is_forced(c);
                assert(stone(forced, c0, p.height(c0)));
                lemma_div_mod_7(c0, p.height(c0));
                assert forall|c2: int| #[trigger] p.is_forced(c2) implies c2 == c0 by {
                    if c2 != c0 {
                        assert(stone(forced, c2, p.height(c2)));
                        lemma_div_mod_7(c2, p.height(c2));
                        assert(bit(forced, cell_bit(c2, p.height(c2))) && bit(
                            forced,
                            cell_bit(c0, p.height(c0)),
                        ));
                    }
                }
                assert(stone(candidates, c, r) == (is_landing(p, c, r) && p.is_forced(c)));
                if is_landing(p, c, r) {
                    assert(p.is_forced(c) == (forall|c2: int| #[trigger] p.is_forced(c2) ==> c2 == c));
                }
            } else {
                assert(stone(candidates, c, r) == is_landing(p, c, r));
                assert(forall|c2: int| !#[trigger] p.is_forced(c2));
            }
        }
    }
}

/// The part of the non-losing cells in column `col`: the landing cell of the
/// column when it is a non-losing move, else nothing.
proof fn lemma_column_square(p: Position, non_losing: Bitmap, square: Bitmap, col: int)
    requires
        p.wf(),
        0 <= col < 7,
        on_board(non_losing),
        forall|c: int, r: int| #[trigger]
            stone(non_losing, c, r) == (is_landing(p, c, r) && p.is_non_losing_move(c)),
        forall|j: int| #[trigger] bit(square, j) == (bit(non_losing, j) && 7 * col <= j < 7 * col + 6 && j < 64),
    ensures
        (square != 0) == p.is_non_losing_move(col),
        p.is_non_losing_move(col) ==> is_landing_square(p, square, col) && square == landing_square(p, col),
{
    lemma_wf_facts(p);
    let h = p.height(col);
    lemma_zero_iff_no_bit(square);
    if square != 0 {
        let j = lemma_some_bit(square);
        lemma_on_board_bit(non_losing, j);
        lemma_div_mod_7(col, j - 7 * col);
        assert(p.is_non_losing_move(col));
    }
    if p.is_non_losing_move(col) {
        lemma_div_mod_7(col, h);
        assert(stone(non_losing, col, h));
        assert(bit(square, cell_bit(col, h)));
        assert forall|j: int| #[trigger] bit(square, j) == (j == cell_bit(col, h)) by {
            if bit(square, j) {
                lemma_on_board_bit(non_losing, j);
                lemma_div_mod_7(col, j - 7 * col);
                assert(stone(non_losing, col, j - 7 * col));
            }
        }
        assert forall|j: int| 0 <= j < 64 implies #[trigger] bit(square, j) == bit(landing_square(p, col), j) by {}
        lemma_bits_equal(square, landing_square(p, col));
    }
}

/// Dropping a stone in a column gives one position only.
pub proof fn lemma_dropped_unique(p: Position, q: Position, col: int)
    requires
        p.wf(),
        0 <= col < 7,
        p.height(col) < 6,
        p.dropped(q, col),
    ensures
        p.dropped(child_of(p, col), col),
        child_of(p, col) == q,
{
    lemma_wf_facts(p);
    lemma_child_exists(p, col);
    crate::board::lemma_same_cells(child_of(p, col), q);
}

/// Every open column has a child position, one move further.
pub proof fn lemma_child_exists(p: Position, c: int)
    requires
        p.wf(),
        0 <= c < 7,
        p.height(c) < 6,
    ensures
        p.dropped(child_of(p, c), c),
        child_of(p, c).wf(),
        child_of(p, c).moves_played == p.moves_played + 1,
        p.moves_played < 42,
{
    lemma_wf_facts(p);
    let h = p.height(c);
    let t = cell_bit(c, h);
    lemma_div_mod_7(c, h);
    lemma_fewer_than_all_cells(p, c);
    let q = child_of(p, c);
    crate::board::gameplay_methods::lemma_dropped(p, q, c);
}

/// A position with fewer than 42 stones has an open column.
pub proof fn lemma_some_column_open(p: Position) -> (c: int)
    requires
        p.wf(),
        p.moves_played < 42,
    ensures
        0 <= c < 7,
        p.height(c) < 6,
{
    lemma_wf_facts(p);
    if p.height(0) < 6 {
        0
    } else if p.height(1) < 6 {
        1
    } else if p.height(2) < 6 {
        2
    } else if p.height(3) < 6 {
        3
    } else if p.height(4) < 6 {
        4
    } else if p.height(5) < 6 {
        5
    } else if p.height(6) < 6 {
        6
    } else {
        // Every cell holds a stone, so the stones are the whole board: 42 of them
        let m = p.both_players_mask;
        assert forall|j: int| 0 <= j < 64 implies #[trigger] bit(m, j) == bit(PLAYABLE_BOARD_MASK, j) by {
            lemma_playable_bit(j);
            if is_cell_bit(j) {
                lemma_cell_of_bit(j);
                assert(p.filled(j / 7, j % 7));
            } else if bit(m, j) {
                lemma_on_board_bit(m, j);
            }
        }
        lemma_bits_equal(m, PLAYABLE_BOARD_MASK);
        crate::board::lemma_popcount_playable();
        0
    }
}

/// Dropping a stone in column `col` raises that column by one and no other.
pub proof fn lemma_child_heights(p: Position, col: int)
    requires
        p.wf(),
        0 <= col < 7,
        p.height(col) < 6,
    ensures
        forall|c: int| #[trigger]
            child_of(p, col).height(c) == if c == col {
                p.height(col) + 1
            } else {
                p.height(c)
            },
{
    lemma_child_exists(p, col);
    let q = child_of(p, col);
    lemma_wf_facts(p);
    lemma_wf_facts(q);
    assert forall|c: int| #[trigger]
        q.height(c) == if c == col {
            p.height(col) + 1
        } else {
            p.height(c)
        } by {
        let e = if c == col {
            p.height(col) + 1
        } else {
            p.height(c)
        };
        let h = q.height(c);
        if h < e {
            assert(q.filled(c, h) == (p.filled(c, h) || (c == col && h == p.height(col))));
        } else if h > e {
            assert(q.filled(c, e) == (p.filled(c, e) || (c == col && e == p.height(col))));
        }
    }
}

/// After a stone in an open column, the other player can win at once exactly
/// when the move was not a non-losing one.
pub proof fn lemma_child_wins_next(p: Position, col: int)
    requires
        p.wf(),
        0 <= col < 7,
        p.height(col) < 6,
    ensures
        child_of(p, col).wins_next() == !p.is_non_losing_move(col),
{
    let q = child_of(p, col);
    lemma_child_heights(p, col);
    lemma_wf_facts(p);
    let h = p.height(col);
    assert(q.current_player_stones == p.opponent_stones());
    if !p.is_non_losing_move(col) {
        if exists|c2: int| #[trigger] p.is_forced(c2) && c2 != col {
            let c2 = choose|c2: int| #[trigger] p.is_forced(c2) && c2 != col;
            assert(q.height(c2) == p.height(c2));
            assert(completes_four(q.current_player_stones, c2, q.height(c2)));
        } else {
            assert(is_winning_cell(p.opponent_stones(), p.both_players_mask, col, h + 1));
            assert(q.height(col) == h + 1);
            assert(completes_four(q.current_player_stones, col, q.height(col)));
        }
    }
    if q.wins_next() {
        let c2 = choose|c: int|
            0 <= c < 7 && q.height(c) < 6 && #[trigger] completes_four(q.current_player_stones, c, q.height(c));
        if c2 != col {
            assert(q.height(c2) == p.height(c2));
            assert(p.is_forced(c2));
        } else {
            assert(q.height(col) == h + 1);
            assert(!p.filled(col, h + 1));
            assert(is_winning_cell(p.opponent_stones(), p.both_players_mask, col, h + 1));
        }
    }
}

/// A stone dropped in an open column keeps the players taking turns, or not.
pub proof fn lemma_child_alternating(p: Position, col: int)
    requires
        p.wf(),
        0 <= col < 7,
        p.height(col) < 6,
    ensures
        child_of(p, col).alternating() == p.alternating(),
{
    lemma_child_exists(p, col);
    lemma_wf_facts(p);
    let cur = p.current_player_stones;
    let m = p.both_players_mask;
    crate::board::bitmap::lemma_count_split(m, cur, 64);
    assert(m ^ cur == cur ^ m) by (bit_vector);
}

/// The player to move needs three stones to complete four with the next one.
pub proof fn lemma_wins_needs_three(p: Position)
    requires
        p.wins_next(),
    ensures
        popcount(p.current_player_stones) >= 3,
{
    let x = p.current_player_stones;
    let c = choose|c: int| 0 <= c < 7 && p.height(c) < 6 && #[trigger] completes_four(x, c, p.height(c));
    let r = p.height(c);
    let (d, t) = choose|d: int, t: int| is_direction(d) && 0 <= t < 4 && #[trigger] three_around(x, c, r, d, t);
    let base = cell_bit(c, r);
    // The steps of the three other cells of the line, in increasing order
    let ks: (int, int, int) = if t == 0 {
        (1, 2, 3)
    } else if t == 1 {
        (0, 2, 3)
    } else if t == 2 {
        (0, 1, 3)
    } else {
        (0, 1, 2)
    };
    assert(stone_at_step(x, c, r, d, ks.0 - t));
    assert(stone_at_step(x, c, r, d, ks.1 - t));
    assert(stone_at_step(x, c, r, d, ks.2 - t));
    assert(cell_bit(col_step(c, d, ks.0 - t), row_step(r, d, ks.0 - t)) == base + bit_step(d, ks.0 - t));
    assert(cell_bit(col_step(c, d, ks.1 - t), row_step(r, d, ks.1 - t)) == base + bit_step(d, ks.1 - t));
    assert(cell_bit(col_step(c, d, ks.2 - t), row_step(r, d, ks.2 - t)) == base + bit_step(d, ks.2 - t));
    crate::board::bitmap::lemma_count_three(
        x,
        base + bit_step(d, ks.0 - t),
        base + bit_step(d, ks.1 - t),
        base + bit_step(d, ks.2 - t),
    );
}

/// The entries `s` of the children of `p` are in the order they come out of the
/// iterator, backwards: entry `i` is the child of column
/// `OUTSIDE_IN_COLUMN_ORDER[places[i]]` with its score, and the pairs of score
/// and place increase with `i`. So they come out by decreasing score, and of
/// equal scores the column later in `OUTSIDE_IN_COLUMN_ORDER`, nearer the
/// middle, first.
pub open spec fn entries_in_order(p: Position, s: Seq<ScoredEntry>, places: Seq<int>) -> bool {
    &&& places.len() == s.len()
    &&& forall|i: int|
        0 <= i < s.len() ==> 0 <= #[trigger] places[i] < 7 && s[i].child_position == child_of(
            p,
            OUTSIDE_IN_COLUMN_ORDER@[places[i]] as int,
        ) && s[i].score == score_of(p, OUTSIDE_IN_COLUMN_ORDER@[places[i]] as int)
    &&& forall|i: int, j: int|
        0 <= i < j < s.len() ==> #[trigger] s[i].score < #[trigger] s[j].score || (s[i].score == s[j].score
            && places[i] < places[j])
}

/// The entries of `child_entries` after `k` columns are in order, with places below `k`.
pub proof fn lemma_child_entries_order(p: Position, k: nat) -> (places: Seq<int>)
    requires
        k <= 7,
    ensures
        entries_in_order(p, child_entries(p, k), places),
        forall|i: int| 0 <= i < places.len() ==> #[trigger] places[i] < k,
    decreases k,
{
    if k == 0 {
        Seq::empty()
    } else {
        let prev_places = lemma_child_entries_order(p, (k - 1) as nat);
        let prev = child_entries(p, (k - 1) as nat);
        let c = OUTSIDE_IN_COLUMN_ORDER@[k - 1] as int;
        if p.is_non_losing_move(c) {
            let e = ScoredEntry { child_position: child_of(p, c), score: score_of(p, c) };
            assert(crate::board::scored_position_iterator::sorted_by_score(prev)) by {
                assert forall|i: int, j: int| 0 <= i < j < prev.len() implies #[trigger] prev[i].score
                    <= #[trigger] prev[j].score by {
                    assert(prev[i].score < prev[j].score || prev[i].score == prev[j].score);
                }
            }
            crate::board::scored_position_iterator::lemma_insert_keeps_sorted(prev, e);
            crate::board::scored_position_iterator::lemma_insert_index_range(prev, e.score);
            let idx = crate::board::scored_position_iterator::insert_index(prev, e.score);
            let s = insert_scored(prev, e);
            let places = prev_places.insert(idx, k - 1);
            assert(s == child_entries(p, k));
            assert forall|i: int| 0 <= i < s.len() implies 0 <= #[trigger] places[i] < 7 && s[i].child_position
                == child_of(p, OUTSIDE_IN_COLUMN_ORDER@[places[i]] as int) && s[i].score == score_of(
                p,
                OUTSIDE_IN_COLUMN_ORDER@[places[i]] as int,
            ) by {
                if i < idx {
                    assert(s[i] == prev[i] && places[i] == prev_places[i]);
                } else if i > idx {
                    assert(s[i] == prev[i - 1] && places[i] == prev_places[i - 1]);
                } else {
                    assert(s[i] == e && places[i] == k - 1);
                }
            }
            assert forall|i: int, j: int| 0 <= i < j < s.len() implies #[trigger] s[i].score < #[trigger] s[j].score
                || (s[i].score == s[j].score && places[i] < places[j]) by {
                if j < idx {
                    assert(s[i] == prev[i] && places[i] == prev_places[i]);
                    assert(s[j] == prev[j] && places[j] == prev_places[j]);
                } else if j == idx {
                    assert(s[i] == prev[i] && places[i] == prev_places[i]);
                    assert(s[j] == e && places[j] == k - 1);
                } else if i > idx {
                    assert(s[i] == prev[i - 1] && places[i] == prev_places[i - 1]);
                    assert(s[j] == prev[j - 1] && places[j] == prev_places[j - 1]);
                } else if i == idx {
                    assert(s[i] == e && places[i] == k - 1);
                    assert(s[j] == prev[j - 1]);
                } else {
                    assert(s[i] == prev[i] && places[i] == prev_places[i]);
                    assert(s[j] == prev[j - 1] && places[j] == prev_places[j - 1]);
                }
            }
            assert forall|i: int| 0 <= i < places.len() implies #[trigger] places[i] < k by {
                if i < idx {
                    assert(places[i] == prev_places[i]);
                } else if i > idx {
                    assert(places[i] == prev_places[i - 1]);
                }
            }
            places
        } else {
            prev_places
        }
    }
}

/// `q` is the position after a non-losing move of `p`.
pub open spec fn is_safe_child(p: Position, q: Position) -> bool {
    exists|c: int| #[trigger] p.is_non_losing_move(c) && q == child_of(p, c)
}

/// Some entry of `s` holds position `q`.
pub open spec fn holds_child(s: Seq<ScoredEntry>, q: Position) -> bool {
    exists|i: int| 0 <= i < s.len() && (#[trigger] s[i]).child_position == q
}

/// The entries of `child_entries` are children of non-losing moves, and the
/// child of each non-losing move among the first `k` columns is there.
pub proof fn lemma_child_entries_children(p: Position, k: nat)
    requires
        p.wf(),
        k <= 7,
    ensures
        forall|i: int| 0 <= i < child_entries(p, k).len() ==> is_safe_child(p, (#[trigger] child_entries(p, k)[i]).child_position),
        forall|j: int| 0 <= j < k && p.is_non_losing_move(#[trigger] OUTSIDE_IN_COLUMN_ORDER@[j] as int) ==> holds_child(
            child_entries(p, k),
            child_of(p, OUTSIDE_IN_COLUMN_ORDER@[j] as int),
        ),
    decreases k,
{
    if k > 0 {
        lemma_child_entries_children(p, (k - 1) as nat);
        let prev = child_entries(p, (k - 1) as nat);
        let c = OUTSIDE_IN_COLUMN_ORDER@[k - 1] as int;
        if p.is_non_losing_move(c) {
            let e = ScoredEntry { child_position: child_of(p, c), score: score_of(p, c) };
            crate::board::scored_position_iterator::lemma_insert_index_range(prev, e.score);
            let idx = crate::board::scored_position_iterator::insert_index(prev, e.score);
            let s = insert_scored(prev, e);
            assert(s == child_entries(p, k));
            assert forall|i: int| 0 <= i < s.len() implies is_safe_child(p, (#[trigger] s[i]).child_position) by {
                if i < idx {
                    assert(s[i] == prev[i]);
                } else if i > idx {
                    assert(s[i] == prev[i - 1]);
                } else {
                    assert(s[i] == e);
                }
            }
            assert forall|j: int| 0 <= j < k && p.is_non_losing_move(#[trigger] OUTSIDE_IN_COLUMN_ORDER@[j] as int) implies holds_child(
                s,
                child_of(p, OUTSIDE_IN_COLUMN_ORDER@[j] as int),
            ) by {
                if j == k - 1 {
                    assert(s[idx] == e);
                } else {
                    assert(holds_child(prev, child_of(p, OUTSIDE_IN_COLUMN_ORDER@[j] as int)));
                    let i0 = choose|i: int|
                        0 <= i < prev.len() && (#[trigger] prev[i]).child_position == child_of(
                            p,
                            OUTSIDE_IN_COLUMN_ORDER@[j] as int,
                        );
                    if i0 < idx {
                        assert(s[i0] == prev[i0]);
                    } else {
                        assert(s[i0 + 1] == prev[i0]);
                    }
                }
            }
        } else {
            assert(prev == child_entries(p, k));
            assert forall|j: int| 0 <= j < k && p.is_non_losing_move(#[trigger] OUTSIDE_IN_COLUMN_ORDER@[j] as int) implies holds_child(
                prev,
                child_of(p, OUTSIDE_IN_COLUMN_ORDER@[j] as int),
            ) by {
                assert(j != k - 1);
            }
        }
    }
}

/// The children that `get_non_losing_child_positions` hands out are those of
/// the non-losing moves.
pub proof fn lemma_children_of_safe_moves(p: Position)
    requires
        p.wf(),
    ensures
        forall|i: int| 0 <= i < child_entries(p, 7).len() ==> is_safe_child(p, (#[trigger] child_entries(p, 7)[i]).child_position),
        forall|c: int| #[trigger] p.is_non_losing_move(c) ==> holds_child(child_entries(p, 7), child_of(p, c)),
{
    lemma_child_entries_children(p, 7);
    assert forall|c: int| #[trigger] p.is_non_losing_move(c) implies holds_child(child_entries(p, 7), child_of(p, c)) by {
        let j: int = if c == 6 {
            0
        } else if c == 0 {
            1
        } else if c == 5 {
            2
        } else if c == 1 {
            3
        } else if c == 4 {
            4
        } else if c == 2 {
            5
        } else {
            6
        };
        assert(OUTSIDE_IN_COLUMN_ORDER@[j] as int == c);
    }
}

/// A position with an open column has fewer than 42 stones.
pub proof fn lemma_fewer_than_all_cells(p: Position, c: int)
    requires
        p.wf(),
        0 <= c < 7,
        p.height(c) < 6,
    ensures
        p.moves_played < 42,
{
    broadcast use lemma_playable_bit;

    lemma_wf_facts(p);
    let h = p.height(c);
    let m = p.both_players_mask;
    lemma_div_mod_7(c, h);
    assert(!p.filled(c, h));
    assert forall|j: int| 0 <= j < 64 && #[trigger] bit(m, j) implies bit(PLAYABLE_BOARD_MASK, j) by {
        lemma_on_board_bit(m, j);
    }
    assert(bit(PLAYABLE_BOARD_MASK, cell_bit(c, h)) && !bit(m, cell_bit(c, h)));
    crate::board::bitmap::lemma_count_subset(m, PLAYABLE_BOARD_MASK, 64);
    crate::board::lemma_popcount_playable();
}

/// The entries of `child_entries` are well-formed positions one move further.
pub proof fn lemma_child_entries(p: Position, k: nat)
    requires
        p.wf(),
        k <= 7,
    ensures
        child_entries(p, k).len() <= k,
        forall|i: int| 0 <= i < child_entries(p, k).len() ==> (#[trigger] child_entries(p, k)[i]).child_position.wf()
            && child_entries(p, k)[i].child_position.moves_played == p.moves_played + 1,
    decreases k,
{
    if k > 0 {
        lemma_child_entries(p, (k - 1) as nat);
        let prev = child_entries(p, (k - 1) as nat);
        let c = OUTSIDE_IN_COLUMN_ORDER@[k - 1] as int;
        if p.is_non_losing_move(c) {
            assert(c < 7) by {
                assert(OUTSIDE_IN_COLUMN_ORDER@[k - 1] < 7);
            }
            lemma_child_exists(p, c);
            let e = ScoredEntry { child_position: child_of(p, c), score: score_of(p, c) };
            crate::board::scored_position_iterator::lemma_insert_index_range(prev, e.score);
            let idx = crate::board::scored_position_iterator::insert_index(prev, e.score);
            let s = insert_scored(prev, e);
            assert forall|i: int| 0 <= i < s.len() implies (#[trigger] s[i]).child_position.wf()
                && s[i].child_position.moves_played == p.moves_played + 1 by {
                if i < idx {
                    assert(s[i] == prev[i]);
                } else if i > idx {
                    assert(s[i] == prev[i - 1]);
                }
            }
        }
    }
}

/// The stones of each player in a position rest on stones or on the bottom.
pub proof fn lemma_rests_on(p: Position)
    requires
        p.wf(),
    ensures
        on_board(p.current_player_stones),
        on_board(p.opponent_stones()),
        on_board(p.both_players_mask),
        settled(p.both_players_mask),
        rests_on(p.current_player_stones, p.both_players_mask),
        rests_on(p.opponent_stones(), p.both_players_mask),
{
    lemma_wf_facts(p);
    assert forall|c: int, r: int| 0 < r && #[trigger] stone(p.current_player_stones, c, r) implies stone(
        p.both_players_mask,
        c,
        r - 1,
    ) by {
        assert(stone(p.both_players_mask, c, r));
    }
    assert forall|c: int, r: int| 0 < r && #[trigger] stone(p.opponent_stones(), c, r) implies stone(
        p.both_players_mask,
        c,
        r - 1,
    ) by {
        assert(stone(p.both_players_mask, c, r));
    }
}

proof fn bv_playable(m: u64)
    by (bit_vector)
    requires
        m & !0x0000_FDFB_F7EF_DFBFu64 == 0u64,
        (m >> 1u64) & !m & 0x0000_FDFB_F7EF_DFBFu64 == 0u64,
    ensures
        m + 0x0000_0408_1020_4081u64 <= 0xffff_ffff_ffff_ffffu64,
        ((m + 0x0000_0408_1020_4081u64) as u64) & 0x0000_FDFB_F7EF_DFBFu64 == 0x0000_FDFB_F7EF_DFBFu64
            & !m & ((m << 1u64) | 0x0000_0408_1020_4081u64),
{
}

/// The bits of `(mask + BOTTOM_ROW_MASK) & PLAYABLE_BOARD_MASK`: the landing cells.
proof fn lemma_playable_squares(p: Position)
    requires
        p.wf(),
    ensures
        p.both_players_mask + BOTTOM_ROW_MASK <= u64::MAX,
        on_board(((p.both_players_mask + BOTTOM_ROW_MASK) as u64) & PLAYABLE_BOARD_MASK),
        forall|c: int, r: int| #[trigger]
            stone(((p.both_players_mask + BOTTOM_ROW_MASK) as u64) & PLAYABLE_BOARD_MASK, c, r)
                == is_landing(p, c, r),
{
    broadcast use lemma_playable_bit, lemma_bottom_bit;

    let m = p.both_players_mask;
    lemma_wf_facts(p);
    lemma_settled_bits(m);
    bv_playable(m);
    let y = ((m + BOTTOM_ROW_MASK) as u64) & PLAYABLE_BOARD_MASK;
    assert forall|j: int| #[trigger] bit(y, j) implies is_cell_bit(j) by {}
    lemma_on_board_from_bits(y);
    assert forall|c: int, r: int| #[trigger] stone(y, c, r) == is_landing(p, c, r) by {
        if is_cell(c, r) {
            let j = cell_bit(c, r);
            lemma_div_mod_7(c, r);
            assert(p.filled(c, r) == (r < p.height(c)));
            if r > 0 {
                assert(p.filled(c, r - 1) == (r - 1 < p.height(c)));
                assert(bit(m, j - 1) == p.filled(c, r - 1));
            } else {
                if bit(m, j - 1) {
                    lemma_on_board_bit(m, j - 1);
                    lemma_div_mod_7(c - 1, 6);
                }
            }
        }
    }
}

proof fn lemma_winning_bits(x: Bitmap, mask: Bitmap, winning: Bitmap, result: Bitmap)
    requires
        forall|j: int| #[trigger]
            bit(winning, j) == (0 <= j < 64 && (three_bits(x, j, 0, 3) || three_bits(x, j, 1, 3) || three_bits(x, j, 1, 2)
                || three_bits(x, j, 1, 0) || three_bits(x, j, 1, 1) || three_bits(x, j, 3, 3) || three_bits(
                x,
                j,
                3,
                2,
            ) || three_bits(x, j, 3, 0) || three_bits(x, j, 3, 1) || three_bits(x, j, 2, 3) || three_bits(
                x,
                j,
                2,
                2,
            ) || three_bits(x, j, 2, 0) || three_bits(x, j, 2, 1))),
        result == winning & (PLAYABLE_BOARD_MASK ^ mask),
    ensures
        forall|j: int| #[trigger]
            bit(result, j) == (is_cell_bit(j) != bit(mask, j) && winning_bit_pattern(x, j)),
        on_board(mask) ==> on_board(result),
        on_board(x) && on_board(mask) && settled(mask) && rests_on(x, mask) ==> forall|c: int, r: int|
            #[trigger] stone(result, c, r) == is_winning_cell(x, mask, c, r),
{
    broadcast use lemma_playable_bit;

    assert forall|j: int| #[trigger]
        bit(result, j) == (is_cell_bit(j) != bit(mask, j) && winning_bit_pattern(x, j)) by {
        if 0 <= j < 64 && exists|d: int, t: int| 1 <= d < 4 && 0 <= t < 4 && #[trigger] three_bits(x, j, d, t) {
            let (d, t) = choose|d: int, t: int| 1 <= d < 4 && 0 <= t < 4 && #[trigger] three_bits(x, j, d, t);
            assert(bit(winning, j));
        }
    }
    if on_board(mask) {
        assert forall|j: int| #[trigger] bit(result, j) implies is_cell_bit(j) by {
            if bit(mask, j) {
                lemma_on_board_bit(mask, j);
            }
        }
        lemma_on_board_from_bits(result);
    }
    if on_board(x) && on_board(mask) && settled(mask) && rests_on(x, mask) {
        assert forall|c: int, r: int| #[trigger] stone(result, c, r) == is_winning_cell(x, mask, c, r) by {
            if is_cell(c, r) && !stone(mask, c, r) {
                let j = cell_bit(c, r);
                lemma_div_mod_7(c, r);
                assert forall|d: int, t: int| is_direction(d) && 0 <= t < 4 implies #[trigger] three_bits(
                    x,
                    j,
                    d,
                    t,
                ) == three_around(x, c, r, d, t) by {
                    lemma_three_around_bits(x, c, r, d, t);
                }
                assert forall|t: int| 0 <= t < 3 implies !#[trigger] three_around(x, c, r, 0, t) by {
                    let r2 = r + 3 - t;
                    if stone(x, c, r2) {
                        lemma_settled_below(mask, c, r2 - 1, r);
                    }
                }
                if completes_four(x, c, r) {
                    let (d, t) = choose|d: int, t: int|
                        is_direction(d) && 0 <= t < 4 && #[trigger] three_around(x, c, r, d, t);
                    assert(three_bits(x, j, d, t));
                }
                if winning_bit_pattern(x, j) {
                    if three_bits(x, j, 0, 3) {
                        assert(three_around(x, c, r, 0, 3));
                    } else {
                        let (d, t) = choose|d: int, t: int|
                            1 <= d < 4 && 0 <= t < 4 && #[trigger] three_bits(x, j, d, t);
                        assert(three_around(x, c, r, d, t));
                    }
                }
            }
        }
    }
}

} // verus!
