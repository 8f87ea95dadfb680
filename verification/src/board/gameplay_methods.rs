//! Playing the game interactively: whether it is over, which columns are open, and moves.
use vstd::prelude::*;
use crate::bits::{bit, group_bits, lemma_bits_equal, lemma_zero_iff_no_bit};
use crate::board::bitmap::{
    BITMAP_COLUMN_HEIGHT,
    BOTTOM_ROW_MASK,
    Bitmap,
    DOWN_LEFT_UP_RIGHT_OFFSET,
    PLAYABLE_BOARD_MASK,
    UP_LEFT_DOWN_RIGHT_OFFSET,
    cell_bit,
    compute_bottom_of_column_mask,
    compute_top_of_playable_column_mask,
    is_cell,
    is_cell_bit,
    lemma_bottom_bit,
    lemma_cell_of_bit,
    lemma_column_cells_bit,
    lemma_count_one_more,
    lemma_div_mod_7,
    lemma_on_board_bit,
    lemma_on_board_from_bits,
    lemma_playable_bit,
    on_board,
    stone,
};
use crate::board::lines::{
    bit_step,
    four_bits,
    four_from,
    has_four,
    is_direction,
    lemma_column_height,
    lemma_four_bits_dir,
    lemma_four_bits_shift,
    lemma_settled_bits,
    settled,
};
use crate::board::{lemma_wf_facts, Position, GAME_HEIGHT, GAME_WIDTH};

verus! {

broadcast use group_bits;

/// Whether the game goes on.
#[derive(PartialEq, Eq, Debug, Structural)]
pub enum GameState {
    InProgress,
    Ended(EndState),
}

/// How a game ended.
#[derive(PartialEq, Eq, Debug, Structural)]
pub enum EndState {
    PriorPlayerWon,
    Drawn,
}

/// Why a column cannot be played.
#[derive(PartialEq, Eq, Debug, Structural)]
pub enum PlayColumnError {
    /// The zero-based column index is not below `GAME_WIDTH`.
    ColumnDoesNotExist(u8),
    /// The game has already ended.
    GameOver(EndState),
    /// The column has no empty cell.
    ColumnFull(u8),
}

impl PlayColumnError {
    /// The words that describe how a game ended, for an error message.
    pub fn say_end_state_error(end_state: &EndState) -> (s: &'static str)
        ensures
            s@ == (match end_state {
                EndState::PriorPlayerWon => "prior player has already won"@,
                EndState::Drawn => "game has already ended in a draw"@,
            }),
    {
        match end_state {
            EndState::PriorPlayerWon => "prior player has already won",
            EndState::Drawn => "game has already ended in a draw",
        }
    }
}

/// Some four bits of `x`, evenly spaced by the bit distance of a direction, are set.
pub open spec fn aligned_four(x: Bitmap) -> bool {
    exists|d: int, j: int| is_direction(d) && #[trigger] four_bits(x, j, bit_step(d, 1))
}

impl Position {
    /// The state of the game: over when the player who moved last has four in a line,
    /// drawn when the board is full, else going on.
    pub open spec fn game_state(self) -> GameState {
        if has_four(self.opponent_stones()) {
            GameState::Ended(EndState::PriorPlayerWon)
        } else if self.moves_played == 42 {
            GameState::Ended(EndState::Drawn)
        } else {
            GameState::InProgress
        }
    }

    /// `after` is `self` once the player to move has dropped a stone in column `column`:
    /// the stone lands on top of the column and the turn passes.
    pub open spec fn dropped(self, after: Position, column: int) -> bool {
        &&& after.wf()
        &&& after.moves_played == self.moves_played + 1
        &&& forall|c: int, r: int| #[trigger]
            after.filled(c, r) == (self.filled(c, r) || (c == column && r == self.height(column)))
        &&& forall|c: int, r: int| #[trigger] after.current_at(c, r) == self.opponent_at(c, r)
    }

    /// What `play_column` answers for a column.
    pub open spec fn play_column_result(self, column: u8) -> Result<(), PlayColumnError> {
        if column >= 7 {
            Err(PlayColumnError::ColumnDoesNotExist(column))
        } else if has_four(self.opponent_stones()) {
            Err(PlayColumnError::GameOver(EndState::PriorPlayerWon))
        } else if self.moves_played == 42 {
            Err(PlayColumnError::GameOver(EndState::Drawn))
        } else if self.height(column as int) >= 6 {
            Err(PlayColumnError::ColumnFull(column))
        } else {
            Ok(())
        }
    }

    /// Whether the game is over, and how.
    pub fn get_game_state(&self) -> (state: GameState)
        ensures
            state == (if aligned_four(self.opponent_stones()) {
                GameState::Ended(EndState::PriorPlayerWon)
            } else if self.moves_played == 42 {
                GameState::Ended(EndState::Drawn)
            } else {
                GameState::InProgress
            }),
            self.wf() ==> state == self.game_state(),
    {
        proof {
            if self.wf() {
                lemma_wf_facts(*self);
                lemma_aligned_four_has_four(self.opponent_stones());
            }
        }
        if Self::position_has_connect_four(self.current_player_stones ^ self.both_players_mask) {
            return GameState::Ended(EndState::PriorPlayerWon);
        }
        if self.moves_played == GAME_WIDTH * GAME_HEIGHT {
            return GameState::Ended(EndState::Drawn);
        }
        GameState::InProgress
    }

    /// Whether column `column` has room for another stone.
    pub fn column_is_open(&self, column: u8) -> (open: bool)
        requires
            column <= 9,
        ensures
            open == !bit(self.both_players_mask, 7 * column + 5),
            column < 7 ==> open == !self.filled(column as int, 5),
            self.wf() && column < 7 ==> open == (self.height(column as int) < 6),
    {
        let top = compute_top_of_playable_column_mask(column);
        proof {
            lemma_zero_iff_no_bit(self.both_players_mask & top);
            assert(bit(self.both_players_mask & top, 7 * column + 5) == bit(
                self.both_players_mask,
                7 * column + 5,
            ));
            if self.wf() && column < 7 {
                lemma_wf_facts(*self);
                assert(self.filled(column as int, 5) == (5 < self.height(column as int)));
            }
        }
        self.both_players_mask & top == 0
    }

    /// Drops a stone of the player to move in column `column`, and passes the turn.
    /// Refuses a column that does not exist, a game that is over, and a full column.
    pub fn play_column(&mut self, column: u8) -> (result: Result<(), PlayColumnError>)
        requires
            old(self).wf(),
        ensures
            result == old(self).play_column_result(column),
            result is Err ==> *final(self) == *old(self),
            result is Ok ==> old(self).dropped(*final(self), column as int),
            result is Ok ==> final(self).alternating() == old(self).alternating(),
    {
        proof {
            lemma_wf_facts(*self);
        }
        if column >= GAME_WIDTH {
            return Err(PlayColumnError::ColumnDoesNotExist(column));
        }
        if let GameState::Ended(end_state) = self.get_game_state() {
            return Err(PlayColumnError::GameOver(end_state));
        }
        if !self.column_is_open(column) {
            return Err(PlayColumnError::ColumnFull(column));
        }
        let ghost old_position = *self;
        let bottom = compute_bottom_of_column_mask(column);
        proof {
            lemma_drop_bits(self.both_players_mask, column as int, self.height(column as int));
            lemma_bits_equal(bottom, 1u64 << (7 * column) as u64);
        }
        self.current_player_stones ^= self.both_players_mask;
        self.both_players_mask |= self.both_players_mask + bottom;
        self.moves_played += 1;
        proof {
            lemma_dropped(old_position, *self, column as int);
            crate::board::min_max_methods::lemma_dropped_unique(old_position, *self, column as int);
            crate::board::min_max_methods::lemma_child_alternating(old_position, column as int);
        }
        Ok(())
    }

    /// Whether `current_player_stones` has four stones in a line.
    pub fn position_has_connect_four(current_player_stones: Bitmap) -> (four: bool)
        ensures
            four == aligned_four(current_player_stones),
            on_board(current_player_stones) ==> four == has_four(current_player_stones),
    {
        let x = current_player_stones;
        proof {
            if on_board(x) {
                lemma_aligned_four_has_four(x);
            }
            lemma_four_bits_shift(x, 7);
            lemma_four_bits_shift(x, 6);
            lemma_four_bits_shift(x, 8);
            lemma_four_bits_shift(x, 1);
            assert(bit_step(0, 1) == 1 && bit_step(1, 1) == 7 && bit_step(2, 1) == 8 && bit_step(3, 1)
                == 6);
        }
        // Horizontal
        let mut pairs = current_player_stones & current_player_stones >> BITMAP_COLUMN_HEIGHT;
        if pairs & pairs >> 2 * BITMAP_COLUMN_HEIGHT != 0 {
            return true;
        }
        // Up-Left-Down-Right Diagonal

        pairs = current_player_stones & current_player_stones >> UP_LEFT_DOWN_RIGHT_OFFSET;
        if pairs & pairs >> 2 * UP_LEFT_DOWN_RIGHT_OFFSET != 0 {
            return true;
        }
        // Down-Left-Up-Right Diagonal

        pairs = current_player_stones & current_player_stones >> DOWN_LEFT_UP_RIGHT_OFFSET;
        if pairs & pairs >> 2 * DOWN_LEFT_UP_RIGHT_OFFSET != 0 {
            return true;
        }
        // Vertical

        pairs = current_player_stones & current_player_stones >> 1;
        pairs & pairs >> 2 != 0
    }
}

/// On the board, evenly spaced set bits are exactly four stones in a line.
pub proof fn lemma_aligned_four_has_four(x: Bitmap)
    requires
        on_board(x),
    ensures
        aligned_four(x) == has_four(x),
{
    lemma_four_bits_dir(x, 0);
    lemma_four_bits_dir(x, 1);
    lemma_four_bits_dir(x, 2);
    lemma_four_bits_dir(x, 3);
    if aligned_four(x) {
        let (d, j) = choose|d: int, j: int| is_direction(d) && #[trigger] four_bits(x, j, bit_step(d, 1));
        assert(exists|j: int| #[trigger] four_bits(x, j, bit_step(d, 1)));
        let (c, r) = choose|c: int, r: int| #[trigger] four_from(x, c, r, d);
        assert(is_direction(d) && four_from(x, c, r, d));
    }
    if has_four(x) {
        let (c, r, d) = choose|c: int, r: int, d: int| is_direction(d) && #[trigger] four_from(x, c, r, d);
        assert(exists|c: int, r: int| #[trigger] four_from(x, c, r, d));
        let j = choose|j: int| #[trigger] four_bits(x, j, bit_step(d, 1));
        assert(is_direction(d) && four_bits(x, j, bit_step(d, 1)));
    }
}

proof fn bv_drop(m: u64, s: u64)
    by (bit_vector)
    requires
        m & !0x0000_FDFB_F7EF_DFBFu64 == 0u64,
        (m >> 1u64) & !m & 0x0000_FDFB_F7EF_DFBFu64 == 0u64,
        s < 49,
        (0x0000_0408_1020_4081u64 >> s) & 1u64 == 1u64,
        (m >> (s + 5u64)) & 1u64 != 1u64,
    ensures
        m + (1u64 << s) <= 0xffff_ffff_ffff_ffffu64,
        m | ((m + (1u64 << s)) as u64) == m | (0x0000_FDFB_F7EF_DFBFu64 & !m & ((m << 1u64)
            | 0x0000_0408_1020_4081u64) & (0x3Fu64 << s)),
{
}

/// Each bit of `m | (m + (1 << 7c))`: the stones of `m` and one more on top of column `c`.
proof fn lemma_drop_bits(m: Bitmap, c: int, h: int)
    requires
        on_board(m),
        settled(m),
        0 <= c < 7,
        h == crate::board::lines::column_height(m, c),
        h < 6,
    ensures
        m + (1u64 << (7 * c) as u64) <= u64::MAX,
        forall|j: int| #[trigger]
            bit(m | ((m + (1u64 << (7 * c) as u64)) as u64), j) == (bit(m, j) || j == cell_bit(c, h)),
{
    broadcast use lemma_playable_bit, lemma_bottom_bit, lemma_column_cells_bit;

    let s = (7 * c) as u64;
    lemma_column_height(m, c);
    lemma_settled_bits(m);
    lemma_div_mod_7(c, 0);
    assert(stone(m, c, 5) == (5 < h));
    assert(!bit(m, 7 * c + 5));
    assert(bit(BOTTOM_ROW_MASK, 7 * c));
    bv_drop(m, s);
    let y = m | ((m + (1u64 << s)) as u64);
    assert forall|j: int| #[trigger] bit(y, j) == (bit(m, j) || j == cell_bit(c, h)) by {
        if 0 <= j < 64 && !bit(m, j) {
            if is_cell_bit(j) && s <= j < s + 6 {
                lemma_cell_of_bit(j);
                let r = j % 7;
                assert(j / 7 == c);
                assert(stone(m, c, r) == (r < h));
                if r > 0 {
                    assert(stone(m, c, r - 1) == bit(m, j - 1));
                } else {
                    if bit(m, j - 1) {
                        lemma_on_board_bit(m, j - 1);
                        lemma_div_mod_7(c - 1, 6);
                    }
                }
            } else {
                if j == cell_bit(c, h) {
                    lemma_div_mod_7(c, h);
                }
            }
        }
    }
}

/// After the bit updates of `play_column`, the new position is the old one with
/// a stone dropped in the column.
pub proof fn lemma_dropped(before: Position, after: Position, column: int)
    requires
        before.wf(),
        0 <= column < 7,
        before.height(column) < 6,
        after.current_player_stones == before.current_player_stones ^ before.both_players_mask,
        forall|j: int| #[trigger]
            bit(after.both_players_mask, j) == (bit(before.both_players_mask, j) || j == cell_bit(
                column,
                before.height(column),
            )),
        after.moves_played == before.moves_played + 1,
    ensures
        before.dropped(after, column),
{
    lemma_wf_facts(before);
    let m = before.both_players_mask;
    let m2 = after.both_players_mask;
    let h = before.height(column);
    let t = cell_bit(column, h);
    lemma_div_mod_7(column, h);
    assert forall|c: int, r: int| #[trigger]
        after.filled(c, r) == (before.filled(c, r) || (c == column && r == h)) by {
        if is_cell(c, r) && cell_bit(c, r) == t {
            lemma_div_mod_7(c, r);
        }
    }
    assert forall|j: int| #[trigger] bit(m2, j) implies is_cell_bit(j) by {
        if bit(m, j) {
            lemma_on_board_bit(m, j);
        }
    }
    lemma_on_board_from_bits(m2);
    assert forall|c: int, r: int| 0 < r && #[trigger] stone(m2, c, r) implies stone(m2, c, r - 1) by {
        assert(after.filled(c, r));
        assert(after.filled(c, r - 1));
    }
    let cur2 = after.current_player_stones;
    assert forall|j: int| 0 <= j < 64 implies #[trigger] bit(cur2 & !m2, j) == bit(0u64, j) by {
        lemma_zero_iff_no_bit(0u64);
    }
    lemma_bits_equal(cur2 & !m2, 0u64);
    assert forall|j: int| 0 <= j < 64 && j != t implies #[trigger] bit(m, j) == bit(m2, j) by {}
    assert(!before.filled(column, h));
    assert(!bit(m, t));
    lemma_count_one_more(m, m2, t, 64);
    assert forall|c: int, r: int| #[trigger] after.current_at(c, r) == before.opponent_at(c, r) by {}
}

} // verus!
