//! The board: a position held as two bitmaps, one bit per cell.
use vstd::prelude::*;
use crate::bits::{bit, group_bits, lemma_zero_iff_no_bit};
use crate::board::bitmap::{
    Bitmap,
    PLAYABLE_BOARD_MASK,
    count_bits_below,
    is_cell,
    lemma_count_at_most,
    lemma_count_subset,
    lemma_on_board_bit,
    lemma_on_board_from_bits,
    lemma_playable_bit,
    on_board,
    popcount,
    stone,
};
use crate::board::lines::{column_height, lemma_column_height, settled};

pub mod bitmap;
pub mod display;
pub mod lines;
pub mod gameplay_methods;
pub mod key_methods;
pub mod min_max_methods;
pub mod scored_position_iterator;

verus! {

broadcast use group_bits;

/// Number of columns.
pub const GAME_WIDTH: u8 = 7;

/// Number of rows.
pub const GAME_HEIGHT: u8 = 6;

/// A position: the stones of the player to move, and the stones of both players.
#[derive(Clone, Copy, PartialEq, Eq, Debug, Structural)]
pub struct Position {
    /// The stones of the player whose turn it is.
    pub current_player_stones: Bitmap,
    /// The stones of both players.
    pub both_players_mask: Bitmap,
    /// Number of stones played so far.
    pub moves_played: u8,
}

impl Position {
    /// Cell (`c`, `r`) holds a stone.
    pub open spec fn filled(self, c: int, r: int) -> bool {
        stone(self.both_players_mask, c, r)
    }

    /// Cell (`c`, `r`) holds a stone of the player to move.
    pub open spec fn current_at(self, c: int, r: int) -> bool {
        stone(self.current_player_stones, c, r)
    }

    /// Cell (`c`, `r`) holds a stone of the player who moved last.
    pub open spec fn opponent_at(self, c: int, r: int) -> bool {
        self.filled(c, r) && !self.current_at(c, r)
    }

    /// The stones of the player who moved last.
    pub open spec fn opponent_stones(self) -> Bitmap {
        self.current_player_stones ^ self.both_players_mask
    }

    /// Number of stones in column `c`.
    pub open spec fn height(self, c: int) -> int {
        column_height(self.both_players_mask, c)
    }

    /// The bitmaps describe a position: stones only on cells, every stone
    /// resting on another or on the bottom, the mover's stones among all the
    /// stones, and the count of moves equal to the count of stones.
    pub open spec fn wf(self) -> bool {
        &&& on_board(self.both_players_mask)
        &&& settled(self.both_players_mask)
        &&& self.current_player_stones & !self.both_players_mask == 0
        &&& self.moves_played == popcount(self.both_players_mask)
    }

    /// The players took turns: the player to move has half the stones, rounded down.
    pub open spec fn alternating(self) -> bool {
        popcount(self.current_player_stones) == self.moves_played / 2
    }

    /// Whether the bitmaps describe a position (see `wf`).
    pub fn is_valid(&self) -> (valid: bool)
        ensures
            valid == self.wf(),
    {
        let mask = self.both_players_mask;
        let on_board_mask = mask & !PLAYABLE_BOARD_MASK == 0;
        if !on_board_mask {
            return false;
        }
        proof {
            crate::board::lines::lemma_settled_bits(mask);
        }
        mask >> 1u64 & !mask & PLAYABLE_BOARD_MASK == 0 && self.current_player_stones & !mask == 0
            && self.moves_played as u64 == crate::board::bitmap::count_ones_in_bitmap(mask) as u64
    }

    /// The empty board, first player to move.
    pub fn new_blank_game() -> (p: Self)
        ensures
            p.wf(),
            p.alternating(),
            p.moves_played == 0,
            forall|c: int, r: int| !#[trigger] p.filled(c, r),
            p == (Position { current_player_stones: 0, both_players_mask: 0, moves_played: 0 }),
    {
        let p = Self { current_player_stones: 0, both_players_mask: 0, moves_played: 0 };
        proof {
            lemma_zero_iff_no_bit(0u64);
            lemma_on_board_from_bits(0u64);
            crate::board::bitmap::lemma_count_zero(64);
            assert(0u64 & !0u64 == 0u64) by (bit_vector);
        }
        p
    }
}

/// What a well-formed position guarantees of its bitmaps.
pub proof fn lemma_wf_facts(p: Position)
    requires
        p.wf(),
    ensures
        forall|j: int| #[trigger] bit(p.current_player_stones, j) ==> bit(p.both_players_mask, j),
        on_board(p.current_player_stones),
        on_board(p.opponent_stones()),
        forall|j: int| #[trigger] bit(p.opponent_stones(), j) == (bit(p.both_players_mask, j) && !bit(
            p.current_player_stones,
            j,
        )),
        forall|c: int, r: int| #[trigger] p.opponent_at(c, r) == stone(p.opponent_stones(), c, r),
        p.moves_played <= 42,
        p.current_player_stones + p.both_players_mask < 0x2_0000_0000_0000,
        forall|c: int| 0 <= #[trigger] p.height(c) <= 6,
        forall|c: int, r: int| #[trigger] p.filled(c, r) == (0 <= r < p.height(c)),
{
    let cur = p.current_player_stones;
    let mask = p.both_players_mask;
    lemma_zero_iff_no_bit(cur & !mask);
    assert forall|j: int| #[trigger] bit(cur, j) implies bit(mask, j) by {
        assert(!bit(cur & !mask, j));
    }
    assert forall|j: int| #[trigger] bit(cur, j) implies crate::board::bitmap::is_cell_bit(j) by {
        lemma_on_board_bit(mask, j);
    }
    lemma_on_board_from_bits(cur);
    assert forall|j: int| #[trigger] bit(p.opponent_stones(), j) implies crate::board::bitmap::is_cell_bit(j) by {
        lemma_on_board_bit(mask, j);
    }
    lemma_on_board_from_bits(p.opponent_stones());
    assert forall|j: int| #[trigger] bit(mask, j) implies bit(PLAYABLE_BOARD_MASK, j) by {
        lemma_on_board_bit(mask, j);
        lemma_playable_bit(j);
    }
    lemma_count_subset(mask, PLAYABLE_BOARD_MASK, 64);
    lemma_popcount_playable();
    crate::board::bitmap::lemma_on_board_le(mask);
    crate::board::bitmap::lemma_on_board_le(cur);
    assert forall|c: int| 0 <= #[trigger] p.height(c) <= 6 by {
        lemma_column_height(mask, c);
    }
    assert forall|c: int, r: int| #[trigger] p.filled(c, r) == (0 <= r < p.height(c)) by {
        lemma_column_height(mask, c);
    }
}

/// The board has 42 cells.
pub proof fn lemma_popcount_playable()
    ensures
        popcount(PLAYABLE_BOARD_MASK) == 42,
{
    lemma_count_playable_columns(7);
    assert forall|i: int| 49 <= i < 64 implies !#[trigger] bit(PLAYABLE_BOARD_MASK, i) by {
        lemma_playable_bit(i);
    }
    lemma_count_top(PLAYABLE_BOARD_MASK, 49, 64);
}

/// A bitmap with no bit from `lo` to `n` counts as many bits below `n` as below `lo`.
pub proof fn lemma_count_top(x: u64, lo: nat, n: nat)
    requires
        lo <= n,
        forall|i: int| lo <= i < n ==> !#[trigger] bit(x, i),
    ensures
        count_bits_below(x, n) == count_bits_below(x, lo),
    decreases n,
{
    if n > lo {
        lemma_count_top(x, lo, (n - 1) as nat);
    }
}

proof fn lemma_count_playable_columns(k: nat)
    requires
        k <= 7,
    ensures
        count_bits_below(PLAYABLE_BOARD_MASK, 7 * k) == 6 * k,
    decreases k,
{
    if k > 0 {
        lemma_count_playable_columns((k - 1) as nat);
        let b = 7 * (k - 1);
        assert forall|i: int| b <= i < b + 7 implies #[trigger] bit(PLAYABLE_BOARD_MASK, i) == (i < b + 6) by {
            lemma_playable_bit(i);
            crate::board::bitmap::lemma_div_mod_7(k - 1, i - b);
        }
        reveal_with_fuel(count_bits_below, 8);
        assert(bit(PLAYABLE_BOARD_MASK, b + 6) == false);
        assert(count_bits_below(PLAYABLE_BOARD_MASK, (b + 7) as nat) == count_bits_below(PLAYABLE_BOARD_MASK, b as nat) + 6);
    }
}


/// Two well-formed positions with the same stones, the same mover's stones and the
/// same count of moves are the same position.
pub proof fn lemma_same_cells(p: Position, q: Position)
    requires
        p.wf(),
        q.wf(),
        p.moves_played == q.moves_played,
        forall|c: int, r: int| #[trigger] p.filled(c, r) == q.filled(c, r),
        forall|c: int, r: int| #[trigger] p.current_at(c, r) == q.current_at(c, r),
    ensures
        p == q,
{
    lemma_wf_facts(p);
    lemma_wf_facts(q);
    assert forall|c: int, r: int| #[trigger] stone(p.both_players_mask, c, r) == stone(q.both_players_mask, c, r) by {
        assert(p.filled(c, r) == q.filled(c, r));
    }
    assert forall|c: int, r: int| #[trigger] stone(p.current_player_stones, c, r) == stone(q.current_player_stones, c, r) by {
        assert(p.current_at(c, r) == q.current_at(c, r));
    }
    lemma_same_stones(p.both_players_mask, q.both_players_mask);
    lemma_same_stones(p.current_player_stones, q.current_player_stones);
}

/// Two bitmaps on the board with the same stones are equal.
pub proof fn lemma_same_stones(a: Bitmap, b: Bitmap)
    requires
        on_board(a),
        on_board(b),
        forall|c: int, r: int| #[trigger] stone(a, c, r) == stone(b, c, r),
    ensures
        a == b,
{
    assert forall|j: int| 0 <= j < 64 implies #[trigger] bit(a, j) == bit(b, j) by {
        if bit(a, j) {
            lemma_on_board_bit(a, j);
            assert(stone(b, j / 7, j % 7));
        }
        if bit(b, j) {
            lemma_on_board_bit(b, j);
            assert(stone(a, j / 7, j % 7));
        }
    }
    crate::bits::lemma_bits_equal(a, b);
}
} // verus!
