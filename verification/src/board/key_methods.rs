//! Keys: one integer per position, for the transposition table, and back.
use vstd::prelude::*;
use crate::bits::{
    bit,
    group_bits,
    lemma_add_disjoint,
    lemma_bits_equal,
    lemma_zero_iff_no_bit,
};
use crate::board::bitmap::{
    BITMAP_COLUMN_HEIGHT,
    BITMAP_ROW_WIDTH,
    BOTTOM_ROW_MASK,
    Bitmap,
    PLAYABLE_BOARD_MASK,
    cell_bit,
    compute_bitmap_column_mask,
    count_bits_below,
    count_ones_in_bitmap,
    is_cell,
    is_cell_bit,
    lemma_bit_low_mask,
    lemma_cell_of_bit,
    lemma_div_mod_7,
    lemma_on_board_bit,
    lemma_on_board_from_bits,
    lemma_playable_bit,
    on_board,
    popcount,
    stone,
};
use crate::board::lines::lemma_settled_bits;
use crate::board::Position;

verus! {

broadcast use group_bits;

/// A number that stands for a position.
pub type PositionKey = u64;

/// For the down shift by one: every bit of a column that has a bit one above it in the same column.
pub const DOWN_SHIFT_BY_ONE_MASK: Bitmap = 0x0000_FDFB_F7EF_DFBF;

/// For the down shift by two: rows 0 to 4 of every column.
pub const DOWN_SHIFT_BY_TWO_MASK: Bitmap = 0x0000_7CF9_F3E7_CF9F;

/// For the down shift by four: rows 0 to 2 of every column.
pub const DOWN_SHIFT_BY_FOUR_MASK: Bitmap = 0x0000_1C38_70E1_C387;

/// The first column past the middle one.
pub const PAST_MIDDLE_COLUMN_INDEX: u8 = 4;

/// Some bit of column `c` above row `r`, up to the column's seventh bit, is set in `o`.
pub open spec fn marker_above(o: u64, c: int, r: int) -> bool {
    exists|t: int| r < t <= 6 && #[trigger] bit(o, cell_bit(c, t))
}

impl Position {
    /// The key of this position: the sum of its two bitmaps.
    ///
    /// Column by column, the mover's stones plus a run of ones as tall as the column;
    /// the highest set bit of a column, counted with the bottom row mask added, marks its top.
    pub open spec fn key(self) -> int {
        self.current_player_stones + self.both_players_mask
    }

    /// `mirror` is this position with its columns flipped about the middle one.
    pub open spec fn is_mirror_of(self, mirror: Position) -> bool {
        &&& mirror.moves_played == self.moves_played
        &&& forall|c: int, r: int| #[trigger] mirror.filled(c, r) == self.filled(6 - c, r)
        &&& forall|c: int, r: int| #[trigger] mirror.current_at(c, r) == self.current_at(6 - c, r)
    }

    /// Turns the position into its key.
    pub fn get_key(&self) -> (key: PositionKey)
        requires
            self.current_player_stones + self.both_players_mask <= u64::MAX,
        ensures
            key == self.key(),
    {
        self.current_player_stones + self.both_players_mask
    }

    /// The key with its columns flipped about the middle one: column `c` of the
    /// result is column `6 - c` of the key, which makes it the key of the
    /// position's mirror image (itself a well-formed position, whose mirror image
    /// is the position again).
    pub fn get_mirror_key(&self) -> (mirror_key: PositionKey)
        requires
            self.current_player_stones + self.both_players_mask <= u64::MAX,
        ensures
            forall|j: int| #[trigger]
                bit(mirror_key, j) == (0 <= j < 49 && bit(
                    self.key() as u64,
                    cell_bit(6 - j / 7, j % 7),
                )),
            forall|q: Position| #[trigger] self.is_mirror_of(q) && self.wf() && q.wf() ==> mirror_key == q.key(),
            self.wf() ==> self.mirror().wf() && self.is_mirror_of(self.mirror()) && self.mirror().mirror() == *self
                && mirror_key == self.mirror().key(),
    {
        let key = self.get_key();
        let mut mirror_key: u64 = 0;
        proof {
            lemma_zero_iff_no_bit(0u64);
        }
        // Up to and including the middle column, shift left to reach the mirror column

        let mut i: u8 = 0;
        while i < PAST_MIDDLE_COLUMN_INDEX
            invariant
                i <= PAST_MIDDLE_COLUMN_INDEX,
                forall|j: int| #[trigger]
                    bit(mirror_key, j) == (0 <= j < 49 && 6 - j / 7 < i && bit(
                        key,
                        cell_bit(6 - j / 7, j % 7),
                    )),
            decreases PAST_MIDDLE_COLUMN_INDEX - i,
        {
            let column_mask = compute_bitmap_column_mask(i);
            let shift = BITMAP_COLUMN_HEIGHT * (BITMAP_ROW_WIDTH - 1 - 2 * i as u64);
            let moved = (key & column_mask) << shift;
            proof {
                lemma_mirror_step(key, mirror_key, column_mask, moved, i as int, true);
            }
            mirror_key += moved;
            i += 1;
        }
        // Past the middle column, shift right to reach the mirror column

        while i < BITMAP_ROW_WIDTH as u8
            invariant
                PAST_MIDDLE_COLUMN_INDEX <= i <= 7,
                forall|j: int| #[trigger]
                    bit(mirror_key, j) == (0 <= j < 49 && 6 - j / 7 < i && bit(
                        key,
                        cell_bit(6 - j / 7, j % 7),
                    )),
            decreases 7 - i,
        {
            let column_mask = compute_bitmap_column_mask(i);
            let shift = BITMAP_COLUMN_HEIGHT * (2 * i as u64 - BITMAP_ROW_WIDTH + 1);
            let moved = (key & column_mask) >> shift;
            proof {
                lemma_mirror_step(key, mirror_key, column_mask, moved, i as int, false);
            }
            mirror_key += moved;
            i += 1;
        }
        proof {
            assert forall|q: Position| #[trigger] self.is_mirror_of(q) && self.wf() && q.wf() implies mirror_key
                == q.key() by {
                lemma_mirror_key(*self, q, mirror_key);
            }
            if self.wf() {
                lemma_mirror_position(*self);
                lemma_mirror_key(*self, self.mirror(), mirror_key);
            }
        }
        mirror_key
    }

    /// Builds the position whose key is `key`.
    ///
    /// With `o = key + BOTTOM_ROW_MASK`, a cell holds a stone when some bit of its
    /// column above it is set in `o`, and the stone is the mover's when its own bit
    /// of `o` is set. For the key of a position, that is the position.
    pub fn from_key(key: PositionKey) -> (p: Self)
        requires
            key + BOTTOM_ROW_MASK <= u64::MAX,
        ensures
            on_board(p.both_players_mask),
            forall|c: int, r: int| #[trigger]
                p.filled(c, r) == (is_cell(c, r) && marker_above(
                    (key + BOTTOM_ROW_MASK) as u64,
                    c,
                    r,
                )),
            p.current_player_stones == ((key + BOTTOM_ROW_MASK) as u64) & p.both_players_mask,
            p.moves_played == popcount(p.both_players_mask),
            forall|q: Position| q.wf() && q.key() == key ==> p == q,
    {
        // With the bottom row added, each column has a marker bit just above its stones
        let marked_key = key + BOTTOM_ROW_MASK;
        let both_players_mask = stones_below_markers(marked_key);
        let current_player_stones = marked_key & both_players_mask;
        let moves_played = count_ones_in_bitmap(both_players_mask);
        proof {
            lemma_count_at_most_board(both_players_mask);
        }
        let p = Position { current_player_stones, both_players_mask, moves_played: moves_played };
        proof {
            assert forall|q: Position| q.wf() && q.key() == key implies p == q by {
                lemma_settled_bits(q.both_players_mask);
                assert(bitmaps_of_key(q.both_players_mask, q.current_player_stones, marked_key));
            }
        }
        p
    }

    /// Builds the position whose key is `key`, given its number of moves, which
    /// spares counting the stones.
    pub fn from_key_and_moves_played(key: PositionKey, moves_played: u8) -> (p: Self)
        requires
            key + BOTTOM_ROW_MASK <= u64::MAX,
        ensures
            on_board(p.both_players_mask),
            forall|c: int, r: int| #[trigger]
                p.filled(c, r) == (is_cell(c, r) && marker_above(
                    (key + BOTTOM_ROW_MASK) as u64,
                    c,
                    r,
                )),
            p.current_player_stones == ((key + BOTTOM_ROW_MASK) as u64) & p.both_players_mask,
            p.moves_played == moves_played,
            forall|q: Position| q.wf() && q.key() == key && q.moves_played == moves_played ==> p == q,
    {
        // With the bottom row added, each column has a marker bit just above its stones
        let marked_key = key + BOTTOM_ROW_MASK;
        let both_players_mask = stones_below_markers(marked_key);
        let current_player_stones = marked_key & both_players_mask;
        let p = Position { current_player_stones, both_players_mask, moves_played };
        proof {
            assert forall|q: Position| q.wf() && q.key() == key && q.moves_played == moves_played implies p
                == q by {
                lemma_settled_bits(q.both_players_mask);
                assert(bitmaps_of_key(q.both_players_mask, q.current_player_stones, marked_key));
            }
        }
        p
    }
}

/// The key tells positions apart: two well-formed positions with the same key
/// are the same position.
pub proof fn lemma_key_injective(p: Position, q: Position)
    requires
        p.wf(),
        q.wf(),
        p.key() == q.key(),
    ensures
        p == q,
{
    crate::board::lemma_wf_facts(p);
    crate::board::lemma_wf_facts(q);
    lemma_settled_bits(p.both_players_mask);
    lemma_settled_bits(q.both_players_mask);
    bv_round_trip(p.both_players_mask, p.current_player_stones);
    bv_round_trip(q.both_players_mask, q.current_player_stones);
    assert(((p.current_player_stones + p.both_players_mask) as u64) == ((q.current_player_stones
        + q.both_players_mask) as u64));
}

/// The seven bits of column `c` of `x`, as a number.
pub open spec fn column_bits(x: u64, c: int) -> u64 {
    (x >> ((7 * c) as u64)) & 0x7Fu64
}

proof fn bv_column_sum(x: u64, y: u64, s: u64)
    by (bit_vector)
    requires
        x & !0x0000_FDFB_F7EF_DFBFu64 == 0u64,
        y & !0x0000_FDFB_F7EF_DFBFu64 == 0u64,
        s < 7,
    ensures
        (((x + y) as u64) >> ((7 * s) as u64)) & 0x7Fu64 == ((x >> ((7 * s) as u64)) & 0x7Fu64) + ((y >> ((7
            * s) as u64)) & 0x7Fu64),
{
}

proof fn bv_column_mask_bit(r: u64)
    by (bit_vector)
    requires
        r < 64,
    ensures
        ((0x7Fu64 >> r) & 1u64 == 1u64) == (r < 7),
{
}

proof fn bv_high_bits(x: u64, j: u64)
    by (bit_vector)
    requires
        x < 0x2_0000_0000_0000u64,
        49 <= j < 64,
    ensures
        (x >> j) & 1u64 != 1u64,
{
}

/// Bit `r` of column `c` of `x` is bit `7 * c + r` of `x`.
proof fn lemma_column_bit(x: u64, c: int, r: int)
    requires
        0 <= c < 7,
    ensures
        bit(column_bits(x, c), r) == (0 <= r < 7 && bit(x, 7 * c + r)),
{
    if 0 <= r < 64 {
        bv_column_mask_bit(r as u64);
    }
}

/// Two bitmaps whose columns `c` and `c2` have the same bits, row by row.
proof fn lemma_same_column(x: u64, y: u64, c: int, c2: int)
    requires
        0 <= c < 7,
        0 <= c2 < 7,
        forall|r: int| 0 <= r < 7 ==> #[trigger] bit(x, 7 * c + r) == bit(y, 7 * c2 + r),
    ensures
        column_bits(x, c) == column_bits(y, c2),
{
    assert forall|r: int| 0 <= r < 64 implies #[trigger] bit(column_bits(x, c), r) == bit(column_bits(y, c2), r) by {
        lemma_column_bit(x, c, r);
        lemma_column_bit(y, c2, r);
    }
    lemma_bits_equal(column_bits(x, c), column_bits(y, c2));
}

/// `x` with its columns from `c` on flipped about the middle one: column `c2`
/// (with its seventh bit) goes to column `6 - c2`.
pub open spec fn mirror_columns_from(x: u64, c: int) -> u64
    decreases 7 - c,
{
    if c < 0 || c >= 7 {
        0
    } else {
        (column_bits(x, c) << ((7 * (6 - c)) as u64)) | mirror_columns_from(x, c + 1)
    }
}

/// `x` with its seven columns flipped about the middle one.
pub open spec fn mirror_bits(x: u64) -> u64 {
    mirror_columns_from(x, 0)
}

/// The number of bits set in column `c` of `x`.
pub open spec fn column_count(x: u64, c: int) -> nat {
    count_bits_below(column_bits(x, c), 7)
}

/// The number of bits set in the first `k` columns of `x`.
pub open spec fn columns_count(x: u64, k: int) -> nat
    decreases k,
{
    if k <= 0 {
        0
    } else {
        columns_count(x, k - 1) + column_count(x, k - 1)
    }
}

impl Position {
    /// The position with its columns flipped about the middle one.
    pub open spec fn mirror(self) -> Position {
        Position {
            current_player_stones: mirror_bits(self.current_player_stones),
            both_players_mask: mirror_bits(self.both_players_mask),
            moves_played: self.moves_played,
        }
    }
}

proof fn lemma_mirror_columns_from_bits(x: u64, c: int)
    requires
        0 <= c <= 7,
    ensures
        forall|j: int| #[trigger]
            bit(mirror_columns_from(x, c), j) == (0 <= j < 49 && 6 - j / 7 >= c && bit(x, 7 * (6 - j / 7) + j % 7)),
    decreases 7 - c,
{
    if c == 7 {
        lemma_zero_iff_no_bit(0u64);
    } else {
        lemma_mirror_columns_from_bits(x, c + 1);
        let s = 7 * (6 - c);
        assert forall|j: int| #[trigger]
            bit(mirror_columns_from(x, c), j) == (0 <= j < 49 && 6 - j / 7 >= c && bit(x, 7 * (6 - j / 7) + j % 7)) by {
            lemma_column_bit(x, c, j - s);
            vstd::arithmetic::div_mod::lemma_fundamental_div_mod(j, 7);
            assert((column_bits(x, c) << (s as u64)) | mirror_columns_from(x, c + 1) == mirror_columns_from(x, c));
            if 0 <= j - s < 7 {
                lemma_div_mod_7(6 - c, j - s);
            }
        }
    }
}

/// The bits of the flipped bitmap: bit `7 * c + r` is bit `7 * (6 - c) + r` of `x`.
pub proof fn lemma_mirror_bits(x: u64)
    ensures
        forall|j: int| #[trigger]
            bit(mirror_bits(x), j) == (0 <= j < 49 && bit(x, 7 * (6 - j / 7) + j % 7)),
{
    lemma_mirror_columns_from_bits(x, 0);
}

/// Counting up to a row of column `k` adds the count of that column so far.
proof fn lemma_count_in_column(x: u64, k: int, r: int)
    requires
        0 <= k < 7,
        0 <= r <= 7,
    ensures
        count_bits_below(x, (7 * k + r) as nat) == count_bits_below(x, (7 * k) as nat) + count_bits_below(
            column_bits(x, k),
            r as nat,
        ),
    decreases r,
{
    if r > 0 {
        lemma_count_in_column(x, k, r - 1);
        lemma_column_bit(x, k, r - 1);
    }
}

/// The count of the first `7 * k` bits is the count of the first `k` columns.
proof fn lemma_count_columns(x: u64, k: int)
    requires
        0 <= k <= 7,
    ensures
        count_bits_below(x, (7 * k) as nat) == columns_count(x, k),
    decreases k,
{
    if k > 0 {
        lemma_count_columns(x, k - 1);
        lemma_count_in_column(x, k - 1, 7);
    }
}

/// Flipping the columns keeps the number of bits of a bitmap on the board.
proof fn lemma_mirror_popcount(x: u64)
    requires
        on_board(x),
    ensures
        popcount(mirror_bits(x)) == popcount(x),
{
    let y = mirror_bits(x);
    lemma_mirror_bits(x);
    assert forall|i: int| 49 <= i < 64 implies !#[trigger] bit(x, i) by {
        if bit(x, i) {
            lemma_on_board_bit(x, i);
        }
    }
    crate::board::lemma_count_top(x, 49, 64);
    crate::board::lemma_count_top(y, 49, 64);
    lemma_count_columns(x, 7);
    lemma_count_columns(y, 7);
    assert forall|c: int| 0 <= c < 7 implies #[trigger] column_count(y, c) == column_count(x, 6 - c) by {
        assert forall|r: int| 0 <= r < 7 implies #[trigger] bit(y, 7 * c + r) == bit(x, 7 * (6 - c) + r) by {
            lemma_div_mod_7(c, r);
        }
        lemma_same_column(y, x, c, 6 - c);
    }
    reveal_with_fuel(columns_count, 8);
    assert(column_count(y, 0) == column_count(x, 6));
    assert(column_count(y, 1) == column_count(x, 5));
    assert(column_count(y, 2) == column_count(x, 4));
    assert(column_count(y, 3) == column_count(x, 3));
    assert(column_count(y, 4) == column_count(x, 2));
    assert(column_count(y, 5) == column_count(x, 1));
    assert(column_count(y, 6) == column_count(x, 0));
}

/// The mirror image of a well-formed position is a well-formed position, it is
/// the mirror of the position, and flipping it again gives the position back.
pub proof fn lemma_mirror_position(p: Position)
    requires
        p.wf(),
    ensures
        p.mirror().wf(),
        p.is_mirror_of(p.mirror()),
        p.mirror().mirror() == p,
{
    crate::board::lemma_wf_facts(p);
    let q = p.mirror();
    let cur = p.current_player_stones;
    let mask = p.both_players_mask;
    lemma_mirror_bits(cur);
    lemma_mirror_bits(mask);
    lemma_mirror_bits(q.current_player_stones);
    lemma_mirror_bits(q.both_players_mask);
    // Cells go to cells, and the seventh bit of a column stays empty
    assert forall|j: int| #[trigger] bit(q.both_players_mask, j) implies is_cell_bit(j) by {
        let c = j / 7;
        let r = j % 7;
        lemma_div_mod_7(6 - c, r);
        lemma_on_board_bit(mask, 7 * (6 - c) + r);
    }
    lemma_on_board_from_bits(q.both_players_mask);
    assert forall|c: int, r: int| #[trigger] q.filled(c, r) == p.filled(6 - c, r) by {
        if is_cell(c, r) {
            lemma_div_mod_7(c, r);
        }
    }
    assert forall|c: int, r: int| #[trigger] q.current_at(c, r) == p.current_at(6 - c, r) by {
        if is_cell(c, r) {
            lemma_div_mod_7(c, r);
        }
    }
    // Stones rest on stones
    crate::board::lines::lemma_settled_bits(mask);
    assert(crate::board::lines::settled(mask));
    assert forall|c: int, r: int| 0 < r && #[trigger] stone(q.both_players_mask, c, r) implies stone(
        q.both_players_mask,
        c,
        r - 1,
    ) by {
        assert(q.filled(c, r) == p.filled(6 - c, r));
        assert(q.filled(c, r - 1) == p.filled(6 - c, r - 1));
        assert(stone(mask, 6 - c, r));
    }
    crate::board::lines::lemma_settled_bits(q.both_players_mask);
    // The mover's stones are among the stones
    assert forall|j: int| !#[trigger] bit(q.current_player_stones & !q.both_players_mask, j) by {
        if 0 <= j < 49 {
            assert(bit(cur, 7 * (6 - j / 7) + j % 7) ==> bit(mask, 7 * (6 - j / 7) + j % 7));
        }
    }
    lemma_zero_iff_no_bit(q.current_player_stones & !q.both_players_mask);
    lemma_mirror_popcount(mask);
    // Flipping twice
    assert forall|j: int| 0 <= j < 64 implies #[trigger] bit(q.mirror().current_player_stones, j) == bit(cur, j) by {
        if j < 49 {
            let c = j / 7;
            let r = j % 7;
            lemma_div_mod_7(6 - c, r);
            lemma_div_mod_7(c, r);
        } else if bit(cur, j) {
            lemma_on_board_bit(cur, j);
        }
    }
    assert forall|j: int| 0 <= j < 64 implies #[trigger] bit(q.mirror().both_players_mask, j) == bit(mask, j) by {
        if j < 49 {
            let c = j / 7;
            let r = j % 7;
            lemma_div_mod_7(6 - c, r);
            lemma_div_mod_7(c, r);
        } else if bit(mask, j) {
            lemma_on_board_bit(mask, j);
        }
    }
    lemma_bits_equal(q.mirror().current_player_stones, cur);
    lemma_bits_equal(q.mirror().both_players_mask, mask);
}

/// The mirror key of a position, as `get_mirror_key` builds it, is the key of
/// the position with its columns flipped about the middle one.
proof fn lemma_mirror_key(p: Position, q: Position, mirror_key: u64)
    requires
        p.wf(),
        q.wf(),
        p.is_mirror_of(q),
        forall|j: int| #[trigger]
            bit(mirror_key, j) == (0 <= j < 49 && bit(p.key() as u64, cell_bit(6 - j / 7, j % 7))),
    ensures
        mirror_key == q.key(),
{
    crate::board::lemma_wf_facts(p);
    crate::board::lemma_wf_facts(q);
    let pk = p.key() as u64;
    let qk = q.key() as u64;
    assert forall|c: int| 0 <= c < 7 implies #[trigger] column_bits(mirror_key, c) == column_bits(qk, c) by {
        let c2 = 6 - c;
        bv_column_sum(p.current_player_stones, p.both_players_mask, c2 as u64);
        bv_column_sum(q.current_player_stones, q.both_players_mask, c as u64);
        assert forall|r: int| 0 <= r < 7 implies #[trigger] bit(q.current_player_stones, 7 * c + r) == bit(
            p.current_player_stones,
            7 * c2 + r,
        ) by {
            if r < 6 {
                assert(q.current_at(c, r) == p.current_at(c2, r));
            } else {
                if bit(q.current_player_stones, 7 * c + r) {
                    lemma_on_board_bit(q.current_player_stones, 7 * c + r);
                    lemma_div_mod_7(c, r);
                }
                if bit(p.current_player_stones, 7 * c2 + r) {
                    lemma_on_board_bit(p.current_player_stones, 7 * c2 + r);
                    lemma_div_mod_7(c2, r);
                }
            }
        }
        assert forall|r: int| 0 <= r < 7 implies #[trigger] bit(q.both_players_mask, 7 * c + r) == bit(
            p.both_players_mask,
            7 * c2 + r,
        ) by {
            if r < 6 {
                assert(q.filled(c, r) == p.filled(c2, r));
            } else {
                if bit(q.both_players_mask, 7 * c + r) {
                    lemma_on_board_bit(q.both_players_mask, 7 * c + r);
                    lemma_div_mod_7(c, r);
                }
                if bit(p.both_players_mask, 7 * c2 + r) {
                    lemma_on_board_bit(p.both_players_mask, 7 * c2 + r);
                    lemma_div_mod_7(c2, r);
                }
            }
        }
        assert forall|r: int| 0 <= r < 7 implies #[trigger] bit(mirror_key, 7 * c + r) == bit(pk, 7 * c2 + r) by {
            lemma_div_mod_7(c, r);
        }
        lemma_same_column(q.current_player_stones, p.current_player_stones, c, c2);
        lemma_same_column(q.both_players_mask, p.both_players_mask, c, c2);
        lemma_same_column(mirror_key, pk, c, c2);
    }
    assert forall|j: int| 0 <= j < 64 implies #[trigger] bit(mirror_key, j) == bit(qk, j) by {
        if j < 49 {
            let c = j / 7;
            let r = j % 7;
            lemma_column_bit(mirror_key, c, r);
            lemma_column_bit(qk, c, r);
            assert(column_bits(mirror_key, c) == column_bits(qk, c));
        } else {
            bv_high_bits(qk, j as u64);
        }
    }
    lemma_bits_equal(mirror_key, qk);
}

proof fn lemma_count_at_most_board(b: Bitmap)
    requires
        on_board(b),
    ensures
        popcount(b) <= 42,
{
    broadcast use lemma_playable_bit;

    assert forall|j: int| 0 <= j < 64 && #[trigger] bit(b, j) implies bit(PLAYABLE_BOARD_MASK, j) by {
        crate::board::bitmap::lemma_on_board_bit(b, j);
    }
    crate::board::bitmap::lemma_count_subset(b, PLAYABLE_BOARD_MASK, 64);
    crate::board::lemma_popcount_playable();
}

proof fn bv_round_trip(m: u64, c: u64)
    by (bit_vector)
    requires
        m & !0x0000_FDFB_F7EF_DFBFu64 == 0u64,
        (m >> 1u64) & !m & 0x0000_FDFB_F7EF_DFBFu64 == 0u64,
        c & !m == 0u64,
    ensures
        ({
            let o = (((c + m) as u64) + 0x0000_0408_1020_4081u64) as u64;
            let b1 = o | ((o >> 1u64) & 0x0000_FDFB_F7EF_DFBFu64);
            let b2 = b1 | ((b1 >> 2u64) & 0x0000_7CF9_F3E7_CF9Fu64);
            let b3 = b2 | ((b2 >> 4u64) & 0x0000_1C38_70E1_C387u64);
            let b4 = (b3 >> 1u64) & 0x0000_FDFB_F7EF_DFBFu64;
            b4 == m && (o & b4) == c
        }),
{
}

proof fn bv_fill(x: u64, c: u64, r: u64)
    by (bit_vector)
    requires
        c < 7,
        r < 6,
    ensures
        ({
            let b1 = x | ((x >> 1u64) & 0x0000_FDFB_F7EF_DFBFu64);
            let b2 = b1 | ((b1 >> 2u64) & 0x0000_7CF9_F3E7_CF9Fu64);
            let b3 = b2 | ((b2 >> 4u64) & 0x0000_1C38_70E1_C387u64);
            let b4 = (b3 >> 1u64) & 0x0000_FDFB_F7EF_DFBFu64;
            ((b4 >> ((7u64 * c + r) as u64)) & 1u64 == 1u64) == ((x >> ((7u64 * c + r + 1u64) as u64))
                & (((1u64 << ((6u64 - r) as u64)) - 1u64) as u64) != 0u64)
        }),
{
}

/// `m` and `s` are the bitmaps of both players and of the mover in a position
/// whose key plus the bottom row mask is `marked_key`.
pub open spec fn bitmaps_of_key(m: u64, s: u64, marked_key: u64) -> bool {
    &&& m & !PLAYABLE_BOARD_MASK == 0
    &&& (m >> 1u64) & !m & PLAYABLE_BOARD_MASK == 0
    &&& s & !m == 0
    &&& s + m + BOTTOM_ROW_MASK == marked_key
}

/// The stones of a position whose key plus the bottom row mask is `marked_key`:
/// every cell below the highest set bit of its column.
fn stones_below_markers(marked_key: Bitmap) -> (mask: Bitmap)
    ensures
        on_board(mask),
        forall|c: int, r: int| #[trigger]
            stone(mask, c, r) == (is_cell(c, r) && marker_above(marked_key, c, r)),
        forall|m: u64, s: u64| #[trigger]
            bitmaps_of_key(m, s, marked_key) ==> mask == m && (marked_key & mask) == s,
{
    let mut both_players_mask = marked_key;
    both_players_mask |= both_players_mask >> 1u64 & DOWN_SHIFT_BY_ONE_MASK;
    both_players_mask |= both_players_mask >> 2u64 & DOWN_SHIFT_BY_TWO_MASK;
    both_players_mask |= both_players_mask >> 4u64 & DOWN_SHIFT_BY_FOUR_MASK;
    // Finally, shift everything down 1 because the key puts each column's '1'
    // just above where the mask would have it
    both_players_mask = both_players_mask >> 1u64 & PLAYABLE_BOARD_MASK;
    proof {
        let mask = both_players_mask;
        assert forall|m: u64, s: u64| #[trigger]
            bitmaps_of_key(m, s, marked_key) implies mask == m && (marked_key & mask) == s by {
            bv_round_trip(m, s);
        }
        assert forall|j: int| #[trigger] bit(mask, j) implies is_cell_bit(j) by {
            lemma_playable_bit(j);
        }
        lemma_on_board_from_bits(mask);
        assert forall|c: int, r: int| #[trigger]
            stone(mask, c, r) == (is_cell(c, r) && marker_above(marked_key, c, r)) by {
            if is_cell(c, r) {
                bv_fill(marked_key, c as u64, r as u64);
                let j = 7 * c + r + 1;
                let low = ((1u64 << ((6 - r) as u64)) - 1u64) as u64;
                let y = (marked_key >> (j as u64)) & low;
                lemma_zero_iff_no_bit(y);
                if marker_above(marked_key, c, r) {
                    let t = choose|t: int| r < t <= 6 && #[trigger] bit(marked_key, cell_bit(c, t));
                    lemma_bit_low_mask((6 - r) as u64, t - r - 1);
                    assert(bit(y, t - r - 1));
                }
                if y != 0 {
                    let i = crate::bits::lemma_some_bit(y);
                    lemma_bit_low_mask((6 - r) as u64, i);
                    assert(bit(marked_key, cell_bit(c, r + 1 + i)));
                }
            }
        }
    }
    both_players_mask
}

/// One step of `get_mirror_key`: column `i` of the key, moved to column `6 - i`,
/// joins the columns already moved.
proof fn lemma_mirror_step(key: u64, mirror_key: u64, column_mask: u64, moved: u64, i: int, left: bool)
    requires
        0 <= i < 7,
        forall|j: int| #[trigger] bit(column_mask, j) == (7 * i <= j < 7 * i + 7 && j < 64),
        left ==> i < 4 && moved == (key & column_mask) << (7 * (6 - 2 * i)) as u64,
        !left ==> i >= 4 && moved == (key & column_mask) >> (7 * (2 * i - 6)) as u64,
        forall|j: int| #[trigger]
            bit(mirror_key, j) == (0 <= j < 49 && 6 - j / 7 < i && bit(key, cell_bit(6 - j / 7, j % 7))),
    ensures
        mirror_key + moved <= u64::MAX,
        forall|j: int| #[trigger]
            bit((mirror_key + moved) as u64, j) == (0 <= j < 49 && 6 - j / 7 < i + 1 && bit(
                key,
                cell_bit(6 - j / 7, j % 7),
            )),
{
    assert forall|j: int| #[trigger]
        bit(moved, j) == (0 <= j < 49 && j / 7 == 6 - i && bit(key, cell_bit(i, j % 7))) by {
        if 0 <= j < 64 {
            let c = j / 7;
            let r = j % 7;
            lemma_div_mod_7(c, r);
        }
    }
    lemma_add_disjoint(mirror_key, moved);
    assert forall|j: int| #[trigger]
        bit((mirror_key + moved) as u64, j) == (0 <= j < 49 && 6 - j / 7 < i + 1 && bit(
            key,
            cell_bit(6 - j / 7, j % 7),
        )) by {
        assert(bit(mirror_key | moved, j) == (bit(mirror_key, j) || bit(moved, j)));
    }
}

} // verus!
