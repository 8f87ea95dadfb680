//! Columns that fill from the bottom, and lines of four cells.
use vstd::prelude::*;
use crate::bits::{bit, group_bits, lemma_bits_equal, lemma_some_bit, lemma_zero_iff_no_bit};
use crate::board::bitmap::{
    Bitmap,
    PLAYABLE_BOARD_MASK,
    cell_bit,
    is_cell,
    is_cell_bit,
    lemma_div_mod_7,
    lemma_on_board_bit,
    lemma_playable_bit,
    on_board,
    stone,
};

verus! {

broadcast use group_bits;

/// Every stone of `b` not in the bottom row stands on another stone.
pub open spec fn settled(b: Bitmap) -> bool {
    forall|c: int, r: int| 0 < r && #[trigger] stone(b, c, r) ==> stone(b, c, r - 1)
}

/// The first row at or above `r` of column `c` without a stone (6 when there is none).
pub open spec fn height_from(b: Bitmap, c: int, r: int) -> int
    decreases 6 - r,
{
    if r < 0 || r >= 6 || !stone(b, c, r) {
        r
    } else {
        height_from(b, c, r + 1)
    }
}

/// Number of stones in column `c`: the row on which the next stone lands.
pub open spec fn column_height(b: Bitmap, c: int) -> int {
    height_from(b, c, 0)
}

/// In a settled bitmap, a stone lies above every lower row of its column.
pub proof fn lemma_settled_below(b: Bitmap, c: int, r: int, h: int)
    requires
        settled(b),
        stone(b, c, r),
        0 <= h <= r,
    ensures
        stone(b, c, h),
    decreases r - h,
{
    if h < r {
        assert(stone(b, c, r - 1));
        lemma_settled_below(b, c, r - 1, h);
    }
}

proof fn lemma_height_from(b: Bitmap, c: int, r0: int)
    requires
        0 <= r0 <= 6,
    ensures
        r0 <= height_from(b, c, r0) <= 6,
        forall|r: int| r0 <= r < height_from(b, c, r0) ==> stone(b, c, r),
        height_from(b, c, r0) < 6 ==> !stone(b, c, height_from(b, c, r0)),
    decreases 6 - r0,
{
    if r0 < 6 && stone(b, c, r0) {
        lemma_height_from(b, c, r0 + 1);
    }
}

/// In a settled bitmap, the stones of column `c` are exactly its rows below its height.
pub proof fn lemma_column_height(b: Bitmap, c: int)
    requires
        settled(b),
    ensures
        0 <= column_height(b, c) <= 6,
        forall|r: int| #[trigger] stone(b, c, r) == (0 <= r < column_height(b, c)),
{
    lemma_height_from(b, c, 0);
    let h = column_height(b, c);
    assert forall|r: int| #[trigger] stone(b, c, r) == (0 <= r < h) by {
        if stone(b, c, r) && r >= h {
            lemma_settled_below(b, c, r, h);
        }
    }
}

/// The bitwise form of `settled` for a bitmap on the board.
pub proof fn lemma_settled_bits(b: Bitmap)
    requires
        on_board(b),
    ensures
        settled(b) == ((b >> 1u64) & !b & PLAYABLE_BOARD_MASK == 0),
{
    broadcast use lemma_playable_bit;

    let y = (b >> 1u64) & !b & PLAYABLE_BOARD_MASK;
    lemma_zero_iff_no_bit(y);
    if settled(b) {
        assert forall|j: int| !#[trigger] bit(y, j) by {
            if bit(y, j) {
                lemma_on_board_bit(b, j + 1);
                let c = j / 7;
                let r = j % 7;
                lemma_div_mod_7(c, r + 1);
                assert(stone(b, c, r + 1));
            }
        }
    }
    if y == 0 {
        assert forall|c: int, r: int| 0 < r && #[trigger] stone(b, c, r) implies stone(b, c, r - 1) by {
            lemma_div_mod_7(c, r - 1);
            assert(!bit(y, cell_bit(c, r - 1)));
        }
    }
}

/// Column of the cell `k` steps from column `c` along direction `d`.
///
/// The directions: 0 up a column, 1 right along a row, 2 right and up, 3 right and down.
pub open spec fn col_step(c: int, d: int, k: int) -> int {
    if d == 0 {
        c
    } else {
        c + k
    }
}

/// Row of the cell `k` steps from row `r` along direction `d`.
pub open spec fn row_step(r: int, d: int, k: int) -> int {
    if d == 1 {
        r
    } else if d == 3 {
        r - k
    } else {
        r + k
    }
}

/// Distance in bits of `k` steps along direction `d`.
pub open spec fn bit_step(d: int, k: int) -> int {
    if d == 0 {
        k
    } else if d == 1 {
        7 * k
    } else if d == 2 {
        8 * k
    } else {
        6 * k
    }
}

/// `d` is one of the four directions of a line.
pub open spec fn is_direction(d: int) -> bool {
    0 <= d < 4
}

/// The stone `k` steps from (`c`, `r`) along direction `d`.
pub open spec fn stone_at_step(b: Bitmap, c: int, r: int, d: int, k: int) -> bool {
    stone(b, col_step(c, d, k), row_step(r, d, k))
}

/// Bitmap `b` has four stones in a line from (`c`, `r`) along direction `d`.
pub open spec fn four_from(b: Bitmap, c: int, r: int, d: int) -> bool {
    &&& stone_at_step(b, c, r, d, 0)
    &&& stone_at_step(b, c, r, d, 1)
    &&& stone_at_step(b, c, r, d, 2)
    &&& stone_at_step(b, c, r, d, 3)
}

/// Bitmap `b` has four stones in a line: a column, a row or a diagonal.
pub open spec fn has_four(b: Bitmap) -> bool {
    exists|c: int, r: int, d: int| is_direction(d) && #[trigger] four_from(b, c, r, d)
}

/// Bits `j`, `j + s`, `j + 2s` and `j + 3s` of `b` are set.
pub open spec fn four_bits(b: Bitmap, j: int, s: int) -> bool {
    bit(b, j) && bit(b, j + s) && bit(b, j + 2 * s) && bit(b, j + 3 * s)
}

/// Along a line from a cell, the bit `k` steps away is the stone `k` steps away,
/// as long as that step reaches at most one row past the board (the empty bit of a column).
pub proof fn lemma_line_bit(b: Bitmap, c: int, r: int, d: int, k: int)
    requires
        on_board(b),
        is_cell(c, r),
        is_direction(d),
        -1 <= row_step(r, d, k) <= 6,
    ensures
        bit(b, cell_bit(c, r) + bit_step(d, k)) == stone_at_step(b, c, r, d, k),
{
    let c2 = col_step(c, d, k);
    let r2 = row_step(r, d, k);
    let j = cell_bit(c, r) + bit_step(d, k);
    assert(j == 7 * c2 + r2);
    if bit(b, j) {
        lemma_on_board_bit(b, j);
        if r2 == 6 {
            lemma_div_mod_7(c2, 6);
        } else if r2 == -1 {
            lemma_div_mod_7(c2 - 1, 6);
        } else {
            lemma_div_mod_7(c2, r2);
        }
    }
}

/// For a bitmap on the board, four set bits at the bit distance of a direction
/// are four stones in a line along that direction.
pub proof fn lemma_four_bits_dir(b: Bitmap, d: int)
    requires
        on_board(b),
        is_direction(d),
    ensures
        (exists|j: int| #[trigger] four_bits(b, j, bit_step(d, 1))) == (exists|c: int, r: int|
            #[trigger] four_from(b, c, r, d)),
{
    let s = bit_step(d, 1);
    assert(bit_step(d, 2) == 2 * s && bit_step(d, 3) == 3 * s && bit_step(d, 0) == 0);
    if exists|j: int| #[trigger] four_bits(b, j, s) {
        let j = choose|j: int| #[trigger] four_bits(b, j, s);
        lemma_on_board_bit(b, j);
        let c = j / 7;
        let r = j % 7;
        lemma_line_bit(b, c, r, d, 0);
        lemma_line_bit(b, c, r, d, 1);
        lemma_line_bit(b, c, r, d, 2);
        lemma_line_bit(b, c, r, d, 3);
        assert(four_from(b, c, r, d));
    }
    if exists|c: int, r: int| #[trigger] four_from(b, c, r, d) {
        let (c, r) = choose|c: int, r: int| #[trigger] four_from(b, c, r, d);
        lemma_line_bit(b, c, r, d, 0);
        lemma_line_bit(b, c, r, d, 1);
        lemma_line_bit(b, c, r, d, 2);
        lemma_line_bit(b, c, r, d, 3);
        assert(four_bits(b, cell_bit(c, r), s));
    }
}

/// `x & (x >> s)` and its shift by `2s` leave bit `j` set exactly when four bits
/// from `j` at distance `s` are set.
pub proof fn lemma_four_bits_shift(x: u64, s: u64)
    requires
        0 < s < 16,
    ensures
        ({
            let p = x & (x >> s);
            (p & (p >> (2 * s) as u64) != 0) == (exists|j: int| #[trigger] four_bits(x, j, s as int))
        }),
{
    let p = x & (x >> s);
    let q = p & (p >> (2 * s) as u64);
    lemma_zero_iff_no_bit(q);
    assert forall|j: int| #[trigger] bit(q, j) == four_bits(x, j, s as int) by {}
    if q != 0 {
        let j = lemma_some_bit(q);
        assert(four_bits(x, j, s as int));
    }
    if exists|j: int| #[trigger] four_bits(x, j, s as int) {
        let j = choose|j: int| #[trigger] four_bits(x, j, s as int);
        assert(bit(q, j));
    }
}


/// The stones of `b` at the three cells other than (`c`, `r`) of the line along
/// direction `d` in which (`c`, `r`) is the cell at step `t` (0 to 3).
pub open spec fn three_around(b: Bitmap, c: int, r: int, d: int, t: int) -> bool {
    &&& (t == 0 || stone_at_step(b, c, r, d, 0 - t))
    &&& (t == 1 || stone_at_step(b, c, r, d, 1 - t))
    &&& (t == 2 || stone_at_step(b, c, r, d, 2 - t))
    &&& (t == 3 || stone_at_step(b, c, r, d, 3 - t))
}

/// A stone of `b` on (`c`, `r`) would make four in a line through that cell.
pub open spec fn completes_four(b: Bitmap, c: int, r: int) -> bool {
    exists|d: int, t: int| is_direction(d) && 0 <= t < 4 && #[trigger] three_around(b, c, r, d, t)
}

/// The bits of `b` at the three positions other than `j` of the evenly spaced
/// line along direction `d` in which `j` is at step `t`.
pub open spec fn three_bits(b: Bitmap, j: int, d: int, t: int) -> bool {
    &&& (t == 0 || bit(b, j + bit_step(d, 0 - t)))
    &&& (t == 1 || bit(b, j + bit_step(d, 1 - t)))
    &&& (t == 2 || bit(b, j + bit_step(d, 2 - t)))
    &&& (t == 3 || bit(b, j + bit_step(d, 3 - t)))
}

/// (`c`, `r`) is in some line of four stones of `b`.
pub open spec fn in_four(b: Bitmap, c: int, r: int) -> bool {
    exists|d: int, t: int|
        is_direction(d) && 0 <= t < 4 && stone(b, c, r) && #[trigger] three_around(b, c, r, d, t)
}

/// For a bitmap on the board, the three bits around a cell's bit along a direction
/// are the three stones around the cell along that direction.
pub proof fn lemma_three_around_bits(b: Bitmap, c: int, r: int, d: int, t: int)
    requires
        on_board(b),
        is_cell(c, r),
        is_direction(d),
        0 <= t < 4,
    ensures
        three_bits(b, cell_bit(c, r), d, t) == three_around(b, c, r, d, t),
{
    assert forall|k: int| -3 <= k <= 3 && -1 <= #[trigger] row_step(r, d, k) <= 6 implies bit(
        b,
        cell_bit(c, r) + bit_step(d, k),
    ) == stone_at_step(b, c, r, d, k) by {
        lemma_line_bit(b, c, r, d, k);
    }
    assert(-1 <= row_step(r, d, 1) <= 6);
    assert(-1 <= row_step(r, d, -1) <= 6);
    if stone_at_step(b, c, r, d, 1) {
        assert(-1 <= row_step(r, d, 2) <= 6);
        if stone_at_step(b, c, r, d, 2) {
            assert(-1 <= row_step(r, d, 3) <= 6);
        }
    }
    if stone_at_step(b, c, r, d, -1) {
        assert(-1 <= row_step(r, d, -2) <= 6);
        if stone_at_step(b, c, r, d, -2) {
            assert(-1 <= row_step(r, d, -3) <= 6);
        }
    }
}
} // verus!
