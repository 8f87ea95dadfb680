//! Bitmaps of the board: cell (column `c`, row `r`) is bit `7 * c + r`.
//!
//! Each column takes seven bits: six for its cells, counted from the bottom,
//! and a seventh, always empty, above them.
use vstd::prelude::*;
use crate::bits::{bit, group_bits, lemma_bits_equal, lemma_some_bit, lemma_zero_iff_no_bit};

verus! {

broadcast use group_bits;

/// One bit per cell of the board.
pub type Bitmap = u64;

/// Bits given to one row of the board (one per column).
pub const BITMAP_ROW_WIDTH: u64 = 7;

/// Bits given to one column: its six cells and the empty bit above them.
pub const BITMAP_COLUMN_HEIGHT: u64 = 7;

/// Bit distance between a cell and its neighbour one column right and one row down.
pub const UP_LEFT_DOWN_RIGHT_OFFSET: u64 = 6;

/// Bit distance between a cell and its neighbour one column right and one row up.
pub const DOWN_LEFT_UP_RIGHT_OFFSET: u64 = 8;

/// The bottom cell of every column.
pub const BOTTOM_ROW_MASK: Bitmap = 0x0000_0408_1020_4081;

/// Every cell of the board.
pub const PLAYABLE_BOARD_MASK: Bitmap = 0x0000_FDFB_F7EF_DFBF;

/// Row `r` of column `c` is a cell of the board.
pub open spec fn is_cell(c: int, r: int) -> bool {
    0 <= c < 7 && 0 <= r < 6
}

/// The bit that stands for cell (`c`, `r`).
pub open spec fn cell_bit(c: int, r: int) -> int {
    7 * c + r
}

/// Bitmap `b` holds a stone on cell (`c`, `r`).
pub open spec fn stone(b: Bitmap, c: int, r: int) -> bool {
    is_cell(c, r) && bit(b, cell_bit(c, r))
}

/// Bit `j` stands for a cell of the board.
pub open spec fn is_cell_bit(j: int) -> bool {
    0 <= j < 49 && j % 7 < 6
}

/// Every bit set in `b` stands for a cell.
pub open spec fn on_board(b: Bitmap) -> bool {
    b & !PLAYABLE_BOARD_MASK == 0
}

/// Number of bits set in `x` below bit `n`.
pub open spec fn count_bits_below(x: u64, n: nat) -> nat
    decreases n,
{
    if n == 0 {
        0
    } else {
        count_bits_below(x, (n - 1) as nat) + if bit(x, n - 1) {
            1nat
        } else {
            0nat
        }
    }
}

/// Number of bits set in `x`.
pub open spec fn popcount(x: u64) -> nat {
    count_bits_below(x, 64)
}

proof fn bv_masks(j: u64)
    by (bit_vector)
    requires
        j < 64,
    ensures
        ((0x0000_FDFB_F7EF_DFBFu64 >> j) & 1u64 == 1u64) == (j < 49 && j % 7 < 6),
        ((0x0000_0408_1020_4081u64 >> j) & 1u64 == 1u64) == (j < 49 && j % 7 == 0),
        ((0x3Fu64 >> j) & 1u64 == 1u64) == (j < 6),
{
}

proof fn bv_low_mask(n: u64, j: u64)
    by (bit_vector)
    requires
        n < 64,
        j < 64,
    ensures
        (((((1u64 << n) - 1u64) as u64) >> j) & 1u64 == 1u64) == (j < n),
{
}

/// The bits of the board mask are the cells.
pub broadcast proof fn lemma_playable_bit(j: int)
    ensures
        #[trigger] bit(PLAYABLE_BOARD_MASK, j) == is_cell_bit(j),
{
    if 0 <= j < 64 {
        bv_masks(j as u64);
    }
}

/// The bits of the bottom-row mask are the bottom cells.
pub broadcast proof fn lemma_bottom_bit(j: int)
    ensures
        #[trigger] bit(BOTTOM_ROW_MASK, j) == (0 <= j < 49 && j % 7 == 0),
{
    if 0 <= j < 64 {
        bv_masks(j as u64);
    }
}

/// `0x3F` has the six lowest bits: the cells of one column.
pub broadcast proof fn lemma_column_cells_bit(j: int)
    ensures
        #[trigger] bit(0x3Fu64, j) == (0 <= j < 6),
{
    if 0 <= j < 64 {
        bv_masks(j as u64);
    }
}

/// A bit stands for a cell exactly when it is the bit of some cell.
pub proof fn lemma_cell_of_bit(j: int)
    requires
        is_cell_bit(j),
    ensures
        is_cell(j / 7, j % 7),
        j == cell_bit(j / 7, j % 7),
{
}

/// `(1 << n) - 1` has the `n` lowest bits.
pub broadcast proof fn lemma_bit_low_mask(n: u64, j: int)
    requires
        n < 64,
    ensures
        #[trigger] bit(((1u64 << n) - 1u64) as u64, j) == (0 <= j < n),
{
    if 0 <= j < 64 {
        bv_low_mask(n, j as u64);
    }
}

/// Bit `7 * c + r` with `0 <= r < 7` lies in column `c`, row `r`.
pub proof fn lemma_div_mod_7(c: int, r: int)
    requires
        0 <= r < 7,
    ensures
        (7 * c + r) / 7 == c,
        (7 * c + r) % 7 == r,
{
    vstd::arithmetic::div_mod::lemma_fundamental_div_mod_converse(7 * c + r, 7, c, r);
}

/// A set bit of a bitmap on the board stands for a cell, and which one.
pub proof fn lemma_on_board_bit(b: Bitmap, j: int)
    requires
        on_board(b),
        bit(b, j),
    ensures
        is_cell_bit(j),
        is_cell(j / 7, j % 7),
        j == cell_bit(j / 7, j % 7),
        stone(b, j / 7, j % 7),
{
    broadcast use lemma_playable_bit;

    lemma_zero_iff_no_bit(b & !PLAYABLE_BOARD_MASK);
    assert(!bit(b & !PLAYABLE_BOARD_MASK, j));
}

/// A bitmap is on the board when every set bit stands for a cell.
pub proof fn lemma_on_board_from_bits(b: Bitmap)
    requires
        forall|j: int| #[trigger] bit(b, j) ==> is_cell_bit(j),
    ensures
        on_board(b),
{
    broadcast use lemma_playable_bit;

    assert forall|j: int| 0 <= j < 64 implies #[trigger] bit(b & !PLAYABLE_BOARD_MASK, j) == bit(
        0u64,
        j,
    ) by {
        lemma_zero_iff_no_bit(0u64);
    }
    lemma_bits_equal(b & !PLAYABLE_BOARD_MASK, 0u64);
}

/// The mask with only the bottom cell of column `col`.
pub fn compute_bottom_of_column_mask(col: u8) -> (mask: Bitmap)
    requires
        col <= 9,
    ensures
        forall|j: int| #[trigger] bit(mask, j) == (j == 7 * col),
        col < 7 ==> forall|j: int| #[trigger] bit(mask, j) == (j == cell_bit(col as int, 0)),
{
    1u64 << (col as u64 * BITMAP_COLUMN_HEIGHT)
}

/// The mask with only the top cell of column `col`.
pub fn compute_top_of_playable_column_mask(col: u8) -> (mask: Bitmap)
    requires
        col <= 9,
    ensures
        forall|j: int| #[trigger] bit(mask, j) == (j == 7 * col + 5 && j < 64),
{
    let top_of_first: u64 = 1u64 << (crate::board::GAME_HEIGHT as u64 - 1);
    let mask = top_of_first << (col as u64 * BITMAP_COLUMN_HEIGHT);
    proof {
        assert(top_of_first == 1u64 << 5u64);
        assert forall|j: int| #[trigger] bit(mask, j) == (j == 7 * col + 5 && j < 64) by {
            assert(bit(1u64 << 5u64, j - 7 * col) == (j - 7 * col == 5));
        }
    }
    mask
}

/// The mask with the six cells of column `col` (bits past the last are dropped).
pub fn compute_playable_column_mask(col: u8) -> (mask: Bitmap)
    requires
        col <= 9,
    ensures
        forall|j: int| #[trigger] bit(mask, j) == (7 * col <= j < 7 * col + 6 && j < 64),
{
    proof {
        assert(1u64 << 6u64 == 64u64) by (bit_vector);
    }
    let low: u64 = (1u64 << crate::board::GAME_HEIGHT as u64) - 1;
    let mask = low << (col as u64 * BITMAP_COLUMN_HEIGHT);
    proof {
        assert forall|j: int| #[trigger] bit(mask, j) == (7 * col <= j < 7 * col + 6 && j < 64) by {
            lemma_bit_low_mask(6, j - 7 * col);
        }
    }
    mask
}

/// The mask with the seven bits of column `col` (bits past the last are dropped).
pub fn compute_bitmap_column_mask(col: u8) -> (mask: Bitmap)
    requires
        col <= 9,
    ensures
        forall|j: int| #[trigger] bit(mask, j) == (7 * col <= j < 7 * col + 7 && j < 64),
{
    proof {
        assert(1u64 << 7u64 == 128u64) by (bit_vector);
    }
    let low: u64 = (1u64 << BITMAP_COLUMN_HEIGHT) - 1;
    let mask = low << (col as u64 * BITMAP_COLUMN_HEIGHT);
    proof {
        assert forall|j: int| #[trigger] bit(mask, j) == (7 * col <= j < 7 * col + 7 && j < 64) by {
            lemma_bit_low_mask(7, j - 7 * col);
        }
    }
    mask
}


/// Bitmaps that agree below bit `n` have as many bits there.
pub proof fn lemma_count_same(a: u64, b: u64, n: nat)
    requires
        forall|i: int| 0 <= i < n ==> #[trigger] bit(a, i) == bit(b, i),
    ensures
        count_bits_below(a, n) == count_bits_below(b, n),
    decreases n,
{
    if n > 0 {
        lemma_count_same(a, b, (n - 1) as nat);
    }
}

/// Splitting the bits of `a` into those of `s` (a part of `a`) and the rest
/// splits their count.
pub proof fn lemma_count_split(a: u64, s: u64, n: nat)
    requires
        forall|i: int| #[trigger] bit(s, i) ==> bit(a, i),
    ensures
        count_bits_below(a, n) == count_bits_below(s, n) + count_bits_below(a ^ s, n),
    decreases n,
{
    if n > 0 {
        lemma_count_split(a, s, (n - 1) as nat);
        assert(bit(a ^ s, n - 1) == (bit(a, n - 1) != bit(s, n - 1)));
    }
}

/// Counting below a higher bit counts at least as many.
pub proof fn lemma_count_grows(x: u64, m: nat, n: nat)
    requires
        m <= n,
    ensures
        count_bits_below(x, m) <= count_bits_below(x, n),
    decreases n,
{
    if m < n {
        lemma_count_grows(x, m, (n - 1) as nat);
    }
}

/// Three set bits make a count of at least three.
pub proof fn lemma_count_three(x: u64, i: int, j: int, k: int)
    requires
        0 <= i < j < k < 64,
        bit(x, i),
        bit(x, j),
        bit(x, k),
    ensures
        popcount(x) >= 3,
{
    lemma_count_grows(x, (i + 1) as nat, j as nat);
    lemma_count_grows(x, (j + 1) as nat, k as nat);
    lemma_count_grows(x, (k + 1) as nat, 64);
    assert(count_bits_below(x, (i + 1) as nat) == count_bits_below(x, i as nat) + 1);
    assert(count_bits_below(x, (j + 1) as nat) == count_bits_below(x, j as nat) + 1);
    assert(count_bits_below(x, (k + 1) as nat) == count_bits_below(x, k as nat) + 1);
}

/// A bitmap with one more bit below `n` than another has one more count there.
pub proof fn lemma_count_one_more(a: u64, b: u64, t: int, n: nat)
    requires
        0 <= t < n,
        bit(b, t),
        !bit(a, t),
        forall|i: int| 0 <= i < n && i != t ==> #[trigger] bit(a, i) == bit(b, i),
    ensures
        count_bits_below(b, n) == count_bits_below(a, n) + 1,
    decreases n,
{
    if t == n - 1 {
        lemma_count_same(a, b, (n - 1) as nat);
    } else {
        lemma_count_one_more(a, b, t, (n - 1) as nat);
    }
}

/// A bitmap whose bits below `n` are among another's counts no more there,
/// and fewer when the other has a bit that it lacks.
pub proof fn lemma_count_subset(a: u64, b: u64, n: nat)
    requires
        forall|i: int| 0 <= i < n && #[trigger] bit(a, i) ==> bit(b, i),
    ensures
        count_bits_below(a, n) <= count_bits_below(b, n),
        (exists|t: int| 0 <= t < n && #[trigger] bit(b, t) && !bit(a, t)) ==> count_bits_below(a, n)
            < count_bits_below(b, n),
    decreases n,
{
    if n > 0 {
        lemma_count_subset(a, b, (n - 1) as nat);
        if exists|t: int| 0 <= t < n && #[trigger] bit(b, t) && !bit(a, t) {
            let t = choose|t: int| 0 <= t < n && #[trigger] bit(b, t) && !bit(a, t);
            if t < n - 1 {
                assert(exists|t: int| 0 <= t < n - 1 && #[trigger] bit(b, t) && !bit(a, t));
            }
        }
    }
}

/// At most `n` bits lie below bit `n`.
pub proof fn lemma_count_at_most(x: u64, n: nat)
    ensures
        count_bits_below(x, n) <= n,
    decreases n,
{
    if n > 0 {
        lemma_count_at_most(x, (n - 1) as nat);
    }
}

proof fn bv_clear_lowest(x: u64, t: u64)
    by (bit_vector)
    requires
        t < 64,
        (x >> t) & 1u64 == 1u64,
        x & (((1u64 << t) - 1u64) as u64) == 0u64,
    ensures
        x & ((x - 1u64) as u64) == x ^ (1u64 << t),
{
}

/// `x & (x - 1)` is `x` without its lowest bit, so it has one bit fewer, and it
/// is nonzero exactly when `x` has two bits.
pub proof fn lemma_clear_lowest_bit(x: u64)
    requires
        x != 0,
    ensures
        popcount(x & ((x - 1) as u64)) + 1 == popcount(x),
        (x & ((x - 1) as u64) != 0) == (exists|i: int, k: int|
            i != k && #[trigger] bit(x, i) && #[trigger] bit(x, k)),
{
    let t = lemma_some_bit(x);
    let low = ((1u64 << (t as u64)) - 1u64) as u64;
    assert forall|i: int| 0 <= i < 64 implies #[trigger] bit(x & low, i) == bit(0u64, i) by {
        lemma_bit_low_mask(t as u64, i);
        lemma_zero_iff_no_bit(0u64);
    }
    lemma_bits_equal(x & low, 0u64);
    bv_clear_lowest(x, t as u64);
    let y = x & ((x - 1) as u64);
    assert forall|i: int| 0 <= i < 64 && i != t implies #[trigger] bit(y, i) == bit(x, i) by {}
    lemma_count_one_more(y, x, t, 64);
    lemma_zero_iff_no_bit(y);
    if y != 0 {
        let i = lemma_some_bit(y);
        assert(i != t && bit(x, i) && bit(x, t));
    }
    if exists|i: int, k: int| i != k && #[trigger] bit(x, i) && #[trigger] bit(x, k) {
        let (i, k) = choose|i: int, k: int| i != k && #[trigger] bit(x, i) && #[trigger] bit(x, k);
        if i != t {
            assert(bit(y, i));
        } else {
            assert(bit(y, k));
        }
    }
}

/// Counts the bits set in `bitmap`.
pub fn count_ones_in_bitmap(bitmap: Bitmap) -> (count: u8)
    ensures
        count == popcount(bitmap),
{
    let mut bitmap = bitmap;
    let mut count: u8 = 0;
    let ghost start = bitmap;
    proof {
        lemma_count_at_most(bitmap, 64);
    }
    while bitmap != 0
        invariant
            count + popcount(bitmap) == popcount(start),
            popcount(start) <= 64,
        decreases popcount(bitmap),
    {
        proof {
            lemma_clear_lowest_bit(bitmap);
        }
        bitmap &= bitmap - 1;
        count += 1;
    }
    proof {
        lemma_zero_iff_no_bit(bitmap);
        lemma_count_same(bitmap, 0u64, 64);
        lemma_zero_iff_no_bit(0u64);
        assert(count_bits_below(0u64, 64) == 0) by {
            lemma_count_zero(64);
        }
    }
    count
}

/// The empty bitmap has no bits.
pub proof fn lemma_count_zero(n: nat)
    ensures
        count_bits_below(0u64, n) == 0,
    decreases n,
{
    if n > 0 {
        lemma_zero_iff_no_bit(0u64);
        lemma_count_zero((n - 1) as nat);
    }
}

proof fn bv_on_board_le(b: u64)
    by (bit_vector)
    requires
        b & !0x0000_FDFB_F7EF_DFBFu64 == 0u64,
    ensures
        b <= 0x0000_FDFB_F7EF_DFBFu64,
{
}

/// A bitmap on the board is at most the board mask, below `2^48`.
pub proof fn lemma_on_board_le(b: Bitmap)
    requires
        on_board(b),
    ensures
        b <= PLAYABLE_BOARD_MASK,
        b < 0x1_0000_0000_0000,
{
    bv_on_board_le(b);
}
} // verus!
