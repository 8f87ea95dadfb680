//! Pictures of bitmaps and positions as text, and the cells of fours in a line.
use vstd::prelude::*;
use crate::bits::{bit, group_bits};
use crate::board::bitmap::{
    BITMAP_COLUMN_HEIGHT,
    BITMAP_ROW_WIDTH,
    Bitmap,
    DOWN_LEFT_UP_RIGHT_OFFSET,
    UP_LEFT_DOWN_RIGHT_OFFSET,
    cell_bit,
    count_ones_in_bitmap,
    is_cell,
    lemma_div_mod_7,
    on_board,
    stone,
};
use crate::board::lines::{in_four, is_direction, lemma_three_around_bits, three_around, three_bits};
use crate::board::{Position, GAME_HEIGHT, GAME_WIDTH};

verus! {

broadcast use group_bits;

/// The character of a bit: '1' set, '0' not.
pub open spec fn bit_char(b: Bitmap, j: int) -> char {
    if bit(b, j) {
        '1'
    } else {
        '0'
    }
}

/// The character of a cell: '*' empty, '1' a stone of the player to move, '0' one of the other.
pub open spec fn cell_char(p: Position, c: int, r: int) -> char {
    if !p.filled(c, r) {
        '*'
    } else if p.current_at(c, r) {
        '1'
    } else {
        '0'
    }
}

/// `f(0)`, ..., `f(n - 1)` separated by spaces.
pub open spec fn spaced(f: spec_fn(int) -> char, n: nat) -> Seq<char>
    decreases n,
{
    if n == 0 {
        Seq::empty()
    } else if n == 1 {
        seq![f(0)]
    } else {
        spaced(f, (n - 1) as nat) + seq![' ', f(n - 1)]
    }
}

/// `g(0)`, ..., `g(n - 1)` on lines of their own.
pub open spec fn lines(g: spec_fn(int) -> Seq<char>, n: nat) -> Seq<char>
    decreases n,
{
    if n == 0 {
        Seq::empty()
    } else if n == 1 {
        g(0)
    } else {
        lines(g, (n - 1) as nat) + seq!['\n'] + g(n - 1)
    }
}

/// A bitmap drawn as seven lines of seven bits, top row first, column 0 on the left.
pub open spec fn bitmap_chars(b: Bitmap) -> Seq<char> {
    lines(|i: int| spaced(|c: int| bit_char(b, 7 * c + 6 - i), 7), 7)
}

/// A board drawn as six lines of seven cells, top row first, column 0 on the left.
pub open spec fn board_chars(p: Position) -> Seq<char> {
    lines(|i: int| spaced(|c: int| cell_char(p, c, 5 - i), 7), 6)
}

/// The digit character of `d` (0 to 15), upper case past 9.
pub open spec fn digit_char(d: int) -> char {
    if d < 10 {
        (48 + d) as char
    } else {
        (55 + d) as char
    }
}

/// `n` written in base `base` (10 or 16), with no leading zero.
pub open spec fn digits(n: nat, base: nat) -> Seq<char>
    decreases n,
{
    if base < 2 || n < base {
        seq![digit_char(n as int)]
    } else {
        proof {
            assert(n / base < n) by (nonlinear_arith)
                requires
                    base >= 2,
                    n >= base,
            ;
        }
        digits(n / base, base).push(digit_char((n % base) as int))
    }
}

/// Appends one character of the pictures: a digit, '*', ' ' or a line break.
fn push_char(out: &mut String, c: char)
    requires
        ('0' <= c <= '9') || ('A' <= c <= 'F') || c == '*' || c == ' ' || c == '\n',
    ensures
        final(out)@ == old(out)@.push(c),
{
    proof {
        reveal_strlit("0");
        reveal_strlit("1");
        reveal_strlit("2");
        reveal_strlit("3");
        reveal_strlit("4");
        reveal_strlit("5");
        reveal_strlit("6");
        reveal_strlit("7");
        reveal_strlit("8");
        reveal_strlit("9");
        reveal_strlit("A");
        reveal_strlit("B");
        reveal_strlit("C");
        reveal_strlit("D");
        reveal_strlit("E");
        reveal_strlit("F");
        reveal_strlit("*");
        reveal_strlit(" ");
        reveal_strlit("\n");
    }
    let s = match c {
        '0' => "0",
        '1' => "1",
        '2' => "2",
        '3' => "3",
        '4' => "4",
        '5' => "5",
        '6' => "6",
        '7' => "7",
        '8' => "8",
        '9' => "9",
        'A' => "A",
        'B' => "B",
        'C' => "C",
        'D' => "D",
        'E' => "E",
        'F' => "F",
        '*' => "*",
        ' ' => " ",
        _ => "\n",
    };
    out.append(s);
    proof {
        assert(s@ =~= seq![c]);
    }
}

/// The digit a character stands for: `'0'` to `'9'` for 0 to 9, `'A'` to `'Z'`
/// for 10 on, and -1 for any other character.
pub open spec fn char_digit(ch: char) -> int {
    if '0' <= ch <= '9' {
        ch as int - 48
    } else if 'A' <= ch <= 'Z' {
        ch as int - 55
    } else {
        -1
    }
}

/// The number a numeral in base `base` stands for, most significant digit first.
pub open spec fn numeral_value(s: Seq<char>, base: nat) -> int
    decreases s.len(),
{
    if s.len() == 0 {
        0
    } else {
        numeral_value(s.drop_last(), base) * base + char_digit(s.last())
    }
}

/// `digits(n, base)` is the numeral of `n` in base `base`: every character a
/// digit below the base, no leading `'0'` but for the numeral of 0, and the
/// number it stands for is `n`.
pub proof fn lemma_digits_numeral(n: nat, base: nat)
    requires
        base == 10 || base == 16,
    ensures
        numeral_value(digits(n, base), base) == n,
        digits(n, base).len() >= 1,
        forall|i: int| 0 <= i < digits(n, base).len() ==> 0 <= #[trigger] char_digit(digits(n, base)[i]) < base,
        n >= 1 ==> digits(n, base)[0] != '0',
        n == 0 ==> digits(n, base) == seq!['0'],
    decreases n,
{
    if n < base {
        let ch = digit_char(n as int);
        assert(digits(n, base) == seq![ch]);
        assert(seq![ch].drop_last() =~= Seq::<char>::empty());
        if n < 10 {
            assert(ch as int == 48 + n);
        } else {
            assert(ch as int == 55 + n);
        }
        assert(char_digit(ch) == n);
        assert(numeral_value(seq![ch], base) == numeral_value(Seq::<char>::empty(), base) * base + char_digit(ch));
    } else {
        let q = n / base;
        let r = n % base;
        assert(q < n && q >= 1) by (nonlinear_arith)
            requires
                base >= 2,
                n >= base,
                q == n / base,
        ;
        lemma_digits_numeral(q, base);
        let ch = digit_char(r as int);
        let s = digits(n, base);
        assert(s == digits(q, base).push(ch));
        assert(s.drop_last() =~= digits(q, base));
        if r < 10 {
            assert(ch as int == 48 + r);
        } else {
            assert(ch as int == 55 + r);
        }
        assert(n == q * base + r) by (nonlinear_arith)
            requires
                base >= 2,
                q == n / base,
                r == n % base,
        ;
        assert forall|i: int| 0 <= i < s.len() implies 0 <= #[trigger] char_digit(s[i]) < base by {
            if i < s.len() - 1 {
                assert(s[i] == digits(q, base)[i]);
            }
        }
        assert(s[0] == digits(q, base)[0]);
        assert(char_digit(ch) == r);
        assert(numeral_value(s, base) == numeral_value(digits(q, base), base) * base + char_digit(ch));
    }
}

/// Appends the digits of `n` in base `base`.
fn push_digits(out: &mut String, n: u64, base: u64)
    requires
        base == 10 || base == 16,
    ensures
        final(out)@ == old(out)@ + digits(n as nat, base as nat),
    decreases n,
{
    if n >= base {
        push_digits(out, n / base, base);
    }
    let d = n % base;
    let c = if d < 10 {
        ('0' as u8 + d as u8) as char
    } else {
        ('A' as u8 + (d - 10) as u8) as char
    };
    proof {
        assert(c == digit_char(d as int));
    }
    push_char(out, c);
    proof {
        if n >= base {
            assert(digits(n as nat, base as nat) == digits((n / base) as nat, base as nat).push(c));
        }
    }
}

/// The bitmap as seven lines of bits, top row (the empty bit of each column) first.
pub fn stringify_bitmap(bitmap: Bitmap) -> (s: String)
    ensures
        s@ == bitmap_chars(bitmap),
{
    let mut output_string = String::new();
    let ghost g = |i: int| spaced(|c: int| bit_char(bitmap, 7 * c + 6 - i), 7);
    let mut from_top_row_index: u64 = 0;
    while from_top_row_index < BITMAP_COLUMN_HEIGHT
        invariant
            from_top_row_index <= 7,
            g == (|i: int| spaced(|c: int| bit_char(bitmap, 7 * c + 6 - i), 7)),
            output_string@ == lines(g, from_top_row_index as nat) + if 0 < from_top_row_index < 7 {
                seq!['\n']
            } else {
                Seq::empty()
            },
        decreases 7 - from_top_row_index,
    {
        let from_bottom_row_index = BITMAP_COLUMN_HEIGHT - from_top_row_index - 1;
        let ghost base = output_string@;
        let ghost f = |c: int| bit_char(bitmap, 7 * c + 6 - from_top_row_index);
        let mut column_index: u64 = 0;
        while column_index < BITMAP_ROW_WIDTH
            invariant
                column_index <= 7,
                from_bottom_row_index == 6 - from_top_row_index,
                f == (|c: int| bit_char(bitmap, 7 * c + 6 - from_top_row_index)),
                output_string@ == base + spaced(f, column_index as nat) + if 0 < column_index < 7 {
                    seq![' ']
                } else {
                    Seq::empty()
                },
            decreases 7 - column_index,
        {
            let c = if bitmap & 1u64 << column_index * BITMAP_COLUMN_HEIGHT + from_bottom_row_index == 0 {
                '0'
            } else {
                '1'
            };
            proof {
                let j = 7 * column_index + from_bottom_row_index;
                crate::bits::lemma_zero_iff_no_bit(bitmap & (1u64 << (j as u64)));
                assert(bit(bitmap & (1u64 << (j as u64)), j) == bit(bitmap, j));
                assert(c == f(column_index as int));
            }
            push_char(&mut output_string, c);
            if column_index < BITMAP_ROW_WIDTH - 1 {
                push_char(&mut output_string, ' ');
            }
            proof {
                let n = (column_index + 1) as nat;
                if n > 1 {
                    assert(spaced(f, n) == spaced(f, (n - 1) as nat) + seq![' ', f(n - 1)]);
                }
                assert(output_string@ =~= base + spaced(f, n) + if 0 < n < 7 {
                    seq![' ']
                } else {
                    Seq::empty()
                });
            }
            column_index += 1;
        }
        if from_top_row_index < BITMAP_COLUMN_HEIGHT - 1 {
            push_char(&mut output_string, '\n');
        }
        proof {
            let n = (from_top_row_index + 1) as nat;
            assert(g(n - 1) == spaced(f, 7));
            if n > 1 {
                assert(lines(g, n) == lines(g, (n - 1) as nat) + seq!['\n'] + g(n - 1));
            }
            assert(output_string@ =~= lines(g, n) + if 0 < n < 7 {
                seq!['\n']
            } else {
                Seq::empty()
            });
        }
        from_top_row_index += 1;
    }
    output_string
}

/// The board as six lines of cells, top row first.
pub fn stringify_position_board(position: &Position) -> (s: String)
    ensures
        s@ == board_chars(*position),
{
    let mut output_string = String::new();
    let ghost g = |i: int| spaced(|c: int| cell_char(*position, c, 5 - i), 7);
    let mut from_top_row_index: u64 = 0;
    while from_top_row_index < GAME_HEIGHT as u64
        invariant
            from_top_row_index <= 6,
            g == (|i: int| spaced(|c: int| cell_char(*position, c, 5 - i), 7)),
            output_string@ == lines(g, from_top_row_index as nat) + if 0 < from_top_row_index < 6 {
                seq!['\n']
            } else {
                Seq::empty()
            },
        decreases 6 - from_top_row_index,
    {
        let from_bottom_row_index = GAME_HEIGHT as u64 - from_top_row_index - 1;
        let ghost base = output_string@;
        let ghost f = |c: int| cell_char(*position, c, 5 - from_top_row_index);
        let mut column_index: u64 = 0;
        while column_index < GAME_WIDTH as u64
            invariant
                column_index <= 7,
                from_bottom_row_index == 5 - from_top_row_index,
                f == (|c: int| cell_char(*position, c, 5 - from_top_row_index)),
                output_string@ == base + spaced(f, column_index as nat) + if 0 < column_index < 7 {
                    seq![' ']
                } else {
                    Seq::empty()
                },
            decreases 7 - column_index,
        {
            let bit_mask = 1u64 << column_index * BITMAP_COLUMN_HEIGHT + from_bottom_row_index;
            let c = if position.both_players_mask & bit_mask == 0 {
                '*'
            } else if position.current_player_stones & bit_mask != 0 {
                '1'
            } else {
                '0'
            };
            proof {
                let j = 7 * column_index + from_bottom_row_index;
                crate::bits::lemma_zero_iff_no_bit(position.both_players_mask & bit_mask);
                crate::bits::lemma_zero_iff_no_bit(position.current_player_stones & bit_mask);
                assert(bit(position.both_players_mask & bit_mask, j) == bit(position.both_players_mask, j));
                assert(bit(position.current_player_stones & bit_mask, j) == bit(
                    position.current_player_stones,
                    j,
                ));
                assert(c == f(column_index as int));
            }
            push_char(&mut output_string, c);
            if column_index < GAME_WIDTH as u64 - 1 {
                push_char(&mut output_string, ' ');
            }
            proof {
                let n = (column_index + 1) as nat;
                if n > 1 {
                    assert(spaced(f, n) == spaced(f, (n - 1) as nat) + seq![' ', f(n - 1)]);
                }
                assert(output_string@ =~= base + spaced(f, n) + if 0 < n < 7 {
                    seq![' ']
                } else {
                    Seq::empty()
                });
            }
            column_index += 1;
        }
        if from_top_row_index < GAME_HEIGHT as u64 - 1 {
            push_char(&mut output_string, '\n');
        }
        proof {
            let n = (from_top_row_index + 1) as nat;
            assert(g(n - 1) == spaced(f, 7));
            if n > 1 {
                assert(lines(g, n) == lines(g, (n - 1) as nat) + seq!['\n'] + g(n - 1));
            }
            assert(output_string@ =~= lines(g, n) + if 0 < n < 6 {
                seq!['\n']
            } else {
                Seq::empty()
            });
        }
        from_top_row_index += 1;
    }
    output_string
}

/// The cells, in the order column by column from the left and bottom to top in each,
/// among the first `n` that are in a line of four stones of `b`, each as its square index
/// `(5 - row) * 7 + column` (rows from the top, then columns).
pub open spec fn four_indices(b: Bitmap, n: nat) -> Seq<u8>
    decreases n,
{
    if n == 0 {
        Seq::empty()
    } else {
        let prev = four_indices(b, (n - 1) as nat);
        let c = (n - 1) / 6;
        let r = (n - 1) % 6;
        if in_four(b, c, r) {
            prev.push(((5 - r) * 7 + c) as u8)
        } else {
            prev
        }
    }
}

/// Bit `j` of `b` is set and is one of four set bits of `b` evenly spaced at the
/// bit distance of a direction (for a bitmap on the board: a stone in a line of four).
pub open spec fn in_four_bits(b: Bitmap, j: int) -> bool {
    bit(b, j) && exists|d: int, t: int| is_direction(d) && 0 <= t < 4 && #[trigger] three_bits(b, j, d, t)
}

/// `four_indices` with the cells chosen by their bits: those `in_four_bits`.
pub open spec fn highlighted_indices(b: Bitmap, n: nat) -> Seq<u8>
    decreases n,
{
    if n == 0 {
        Seq::empty()
    } else {
        let prev = highlighted_indices(b, (n - 1) as nat);
        let c = (n - 1) / 6;
        let r = (n - 1) % 6;
        if in_four_bits(b, cell_bit(c, r)) {
            prev.push(((5 - r) * 7 + c) as u8)
        } else {
            prev
        }
    }
}

/// Square index `k` (rows from the top, then columns) stands for column `k % 7`
/// and row `5 - k / 7` from the bottom.
pub open spec fn index_column(k: int) -> int {
    k % 7
}

/// The row from the bottom of square index `k`.
pub open spec fn index_row(k: int) -> int {
    5 - k / 7
}

/// The indices of `four_indices(b, n)` are those of the cells in a line of four
/// stones of `b` among the first `n` cells taken column by column: each index
/// is a cell in a line of four, and each such cell has its index there.
pub proof fn lemma_four_indices_cells(b: Bitmap, n: nat)
    requires
        n <= 42,
    ensures
        forall|i: int| 0 <= i < four_indices(b, n).len() ==> {
            let k = #[trigger] four_indices(b, n)[i] as int;
            &&& 0 <= k < 42
            &&& in_four(b, index_column(k), index_row(k))
            &&& 6 * index_column(k) + index_row(k) < n
        },
        forall|c: int, r: int|
            0 <= c < 7 && 0 <= r < 6 && 6 * c + r < n && #[trigger] in_four(b, c, r) ==> four_indices(
                b,
                n,
            ).contains(((5 - r) * 7 + c) as u8),
    decreases n,
{
    if n > 0 {
        lemma_four_indices_cells(b, (n - 1) as nat);
        let m = n - 1;
        let c0 = m / 6;
        let r0 = m % 6;
        let k0 = (5 - r0) * 7 + c0;
        lemma_div_mod_7(5 - r0, c0);
        let prev = four_indices(b, (n - 1) as nat);
        let s = four_indices(b, n);
        assert forall|i: int| 0 <= i < s.len() implies {
            let k = #[trigger] s[i] as int;
            &&& 0 <= k < 42
            &&& in_four(b, index_column(k), index_row(k))
            &&& 6 * index_column(k) + index_row(k) < n
        } by {
            if i < prev.len() {
                assert(s[i] == prev[i]);
            } else {
                assert(s[i] as int == k0);
            }
        }
        assert forall|c: int, r: int|
            0 <= c < 7 && 0 <= r < 6 && 6 * c + r < n && #[trigger] in_four(b, c, r) implies s.contains(
            ((5 - r) * 7 + c) as u8,
        ) by {
            if 6 * c + r < m {
                let j = choose|j: int| 0 <= j < prev.len() && prev[j] == ((5 - r) * 7 + c) as u8;
                assert(s[j] == prev[j]);
            } else {
                lemma_div_mod_6(c, r);
                assert(s[prev.len() as int] == ((5 - r) * 7 + c) as u8);
            }
        }
    }
}

/// The same for `highlighted_indices`, with cells chosen by their bits.
pub proof fn lemma_highlighted_indices_cells(b: Bitmap, n: nat)
    requires
        n <= 42,
    ensures
        forall|i: int| 0 <= i < highlighted_indices(b, n).len() ==> {
            let k = #[trigger] highlighted_indices(b, n)[i] as int;
            &&& 0 <= k < 42
            &&& in_four_bits(b, cell_bit(index_column(k), index_row(k)))
            &&& 6 * index_column(k) + index_row(k) < n
        },
        forall|c: int, r: int|
            0 <= c < 7 && 0 <= r < 6 && 6 * c + r < n && #[trigger] in_four_bits(b, cell_bit(c, r))
                ==> highlighted_indices(b, n).contains(((5 - r) * 7 + c) as u8),
    decreases n,
{
    if n > 0 {
        lemma_highlighted_indices_cells(b, (n - 1) as nat);
        let m = n - 1;
        let c0 = m / 6;
        let r0 = m % 6;
        let k0 = (5 - r0) * 7 + c0;
        lemma_div_mod_7(5 - r0, c0);
        let prev = highlighted_indices(b, (n - 1) as nat);
        let s = highlighted_indices(b, n);
        assert forall|i: int| 0 <= i < s.len() implies {
            let k = #[trigger] s[i] as int;
            &&& 0 <= k < 42
            &&& in_four_bits(b, cell_bit(index_column(k), index_row(k)))
            &&& 6 * index_column(k) + index_row(k) < n
        } by {
            if i < prev.len() {
                assert(s[i] == prev[i]);
            } else {
                assert(s[i] as int == k0);
            }
        }
        assert forall|c: int, r: int|
            0 <= c < 7 && 0 <= r < 6 && 6 * c + r < n && #[trigger] in_four_bits(b, cell_bit(c, r)) implies s.contains(
            ((5 - r) * 7 + c) as u8,
        ) by {
            if 6 * c + r < m {
                let j = choose|j: int| 0 <= j < prev.len() && prev[j] == ((5 - r) * 7 + c) as u8;
                assert(s[j] == prev[j]);
            } else {
                lemma_div_mod_6(c, r);
                assert(s[prev.len() as int] == ((5 - r) * 7 + c) as u8);
            }
        }
    }
}

/// On the board, the cells chosen by their bits are the cells in a line of four.
proof fn lemma_highlighted_indices(b: Bitmap, n: nat)
    requires
        on_board(b),
        n <= 42,
    ensures
        highlighted_indices(b, n) == four_indices(b, n),
    decreases n,
{
    if n > 0 {
        lemma_highlighted_indices(b, (n - 1) as nat);
        let c = (n - 1) / 6;
        let r = (n - 1) % 6;
        lemma_in_four_bits(b, c, r);
    }
}

/// For a bitmap on the board, the bit of a cell is `in_four_bits` exactly when
/// the cell is in a line of four stones.
pub proof fn lemma_in_four_bits(b: Bitmap, c: int, r: int)
    requires
        on_board(b),
        is_cell(c, r),
    ensures
        in_four_bits(b, cell_bit(c, r)) == in_four(b, c, r),
{
    let j = cell_bit(c, r);
    lemma_div_mod_7(c, r);
    assert forall|d: int, t: int| is_direction(d) && 0 <= t < 4 implies #[trigger] three_bits(b, j, d, t)
        == three_around(b, c, r, d, t) by {
        lemma_three_around_bits(b, c, r, d, t);
    }
    if in_four(b, c, r) {
        let (d, t) = choose|d: int, t: int|
            is_direction(d) && 0 <= t < 4 && stone(b, c, r) && #[trigger] three_around(b, c, r, d, t);
        assert(three_bits(b, j, d, t));
    }
    if in_four_bits(b, j) {
        let (d, t) = choose|d: int, t: int| is_direction(d) && 0 <= t < 4 && #[trigger] three_bits(b, j, d, t);
        assert(three_around(b, c, r, d, t));
    }
}

impl Position {
    /// The position as text: the board, then the number of moves played.
    pub fn display_string(&self) -> (s: String)
        ensures
            s@ == "position:\n"@ + board_chars(*self) + "\n\nmoves_played: "@ + digits(
                self.moves_played as nat,
                10,
            ),
    {
        let mut s = String::new();
        s.append("position:\n");
        let board = stringify_position_board(self);
        s.append(board.as_str());
        s.append("\n\nmoves_played: ");
        push_digits(&mut s, self.moves_played as u64, 10);
        proof {
            assert(s@ =~= "position:\n"@ + board_chars(*self) + "\n\nmoves_played: "@ + digits(
                self.moves_played as nat,
                10,
            ));
        }
        s
    }

    /// The position as text with its bitmaps and its key in hexadecimal.
    pub fn debug_string(&self) -> (s: String)
        requires
            self.current_player_stones + self.both_players_mask <= u64::MAX,
        ensures
            s@ == "current_player_stones:\n"@ + bitmap_chars(self.current_player_stones)
                + "\n\nboth_players_mask:\n"@ + bitmap_chars(self.both_players_mask) + "\n\nkey: 0x"@
                + digits(self.key() as nat, 16) + "\n\nposition:\n"@ + board_chars(*self)
                + "\n\nmoves_played: "@ + digits(self.moves_played as nat, 10),
    {
        let mut s = String::new();
        s.append("current_player_stones:\n");
        let stones = stringify_bitmap(self.current_player_stones);
        s.append(stones.as_str());
        s.append("\n\nboth_players_mask:\n");
        let mask = stringify_bitmap(self.both_players_mask);
        s.append(mask.as_str());
        s.append("\n\nkey: 0x");
        push_digits(&mut s, self.get_key(), 16);
        s.append("\n\nposition:\n");
        let board = stringify_position_board(self);
        s.append(board.as_str());
        s.append("\n\nmoves_played: ");
        push_digits(&mut s, self.moves_played as u64, 10);
        proof {
            assert(s@ =~= "current_player_stones:\n"@ + bitmap_chars(self.current_player_stones)
                + "\n\nboth_players_mask:\n"@ + bitmap_chars(self.both_players_mask) + "\n\nkey: 0x"@
                + digits(self.key() as nat, 16) + "\n\nposition:\n"@ + board_chars(*self)
                + "\n\nmoves_played: "@ + digits(self.moves_played as nat, 10));
        }
        s
    }

    /// The square indices (`row_from_top * 7 + column`) of every cell in a line of four
    /// stones of `current_player_stones`, column by column, each from the bottom up.
    pub fn to_connect_four_indices(current_player_stones: Bitmap) -> (square_indices: Vec<u8>)
        ensures
            square_indices@ == highlighted_indices(current_player_stones, 42),
            on_board(current_player_stones) ==> square_indices@ == four_indices(current_player_stones, 42),
            forall|i: int| 0 <= i < square_indices@.len() ==> {
                let k = #[trigger] square_indices@[i] as int;
                0 <= k < 42 && in_four_bits(current_player_stones, cell_bit(index_column(k), index_row(k)))
            },
            forall|c: int, r: int|
                is_cell(c, r) && #[trigger] in_four_bits(current_player_stones, cell_bit(c, r))
                    ==> square_indices@.contains(((5 - r) * 7 + c) as u8),
            on_board(current_player_stones) ==> forall|i: int| 0 <= i < square_indices@.len() ==> {
                let k = #[trigger] square_indices@[i] as int;
                in_four(current_player_stones, index_column(k), index_row(k))
            },
            on_board(current_player_stones) ==> forall|c: int, r: int|
                #[trigger] in_four(current_player_stones, c, r) ==> square_indices@.contains(((5 - r) * 7 + c) as u8),
    {
        let x = current_player_stones;
        // Bitmap with ones everywhere that connect 4 or more has happened
        let mut connect_four_bitmap: u64 = 0;
        proof {
            crate::bits::lemma_zero_iff_no_bit(0u64);
        }

        // Horizontal
        let mut adjacent = x & x >> BITMAP_COLUMN_HEIGHT; // Indicates there is a chip here and 1 to the right
        adjacent &= adjacent >> 2 * BITMAP_COLUMN_HEIGHT; // Indicates there is a chip here and all 3 right squares
        let mut highlight = adjacent | adjacent << BITMAP_COLUMN_HEIGHT; // Start to highlight where these connect 4's are
        highlight |= highlight << 2 * BITMAP_COLUMN_HEIGHT;
        connect_four_bitmap |= highlight;
        proof {
            assert forall|j: int| #[trigger] bit(connect_four_bitmap, j) == (0 <= j < 64 && bit(x, j) && (
            three_bits(x, j, 1, 0) || three_bits(x, j, 1, 1) || three_bits(x, j, 1, 2) || three_bits(
                x,
                j,
                1,
                3,
            ))) by {}
        }

        // Diagonal 1, up-left to down-right
        adjacent = x & x >> UP_LEFT_DOWN_RIGHT_OFFSET;
        adjacent &= adjacent >> 2 * UP_LEFT_DOWN_RIGHT_OFFSET;
        highlight = adjacent | adjacent << UP_LEFT_DOWN_RIGHT_OFFSET;
        highlight |= highlight << 2 * UP_LEFT_DOWN_RIGHT_OFFSET;
        connect_four_bitmap |= highlight;
        proof {
            assert forall|j: int| #[trigger] bit(connect_four_bitmap, j) == (0 <= j < 64 && bit(x, j) && (
            three_bits(x, j, 1, 0) || three_bits(x, j, 1, 1) || three_bits(x, j, 1, 2) || three_bits(
                x,
                j,
                1,
                3,
            ) || three_bits(x, j, 3, 0) || three_bits(x, j, 3, 1) || three_bits(x, j, 3, 2)
                || three_bits(x, j, 3, 3))) by {}
        }

        // Diagonal 2, down-left to up-right
        adjacent = x & x >> DOWN_LEFT_UP_RIGHT_OFFSET;
        adjacent &= adjacent >> 2 * DOWN_LEFT_UP_RIGHT_OFFSET;
        highlight = adjacent | adjacent << DOWN_LEFT_UP_RIGHT_OFFSET;
        highlight |= highlight << 2 * DOWN_LEFT_UP_RIGHT_OFFSET;
        connect_four_bitmap |= highlight;
        proof {
            assert forall|j: int| #[trigger] bit(connect_four_bitmap, j) == (0 <= j < 64 && bit(x, j) && (
            three_bits(x, j, 1, 0) || three_bits(x, j, 1, 1) || three_bits(x, j, 1, 2) || three_bits(
                x,
                j,
                1,
                3,
            ) || three_bits(x, j, 3, 0) || three_bits(x, j, 3, 1) || three_bits(x, j, 3, 2)
                || three_bits(x, j, 3, 3) || three_bits(x, j, 2, 0) || three_bits(x, j, 2, 1)
                || three_bits(x, j, 2, 2) || three_bits(x, j, 2, 3))) by {}
        }

        // Vertical
        adjacent = x & x >> 1u64;
        adjacent &= adjacent >> 2u64;
        highlight = adjacent | adjacent << 1u64;
        highlight |= highlight << 2u64;
        connect_four_bitmap |= highlight;
        proof {
            lemma_four_cells(x, connect_four_bitmap);
        }

        // Convert to a list of square indices
        let mut square_indices = Vec::with_capacity(count_ones_in_bitmap(connect_four_bitmap) as usize);
        let mut sliding_mask: u64 = 1;
        proof {
            lemma_shift_one_more(0);
        }
        let mut column: u8 = 0;
        while column < GAME_WIDTH
            invariant
                column <= 7,
                sliding_mask == 1u64 << (7 * column) as u64,
                forall|c: int, r: int| #[trigger]
                    stone(connect_four_bitmap, c, r) == (is_cell(c, r) && in_four_bits(x, cell_bit(c, r))),
                square_indices@ == highlighted_indices(x, (6 * column) as nat),
            decreases 7 - column,
        {
            let mut row: u8 = 0;
            while row < GAME_HEIGHT
                invariant
                    column < 7,
                    row <= 6,
                    sliding_mask == 1u64 << (7 * column + row) as u64,
                    forall|c: int, r: int| #[trigger]
                        stone(connect_four_bitmap, c, r) == (is_cell(c, r) && in_four_bits(x, cell_bit(c, r))),
                    square_indices@ == highlighted_indices(x, (6 * column + row) as nat),
                decreases 6 - row,
            {
                proof {
                    let j = 7 * column + row;
                    crate::bits::lemma_zero_iff_no_bit(sliding_mask & connect_four_bitmap);
                    assert(bit(sliding_mask & connect_four_bitmap, j) == bit(connect_four_bitmap, j));
                    let n = (6 * column + row) as nat;
                    lemma_div_mod_6(column as int, row as int);
                    assert(stone(connect_four_bitmap, column as int, row as int) == bit(connect_four_bitmap, j));
                    assert(highlighted_indices(x, n + 1) == if in_four_bits(x, j) {
                        highlighted_indices(x, n).push(((5 - row) * 7 + column) as u8)
                    } else {
                        highlighted_indices(x, n)
                    });
                }
                if sliding_mask & connect_four_bitmap != 0 {
                    square_indices.push((GAME_HEIGHT - row - 1) * GAME_WIDTH + column);
                }
                proof {
                    assert((1u64 << (7 * column + row) as u64) << 1u64 == 1u64 << (7 * column + row + 1) as u64) by {
                        lemma_shift_one_more((7 * column + row) as u64);
                    }
                }
                sliding_mask <<= 1;
                row += 1;
            }
            // There is an empty bit at the top we always need to ignore
            proof {
                lemma_shift_one_more((7 * column + 6) as u64);
            }
            sliding_mask <<= 1;
            column += 1;
        }
        proof {
            lemma_highlighted_indices_cells(x, 42);
            if on_board(x) {
                lemma_highlighted_indices(x, 42);
                lemma_four_indices_cells(x, 42);
                assert forall|c: int, r: int| #[trigger] in_four(x, c, r) implies square_indices@.contains(
                    ((5 - r) * 7 + c) as u8,
                ) by {
                    assert(stone(x, c, r));
                }
            }
        }
        square_indices
    }
}

proof fn bv_shift_one_more(s: u64)
    by (bit_vector)
    requires
        s < 63,
    ensures
        (1u64 << s) << 1u64 == 1u64 << (s + 1) as u64,
        1u64 << 0u64 == 1u64,
{
}

/// Shifting a single bit one place more moves it up by one.
proof fn lemma_shift_one_more(s: u64)
    requires
        s < 63,
    ensures
        (1u64 << s) << 1u64 == 1u64 << (s + 1) as u64,
        1u64 << 0u64 == 1u64,
{
    bv_shift_one_more(s);
}

/// Cell `6 * c + r` of the enumeration by columns is (`c`, `r`).
proof fn lemma_div_mod_6(c: int, r: int)
    requires
        0 <= r < 6,
    ensures
        (6 * c + r) / 6 == c,
        (6 * c + r) % 6 == r,
{
    vstd::arithmetic::div_mod::lemma_fundamental_div_mod_converse(6 * c + r, 6, c, r);
}

/// The bits of the highlighted bitmap are the cells in a line of four.
proof fn lemma_four_cells(x: Bitmap, highlighted: Bitmap)
    requires
        forall|j: int| #[trigger]
            bit(highlighted, j) == (0 <= j < 64 && bit(x, j) && (three_bits(x, j, 1, 0) || three_bits(
                x,
                j,
                1,
                1,
            ) || three_bits(x, j, 1, 2) || three_bits(x, j, 1, 3) || three_bits(x, j, 3, 0) || three_bits(
                x,
                j,
                3,
                1,
            ) || three_bits(x, j, 3, 2) || three_bits(x, j, 3, 3) || three_bits(x, j, 2, 0) || three_bits(
                x,
                j,
                2,
                1,
            ) || three_bits(x, j, 2, 2) || three_bits(x, j, 2, 3) || three_bits(x, j, 0, 0) || three_bits(
                x,
                j,
                0,
                1,
            ) || three_bits(x, j, 0, 2) || three_bits(x, j, 0, 3))),
    ensures
        forall|c: int, r: int| #[trigger]
            stone(highlighted, c, r) == (is_cell(c, r) && in_four_bits(x, cell_bit(c, r))),
{
    assert forall|c: int, r: int| #[trigger]
        stone(highlighted, c, r) == (is_cell(c, r) && in_four_bits(x, cell_bit(c, r))) by {
        let j = cell_bit(c, r);
        if in_four_bits(x, j) {
            let (d, t) = choose|d: int, t: int| is_direction(d) && 0 <= t < 4 && #[trigger] three_bits(x, j, d, t);
            assert(bit(highlighted, j));
        }
        if is_cell(c, r) && bit(highlighted, j) {
            assert(exists|d: int, t: int| is_direction(d) && 0 <= t < 4 && #[trigger] three_bits(x, j, d, t));
        }
    }
}

} // verus!
