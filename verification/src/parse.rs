//! The input format: one position per line, as the columns played (1 to 7), a space,
//! and the expected score.
use vstd::prelude::*;
use vstd::string::StrSliceExecFns;
use crate::board::Position;
use crate::board::display::{char_digit, digits, lemma_digits_numeral, numeral_value};
use crate::board::gameplay_methods::PlayColumnError;
use crate::board::min_max_methods::child_of;

verus! {

/// Why a line could not be read.
#[derive(PartialEq, Eq, Debug, Structural)]
pub enum ParseLineError {
    /// The line has no space between the moves and the score.
    MissingSpace,
    /// A character of the moves is not a decimal digit.
    NotADigit(char),
    /// A move could not be played.
    IllegalMove(PlayColumnError),
    /// The score is not an `i8` written in decimal.
    InvalidEvaluation,
}

/// `c` is a decimal digit.
pub open spec fn is_digit(c: char) -> bool {
    '0' <= c <= '9'
}

/// The index of the first space of `s`, if any.
pub open spec fn first_space(s: Seq<char>) -> Option<int>
    decreases s.len(),
{
    if s.len() == 0 {
        None
    } else if s[0] == ' ' {
        Some(0)
    } else {
        match first_space(s.drop_first()) {
            Some(i) => Some(i + 1),
            None => None,
        }
    }
}

/// The value of a string of decimal digits.
pub open spec fn digits_value(s: Seq<char>) -> int
    decreases s.len(),
{
    if s.len() == 0 {
        0
    } else {
        digits_value(s.drop_last()) * 10 + (s.last() as int - 48)
    }
}

/// Every byte of `s` is a decimal digit.
pub open spec fn all_digits(s: Seq<char>) -> bool {
    forall|i: int| 0 <= i < s.len() ==> is_digit(#[trigger] s[i])
}

/// An `i8` written in decimal: an optional sign, then one or more digits, the value in range.
pub open spec fn parse_i8(s: Seq<char>) -> Option<i8> {
    let negative = s.len() > 0 && s[0] == '-';
    let body = if s.len() > 0 && (s[0] == '-' || s[0] == '+') {
        s.drop_first()
    } else {
        s
    };
    let value = if negative {
        -digits_value(body)
    } else {
        digits_value(body)
    };
    if body.len() == 0 || !all_digits(body) || value < -128 || value > 127 {
        None
    } else {
        Some(value as i8)
    }
}

/// The position after playing the columns written in `moves` (1 for the first) from `p`,
/// or the first error met.
pub open spec fn replay(p: Position, moves: Seq<char>) -> Result<Position, ParseLineError>
    decreases moves.len(),
{
    if moves.len() == 0 {
        Ok(p)
    } else if !is_digit(moves[0]) {
        Err(ParseLineError::NotADigit(moves[0]))
    } else {
        // The moves number the columns from 1; the digit 0 wraps around to column 255
        let column = if moves[0] == '0' {
            255u8
        } else {
            (moves[0] as int - 49) as u8
        };
        match p.play_column_result(column) {
            Err(e) => Err(ParseLineError::IllegalMove(e)),
            Ok(_) => replay(child_of(p, column as int), moves.drop_first()),
        }
    }
}

/// What `parse_line` answers for the characters of a line.
pub open spec fn parse_line_result(line: Seq<char>) -> Result<(Position, i8), ParseLineError> {
    match first_space(line) {
        None => Err(ParseLineError::MissingSpace),
        Some(i) => match replay(Position::blank(), line.subrange(0, i)) {
            Err(e) => Err(e),
            Ok(p) => match parse_i8(line.subrange(i + 1, line.len() as int)) {
                None => Err(ParseLineError::InvalidEvaluation),
                Some(v) => Ok((p, v)),
            },
        },
    }
}

/// The decimal text of `v`, as `i8` writes it: a `'-'` for a negative number,
/// then the digits of its size with no leading zero.
pub open spec fn decimal_text(v: int) -> Seq<char> {
    if v < 0 {
        seq!['-'] + digits((-v) as nat, 10)
    } else {
        digits(v as nat, 10)
    }
}

/// For decimal digits, `digits_value` is the number the numeral stands for.
proof fn lemma_digits_value_numeral(s: Seq<char>)
    requires
        all_digits(s),
    ensures
        digits_value(s) == numeral_value(s, 10),
    decreases s.len(),
{
    if s.len() > 0 {
        assert(all_digits(s.drop_last()));
        lemma_digits_value_numeral(s.drop_last());
        assert(is_digit(s[s.len() - 1]));
    }
}

/// Every `i8` written in decimal reads back as itself.
pub proof fn lemma_parse_i8_decimal(v: int)
    requires
        -128 <= v <= 127,
    ensures
        parse_i8(decimal_text(v)) == Some(v as i8),
{
    let m: nat = if v < 0 {
        (-v) as nat
    } else {
        v as nat
    };
    let d = digits(m, 10);
    lemma_digits_numeral(m, 10);
    assert(all_digits(d)) by {
        assert forall|i: int| 0 <= i < d.len() implies is_digit(#[trigger] d[i]) by {
            assert(0 <= char_digit(d[i]) < 10);
        }
    }
    lemma_digits_value_numeral(d);
    assert(is_digit(d[0]));
    let t = decimal_text(v);
    if v < 0 {
        assert(t[0] == '-');
        assert(t.drop_first() =~= d);
    } else {
        assert(t == d);
    }
}

/// A line of moves without a space, a space, and the decimal text of an `i8`
/// reads as the position those moves give from the empty board, with that score.
pub proof fn lemma_parse_line_of_moves_and_score(moves: Seq<char>, p: Position, v: int)
    requires
        forall|k: int| 0 <= k < moves.len() ==> #[trigger] moves[k] != ' ',
        replay(Position::blank(), moves) == Ok::<Position, ParseLineError>(p),
        -128 <= v <= 127,
    ensures
        parse_line_result(moves + seq![' '] + decimal_text(v)) == Ok::<(Position, i8), ParseLineError>(
            (p, v as i8),
        ),
{
    let line = moves + seq![' '] + decimal_text(v);
    lemma_first_space(line);
    assert(line[moves.len() as int] == ' ');
    match first_space(line) {
        Some(i) => {
            if i < moves.len() {
                assert(line[i] == moves[i]);
            }
            assert(i == moves.len());
        },
        None => {
            assert(line[moves.len() as int] != ' ');
        },
    }
    assert(line.subrange(0, moves.len() as int) =~= moves);
    assert(line.subrange(moves.len() as int + 1, line.len() as int) =~= decimal_text(v));
    lemma_parse_i8_decimal(v);
}

/// Every decimal digit is taken as a move: `'1'` to `'7'` as columns 0 to 6,
/// and never refused as a character that is not a digit.
pub proof fn lemma_digit_moves(p: Position, c: char)
    requires
        '0' <= c <= '9',
    ensures
        replay(p, seq![c]) != Err::<Position, ParseLineError>(ParseLineError::NotADigit(c)),
        '1' <= c <= '7' && p.play_column_result((c as int - 49) as u8) is Ok ==> replay(p, seq![c])
            == Ok::<Position, ParseLineError>(child_of(p, c as int - 49)),
{
    assert(seq![c].drop_first() =~= Seq::<char>::empty());
    if c != '0' {
        let column = (c as int - 49) as u8;
        assert(column as int == c as int - 49);
        match p.play_column_result(column) {
            Err(e) => {},
            Ok(_) => {
                assert(replay(child_of(p, column as int), Seq::<char>::empty()) == Ok::<Position, ParseLineError>(
                    child_of(p, column as int),
                ));
            },
        }
    }
}

impl Position {
    /// The empty board.
    pub open spec fn blank() -> Position {
        Position { current_player_stones: 0, both_players_mask: 0, moves_played: 0 }
    }
}

proof fn lemma_first_space(s: Seq<char>)
    ensures
        match first_space(s) {
            Some(i) => 0 <= i < s.len() && s[i] == ' ' && forall|k: int| 0 <= k < i ==> #[trigger] s[k] != ' ',
            None => forall|k: int| 0 <= k < s.len() ==> #[trigger] s[k] != ' ',
        },
    decreases s.len(),
{
    if s.len() > 0 {
        lemma_first_space(s.drop_first());
        if s[0] != ' ' {
            assert forall|k: int| 0 < k < s.len() implies s[k] == s.drop_first()[k - 1] by {}
        }
    }
}

/// A prefix of digits has a value at most that of the whole.
proof fn lemma_digits_value_grows(t: Seq<char>, n: int)
    requires
        0 <= n <= t.len(),
        all_digits(t),
    ensures
        0 <= digits_value(t.subrange(0, n)) <= digits_value(t),
    decreases t.len() - n,
{
    if n < t.len() {
        lemma_digits_value_grows(t, n + 1);
        let p = t.subrange(0, n + 1);
        assert(p.drop_last() =~= t.subrange(0, n));
        assert(is_digit(t[n]));
    } else {
        assert(t.subrange(0, n) =~= t);
        lemma_digits_value_nonneg(t);
    }
}

proof fn lemma_digits_value_nonneg(t: Seq<char>)
    requires
        all_digits(t),
    ensures
        digits_value(t) >= 0,
    decreases t.len(),
{
    if t.len() > 0 {
        assert(all_digits(t.drop_last()));
        lemma_digits_value_nonneg(t.drop_last());
        assert(is_digit(t[t.len() - 1]));
    }
}

/// Reads an `i8` written in decimal from the characters of `line` from `start` on
/// (`len` of them in all): an optional sign, then digits.
fn parse_i8_chars(line: &str, start: usize, len: usize) -> (value: Option<i8>)
    requires
        start <= len,
        len == line@.len(),
    ensures
        value == parse_i8(line@.subrange(start as int, len as int)),
{
    let ghost s = line@.subrange(start as int, len as int);
    let mut i = start;
    let mut negative = false;
    if i < len {
        let sign = line.get_char(i);
        if sign == '-' || sign == '+' {
            negative = sign == '-';
            i += 1;
        }
    }
    let ghost body = line@.subrange(i as int, len as int);
    proof {
        assert(negative == (s.len() > 0 && s[0] == '-'));
        if start < len && (s[0] == '-' || s[0] == '+') {
            assert(body =~= s.drop_first());
        } else {
            assert(body =~= s);
        }
    }
    if i == len {
        return None;
    }
    let mut magnitude: u32 = 0;
    let ghost body_start = i;
    while i < len
        invariant
            body == line@.subrange(body_start as int, len as int),
            s == line@.subrange(start as int, len as int),
            negative == (s.len() > 0 && s[0] == '-'),
            body == if s.len() > 0 && (s[0] == '-' || s[0] == '+') {
                s.drop_first()
            } else {
                s
            },
            len == line@.len(),
            body_start <= i <= len,
            all_digits(body.subrange(0, i - body_start)),
            magnitude == digits_value(body.subrange(0, i - body_start)),
            magnitude <= 128,
        decreases len - i,
    {
        let b = line.get_char(i);
        proof {
            assert(body[i - body_start] == b);
        }
        if b < '0' || b > '9' {
            proof {
                assert(!is_digit(body[i - body_start]));
                assert(!all_digits(body));
            }
            return None;
        }
        magnitude = magnitude * 10 + (b as u32 - 48);
        proof {
            let p = body.subrange(0, i + 1 - body_start);
            assert(p.drop_last() =~= body.subrange(0, i - body_start));
            assert(p.last() == b);
            assert(all_digits(p)) by {
                assert forall|k: int| 0 <= k < p.len() implies is_digit(#[trigger] p[k]) by {
                    if k < p.len() - 1 {
                        assert(p[k] == body.subrange(0, i - body_start)[k]);
                    }
                }
            }
            assert(magnitude == digits_value(p));
        }
        if magnitude > 128 {
            proof {
                if all_digits(body) {
                    lemma_digits_value_grows(body, i + 1 - body_start);
                }
            }
            return None;
        }
        i += 1;
    }
    proof {
        assert(body.subrange(0, len - body_start) =~= body);
    }
    if negative {
        Some((0 - magnitude as i16) as i8)
    } else if magnitude <= 127 {
        Some(magnitude as i8)
    } else {
        None
    }
}

/// Reads a line: the columns played (1 to 7), a space, and the expected score.
pub fn parse_line(line: &str) -> (result: Result<(Position, i8), ParseLineError>)
    ensures
        result == parse_line_result(line@),
        result matches Ok((position, _)) ==> position.wf() && position.alternating(),
{
    let len = line.unicode_len();
    let ghost s = line@;
    proof {
        lemma_first_space(s);
    }
    // Find the space between the moves and the score
    let mut space: usize = 0;
    while space < len && line.get_char(space) != ' '
        invariant
            s == line@,
            len == s.len(),
            space <= s.len(),
            forall|k: int| 0 <= k < space ==> #[trigger] s[k] != ' ',
        decreases s.len() - space,
    {
        space += 1;
    }
    if space == len {
        return Err(ParseLineError::MissingSpace);
    }
    let mut position = Position::new_blank_game();
    let mut i: usize = 0;
    while i < space
        invariant
            s == line@,
            len == s.len(),
            i <= space < s.len(),
            s[space as int] == ' ',
            first_space(s) == Some(space as int),
            forall|k: int| 0 <= k < space ==> #[trigger] s[k] != ' ',
            position.wf(),
            position.alternating(),
            replay(Position::blank(), s.subrange(0, space as int)) == replay(
                position,
                s.subrange(i as int, space as int),
            ),
        decreases space - i,
    {
        let b = line.get_char(i);
        proof {
            assert(s.subrange(i as int, space as int)[0] == b);
            assert(s.subrange(i as int, space as int).drop_first() =~= s.subrange(i + 1, space as int));
        }
        if b < '0' || b > '9' {
            proof {
                assert(replay(position, s.subrange(i as int, space as int)) == Err::<Position, ParseLineError>(
                    ParseLineError::NotADigit(b),
                ));
            }
            return Err(ParseLineError::NotADigit(b));
        }
        // The file numbers the columns from 1; a 0 wraps around to column 255, which does not exist
        let column: u8 = if b == '0' {
            255u8
        } else {
            (b as u32 - 49) as u8
        };
        let ghost before = position;
        match position.play_column(column) {
            Err(e) => {
                proof {
                    assert(replay(before, s.subrange(i as int, space as int)) == Err::<Position, ParseLineError>(
                        ParseLineError::IllegalMove(e),
                    ));
                }
                return Err(ParseLineError::IllegalMove(e));
            },
            Ok(()) => {},
        }
        proof {
            crate::board::min_max_methods::lemma_dropped_unique(before, position, column as int);
        }
        i += 1;
    }
    let evaluation = parse_i8_chars(line, space + 1, len);
    match evaluation {
        None => Err(ParseLineError::InvalidEvaluation),
        Some(v) => Ok((position, v)),
    }
}

} // verus!
