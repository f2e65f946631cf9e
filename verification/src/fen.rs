//! The text form of a position: the two boards as sixteen hexadecimal
//! digits each, a digit for the player, and the score in decimal, divided
//! by single spaces.

use crate::board::Board;
use crate::gen_tables::Tables;
use crate::position::{Position, State};
use vstd::prelude::*;

verus! {

/// The character of the digit `d`, in bases up to sixteen.
pub open spec fn digit_char(d: int) -> char {
    if d < 10 {
        (48 + d) as char
    } else {
        (87 + d) as char
    }
}

/// The digit that the character `c` stands for in the given base, in
/// either case of the letters.
pub open spec fn digit_value(c: char, base: int) -> Option<int> {
    let d = if '0' <= c <= '9' {
        c as int - 48
    } else if 'a' <= c <= 'f' {
        c as int - 87
    } else if 'A' <= c <= 'F' {
        c as int - 55
    } else {
        16
    };
    if d < base {
        Some(d)
    } else {
        None
    }
}

/// The number that the digits of `t` write in the given base.
pub open spec fn number(t: Seq<char>, base: int) -> int
    decreases t.len(),
{
    if t.len() == 0 {
        0
    } else {
        number(t.drop_last(), base) * base + digit_value(t.last(), base).unwrap_or(0)
    }
}

/// The `n` lowest digits of `x` in the given base, highest first.
pub open spec fn digits(x: int, base: int, n: nat) -> Seq<char>
    decreases n,
{
    if n == 0 {
        Seq::empty()
    } else {
        digits(x / base, base, (n - 1) as nat).push(digit_char(x % base))
    }
}

/// The digits of `x` in decimal, without leading zeros.
pub open spec fn decimal(x: int) -> Seq<char>
    decreases x,
{
    if x < 10 {
        seq![digit_char(x)]
    } else {
        decimal(x / 10).push(digit_char(x % 10))
    }
}

/// The number `x` in decimal, with a minus sign if it is negative.
pub open spec fn signed_decimal(x: int) -> Seq<char> {
    if x < 0 {
        seq!['-'] + decimal(-x)
    } else {
        decimal(x)
    }
}

/// The text of a position.
pub open spec fn fen_text(s: State) -> Seq<char> {
    digits(s.board.0 as int, 16, 16) + seq![' '] + digits(s.prev.0 as int, 16, 16) + seq![' ']
        + seq![if s.player {
        '2'
    } else {
        '1'
    }] + seq![' '] + signed_decimal(s.score)
}

/// Where the digits end that start at `from` in `t`.
pub open spec fn digits_end(t: Seq<char>, from: int, base: int) -> int
    decreases t.len() - from,
{
    if 0 <= from < t.len() && digit_value(t[from], base) is Some {
        digits_end(t, from + 1, base)
    } else {
        from
    }
}

/// The position that a text stands for, if it is the text of one: a
/// hexadecimal number for the board, one for the board before, the digit 1
/// or 2 for the player, and a decimal number for the score, with a minus
/// sign if negative, each divided from the next by one space, and each
/// number within the range of its field.
pub open spec fn parse_fen(t: Seq<char>) -> Option<State> {
    let e1 = digits_end(t, 0, 16);
    let e2 = digits_end(t, e1 + 1, 16);
    let p = e2 + 1;
    let neg = p + 2 < t.len() && t[p + 2] == '-';
    let d0 = if neg {
        p + 3
    } else {
        p + 2
    };
    let e3 = digits_end(t, d0, 10);
    let board = number(t.subrange(0, e1), 16);
    let prev = number(t.subrange(e1 + 1, e2), 16);
    let size = number(t.subrange(d0, e3), 10);
    if 0 < e1 < t.len() && board <= u64::MAX && t[e1] == ' ' && e1 + 1 < e2 < t.len() && prev
        <= u64::MAX && t[e2] == ' ' && p + 1 < t.len() && (t[p] == '1' || t[p] == '2') && t[p + 1]
        == ' ' && d0 < e3 && e3 == t.len() && size <= (if neg {
        0x8000_0000int
    } else {
        0x7fff_ffffint
    }) {
        Some(
            State {
                board: Board(board as u64),
                prev: Board(prev as u64),
                player: t[p] == '2',
                score: if neg {
                    -size
                } else {
                    size
                },
            },
        )
    } else {
        None
    }
}

/// The character of a digit.
fn digit_to_char(d: u8) -> (c: char)
    requires
        d < 16,
    ensures
        c == digit_char(d as int),
{
    if d < 10 {
        (48 + d) as char
    } else {
        (87 + d) as char
    }
}

/// The digit of a character in the given base.
fn char_to_digit(c: char, base: u64) -> (r: Option<u64>)
    requires
        base <= 16,
    ensures
        r is Some == digit_value(c, base as int) is Some,
        r matches Some(d) ==> digit_value(c, base as int) == Some(d as int) && d < base,
{
    let d = if c >= '0' && c <= '9' {
        (c as u32 - 48) as u64
    } else if c >= 'a' && c <= 'f' {
        (c as u32 - 87) as u64
    } else if c >= 'A' && c <= 'F' {
        (c as u32 - 55) as u64
    } else {
        16
    };
    if d < base {
        Some(d)
    } else {
        None
    }
}

/// Appends the `n` lowest hexadecimal digits of `x`.
fn push_hex(out: &mut String, x: u64, n: usize)
    ensures
        final(out)@ == old(out)@ + digits(x as int, 16, n as nat),
    decreases n,
{
    if n > 0 {
        push_hex(out, x / 16, n - 1);
        out.push(digit_to_char((x % 16) as u8));
        assert(out@ =~= old(out)@ + digits(x as int, 16, n as nat));
    } else {
        assert(out@ =~= old(out)@ + digits(x as int, 16, n as nat));
    }
}

/// Appends `x` in decimal, with a minus sign if it is negative.
pub fn push_signed(out: &mut String, x: i32)
    ensures
        final(out)@ == old(out)@ + signed_decimal(x as int),
{
    if x < 0 {
        out.push('-');
        push_decimal(out, (-(x as i64)) as u32);
    } else {
        push_decimal(out, x as u32);
    }
    assert(out@ =~= old(out)@ + signed_decimal(x as int));
}

/// Appends `x` in decimal.
fn push_decimal(out: &mut String, x: u32)
    ensures
        final(out)@ == old(out)@ + decimal(x as int),
    decreases x,
{
    if x >= 10 {
        push_decimal(out, x / 10);
    }
    out.push(digit_to_char((x % 10) as u8));
    assert(out@ =~= old(out)@ + decimal(x as int));
}

/// The number written by digits, with one more digit, is not smaller.
pub proof fn lemma_number_step(t: Seq<char>, base: int)
    requires
        base >= 1,
        t.len() > 0,
    ensures
        number(t, base) >= number(t.drop_last(), base) >= 0,
    decreases t.len(),
{
    if t.drop_last().len() > 0 {
        lemma_number_step(t.drop_last(), base);
    }
    let a = number(t.drop_last(), base);
    assert(a * base >= a) by (nonlinear_arith)
        requires
            a >= 0,
            base >= 1,
    ;
}

/// Reads the digits that start at `from` and returns where they end, and
/// the number that they write if it is not above `max`.
fn read_number(s: &str, from: usize, base: u64, max: u64) -> (r: (usize, Option<u64>))
    requires
        2 <= base <= 16,
        base <= max,
        from <= s@.len(),
    ensures
        r.0 == digits_end(s@, from as int, base as int),
        from <= r.0 <= s@.len(),
        r.1 is Some == (number(s@.subrange(from as int, r.0 as int), base as int) <= max),
        r.1 matches Some(x) ==> x == number(s@.subrange(from as int, r.0 as int), base as int),
{
    let n = s.unicode_len();
    let mut i = from;
    let mut acc: u64 = 0;
    let mut over = false;
    assert(s@.subrange(from as int, from as int) =~= Seq::<char>::empty());
    loop
        invariant
            from <= i <= n,
            n == s@.len(),
            2 <= base <= 16,
            base <= max,
            digits_end(s@, i as int, base as int) == digits_end(s@, from as int, base as int),
            !over ==> acc == number(s@.subrange(from as int, i as int), base as int) && acc <= max,
            over ==> number(s@.subrange(from as int, i as int), base as int) > max,
        ensures
            i == digits_end(s@, from as int, base as int),
        decreases n - i,
    {
        if i >= n {
            break ;
        }
        let d = match char_to_digit(s.get_char(i), base) {
            Some(d) => d,
            None => {
                break ;
            },
        };
        proof {
            let t = s@.subrange(from as int, i + 1);
            assert(t.drop_last() =~= s@.subrange(from as int, i as int));
            assert(t.last() == s@[i as int]);
            lemma_number_step(t, base as int);
        }
        if !over {
            if acc > (max - d) / base {
                over = true;
                proof {
                    let a = acc as int;
                    let b = base as int;
                    let m = max as int;
                    assert(a * b + d > m) by (nonlinear_arith)
                        requires
                            a > (m - d) / b,
                            b >= 2,
                            0 <= d < b,
                            m >= d,
                    ;
                }
            } else {
                proof {
                    let a = acc as int;
                    let b = base as int;
                    let m = max as int;
                    assert(a * b + d <= m) by (nonlinear_arith)
                        requires
                            0 <= a <= (m - d) / b,
                            b >= 2,
                            0 <= d < b,
                            m >= d,
                    ;
                }
                acc = acc * base + d;
            }
        }
        i += 1;
    }
    if over {
        (i, None)
    } else {
        (i, Some(acc))
    }
}

impl<'a> Position<'a> {
    /// Writes the position as text.
    pub fn to_fen(&self) -> (out: String)
        ensures
            out@ == fen_text(self@),
    {
        let mut out = String::new();
        push_hex(&mut out, self.board.0, 16);
        out.push(' ');
        push_hex(&mut out, self.prev.0, 16);
        out.push(' ');
        if self.player {
            out.push('2');
        } else {
            out.push('1');
        }
        out.push(' ');
        push_signed(&mut out, self.score);
        assert(out@ =~= fen_text(self@));
        out
    }

    /// Reads a position from its text. `None` for a text that is not the
    /// text of a position.
    pub fn from_fen(fen: &str, tables: &'a Tables) -> (r: Option<Self>)
        ensures
            parse_fen(fen@) is None ==> r is None,
            parse_fen(fen@) matches Some(s) ==> r matches Some(p) && p@ == s && p.tables == tables,
    {
        let n = fen.unicode_len();
        let (e1, board) = read_number(fen, 0, 16, u64::MAX);
        if e1 == 0 || e1 >= n || fen.get_char(e1) != ' ' {
            return None;
        }
        let (e2, prev) = read_number(fen, e1 + 1, 16, u64::MAX);
        if e2 == e1 + 1 || e2 >= n || fen.get_char(e2) != ' ' {
            return None;
        }
        if n - e2 < 3 {
            return None;
        }
        let p = e2 + 1;
        let mark = fen.get_char(p);
        if (mark != '1' && mark != '2') || fen.get_char(p + 1) != ' ' {
            return None;
        }
        let neg = p + 2 < n && fen.get_char(p + 2) == '-';
        let d0 = if neg {
            p + 3
        } else {
            p + 2
        };
        let (e3, size) = read_number(
            fen,
            d0,
            10,
            if neg {
                0x8000_0000
            } else {
                0x7fff_ffff
            },
        );
        if e3 == d0 || e3 != n {
            return None;
        }
        match (board, prev, size) {
            (Some(board), Some(prev), Some(size)) => {
                let score = if neg {
                    (-(size as i64)) as i32
                } else {
                    size as i32
                };
                Some(
                    Position {
                        board: Board(board),
                        prev: Board(prev),
                        tables,
                        player: mark == '2',
                        score,
                    },
                )
            },
            _ => None,
        }
    }
}

/// The first number that `n` hexadecimal digits cannot write.
pub open spec fn hex_bound(n: nat) -> int
    decreases n,
{
    if n == 0 {
        1
    } else {
        16 * hex_bound((n - 1) as nat)
    }
}

/// `digits` gives as many characters as asked for, each a digit of the
/// base.
pub proof fn lemma_digits_shape(x: int, base: int, n: nat)
    requires
        0 <= x,
        2 <= base <= 16,
    ensures
        digits(x, base, n).len() == n,
        forall|i: int| 0 <= i < n ==> digit_value(#[trigger] digits(x, base, n)[i], base) is Some,
    decreases n,
{
    if n > 0 {
        lemma_digits_shape(x / base, base, (n - 1) as nat);
    }
}

/// Sixteen hexadecimal digits write every number below `hex_bound`.
pub proof fn lemma_digits_number(x: int, n: nat)
    requires
        0 <= x < hex_bound(n),
    ensures
        number(digits(x, 16, n), 16) == x,
    decreases n,
{
    if n > 0 {
        lemma_digits_number(x / 16, (n - 1) as nat);
        let t = digits(x, 16, n);
        assert(t.drop_last() =~= digits(x / 16, 16, (n - 1) as nat));
    }
}

/// The decimal digits of a number write that number.
pub proof fn lemma_decimal(x: int)
    requires
        0 <= x,
    ensures
        decimal(x).len() >= 1,
        forall|i: int| 0 <= i < decimal(x).len() ==> digit_value(#[trigger] decimal(x)[i], 10) is Some,
        number(decimal(x), 10) == x,
    decreases x,
{
    let t = decimal(x);
    if x >= 10 {
        lemma_decimal(x / 10);
        assert(t.drop_last() =~= decimal(x / 10));
        assert(t.last() == digit_char(x % 10));
    } else {
        assert(t.drop_last() =~= Seq::<char>::empty());
        assert(number(Seq::<char>::empty(), 10) == 0);
        assert(t.last() == digit_char(x));
    }
}

/// A run of digits that ends at the end of the text, or before a character
/// that is no digit, is read to its end.
pub proof fn lemma_digits_run(t: Seq<char>, from: int, to: int, base: int)
    requires
        0 <= from <= to <= t.len(),
        forall|i: int| from <= i < to ==> digit_value(#[trigger] t[i], base) is Some,
        to == t.len() || digit_value(t[to], base) is None,
    ensures
        digits_end(t, from, base) == to,
    decreases to - from,
{
    if from < to {
        lemma_digits_run(t, from + 1, to, base);
    }
}

/// Reading the text of a position gives the position back.
pub proof fn lemma_fen_round_trip(s: State)
    requires
        i32::MIN <= s.score <= i32::MAX,
    ensures
        parse_fen(fen_text(s)) == Some(s),
{
    let w1 = digits(s.board.0 as int, 16, 16);
    let w2 = digits(s.prev.0 as int, 16, 16);
    let neg = s.score < 0;
    let size = if neg {
        -s.score
    } else {
        s.score
    };
    let w3 = decimal(size);
    let t = fen_text(s);
    assert(hex_bound(16) == 0x1_0000_0000_0000_0000) by {
        reveal_with_fuel(hex_bound, 17);
    }
    lemma_digits_shape(s.board.0 as int, 16, 16);
    lemma_digits_shape(s.prev.0 as int, 16, 16);
    lemma_digits_number(s.board.0 as int, 16);
    lemma_digits_number(s.prev.0 as int, 16);
    lemma_decimal(size);
    let d0: int = if neg {
        37
    } else {
        36
    };
    assert(t.len() == d0 + w3.len());
    assert forall|i: int| 0 <= i < 16 implies digit_value(#[trigger] t[i], 16) is Some by {
        assert(t[i] == w1[i]);
    }
    assert(t[16] == ' ');
    lemma_digits_run(t, 0, 16, 16);
    assert forall|i: int| 17 <= i < 33 implies digit_value(#[trigger] t[i], 16) is Some by {
        assert(t[i] == w2[i - 17]);
    }
    assert(t[33] == ' ');
    lemma_digits_run(t, 17, 33, 16);
    assert(t[34] == (if s.player {
        '2'
    } else {
        '1'
    }));
    assert(t[35] == ' ');
    if neg {
        assert(t[36] == '-');
    } else {
        assert(t[36] == w3[0]);
        assert(digit_value(w3[0], 10) is Some);
    }
    assert forall|i: int| d0 <= i < t.len() implies digit_value(#[trigger] t[i], 10) is Some by {
        assert(t[i] == w3[i - d0]);
    }
    lemma_digits_run(t, d0, t.len() as int, 10);
    assert(t.subrange(0, 16) =~= w1);
    assert(t.subrange(17, 33) =~= w2);
    assert(t.subrange(d0, t.len() as int) =~= w3);
}

} // verus!
