//! Boards and positions as text for the eye.

use crate::bits::lemma_bit32_probe;
use crate::board::{Board, Piece};
use crate::fen::{push_signed, signed_decimal};
use crate::gen_tables::row_digit;
use crate::position::{Position, State};
use vstd::prelude::*;

verus! {

/// The character that shows a piece.
pub open spec fn piece_char(p: Piece) -> char {
    match p {
        Piece::Empty => '_',
        Piece::Pawn => '^',
        Piece::Drone => '*',
        Piece::Queen => 'A',
    }
}

/// The text of row `y`: its number, two spaces, and from column 3 down to
/// column 0 the character of each square with a space behind it.
pub open spec fn row_text(b: Board, y: int) -> Seq<char> {
    seq![
        row_digit(y),
        ' ',
        ' ',
        piece_char(b.piece(4 * y + 3)),
        ' ',
        piece_char(b.piece(4 * y + 2)),
        ' ',
        piece_char(b.piece(4 * y + 1)),
        ' ',
        piece_char(b.piece(4 * y)),
        ' ',
        '\n',
    ]
}

/// The text of the `n` topmost rows, the top row first.
pub open spec fn rows_text(b: Board, n: int) -> Seq<char>
    decreases n,
{
    if n <= 0 {
        Seq::empty()
    } else {
        rows_text(b, n - 1) + row_text(b, 8 - n)
    }
}

/// The text of a board: its eight rows, an empty line, and the letters of
/// the columns.
pub open spec fn board_text(b: Board) -> Seq<char> {
    rows_text(b, 8) + seq!['\n'] + "   A B C D\n"@
}

/// The text of a position: a line with the player and the score, an empty
/// line, the board, and an empty line.
pub open spec fn position_text(s: State) -> Seq<char> {
    seq!['p', if s.player {
        '2'
    } else {
        '1'
    }, ' '] + signed_decimal(s.score) + seq!['\n', '\n'] + board_text(s.board) + seq!['\n']
}

/// Appends the text of a board.
fn push_board(out: &mut String, b: &Board)
    ensures
        final(out)@ == old(out)@ + board_text(*b),
{
    let pawns = b.pawns();
    let drones = b.drones();
    let queens = b.queens();
    let mut n: usize = 0;
    assert(out@ =~= old(out)@ + rows_text(*b, 0));
    while n < 8
        invariant
            0 <= n <= 8,
            pawns == b.pawns_word(),
            drones == b.drones_word(),
            queens == b.queens_word(),
            out@ == old(out)@ + rows_text(*b, n as int),
        decreases 8 - n,
    {
        let y = 7 - n;
        let ghost before = out@;
        let digit = if y == 0 {
            '1'
        } else if y == 1 {
            '2'
        } else if y == 2 {
            '3'
        } else if y == 3 {
            '4'
        } else if y == 4 {
            '5'
        } else if y == 5 {
            '6'
        } else if y == 6 {
            '7'
        } else {
            '8'
        };
        out.push(digit);
        out.push(' ');
        out.push(' ');
        let mut k: usize = 0;
        while k < 4
            invariant
                0 <= k <= 4,
                y == 7 - n,
                0 <= n < 8,
                pawns == b.pawns_word(),
                drones == b.drones_word(),
                queens == b.queens_word(),
                out@ == before + row_text(*b, y as int).subrange(0, 3 + 2 * k),
            decreases 4 - k,
        {
            let sq = (4 * y + 3 - k) as u32;
            let bit = 1u32 << sq;
            proof {
                b.lemma_words();
                lemma_bit32_probe(pawns, sq as int);
                lemma_bit32_probe(drones, sq as int);
                lemma_bit32_probe(queens, sq as int);
            }
            let c = if queens & bit != 0 {
                'A'
            } else if drones & bit != 0 {
                '*'
            } else if pawns & bit != 0 {
                '^'
            } else {
                '_'
            };
            out.push(c);
            out.push(' ');
            proof {
                assert(c == piece_char(b.piece(sq as int)));
                assert(out@ =~= before + row_text(*b, y as int).subrange(0, 3 + 2 * (k + 1)));
            }
            k += 1;
        }
        out.push('\n');
        proof {
            assert(out@ =~= before + row_text(*b, y as int));
            assert(out@ =~= old(out)@ + rows_text(*b, n + 1));
        }
        n += 1;
    }
    out.push('\n');
    out.append("   A B C D\n");
    assert(out@ =~= old(out)@ + board_text(*b));
}

impl Board {
    /// The board as text: the rows from the top down, each with its number,
    /// a `^` for a pawn, a `*` for a drone, an `A` for a queen and a `_`
    /// for an empty square, and the letters of the columns below.
    pub fn to_text(&self) -> (out: String)
        ensures
            out@ == board_text(*self),
    {
        let mut out = String::new();
        push_board(&mut out, self);
        assert(out@ =~= board_text(*self));
        out
    }
}

impl<'a> Position<'a> {
    /// The position as text: the player and the score, then the board.
    pub fn to_text(&self) -> (out: String)
        ensures
            out@ == position_text(self@),
    {
        let mut out = String::new();
        out.push('p');
        if self.player {
            out.push('2');
        } else {
            out.push('1');
        }
        out.push(' ');
        push_signed(&mut out, self.score);
        out.push('\n');
        out.push('\n');
        push_board(&mut out, &self.board);
        out.push('\n');
        assert(out@ =~= position_text(self@));
        out
    }
}

} // verus!
