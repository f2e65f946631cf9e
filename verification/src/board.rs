//! The board: a 64-bit word read as two planes of 32 squares, and the moves
//! that lead from one board to the next.

use crate::bits::{
    bit32, bit64, count32, lemma_bit32_empty, lemma_bit32_ext, lemma_bit32_ops,
    lemma_bit32_single, lemma_bit64_empty, lemma_bit64_ext, lemma_bit64_ops, lemma_lowest32,
    lemma_word64_of, lemma_word_of, lowest32, word64_of, word_of,
};
use crate::gen_tables::{
    lookup, piece_attack, piece_mask, sliding_ok, square_name, LocStack, Tables, DRONE,
    FIELD_DRONE, PAWN, QUEEN1, QUEEN2,
};
use crate::legal::{
    all_men, is_move, is_take, lemma_move_effects, lemma_moves_are_moves, lemma_take_effects,
    lemma_takes_are_takes, men,
};
use vstd::prelude::*;

verus! {

/// What stands on a square.
#[derive(Debug, Clone, Copy, PartialEq, Eq, Structural)]
pub enum Piece {
    Empty,
    Pawn,
    Drone,
    Queen,
}

impl Piece {
    /// Whether the piece sets its square's bit on the low plane.
    pub open spec fn low(self) -> bool {
        self == Piece::Pawn || self == Piece::Queen
    }

    /// Whether the piece sets its square's bit on the high plane.
    pub open spec fn high(self) -> bool {
        self == Piece::Drone || self == Piece::Queen
    }

    /// The piece that the two plane bits of a square stand for.
    pub open spec fn of(low: bool, high: bool) -> Piece {
        if low && high {
            Piece::Queen
        } else if low {
            Piece::Pawn
        } else if high {
            Piece::Drone
        } else {
            Piece::Empty
        }
    }

    /// Material worth of the piece: a pawn counts 1, a drone and a queen 2.
    pub open spec fn material(self) -> int {
        match self {
            Piece::Empty => 0,
            Piece::Pawn => 1,
            Piece::Drone => 2,
            Piece::Queen => 2,
        }
    }

    /// Positional weight of the piece: 1 for its low bit and 2 for its high
    /// bit.
    pub open spec fn weight(self) -> int {
        match self {
            Piece::Empty => 0,
            Piece::Pawn => 1,
            Piece::Drone => 2,
            Piece::Queen => 3,
        }
    }
}

/// A position of the pieces, packed into one word: bit `sq` is the low
/// plane's bit of square `sq`, bit `sq + 32` the high plane's.
#[derive(Debug, Clone, Copy, PartialEq, Eq, Hash, PartialOrd, Ord, Structural)]
pub struct Board(pub u64);

/// The two plane bits of square 0.
pub const SQUARE: u64 = 0x100000001;

/// On both planes, the squares of the first player's half: 0 to 15.
pub const PLAYER: u64 = 0x0000ffff0000ffff;

/// Whether `sq` lies in the half of `player`: squares 0 to 15 are the first
/// player's (`false`), squares 16 to 31 the second's (`true`).
pub open spec fn home(player: bool, sq: int) -> bool {
    if player {
        16 <= sq < 32
    } else {
        0 <= sq < 16
    }
}

/// The squares of `player`'s half, as a word.
pub open spec fn home_word(player: bool) -> u32 {
    if player {
        0xffff0000
    } else {
        0x0000ffff
    }
}

/// The bits of the words that the two planes of a board word combine to,
/// and of the words of the two halves.
proof fn bv_planes(b: u64, k: u32)
    by (bit_vector)
    requires
        k < 32,
    ensures
        ((((b | (b >> 32)) as u32) >> k) & 1 == 1) <==> ((b >> k) & 1 == 1 || (b >> ((k
            + 32) as u32)) & 1 == 1),
        ((((b & !(b >> 32)) as u32) >> k) & 1 == 1) <==> ((b >> k) & 1 == 1 && !((b >> ((k
            + 32) as u32)) & 1 == 1)),
        ((((!b & (b >> 32)) as u32) >> k) & 1 == 1) <==> (!((b >> k) & 1 == 1) && (b >> ((k
            + 32) as u32)) & 1 == 1),
        ((((b & (b >> 32)) as u32) >> k) & 1 == 1) <==> ((b >> k) & 1 == 1 && (b >> ((k
            + 32) as u32)) & 1 == 1),
        ((((b >> 32) as u32) >> k) & 1 == 1) <==> (b >> ((k + 32) as u32)) & 1 == 1,
        (((b as u32) >> k) & 1 == 1) <==> (b >> k) & 1 == 1,
        ((0x0000ffffu32 >> k) & 1 == 1) <==> k < 16,
        ((0xffff0000u32 >> k) & 1 == 1) <==> k >= 16,
        ((0x0000ffff0000ffffu64 >> k) & 1 == 1) <==> k < 16,
        ((0x0000ffff0000ffffu64 >> ((k + 32) as u32)) & 1 == 1) <==> k < 16,
        (!0x0000ffff0000ffffu64) as u32 == 0xffff0000u32,
        0x0000ffff0000ffffu64 as u32 == 0x0000ffffu32,
{
}

/// The bits of a board word after a step from square `s` to square `t`.
proof fn bv_relocate(b: u64, s: u64, t: u64, k: u64)
    by (bit_vector)
    requires
        s < 32,
        t < 32,
        k < 32,
    ensures
        ({
            let nb = ((b & !(0x100000001u64 << s)) & !(0x100000001u64 << t)) | (((b & (
            0x100000001u64 << s)) >> s) << t);
            &&& ((nb >> k) & 1 == 1) == (if k == t {
                (b >> s) & 1 == 1
            } else if k == s {
                false
            } else {
                (b >> k) & 1 == 1
            })
            &&& ((nb >> ((k + 32) as u64)) & 1 == 1) == (if k == t {
                (b >> ((s + 32) as u64)) & 1 == 1
            } else if k == s {
                false
            } else {
                (b >> ((k + 32) as u64)) & 1 == 1
            })
        }),
{
}

/// The bits of a board word after the piece on `s` has joined the one on
/// `t`.
proof fn bv_promote(b: u64, s: u64, t: u64, k: u64)
    by (bit_vector)
    requires
        s < 32,
        t < 32,
        k < 32,
    ensures
        ({
            let nb = ((b & !(0x100000001u64 << s)) | (1u64 << ((t + 32) as u64))) ^ (((b & (1u64
                << s)) >> s) << t);
            &&& ((nb >> k) & 1 == 1) == (if k == t {
                (t != s && (b >> t) & 1 == 1) != ((b >> s) & 1 == 1)
            } else if k == s {
                false
            } else {
                (b >> k) & 1 == 1
            })
            &&& ((nb >> ((k + 32) as u64)) & 1 == 1) == (if k == t {
                true
            } else if k == s {
                false
            } else {
                (b >> ((k + 32) as u64)) & 1 == 1
            })
        }),
{
}

/// The boards that `f` gives for the set bits of `m` below `n`, in rising
/// order of the bits.
pub open spec fn each_bit(m: u32, n: int, f: spec_fn(int) -> Seq<Board>) -> Seq<Board>
    decreases n,
{
    if n <= 0 {
        Seq::empty()
    } else if bit32(m, n - 1) {
        each_bit(m, n - 1, f) + f(n - 1)
    } else {
        each_bit(m, n - 1, f)
    }
}

/// A stretch without set bits adds no board.
pub proof fn lemma_each_bit_gap(m: u32, lo: int, hi: int, f: spec_fn(int) -> Seq<Board>)
    requires
        0 <= lo <= hi,
        forall|i: int| lo <= i < hi ==> !bit32(m, i),
    ensures
        each_bit(m, hi, f) == each_bit(m, lo, f),
    decreases hi,
{
    if lo < hi {
        lemma_each_bit_gap(m, lo, hi - 1, f);
    }
}

/// One step of a walk over the set bits of `m` from the lowest up: `rem`
/// holds the bits from `pos` on, and its lowest bit `t` is the next one.
pub proof fn lemma_each_bit_step(m: u32, rem: u32, pos: int, f: spec_fn(int) -> Seq<Board>)
    requires
        0 <= pos <= 32,
        rem != 0,
        forall|i: int| #[trigger] bit32(rem, i) == (bit32(m, i) && i >= pos),
    ensures
        pos <= lowest32(rem) < 32,
        bit32(m, lowest32(rem)),
        each_bit(m, lowest32(rem) + 1, f) == each_bit(m, pos, f) + f(lowest32(rem)),
        forall|i: int| #[trigger]
            bit32(rem ^ (1u32 << (lowest32(rem) as u32)), i) == (bit32(m, i) && i >= lowest32(rem)
                + 1),
{
    let t = lowest32(rem);
    lemma_lowest32(rem);
    lemma_bit32_single(t as u32);
    lemma_bit32_ops(rem, 1u32 << (t as u32));
    assert(bit32(rem, t));
    assert forall|i: int| pos <= i < t implies !bit32(m, i) by {
        assert(!bit32(rem, i));
    }
    lemma_each_bit_gap(m, pos, t, f);
    assert forall|i: int| #[trigger]
        bit32(rem ^ (1u32 << (t as u32)), i) == (bit32(m, i) && i >= t + 1) by {
        if i != t {
            assert(bit32(rem, i) ==> i > t);
        }
    }
}

/// The end of a walk over the set bits of `m`: no bit is left from `pos` on.
pub proof fn lemma_each_bit_done(m: u32, pos: int, f: spec_fn(int) -> Seq<Board>)
    requires
        0 <= pos <= 32,
        forall|i: int| #[trigger] bit32(0, i) == (bit32(m, i) && i >= pos),
    ensures
        each_bit(m, 32, f) == each_bit(m, pos, f),
{
    lemma_bit32_single(0);
    assert forall|i: int| pos <= i < 32 implies !bit32(m, i) by {
        assert(!bit32(0, i));
    }
    lemma_each_bit_gap(m, pos, 32, f);
}

/// Every board of `each_bit(m, n, f)` is one of `f(j)` for a set bit `j` of
/// `m` below `n`.
pub proof fn lemma_each_bit_member(
    m: u32,
    n: int,
    f: spec_fn(int) -> Seq<Board>,
    i: int,
) -> (jk: (int, int))
    requires
        0 <= n <= 32,
        0 <= i < each_bit(m, n, f).len(),
    ensures
        0 <= jk.0 < n,
        bit32(m, jk.0),
        0 <= jk.1 < f(jk.0).len(),
        each_bit(m, n, f)[i] == f(jk.0)[jk.1],
    decreases n,
{
    if bit32(m, n - 1) {
        if i < each_bit(m, n - 1, f).len() {
            lemma_each_bit_member(m, n - 1, f, i)
        } else {
            (n - 1, i - each_bit(m, n - 1, f).len())
        }
    } else {
        lemma_each_bit_member(m, n - 1, f, i)
    }
}

/// The squares that a queen on `sq` reaches over the occupancy `occ`.
pub open spec fn queen_attack(sq: int, occ: u32) -> u32 {
    piece_attack(QUEEN1 as int, sq, occ) | piece_attack(QUEEN2 as int, sq, occ)
}

/// The squares that a capturing piece on `sq` may land on over the
/// occupancy `occ`: the diagonal neighbours for a pawn, else what a drone or
/// a queen reaches.
pub open spec fn reach(kind: Piece, sq: int, occ: u32) -> u32 {
    match kind {
        Piece::Pawn => piece_mask(PAWN as int, sq),
        Piece::Drone => piece_attack(DRONE as int, sq, occ),
        _ => queen_attack(sq, occ),
    }
}

/// The layout from which a game starts.
pub const START: &'static str = "qqd1/qdp1/dpp1/4/4/1ppd/1pdq/1dqq";

/// The piece that a letter of a layout stands for.
pub open spec fn letter_piece(c: char) -> Piece {
    if c == 'q' {
        Piece::Queen
    } else if c == 'd' {
        Piece::Drone
    } else if c == 'p' {
        Piece::Pawn
    } else {
        Piece::Empty
    }
}

/// The number of squares that a character of a layout takes up in its row.
pub open spec fn letter_width(c: char) -> int {
    if c == 'q' || c == 'd' || c == 'p' || c == '1' {
        1
    } else if c == '2' {
        2
    } else if c == '3' {
        3
    } else if c == '4' {
        4
    } else {
        0
    }
}

/// Reading a layout: the column and row of the next square, and the pieces
/// set down so far.
pub struct Reading {
    pub x: int,
    pub y: int,
    pub pieces: Seq<Piece>,
}

/// The state of reading a layout after one more character. A letter sets
/// its piece down on the next square, if that is on the board, and a digit
/// skips as many squares; the row runs from column 3 down to column 0. A
/// slash starts the next row below. Any other character is passed over.
pub open spec fn read_char(r: Reading, c: char) -> Reading {
    if c == '/' {
        Reading { x: 3, y: r.y - 1, pieces: r.pieces }
    } else if letter_piece(c) != Piece::Empty && 0 <= r.x < 4 && 0 <= r.y < 8 {
        Reading {
            x: r.x - 1,
            y: r.y,
            pieces: r.pieces.update(
                r.x + 4 * r.y,
                Piece::of(
                    r.pieces[r.x + 4 * r.y].low() || letter_piece(c).low(),
                    r.pieces[r.x + 4 * r.y].high() || letter_piece(c).high(),
                ),
            ),
        }
    } else {
        Reading { x: r.x - letter_width(c), y: r.y, pieces: r.pieces }
    }
}

/// The state of reading the first `n` characters of `desc`, from the top
/// row's column 3 on an empty board.
pub open spec fn read_upto(desc: Seq<char>, n: int) -> Reading
    decreases n,
{
    if n <= 0 {
        Reading { x: 3, y: 7, pieces: Seq::new(32, |sq: int| Piece::Empty) }
    } else {
        read_char(read_upto(desc, n - 1), desc[n - 1])
    }
}

/// The pieces that the layout `desc` sets down.
pub open spec fn layout(desc: Seq<char>) -> Seq<Piece> {
    read_upto(desc, desc.len() as int).pieces
}

/// The bits of a board word after a piece was set down on square `s`.
proof fn bv_place(b: u64, s: u64, k: u64)
    by (bit_vector)
    requires
        s < 32,
        k < 32,
    ensures
        (((b | (0x100000001u64 << s)) >> k) & 1 == 1) == ((b >> k) & 1 == 1 || k == s),
        (((b | (0x100000001u64 << s)) >> ((k + 32) as u64)) & 1 == 1) == ((b >> ((k
            + 32) as u64)) & 1 == 1 || k == s),
        (((b | (1u64 << s)) >> k) & 1 == 1) == ((b >> k) & 1 == 1 || k == s),
        (((b | (1u64 << s)) >> ((k + 32) as u64)) & 1 == 1) == ((b >> ((k + 32) as u64)) & 1
            == 1),
        (((b | (1u64 << ((s + 32) as u64))) >> k) & 1 == 1) == ((b >> k) & 1 == 1),
        (((b | (1u64 << ((s + 32) as u64))) >> ((k + 32) as u64)) & 1 == 1) == ((b >> ((k
            + 32) as u64)) & 1 == 1 || k == s),
        (((0x100000001u64 << s) >> k) & 1 == 1) == (k == s),
        (((0x100000001u64 << s) >> ((k + 32) as u64)) & 1 == 1) == (k == s),
{
}

/// A board as two signed 32-bit numbers: the high plane and the low plane.
#[derive(Debug, Clone, Copy, PartialEq, Eq, Structural)]
pub struct JsBoard {
    pub upper: i32,
    pub lower: i32,
}

/// The board word that the two numbers of `js` stand for.
pub open spec fn js_word(js: JsBoard) -> u64 {
    (((js.upper as u32) as u64) << 32) | ((js.lower as u32) as u64)
}

/// The two halves of a board word, read as signed numbers, give the word
/// back.
proof fn bv_js(x: u64)
    by (bit_vector)
    ensures
        ((((((x >> 32) as u32) as i32) as u32) as u64) << 32) | ((((x as u32) as i32) as u32) as u64)
            == x,
{
}

/// The square that a column letter from `a` to `d` and a row digit from `1`
/// to `8` name.
pub open spec fn named_square(letter: char, digit: char) -> Option<int> {
    if 'a' <= letter <= 'd' && '1' <= digit <= '8' {
        Some(3 - (letter as int - 97) + 4 * (digit as int - 49))
    } else {
        None
    }
}

/// The two squares that the first four characters of a move's text name.
pub open spec fn named_move(text: Seq<char>) -> Option<(int, int)> {
    if text.len() >= 4 && named_square(text[0], text[1]) is Some && named_square(
        text[2],
        text[3],
    ) is Some {
        Some((named_square(text[0], text[1])->0, named_square(text[2], text[3])->0))
    } else {
        None
    }
}

/// The text that `stringify_move` writes for a move between two squares of
/// the board names these two squares.
pub proof fn lemma_move_text(from: int, to: int)
    requires
        0 <= from < 32,
        0 <= to < 32,
    ensures
        named_move(square_name(from) + square_name(to)) == Some((from, to)),
{
    let text = square_name(from) + square_name(to);
    assert(text[0] == square_name(from)[0]);
    assert(text[1] == square_name(from)[1]);
    assert(text[2] == square_name(to)[0]);
    assert(text[3] == square_name(to)[1]);
}

/// The squares of `player`'s half on both planes, as a board word.
pub open spec fn side_mask(player: bool) -> u64 {
    if player {
        !PLAYER
    } else {
        PLAYER
    }
}

/// The bits of `PLAYER`.
pub proof fn lemma_player_bits()
    ensures
        forall|i: int| #[trigger] bit64(PLAYER, i) == (0 <= i < 64 && i % 32 < 16),
{
    assert forall|i: int| #[trigger] bit64(PLAYER, i) == (0 <= i < 64 && i % 32 < 16) by {
        if 0 <= i < 64 {
            bv_planes(0, (i % 32) as u32);
        }
    }
}

/// The bits of the home words.
pub proof fn lemma_home_word(player: bool)
    ensures
        forall|t: int| #[trigger] bit32(home_word(player), t) == home(player, t),
{
    assert forall|t: int| #[trigger] bit32(home_word(player), t) == home(player, t) by {
        if 0 <= t < 32 {
            bv_planes(0, t as u32);
        }
    }
}

impl View for Board {
    type V = Seq<Piece>;

    /// The board as the sequence of what stands on squares 0 to 31.
    open spec fn view(&self) -> Seq<Piece> {
        Seq::new(32, |sq: int| self.piece(sq))
    }
}

impl Board {
    /// What stands on square `sq`.
    pub open spec fn piece(self, sq: int) -> Piece {
        Piece::of(bit64(self.0, sq), bit64(self.0, sq + 32))
    }

    /// The board on which the squares hold the pieces of `v`.
    pub open spec fn of(v: Seq<Piece>) -> Board {
        Board(
            word64_of(
                |i: int|
                    if i < 32 {
                        v[i].low()
                    } else {
                        v[i - 32].high()
                    },
            ),
        )
    }

    /// Two boards with the same pieces on every square are the same board.
    pub proof fn lemma_ext(self, other: Board)
        requires
            forall|sq: int| 0 <= sq < 32 ==> self.piece(sq) == other.piece(sq),
        ensures
            self == other,
    {
        assert forall|i: int| 0 <= i < 64 implies bit64(self.0, i) == bit64(other.0, i) by {
            if i < 32 {
                assert(self.piece(i) == other.piece(i));
            } else {
                assert(self.piece(i - 32) == other.piece(i - 32));
            }
        }
        lemma_bit64_ext(self.0, other.0);
    }

    /// `Board::of(v)` holds the pieces of `v`, and every board is the board
    /// of its view.
    pub proof fn lemma_of(v: Seq<Piece>)
        requires
            v.len() == 32,
        ensures
            Board::of(v)@ == v,
            forall|sq: int| 0 <= sq < 32 ==> Board::of(v).piece(sq) == v[sq],
    {
        lemma_word64_of(
            |i: int|
                if i < 32 {
                    v[i].low()
                } else {
                    v[i - 32].high()
                },
        );
        assert(Board::of(v)@ =~= v);
    }

    /// A board is the board of its view.
    pub proof fn lemma_of_view(self)
        ensures
            Board::of(self@) == self,
    {
        Board::lemma_of(self@);
        assert forall|sq: int| 0 <= sq < 32 implies Board::of(self@).piece(sq) == self.piece(
            sq,
        ) by {
            assert(self@[sq] == self.piece(sq));
        }
        Board::of(self@).lemma_ext(self);
    }

    /// The occupied squares, as a word.
    pub open spec fn occ_word(self) -> u32 {
        word_of(|t: int| self.piece(t) != Piece::Empty)
    }

    /// The squares that hold a pawn, as a word.
    pub open spec fn pawns_word(self) -> u32 {
        word_of(|t: int| self.piece(t) == Piece::Pawn)
    }

    /// The squares that hold a drone, as a word.
    pub open spec fn drones_word(self) -> u32 {
        word_of(|t: int| self.piece(t) == Piece::Drone)
    }

    /// The squares that hold a queen, as a word.
    pub open spec fn queens_word(self) -> u32 {
        word_of(|t: int| self.piece(t) == Piece::Queen)
    }

    /// The bits of the four words above.
    pub proof fn lemma_words(self)
        ensures
            forall|t: int|
                #[trigger] bit32(self.occ_word(), t) == (0 <= t < 32 && self.piece(t)
                    != Piece::Empty),
            forall|t: int|
                #[trigger] bit32(self.pawns_word(), t) == (0 <= t < 32 && self.piece(t)
                    == Piece::Pawn),
            forall|t: int|
                #[trigger] bit32(self.drones_word(), t) == (0 <= t < 32 && self.piece(t)
                    == Piece::Drone),
            forall|t: int|
                #[trigger] bit32(self.queens_word(), t) == (0 <= t < 32 && self.piece(t)
                    == Piece::Queen),
    {
        lemma_word_of(|t: int| self.piece(t) != Piece::Empty);
        lemma_word_of(|t: int| self.piece(t) == Piece::Pawn);
        lemma_word_of(|t: int| self.piece(t) == Piece::Drone);
        lemma_word_of(|t: int| self.piece(t) == Piece::Queen);
    }

    /// The board without a piece.
    pub fn empty() -> (b: Board)
        ensures
            b.0 == 0,
            forall|sq: int| 0 <= sq < 32 ==> b.piece(sq) == Piece::Empty,
    {
        proof {
            lemma_bit64_empty(0);
        }
        Board(0)
    }

    /// The occupied squares.
    pub fn occ(&self) -> (r: u32)
        ensures
            r == self.occ_word(),
    {
        let r = (self.0 | (self.0 >> 32)) as u32;
        proof {
            self.lemma_words();
            assert forall|t: int| 0 <= t < 32 implies bit32(r, t) == bit32(self.occ_word(), t) by {
                bv_planes(self.0, t as u32);
            }
            lemma_bit32_ext(r, self.occ_word());
        }
        r
    }

    /// The squares that hold a pawn.
    pub fn pawns(&self) -> (r: u32)
        ensures
            r == self.pawns_word(),
    {
        let r = (self.0 & !(self.0 >> 32)) as u32;
        proof {
            self.lemma_words();
            assert forall|t: int| 0 <= t < 32 implies bit32(r, t) == bit32(
                self.pawns_word(),
                t,
            ) by {
                bv_planes(self.0, t as u32);
            }
            lemma_bit32_ext(r, self.pawns_word());
        }
        r
    }

    /// The squares that hold a drone.
    pub fn drones(&self) -> (r: u32)
        ensures
            r == self.drones_word(),
    {
        let r = (!self.0 & (self.0 >> 32)) as u32;
        proof {
            self.lemma_words();
            assert forall|t: int| 0 <= t < 32 implies bit32(r, t) == bit32(
                self.drones_word(),
                t,
            ) by {
                bv_planes(self.0, t as u32);
            }
            lemma_bit32_ext(r, self.drones_word());
        }
        r
    }

    /// The squares that hold a queen.
    pub fn queens(&self) -> (r: u32)
        ensures
            r == self.queens_word(),
    {
        let r = (self.0 & (self.0 >> 32)) as u32;
        proof {
            self.lemma_words();
            assert forall|t: int| 0 <= t < 32 implies bit32(r, t) == bit32(
                self.queens_word(),
                t,
            ) by {
                bv_planes(self.0, t as u32);
            }
            lemma_bit32_ext(r, self.queens_word());
        }
        r
    }

    /// The squares with their low bit set, as a word.
    pub open spec fn low_word(self) -> u32 {
        word_of(|t: int| self.piece(t).low())
    }

    /// The squares with their high bit set, as a word.
    pub open spec fn high_word(self) -> u32 {
        word_of(|t: int| self.piece(t).high())
    }

    /// The bits of the plane words, and how the machine reads them off the
    /// board's word.
    pub proof fn lemma_planes(self)
        ensures
            forall|t: int|
                #[trigger] bit32(self.low_word(), t) == (0 <= t < 32 && self.piece(t).low()),
            forall|t: int|
                #[trigger] bit32(self.high_word(), t) == (0 <= t < 32 && self.piece(t).high()),
            self.0 as u32 == self.low_word(),
            (self.0 >> 32) as u32 == self.high_word(),
    {
        lemma_word_of(|t: int| self.piece(t).low());
        lemma_word_of(|t: int| self.piece(t).high());
        assert forall|t: int| 0 <= t < 32 implies bit32(self.0 as u32, t) == bit32(
            self.low_word(),
            t,
        ) && bit32((self.0 >> 32) as u32, t) == bit32(self.high_word(), t) by {
            bv_planes(self.0, t as u32);
        }
        lemma_bit32_ext(self.0 as u32, self.low_word());
        lemma_bit32_ext((self.0 >> 32) as u32, self.high_word());
    }

    /// Material on squares below `n`.
    pub open spec fn material_upto(self, n: int) -> int
        decreases n,
    {
        if n <= 0 {
            0
        } else {
            self.material_upto(n - 1) + self.piece(n - 1).material()
        }
    }

    /// Material on the board: the sum of what its pieces are worth.
    pub open spec fn material(self) -> int {
        self.material_upto(32)
    }

    /// Material is the number of pawns and twice the number of high bits.
    pub proof fn lemma_material_counts(self, n: int)
        requires
            0 <= n <= 32,
        ensures
            self.material_upto(n) == count32(self.pawns_word(), n) + 2 * count32(
                self.high_word(),
                n,
            ),
            0 <= self.material_upto(n) <= 2 * n,
        decreases n,
    {
        if n > 0 {
            self.lemma_material_counts(n - 1);
            self.lemma_words();
            self.lemma_planes();
        }
    }

    /// The material on the board.
    pub fn pieces_value(&self) -> (v: i32)
        ensures
            v == self.material(),
            0 <= v <= 64,
    {
        let pawns = self.pawns().count_ones();
        let high = ((self.0 >> 32) as u32).count_ones();
        proof {
            self.lemma_planes();
            self.lemma_material_counts(32);
            crate::bits::lemma_count32_bounds(self.pawns_word(), 0, 32);
            crate::bits::lemma_count32_bounds(self.high_word(), 0, 32);
        }
        (pawns + 2 * high) as i32
    }

    /// Weight of the pieces on squares below `n`, those of the first player's
    /// half counted negative.
    pub open spec fn balance_upto(self, n: int) -> int
        decreases n,
    {
        if n <= 0 {
            0
        } else if n - 1 < 16 {
            self.balance_upto(n - 1) - self.piece(n - 1).weight()
        } else {
            self.balance_upto(n - 1) + self.piece(n - 1).weight()
        }
    }

    /// Weight of the second player's half of the board less that of the
    /// first player's.
    pub open spec fn balance(self) -> int {
        self.balance_upto(32)
    }

    /// The balance is a sum of four counts: the low and the high plane of
    /// each half.
    pub proof fn lemma_balance_counts(self, n: int)
        requires
            0 <= n <= 32,
        ensures
            self.balance_upto(n) == count32(self.low_word() & home_word(true), n) - count32(
                self.low_word() & home_word(false),
                n,
            ) + 2 * count32(self.high_word() & home_word(true), n) - 2 * count32(
                self.high_word() & home_word(false),
                n,
            ),
        decreases n,
    {
        if n > 0 {
            self.lemma_balance_counts(n - 1);
            self.lemma_planes();
            lemma_home_word(true);
            lemma_home_word(false);
            lemma_bit32_ops(self.low_word(), home_word(true));
            lemma_bit32_ops(self.low_word(), home_word(false));
            lemma_bit32_ops(self.high_word(), home_word(true));
            lemma_bit32_ops(self.high_word(), home_word(false));
        }
    }

    /// The balance over squares below `n` is within three for each square.
    pub proof fn lemma_balance_bounds(self, n: int)
        requires
            0 <= n <= 32,
        ensures
            -3 * n <= self.balance_upto(n) <= 3 * n,
            n == 32 ==> -48 <= self.balance_upto(n) <= 48,
        decreases n,
    {
        if n > 0 {
            self.lemma_balance_bounds(n - 1);
        }
        if n == 32 {
            self.lemma_balance_counts(32);
            self.lemma_planes();
            lemma_home_word(true);
            lemma_home_word(false);
            let low = self.low_word();
            let high = self.high_word();
            lemma_bit32_ops(low, home_word(true));
            lemma_bit32_ops(low, home_word(false));
            lemma_bit32_ops(high, home_word(true));
            lemma_bit32_ops(high, home_word(false));
            crate::bits::lemma_count32_gap(low & home_word(false), 16, 32);
            crate::bits::lemma_count32_gap(high & home_word(false), 16, 32);
            crate::bits::lemma_count32_gap(low & home_word(true), 0, 16);
            crate::bits::lemma_count32_gap(high & home_word(true), 0, 16);
            crate::bits::lemma_count32_bounds(low & home_word(false), 0, 16);
            crate::bits::lemma_count32_bounds(high & home_word(false), 0, 16);
            crate::bits::lemma_count32_bounds(low & home_word(true), 16, 32);
            crate::bits::lemma_count32_bounds(high & home_word(true), 16, 32);
        }
    }

    /// The balance of the board, a quick estimate of who stands better.
    pub fn player_value(&self) -> (v: i32)
        ensures
            v == self.balance(),
            -48 <= v <= 48,
    {
        let low = self.0 as u32;
        let high = (self.0 >> 32) as u32;
        let low_a = (low & 0x0000ffff).count_ones();
        let low_b = (low & 0xffff0000).count_ones();
        let high_a = (high & 0x0000ffff).count_ones();
        let high_b = (high & 0xffff0000).count_ones();
        proof {
            self.lemma_planes();
            self.lemma_balance_counts(32);
            lemma_home_word(true);
            lemma_home_word(false);
            lemma_bit32_ops(low, home_word(true));
            lemma_bit32_ops(low, home_word(false));
            lemma_bit32_ops(high, home_word(true));
            lemma_bit32_ops(high, home_word(false));
            crate::bits::lemma_count32_gap(low & home_word(false), 16, 32);
            crate::bits::lemma_count32_gap(high & home_word(false), 16, 32);
            crate::bits::lemma_count32_gap(low & home_word(true), 0, 16);
            crate::bits::lemma_count32_gap(high & home_word(true), 0, 16);
            crate::bits::lemma_count32_bounds(low & home_word(false), 0, 16);
            crate::bits::lemma_count32_bounds(high & home_word(false), 0, 16);
            crate::bits::lemma_count32_bounds(low & home_word(true), 16, 32);
            crate::bits::lemma_count32_bounds(high & home_word(true), 16, 32);
        }
        (low_b as i32 - low_a as i32) + 2 * (high_b as i32 - high_a as i32)
    }

    /// Whether `player` has no piece in its half.
    pub open spec fn side_empty(self, player: bool) -> bool {
        forall|t: int| home(player, t) ==> self.piece(t) == Piece::Empty
    }

    /// Cutting the board's word down to one half keeps the pieces of that
    /// half and empties the other.
    pub proof fn lemma_half(self, player: bool)
        ensures
            forall|t: int|
                0 <= t < 32 ==> #[trigger] Board(self.0 & side_mask(player)).piece(t) == (if home(
                    player,
                    t,
                ) {
                    self.piece(t)
                } else {
                    Piece::Empty
                }),
            side_mask(player) as u32 == home_word(player),
    {
        lemma_bit64_ops(self.0, side_mask(player));
        lemma_bit64_ops(PLAYER, 0);
        lemma_player_bits();
        bv_planes(0, 0);
    }

    /// A half is empty exactly if the board's word is zero on it.
    pub proof fn lemma_side_empty(self, player: bool)
        ensures
            self.side_empty(player) <==> self.0 & side_mask(player) == 0,
    {
        let part = Board(self.0 & side_mask(player));
        self.lemma_half(player);
        part.lemma_none();
        if self.side_empty(player) {
            assert forall|t: int| 0 <= t < 32 implies part.piece(t) == Piece::Empty by {
                if home(player, t) {
                    assert(self.piece(t) == Piece::Empty);
                }
            }
        }
        if part.0 == 0 {
            assert forall|t: int| home(player, t) implies self.piece(t) == Piece::Empty by {
                assert(part.piece(t) == Piece::Empty);
            }
        }
    }

    /// Whether the game is over: one of the halves holds no piece.
    pub fn game_end(&self) -> (r: bool)
        ensures
            r == (self.side_empty(false) || self.side_empty(true)),
    {
        proof {
            self.lemma_side_empty(false);
            self.lemma_side_empty(true);
        }
        self.0 & PLAYER == 0 || self.0 & !PLAYER == 0
    }

    /// A board's word is zero exactly if every square is empty.
    pub proof fn lemma_none(self)
        ensures
            self.0 == 0 <==> forall|t: int| 0 <= t < 32 ==> self.piece(t) == Piece::Empty,
    {
        lemma_bit64_empty(self.0);
        if forall|t: int| 0 <= t < 32 ==> self.piece(t) == Piece::Empty {
            assert forall|i: int| 0 <= i < 64 implies !bit64(self.0, i) by {
                if i < 32 {
                    assert(self.piece(i) == Piece::Empty);
                } else {
                    assert(self.piece(i - 32) == Piece::Empty);
                }
            }
        }
    }

    /// The board after the piece on `from` has moved to `to` and taken the
    /// place of what stood there.
    pub open spec fn relocated(self, from: int, to: int) -> Board {
        Board::of(self@.update(from, Piece::Empty).update(to, self@[from]))
    }

    /// The board after the piece on `from` has joined the piece on `to`:
    /// `from` is left empty, and `to` gains the high bit and has its low bit
    /// flipped if the piece that came had one.
    pub open spec fn promoted(self, from: int, to: int) -> Board {
        let left = self@.update(from, Piece::Empty);
        Board::of(left.update(to, Piece::of(left[to].low() != self@[from].low(), true)))
    }

    /// How the machine computes `relocated`.
    pub proof fn lemma_relocated(self, from: int, to: int)
        requires
            0 <= from < 32,
            0 <= to < 32,
        ensures
            self.relocated(from, to).0 == ((self.0 & !(SQUARE << (from as u64))) & !(SQUARE << (
            to as u64))) | (((self.0 & (SQUARE << (from as u64))) >> (from as u64)) << (
            to as u64)),
    {
        let nb = Board(
            ((self.0 & !(SQUARE << (from as u64))) & !(SQUARE << (to as u64))) | (((self.0 & (
            SQUARE << (from as u64))) >> (from as u64)) << (to as u64)),
        );
        let v = self@.update(from, Piece::Empty).update(to, self@[from]);
        Board::lemma_of(v);
        assert forall|sq: int| 0 <= sq < 32 implies nb.piece(sq) == Board::of(v).piece(sq) by {
            bv_relocate(self.0, from as u64, to as u64, sq as u64);
            assert(Board::of(v).piece(sq) == v[sq]);
            assert(self@[from] == self.piece(from));
            assert(self@[sq] == self.piece(sq));
        }
        nb.lemma_ext(Board::of(v));
    }

    /// How the machine computes `promoted`.
    pub proof fn lemma_promoted(self, from: int, to: int)
        requires
            0 <= from < 32,
            0 <= to < 32,
        ensures
            self.promoted(from, to).0 == ((self.0 & !(SQUARE << (from as u64))) | (1u64 << ((to
                + 32) as u64))) ^ (((self.0 & (1u64 << (from as u64))) >> (from as u64)) << (
            to as u64)),
    {
        let nb = Board(
            ((self.0 & !(SQUARE << (from as u64))) | (1u64 << ((to + 32) as u64))) ^ (((self.0 & (
            1u64 << (from as u64))) >> (from as u64)) << (to as u64)),
        );
        let left = self@.update(from, Piece::Empty);
        let v = left.update(to, Piece::of(left[to].low() != self@[from].low(), true));
        Board::lemma_of(v);
        assert forall|sq: int| 0 <= sq < 32 implies nb.piece(sq) == Board::of(v).piece(sq) by {
            bv_promote(self.0, from as u64, to as u64, sq as u64);
            assert(Board::of(v).piece(sq) == v[sq]);
            assert(self@[from] == self.piece(from));
            assert(self@[to] == self.piece(to));
            assert(self@[sq] == self.piece(sq));
        }
        nb.lemma_ext(Board::of(v));
    }

    /// The board after a move from `from` to `to`: where `to` is occupied
    /// and lies in the same half as `from`, the piece joins the one on
    /// `to`; else it steps there.
    pub open spec fn after(self, from: int, to: int) -> Board {
        if (from < 16) == (to < 16) && self.piece(to) != Piece::Empty {
            self.promoted(from, to)
        } else {
            self.relocated(from, to)
        }
    }

    /// Moves the piece on `loc1` to `loc2`. Where `loc2` is occupied and lies
    /// in the same half as `loc1`, the piece joins the one on `loc2`; else it
    /// takes its place.
    pub fn do_move(&self, loc1: usize, loc2: usize) -> (b: Board)
        requires
            loc1 < 32,
            loc2 < 32,
        ensures
            b == self.after(loc1 as int, loc2 as int),
    {
        let s = loc1 as u64;
        let t = loc2 as u64;
        proof {
            self.lemma_words();
            crate::bits::lemma_bit32_probe(self.occ_word(), loc2 as int);
            self.lemma_relocated(loc1 as int, loc2 as int);
            self.lemma_promoted(loc1 as int, loc2 as int);
        }
        if (loc1 < 16) == (loc2 < 16) && self.occ() & (1u32 << (loc2 as u32)) != 0 {
            let piece_low = (self.0 & (1u64 << s)) >> s;
            let mut out = self.0 & !(SQUARE << s);
            out |= 1u64 << (t + 32);
            out ^= piece_low << t;
            Board(out)
        } else {
            let mut piece = self.0;
            piece &= SQUARE << s;
            piece >>= s;
            let mut out = self.0;
            out &= !(SQUARE << s);
            out &= !(SQUARE << t);
            out |= piece << t;
            Board(out)
        }
    }

    /// The one board that moving from `from` to `to` gives.
    pub open spec fn step_to(self, from: int) -> spec_fn(int) -> Seq<Board> {
        |to: int| seq![self.relocated(from, to)]
    }

    /// The one board that joining the piece on `to` from `from` gives.
    pub open spec fn join_to(self, from: int) -> spec_fn(int) -> Seq<Board> {
        |to: int| seq![self.promoted(from, to)]
    }

    /// The boards after the piece on `from` has moved to each square of
    /// `targets`, lowest square first.
    pub open spec fn steps(self, from: int, targets: u32) -> Seq<Board> {
        each_bit(targets, 32, self.step_to(from))
    }

    /// The boards after the piece on `from` has joined the piece on each
    /// square of `targets`, lowest square first.
    pub open spec fn joins(self, from: int, targets: u32) -> Seq<Board> {
        each_bit(targets, 32, self.join_to(from))
    }

    /// Appends to `out` the boards that moving the piece on `sq` to each
    /// square of `moves` gives.
    pub fn do_moves(&self, sq: usize, moves: u32, out: &mut Vec<Board>)
        requires
            sq < 32,
        ensures
            final(out)@ == old(out)@ + self.steps(sq as int, moves),
    {
        let s = sq as u64;
        let mut piece = self.0;
        piece &= SQUARE << s;
        piece >>= s;
        let board = self.0 & !(SQUARE << s);
        let mut stack = LocStack(moves);
        let ghost mut pos: int = 0;
        let ghost f = self.step_to(sq as int);
        proof {
            lemma_bit32_single(0);
        }
        loop
            invariant
                0 <= pos <= 32,
                sq < 32,
                s == sq,
                f == self.step_to(sq as int),
                piece == (self.0 & (SQUARE << s)) >> s,
                board == self.0 & !(SQUARE << s),
                forall|i: int| #[trigger] bit32(stack.0, i) == (bit32(moves, i) && i >= pos),
                out@ == old(out)@ + each_bit(moves, pos, f),
            ensures
                stack.0 == 0,
            decreases stack.0,
        {
            let ghost rem = stack.0;
            match stack.next() {
                None => {
                    break ;
                },
                Some(sq2) => {
                    proof {
                        lemma_each_bit_step(moves, rem, pos, f);
                        lemma_lowest32(rem);
                        self.lemma_relocated(sq as int, sq2 as int);
                    }
                    let t = sq2 as u64;
                    let mut b = board;
                    b &= !(SQUARE << t);
                    b |= piece << t;
                    out.push(Board(b));
                    proof {
                        assert(Board(b) == self.relocated(sq as int, sq2 as int));
                        assert(out@ =~= old(out)@ + (each_bit(moves, pos, f) + f(sq2 as int)));
                        pos = sq2 + 1;
                    }
                },
            }
        }
        proof {
            lemma_each_bit_done(moves, pos, f);
        }
    }

    /// Appends to `out` the boards that joining the piece on `sq` to the
    /// piece on each square of `moves` gives.
    pub fn do_field_moves(&self, sq: usize, moves: u32, out: &mut Vec<Board>)
        requires
            sq < 32,
        ensures
            final(out)@ == old(out)@ + self.joins(sq as int, moves),
    {
        let s = sq as u64;
        let piece_low = (self.0 & (1u64 << s)) >> s;
        let board = self.0 & !(SQUARE << s);
        let mut stack = LocStack(moves);
        let ghost mut pos: int = 0;
        let ghost f = self.join_to(sq as int);
        proof {
            lemma_bit32_single(0);
        }
        loop
            invariant
                0 <= pos <= 32,
                sq < 32,
                s == sq,
                f == self.join_to(sq as int),
                piece_low == (self.0 & (1u64 << s)) >> s,
                board == self.0 & !(SQUARE << s),
                forall|i: int| #[trigger] bit32(stack.0, i) == (bit32(moves, i) && i >= pos),
                out@ == old(out)@ + each_bit(moves, pos, f),
            ensures
                stack.0 == 0,
            decreases stack.0,
        {
            let ghost rem = stack.0;
            match stack.next() {
                None => {
                    break ;
                },
                Some(sq2) => {
                    proof {
                        lemma_each_bit_step(moves, rem, pos, f);
                        lemma_lowest32(rem);
                        self.lemma_promoted(sq as int, sq2 as int);
                    }
                    let t = sq2 as u64;
                    let mut b = board;
                    b |= 1u64 << (t + 32);
                    b ^= piece_low << t;
                    out.push(Board(b));
                    proof {
                        assert(Board(b) == self.promoted(sq as int, sq2 as int));
                        assert(out@ =~= old(out)@ + (each_bit(moves, pos, f) + f(sq2 as int)));
                        pos = sq2 + 1;
                    }
                },
            }
        }
        proof {
            lemma_each_bit_done(moves, pos, f);
        }
    }

    /// Looks up, in a sound table entry, what its rule reaches over `occ`.
    fn lookup_entry(entry: &(u32, u32, usize, Vec<u32>), occ: u32) -> (r: u32)
        requires
            1 <= entry.2 <= 31,
            entry.3.len() == 1u32 << ((32 - entry.2) as u32),
        ensures
            r == lookup(*entry, occ),
    {
        let mut o = occ;
        o &= entry.0;
        o = o.wrapping_mul(entry.1);
        proof {
            crate::bits::lemma_shift32_bound(o, entry.2 as int);
        }
        o >>= entry.2 as u32;
        entry.3[o as usize]
    }

    /// The squares that a drone on `sq` reaches over the occupancy `occ`.
    pub fn gen_drone_moves(tables: &Tables, sq: usize, occ: u32) -> (r: u32)
        requires
            tables.wf(),
            sq < 32,
        ensures
            r == piece_attack(DRONE as int, sq as int, occ),
    {
        assert(sliding_ok(tables.drone[sq as int], DRONE as int, sq as int));
        Self::lookup_entry(&tables.drone[sq], occ)
    }

    /// The squares that a drone on `sq` reaches over the occupancy `occ`
    /// when it may also stop on the first piece in its own half.
    pub fn gen_field_drone_moves(tables: &Tables, sq: usize, occ: u32) -> (r: u32)
        requires
            tables.wf(),
            sq < 32,
        ensures
            r == piece_attack(FIELD_DRONE as int, sq as int, occ),
    {
        assert(sliding_ok(tables.field_drone[sq as int], FIELD_DRONE as int, sq as int));
        Self::lookup_entry(&tables.field_drone[sq], occ)
    }

    /// The squares that a queen on `sq` reaches over the occupancy `occ`:
    /// along rows and diagonals, and along the column.
    pub fn gen_queen_moves(tables: &Tables, sq: usize, occ: u32) -> (r: u32)
        requires
            tables.wf(),
            sq < 32,
        ensures
            r == queen_attack(sq as int, occ),
    {
        assert(sliding_ok(tables.queen1[sq as int], QUEEN1 as int, sq as int));
        assert(sliding_ok(tables.queen2[sq as int], QUEEN2 as int, sq as int));
        let moves = Self::lookup_entry(&tables.queen1[sq], occ);
        moves | Self::lookup_entry(&tables.queen2[sq], occ)
    }

    /// Whether `player` has a piece of the given kind in its half.
    pub open spec fn has(self, player: bool, kind: Piece) -> bool {
        exists|t: int| home(player, t) && self.piece(t) == kind
    }

    /// The squares that hold a piece of `player`, as a word.
    pub open spec fn own_word(self, player: bool) -> u32 {
        self.occ_word() & home_word(player)
    }

    /// The squares that hold a piece which a pawn of `player` may join: its
    /// own pawns while it has no drone, and its own drones while it has no
    /// queen.
    pub open spec fn field_word(self, player: bool) -> u32 {
        word_of(
            |t: int|
                home(player, t) && ((!self.has(player, Piece::Drone) && self.piece(t)
                    == Piece::Pawn) || (!self.has(player, Piece::Queen) && self.piece(t)
                    == Piece::Drone)),
        )
    }

    /// The words of the board cut down to one half are the board's words cut
    /// down to that half.
    pub proof fn lemma_half_words(self, player: bool)
        ensures
            Board(self.0 & side_mask(player)).occ_word() == self.occ_word() & home_word(player),
            Board(self.0 & side_mask(player)).pawns_word() == self.pawns_word() & home_word(
                player,
            ),
            Board(self.0 & side_mask(player)).drones_word() == self.drones_word() & home_word(
                player,
            ),
            Board(self.0 & side_mask(player)).queens_word() == self.queens_word() & home_word(
                player,
            ),
    {
        let part = Board(self.0 & side_mask(player));
        self.lemma_half(player);
        self.lemma_words();
        part.lemma_words();
        lemma_home_word(player);
        lemma_bit32_ops(self.occ_word(), home_word(player));
        lemma_bit32_ops(self.pawns_word(), home_word(player));
        lemma_bit32_ops(self.drones_word(), home_word(player));
        lemma_bit32_ops(self.queens_word(), home_word(player));
        assert forall|t: int| 0 <= t < 32 implies bit32(part.occ_word(), t) == bit32(
            self.occ_word() & home_word(player),
            t,
        ) && bit32(part.pawns_word(), t) == bit32(self.pawns_word() & home_word(player), t)
            && bit32(part.drones_word(), t) == bit32(self.drones_word() & home_word(player), t)
            && bit32(part.queens_word(), t) == bit32(
            self.queens_word() & home_word(player),
            t,
        ) by {
            assert(part.piece(t) == (if home(player, t) {
                self.piece(t)
            } else {
                Piece::Empty
            }));
        }
        lemma_bit32_ext(part.occ_word(), self.occ_word() & home_word(player));
        lemma_bit32_ext(part.pawns_word(), self.pawns_word() & home_word(player));
        lemma_bit32_ext(part.drones_word(), self.drones_word() & home_word(player));
        lemma_bit32_ext(part.queens_word(), self.queens_word() & home_word(player));
    }

    /// `player` has a drone, or a queen, exactly if the word of the drones,
    /// or of the queens, is not empty on its half.
    pub proof fn lemma_has(self, player: bool)
        ensures
            self.has(player, Piece::Drone) == (self.drones_word() & home_word(player) != 0),
            self.has(player, Piece::Queen) == (self.queens_word() & home_word(player) != 0),
    {
        self.lemma_words();
        lemma_home_word(player);
        let d = self.drones_word() & home_word(player);
        let q = self.queens_word() & home_word(player);
        lemma_bit32_ops(self.drones_word(), home_word(player));
        lemma_bit32_ops(self.queens_word(), home_word(player));
        lemma_bit32_empty(d);
        lemma_bit32_empty(q);
        if self.has(player, Piece::Drone) {
            let t = choose|t: int| home(player, t) && self.piece(t) == Piece::Drone;
            assert(bit32(d, t));
        }
        if d != 0 {
            let t = choose|t: int| 0 <= t < 32 && bit32(d, t);
            assert(home(player, t) && self.piece(t) == Piece::Drone);
        }
        if self.has(player, Piece::Queen) {
            let t = choose|t: int| home(player, t) && self.piece(t) == Piece::Queen;
            assert(bit32(q, t));
        }
        if q != 0 {
            let t = choose|t: int| 0 <= t < 32 && bit32(q, t);
            assert(home(player, t) && self.piece(t) == Piece::Queen);
        }
    }

    /// The boards that the pawn of `player` on `sq` can make: a step to each
    /// diagonal neighbour that holds no piece of `player`, then a join with
    /// each neighbour that it may join.
    pub open spec fn pawn_from(self, player: bool) -> spec_fn(int) -> Seq<Board> {
        |sq: int|
            self.steps(sq, piece_mask(PAWN as int, sq) & !self.own_word(player)) + self.joins(
                sq,
                piece_mask(PAWN as int, sq) & self.field_word(player),
            )
    }

    /// The boards that the drone of `player` on `sq` can make. While
    /// `player` has a queen the drone slides as drones do. Else it may also
    /// stop on the first piece in its own half: it joins a pawn of `player`
    /// there, and steps to every other square reached that holds no piece of
    /// `player`.
    pub open spec fn drone_from(self, player: bool) -> spec_fn(int) -> Seq<Board> {
        |sq: int|
            if self.has(player, Piece::Queen) {
                self.steps(sq, piece_attack(DRONE as int, sq, self.occ_word()))
            } else {
                self.steps(
                    sq,
                    piece_attack(FIELD_DRONE as int, sq, self.occ_word()) & !self.own_word(player),
                ) + self.joins(
                    sq,
                    piece_attack(FIELD_DRONE as int, sq, self.occ_word()) & (self.pawns_word()
                        & self.own_word(player)),
                )
            }
    }

    /// The boards that the queen on `sq` can make.
    pub open spec fn queen_from(self) -> spec_fn(int) -> Seq<Board> {
        |sq: int| self.steps(sq, queen_attack(sq, self.occ_word()))
    }

    /// Every board that one move of `player` leads to, repetitions of an
    /// earlier position included: the moves of its pawns, then of its
    /// drones, then of its queens, each kind from the lowest square up.
    pub open spec fn candidates(self, player: bool) -> Seq<Board> {
        each_bit(self.pawns_word() & home_word(player), 32, self.pawn_from(player)) + each_bit(
            self.drones_word() & home_word(player),
            32,
            self.drone_from(player),
        ) + each_bit(self.queens_word() & home_word(player), 32, self.queen_from())
    }

    /// Whether the move of `player` to the board `next` is allowed after the
    /// board `prev`: it leaves the other half untouched, or it leaves it
    /// otherwise than `prev` had it.
    pub open spec fn keeps(self, player: bool, prev: Board, next: Board) -> bool {
        next.0 & side_mask(!player) == self.0 & side_mask(!player) || next.0 & side_mask(!player)
            != prev.0 & side_mask(!player)
    }

    /// The test `keeps` as a function of the next board.
    pub open spec fn keeper(self, player: bool, prev: Board) -> spec_fn(Board) -> bool {
        |next: Board| self.keeps(player, prev, next)
    }

    /// The boards that one legal move of `player` leads to, where `prev` is
    /// the board before the opponent's last move.
    pub open spec fn moves(self, player: bool, prev: Board) -> Seq<Board> {
        self.candidates(player).filter(self.keeper(player, prev))
    }

    /// Takes out of `out` the boards that do not pass `keeper`.
    fn keep_moves(&self, player: bool, prev: Board, out: &mut Vec<Board>)
        ensures
            final(out)@ == old(out)@.filter(self.keeper(player, prev)),
    {
        let opp = if player {
            PLAYER
        } else {
            !PLAYER
        };
        let ghost pred = self.keeper(player, prev);
        let ghost all = out@;
        let n = out.len();
        let mut kept: usize = 0;
        let mut i: usize = 0;
        proof {
            reveal(Seq::filter);
            assert(all.subrange(0, 0).filter(pred) =~= Seq::<Board>::empty());
            assert(out@.subrange(0, 0) =~= Seq::<Board>::empty());
            assert(!!PLAYER == PLAYER) by (bit_vector);
        }
        while i < n
            invariant
                0 <= kept <= i <= n,
                out.len() == n,
                all.len() == n,
                pred == self.keeper(player, prev),
                opp == side_mask(!player),
                out@.subrange(0, kept as int) == all.subrange(0, i as int).filter(pred),
                forall|k: int| i <= k < n ==> out[k] == all[k],
            decreases n - i,
        {
            let b = out[i];
            let ghost before = out@;
            proof {
                reveal(Seq::filter);
                let head = all.subrange(0, i + 1);
                assert(head.drop_last() =~= all.subrange(0, i as int));
                assert(head.last() == b);
            }
            if b.0 & opp == self.0 & opp || b.0 & opp != prev.0 & opp {
                out.set(kept, b);
                proof {
                    assert(out@.subrange(0, kept + 1) =~= before.subrange(0, kept as int).push(b));
                }
                kept += 1;
            } else {
                proof {
                    assert(out@.subrange(0, kept as int) =~= before.subrange(0, kept as int));
                }
            }
            i += 1;
        }
        out.truncate(kept);
        proof {
            assert(all.subrange(0, n as int) =~= all);
            assert(out@ =~= all.filter(pred));
        }
    }

    /// Appends to `out` the boards that the pawns of `player` can make.
    fn push_pawn_moves(&self, player: bool, tables: &Tables, out: &mut Vec<Board>)
        requires
            tables.wf(),
        ensures
            final(out)@ == old(out)@ + each_bit(
                self.pawns_word() & home_word(player),
                32,
                self.pawn_from(player),
            ),
    {
        let side = if player {
            !PLAYER
        } else {
            PLAYER
        };
        let player_board = Board(self.0 & side);
        let pawns = self.pawns();
        let drones = self.drones();
        let queens = self.queens();
        let has_drones = drones & (side as u32) != 0;
        let has_queens = queens & (side as u32) != 0;
        let player_occ = player_board.occ();
        let mut pawn_field_occ: u32 = 0;
        if !has_drones {
            pawn_field_occ |= pawns;
        }
        if !has_queens {
            pawn_field_occ |= drones;
        }
        pawn_field_occ &= side as u32;
        let own_pawns = player_board.pawns();
        proof {
            self.lemma_half(player);
            self.lemma_half_words(player);
            self.lemma_has(player);
            self.lemma_words();
            lemma_home_word(player);
            lemma_bit32_single(0);
            lemma_word_of(
                |t: int|
                    home(player, t) && ((!self.has(player, Piece::Drone) && self.piece(t)
                        == Piece::Pawn) || (!self.has(player, Piece::Queen) && self.piece(t)
                        == Piece::Drone)),
            );
            let a = if !has_drones {
                0u32 | pawns
            } else {
                0u32
            };
            let b = if !has_queens {
                a | drones
            } else {
                a
            };
            lemma_bit32_ops(0, pawns);
            lemma_bit32_ops(a, drones);
            lemma_bit32_ops(b, home_word(player));
            assert forall|t: int| 0 <= t < 32 implies bit32(pawn_field_occ, t) == bit32(
                self.field_word(player),
                t,
            ) by {}
            lemma_bit32_ext(pawn_field_occ, self.field_word(player));
        }
        let ghost m = self.pawns_word() & home_word(player);
        let ghost f = self.pawn_from(player);
        let mut stack = LocStack(own_pawns);
        let ghost mut pos: int = 0;
        loop
            invariant
                0 <= pos <= 32,
                tables.wf(),
                m == self.pawns_word() & home_word(player),
                f == self.pawn_from(player),
                player_occ == self.own_word(player),
                pawn_field_occ == self.field_word(player),
                forall|i: int| #[trigger] bit32(stack.0, i) == (bit32(m, i) && i >= pos),
                out@ == old(out)@ + each_bit(m, pos, f),
            ensures
                stack.0 == 0,
            decreases stack.0,
        {
            let ghost rem = stack.0;
            match stack.next() {
                None => {
                    break ;
                },
                Some(sq) => {
                    proof {
                        lemma_each_bit_step(m, rem, pos, f);
                        lemma_lowest32(rem);
                    }
                    let moves = tables.pawn[sq];
                    self.do_moves(sq, moves & !player_occ, out);
                    self.do_field_moves(sq, moves & pawn_field_occ, out);
                    proof {
                        assert(out@ =~= old(out)@ + (each_bit(m, pos, f) + f(sq as int)));
                        pos = sq + 1;
                    }
                },
            }
        }
        proof {
            lemma_each_bit_done(m, pos, f);
        }
    }

    /// Appends to `out` the boards that the drones of `player` can make.
    fn push_drone_moves(&self, player: bool, tables: &Tables, out: &mut Vec<Board>)
        requires
            tables.wf(),
        ensures
            final(out)@ == old(out)@ + each_bit(
                self.drones_word() & home_word(player),
                32,
                self.drone_from(player),
            ),
    {
        let side = if player {
            !PLAYER
        } else {
            PLAYER
        };
        let player_board = Board(self.0 & side);
        let pawns = self.pawns();
        let queens = self.queens();
        let has_queens = queens & (side as u32) != 0;
        let player_occ = player_board.occ();
        let occ = self.occ();
        let own_drones = player_board.drones();
        proof {
            self.lemma_half(player);
            self.lemma_half_words(player);
            self.lemma_has(player);
            lemma_bit32_single(0);
        }
        let ghost m = self.drones_word() & home_word(player);
        let ghost f = self.drone_from(player);
        let mut stack = LocStack(own_drones);
        let ghost mut pos: int = 0;
        loop
            invariant
                0 <= pos <= 32,
                tables.wf(),
                m == self.drones_word() & home_word(player),
                f == self.drone_from(player),
                has_queens == self.has(player, Piece::Queen),
                player_occ == self.own_word(player),
                occ == self.occ_word(),
                pawns == self.pawns_word(),
                forall|i: int| #[trigger] bit32(stack.0, i) == (bit32(m, i) && i >= pos),
                out@ == old(out)@ + each_bit(m, pos, f),
            ensures
                stack.0 == 0,
            decreases stack.0,
        {
            let ghost rem = stack.0;
            match stack.next() {
                None => {
                    break ;
                },
                Some(sq) => {
                    proof {
                        lemma_each_bit_step(m, rem, pos, f);
                        lemma_lowest32(rem);
                    }
                    if has_queens {
                        let moves = Self::gen_drone_moves(tables, sq, occ);
                        self.do_moves(sq, moves, out);
                    } else {
                        let mut moves = Self::gen_field_drone_moves(tables, sq, occ);
                        let mut field_moves = moves;
                        moves &= !player_occ;
                        field_moves &= pawns & player_occ;
                        self.do_moves(sq, moves, out);
                        self.do_field_moves(sq, field_moves, out);
                    }
                    proof {
                        assert(out@ =~= old(out)@ + (each_bit(m, pos, f) + f(sq as int)));
                        pos = sq + 1;
                    }
                },
            }
        }
        proof {
            lemma_each_bit_done(m, pos, f);
        }
    }

    /// Appends to `out` the boards that the queens of `player` can make.
    fn push_queen_moves(&self, player: bool, tables: &Tables, out: &mut Vec<Board>)
        requires
            tables.wf(),
        ensures
            final(out)@ == old(out)@ + each_bit(
                self.queens_word() & home_word(player),
                32,
                self.queen_from(),
            ),
    {
        let side = if player {
            !PLAYER
        } else {
            PLAYER
        };
        let player_board = Board(self.0 & side);
        let occ = self.occ();
        let own_queens = player_board.queens();
        proof {
            self.lemma_half(player);
            self.lemma_half_words(player);
            lemma_bit32_single(0);
        }
        let ghost m = self.queens_word() & home_word(player);
        let ghost f = self.queen_from();
        let mut stack = LocStack(own_queens);
        let ghost mut pos: int = 0;
        loop
            invariant
                0 <= pos <= 32,
                tables.wf(),
                m == self.queens_word() & home_word(player),
                f == self.queen_from(),
                occ == self.occ_word(),
                forall|i: int| #[trigger] bit32(stack.0, i) == (bit32(m, i) && i >= pos),
                out@ == old(out)@ + each_bit(m, pos, f),
            ensures
                stack.0 == 0,
            decreases stack.0,
        {
            let ghost rem = stack.0;
            match stack.next() {
                None => {
                    break ;
                },
                Some(sq) => {
                    proof {
                        lemma_each_bit_step(m, rem, pos, f);
                        lemma_lowest32(rem);
                    }
                    let moves = Self::gen_queen_moves(tables, sq, occ);
                    self.do_moves(sq, moves, out);
                    proof {
                        assert(out@ =~= old(out)@ + (each_bit(m, pos, f) + f(sq as int)));
                        pos = sq + 1;
                    }
                },
            }
        }
        proof {
            lemma_each_bit_done(m, pos, f);
        }
    }

    /// Fills `out` with the boards that one legal move of `player` leads to,
    /// where `prev` is the board before the opponent's last move: every
    /// board that a move of one of the player's pieces gives, but for those
    /// that change the other half back into what it was on `prev`.
    pub fn gen_moves(&self, player: bool, prev: Board, tables: &Tables, out: &mut Vec<Board>)
        requires
            tables.wf(),
        ensures
            final(out)@ == self.moves(player, prev),
            forall|i: int|
                0 <= i < final(out).len() ==> is_move(*self, player, #[trigger] final(out)[i]),
            forall|i: int|
                0 <= i < final(out).len() ==> self.keeps(player, prev, #[trigger] final(out)[i]),
            forall|i: int|
                0 <= i < final(out).len() ==> men(#[trigger] final(out)[i], player) <= men(
                    *self,
                    player,
                ),
            forall|i: int|
                0 <= i < final(out).len() ==> (#[trigger] final(out)[i]).material()
                    <= self.material(),
    {
        out.clear();
        self.push_pawn_moves(player, tables, out);
        self.push_drone_moves(player, tables, out);
        self.push_queen_moves(player, tables, out);
        assert(out@ =~= self.candidates(player));
        self.keep_moves(player, prev, out);
        proof {
            assert forall|i: int| 0 <= i < out.len() implies is_move(
                *self,
                player,
                #[trigger] out[i],
            ) && self.keeps(player, prev, out[i]) && men(out[i], player) <= men(*self, player)
                && out[i].material() <= self.material() by {
                lemma_moves_are_moves(*self, player, prev, i);
                lemma_move_effects(*self, player, out[i]);
            }
        }
    }

    /// The squares that hold a piece of the given kind, as a word.
    pub open spec fn kind_word(self, kind: Piece) -> u32 {
        match kind {
            Piece::Pawn => self.pawns_word(),
            Piece::Drone => self.drones_word(),
            _ => self.queens_word(),
        }
    }

    /// The boards that the piece of `player` on `sq`, of the given kind, can
    /// make by taking a piece of the opponent.
    pub open spec fn take_from(self, player: bool, kind: Piece) -> spec_fn(int) -> Seq<Board> {
        |sq: int| self.steps(sq, reach(kind, sq, self.occ_word()) & self.own_word(!player))
    }

    /// The boards that the pieces of `player` of the given kind can make by
    /// taking a piece of the opponent, from the lowest square up.
    pub open spec fn takes_of(self, player: bool, kind: Piece) -> Seq<Board> {
        each_bit(self.kind_word(kind) & home_word(player), 32, self.take_from(player, kind))
    }

    /// Every board that `player` can make by taking a piece of the
    /// opponent: the captures of its pawns, then of its drones, then of its
    /// queens.
    pub open spec fn takes(self, player: bool) -> Seq<Board> {
        self.takes_of(player, Piece::Pawn) + self.takes_of(player, Piece::Drone) + self.takes_of(
            player,
            Piece::Queen,
        )
    }

    /// Appends to `out` the captures of the pieces of `player` of one kind.
    fn push_takes(&self, player: bool, kind: Piece, tables: &Tables, out: &mut Vec<Board>)
        requires
            tables.wf(),
            kind != Piece::Empty,
        ensures
            final(out)@ == old(out)@ + self.takes_of(player, kind),
    {
        let side = if player {
            !PLAYER
        } else {
            PLAYER
        };
        let player_board = Board(self.0 & side);
        let other_board = Board(self.0 & !side);
        let other_occ = other_board.occ();
        let occ = self.occ();
        let own = match kind {
            Piece::Pawn => player_board.pawns(),
            Piece::Drone => player_board.drones(),
            _ => player_board.queens(),
        };
        proof {
            assert(!!PLAYER == PLAYER) by (bit_vector);
            self.lemma_half_words(player);
            self.lemma_half_words(!player);
            lemma_bit32_single(0);
        }
        let ghost m = self.kind_word(kind) & home_word(player);
        let ghost f = self.take_from(player, kind);
        let mut stack = LocStack(own);
        let ghost mut pos: int = 0;
        loop
            invariant
                0 <= pos <= 32,
                tables.wf(),
                kind != Piece::Empty,
                m == self.kind_word(kind) & home_word(player),
                f == self.take_from(player, kind),
                other_occ == self.own_word(!player),
                occ == self.occ_word(),
                forall|i: int| #[trigger] bit32(stack.0, i) == (bit32(m, i) && i >= pos),
                out@ == old(out)@ + each_bit(m, pos, f),
            ensures
                stack.0 == 0,
            decreases stack.0,
        {
            let ghost rem = stack.0;
            match stack.next() {
                None => {
                    break ;
                },
                Some(sq) => {
                    proof {
                        lemma_each_bit_step(m, rem, pos, f);
                        lemma_lowest32(rem);
                    }
                    let moves = match kind {
                        Piece::Pawn => tables.pawn[sq],
                        Piece::Drone => Self::gen_drone_moves(tables, sq, occ),
                        _ => Self::gen_queen_moves(tables, sq, occ),
                    };
                    self.do_moves(sq, moves & other_occ, out);
                    proof {
                        assert(out@ =~= old(out)@ + (each_bit(m, pos, f) + f(sq as int)));
                        pos = sq + 1;
                    }
                },
            }
        }
        proof {
            lemma_each_bit_done(m, pos, f);
        }
    }

    /// Fills `out` with the boards that `player` can make by taking a piece
    /// of the opponent. No capture is left out for repeating a position.
    pub fn gen_takes(&self, player: bool, tables: &Tables, out: &mut Vec<Board>)
        requires
            tables.wf(),
        ensures
            final(out)@ == self.takes(player),
            forall|i: int|
                0 <= i < final(out).len() ==> is_take(*self, player, #[trigger] final(out)[i]),
            forall|i: int|
                0 <= i < final(out).len() ==> (#[trigger] final(out)[i]).material()
                    < self.material(),
            forall|i: int|
                0 <= i < final(out).len() ==> all_men(#[trigger] final(out)[i]) == all_men(*self)
                    - 1,
    {
        out.clear();
        self.push_takes(player, Piece::Pawn, tables, out);
        self.push_takes(player, Piece::Drone, tables, out);
        self.push_takes(player, Piece::Queen, tables, out);
        assert(out@ =~= self.takes(player));
        proof {
            assert forall|i: int| 0 <= i < out.len() implies is_take(
                *self,
                player,
                #[trigger] out[i],
            ) && out[i].material() < self.material() && all_men(out[i]) == all_men(*self) - 1 by {
                lemma_takes_are_takes(*self, player, i);
                lemma_take_effects(*self, player, out[i]);
            }
        }
    }

    /// Reads a board from a layout: the rows from the top down, divided by
    /// `/`; in each row, from column 3 down, `q`, `d` and `p` for a queen, a
    /// drone and a pawn, and a digit from 1 to 4 for as many empty squares.
    pub fn from_desc(desc: &str) -> (b: Board)
        ensures
            b@ == layout(desc@),
    {
        let mut x: i32 = 3;
        let mut y: i32 = 7;
        let mut out: u64 = 0;
        let n = desc.unicode_len();
        let mut i: usize = 0;
        proof {
            Board(0).lemma_none();
        }
        while i < n
            invariant
                0 <= i <= n,
                n == desc@.len(),
                -4 <= x <= 3,
                -1 <= y <= 7,
                x >= 0 ==> x == read_upto(desc@, i as int).x,
                x < 0 ==> read_upto(desc@, i as int).x < 0,
                y >= 0 ==> y == read_upto(desc@, i as int).y,
                y < 0 ==> read_upto(desc@, i as int).y < 0,
                read_upto(desc@, i as int).pieces.len() == 32,
                forall|sq: int|
                    0 <= sq < 32 ==> Board(out).piece(sq) == #[trigger] read_upto(
                        desc@,
                        i as int,
                    ).pieces[sq],
            decreases n - i,
        {
            let c = desc.get_char(i);
            let ghost before = out;
            if c == '/' {
                x = 3;
                if y >= 0 {
                    y -= 1;
                }
            } else if (c == 'q' || c == 'd' || c == 'p') && x >= 0 && y >= 0 {
                let s = (x + y * 4) as u64;
                if c == 'q' {
                    out |= SQUARE << s;
                } else if c == 'd' {
                    out |= 1u64 << (s + 32);
                } else {
                    out |= 1u64 << s;
                }
                x -= 1;
                proof {
                    assert forall|sq: int| 0 <= sq < 32 implies Board(out).piece(sq)
                        == #[trigger] read_upto(desc@, i + 1).pieces[sq] by {
                        bv_place(before, s, sq as u64);
                        assert(Board(before).piece(sq) == read_upto(desc@, i as int).pieces[sq]);
                    }
                }
            } else if x >= 0 {
                if c == 'q' || c == 'd' || c == 'p' || c == '1' {
                    x -= 1;
                } else if c == '2' {
                    x -= 2;
                } else if c == '3' {
                    x -= 3;
                } else if c == '4' {
                    x -= 4;
                }
            }
            i += 1;
        }
        proof {
            assert(Board(out)@ =~= layout(desc@));
        }
        Board(out)
    }

    /// The board from which a game starts.
    pub fn new() -> (b: Board)
        ensures
            b@ == layout(START@),
    {
        Self::from_desc(START)
    }

    /// The squares on which the two boards differ, as a word.
    pub open spec fn diff_word(self, other: Board) -> u32 {
        word_of(|t: int| self.piece(t) != other.piece(t))
    }

    /// How the machine computes `diff_word`.
    pub proof fn lemma_diff_word(self, other: Board)
        ensures
            (((self.0 ^ other.0) | ((self.0 ^ other.0) >> 32)) as u32) == self.diff_word(other),
            forall|t: int|
                #[trigger] bit32(self.diff_word(other), t) == (0 <= t < 32 && self.piece(t)
                    != other.piece(t)),
    {
        let x = self.0 ^ other.0;
        let w = ((x | (x >> 32)) as u32);
        lemma_word_of(|t: int| self.piece(t) != other.piece(t));
        lemma_bit64_ops(self.0, other.0);
        assert forall|t: int| 0 <= t < 32 implies bit32(w, t) == bit32(self.diff_word(other), t) by {
            bv_planes(x, t as u32);
            assert(bit64(x, t) == (bit64(self.0, t) != bit64(other.0, t)));
            assert(bit64(x, t + 32) == (bit64(self.0, t + 32) != bit64(other.0, t + 32)));
        }
        lemma_bit32_ext(w, self.diff_word(other));
    }

    /// The squares that hold a piece like the one on `sq` and that the
    /// piece on `sq` reaches: for a pawn, among its diagonal neighbours
    /// outside of its own half's pieces.
    pub open spec fn partner_word(self, sq: int) -> u32 {
        match self.piece(sq) {
            Piece::Queen => queen_attack(sq, self.occ_word()) & self.queens_word(),
            Piece::Drone => piece_attack(DRONE as int, sq, self.occ_word()) & self.drones_word(),
            Piece::Pawn => (piece_mask(PAWN as int, sq) & !(self.occ_word() & home_word(sq >= 16)))
                & self.pawns_word(),
            Piece::Empty => 0,
        }
    }

    /// The two squares of the move that lies between this board and the
    /// board `mov`: the two lowest squares on which the boards differ, that
    /// one first which is empty on `mov`. Where the boards differ on one
    /// square alone, the second square is the lowest one of `partner_word`
    /// for it. A square that cannot be told is 32.
    pub open spec fn move_squares(self, mov: Board) -> (int, int) {
        let d = self.diff_word(mov);
        if d == 0 {
            (32, 32)
        } else {
            let loc1 = lowest32(d);
            let rest = d ^ (1u32 << (loc1 as u32));
            let loc2 = if rest != 0 {
                lowest32(rest)
            } else {
                lowest32(self.partner_word(loc1))
            };
            if mov.piece(loc1) == Piece::Empty {
                (loc1, loc2)
            } else {
                (loc2, loc1)
            }
        }
    }

    /// Tells the two squares of the move that lies between this board and
    /// the board `mov`.
    pub fn get_move(&self, tables: &Tables, mov: &Board) -> (r: (usize, usize))
        requires
            tables.wf(),
        ensures
            (r.0 as int, r.1 as int) == self.move_squares(*mov),
    {
        let mut diff = self.0 ^ mov.0;
        diff |= diff >> 32;
        proof {
            self.lemma_diff_word(*mov);
            self.lemma_words();
        }
        let mut locs = LocStack(diff as u32);
        let ghost d = locs.0;
        let loc1 = match locs.next() {
            Some(l) => l,
            None => {
                return (32, 32);
            },
        };
        proof {
            lemma_lowest32(d);
            crate::bits::lemma_bit32_probe(self.queens_word(), loc1 as int);
            crate::bits::lemma_bit32_probe(self.drones_word(), loc1 as int);
            crate::bits::lemma_bit32_probe(self.pawns_word(), loc1 as int);
            bv_planes(0, 0);
        }
        let mut loc2: usize = 32;
        let bit = 1u32 << (loc1 as u32);
        let mut partners: u32 = 0;
        if locs.0 != 0 {
            partners = locs.0;
        } else if self.queens() & bit != 0 {
            let moves = Self::gen_queen_moves(tables, loc1, self.occ());
            partners = moves & self.queens();
        } else if self.drones() & bit != 0 {
            let moves = Self::gen_drone_moves(tables, loc1, self.occ());
            partners = moves & self.drones();
        } else if self.pawns() & bit != 0 {
            let player = if loc1 >= 16 {
                !PLAYER
            } else {
                PLAYER
            };
            let moves = tables.pawn[loc1] & !(self.occ() & (player as u32));
            partners = moves & self.pawns();
        }
        if let Some(l2) = LocStack(partners).next() {
            loc2 = l2;
        }
        proof {
            vstd::std_specs::bits::axiom_u32_trailing_zeros(partners);
            mov.lemma_square(loc1 as int);
        }
        if mov.0 & (SQUARE << (loc1 as u64)) == 0 {
            (loc1, loc2)
        } else {
            (loc2, loc1)
        }
    }

    /// A square is empty exactly if the board's word has neither of its two
    /// bits.
    pub proof fn lemma_square(self, sq: int)
        requires
            0 <= sq < 32,
        ensures
            (self.0 & (SQUARE << (sq as u64)) == 0) == (self.piece(sq) == Piece::Empty),
    {
        let m = SQUARE << (sq as u64);
        let w = self.0 & m;
        lemma_bit64_ops(self.0, m);
        lemma_bit64_empty(w);
        assert forall|i: int| 0 <= i < 64 implies #[trigger] bit64(m, i) == (i == sq || i == sq
            + 32) by {
            if i < 32 {
                bv_place(0, sq as u64, i as u64);
            } else {
                bv_place(0, sq as u64, (i - 32) as u64);
            }
        }
        if self.piece(sq) == Piece::Empty {
            assert forall|i: int| 0 <= i < 64 implies !bit64(w, i) by {}
        }
        if w == 0 {
            assert(!bit64(w, sq));
            assert(!bit64(w, sq + 32));
        }
    }

    /// Whether the move to the board `next` changes square `sq`, and either
    /// changes square `t` too or has on `t` a partner of the piece on `sq`.
    pub open spec fn shows(self, next: Board, sq: int, t: int) -> bool {
        bit32(self.diff_word(next), sq) && (bit32(self.diff_word(next), t) || bit32(
            self.partner_word(sq),
            t,
        ))
    }

    /// The squares to show for the piece on `sq`, for the player in whose
    /// half `sq` lies: every other square that one of the player's legal
    /// moves changes together with `sq`, and, if a legal move changes `sq`
    /// at all, the partners of the piece. Nothing is shown for an empty
    /// square.
    pub open spec fn piece_moves(self, prev: Board, sq: int) -> u32 {
        self.shown(self.moves(sq >= 16, prev), sq)
    }

    /// The squares other than `sq` that a move of `list` shows for the
    /// piece on `sq`.
    pub open spec fn shown(self, list: Seq<Board>, sq: int) -> u32 {
        word_of(|t: int| self.is_shown(list, sq, t))
    }

    /// Whether `t` is a square other than `sq` that a move of `list` shows
    /// for the piece on `sq`.
    pub open spec fn is_shown(self, list: Seq<Board>, sq: int, t: int) -> bool {
        t != sq && self.piece(sq) != Piece::Empty && exists|i: int|
            0 <= i < list.len() && self.shows(#[trigger] list[i], sq, t)
    }

    /// The bits of `shown`.
    pub proof fn lemma_shown(self, list: Seq<Board>, sq: int)
        ensures
            forall|t: int|
                #[trigger] bit32(self.shown(list, sq), t) == (0 <= t < 32 && self.is_shown(
                    list,
                    sq,
                    t,
                )),
    {
        lemma_word_of(|t: int| self.is_shown(list, sq, t));
    }

    /// The squares to show for the piece on `sq` as the squares that it can
    /// move to.
    pub fn gen_piece_moves(&self, prev: Board, tables: &Tables, sq: usize) -> (out: u32)
        requires
            tables.wf(),
            sq < 32,
        ensures
            out == self.piece_moves(prev, sq as int),
    {
        let player = if sq >= 16 {
            !PLAYER
        } else {
            PLAYER
        };
        let mut moves: Vec<Board> = Vec::new();
        let pawns = self.pawns();
        let drones = self.drones();
        let queens = self.queens();
        self.gen_moves(sq >= 16, prev, tables, &mut moves);
        let bit = 1u32 << (sq as u32);
        let mut partners: u32 = 0;
        if queens & bit != 0 {
            partners = Self::gen_queen_moves(tables, sq, self.occ()) & queens;
        } else if drones & bit != 0 {
            partners = Self::gen_drone_moves(tables, sq, self.occ()) & drones;
        } else if pawns & bit != 0 {
            partners = (tables.pawn[sq] & !(self.occ() & (player as u32))) & pawns;
        }
        let occupied = (queens | drones | pawns) & bit != 0;
        proof {
            self.lemma_words();
            crate::bits::lemma_bit32_probe(self.queens_word(), sq as int);
            crate::bits::lemma_bit32_probe(self.drones_word(), sq as int);
            crate::bits::lemma_bit32_probe(self.pawns_word(), sq as int);
            crate::bits::lemma_bit32_probe(queens | drones | pawns, sq as int);
            lemma_bit32_ops(queens, drones);
            lemma_bit32_ops(queens | drones, pawns);
            bv_planes(0, 0);
            lemma_bit32_single(0);
        }
        let mut out: u32 = 0;
        let mut n: usize = 0;
        while n < moves.len()
            invariant
                0 <= n <= moves.len(),
                sq < 32,
                bit == 1u32 << (sq as u32),
                moves@ == self.moves(sq >= 16, prev),
                partners == self.partner_word(sq as int),
                occupied == (self.piece(sq as int) != Piece::Empty),
                forall|t: int|
                    #[trigger] bit32(out, t) == (self.piece(sq as int) != Piece::Empty && exists|
                        i: int,
                    |
                        0 <= i < n && self.shows(#[trigger] moves[i], sq as int, t)),
            decreases moves.len() - n,
        {
            let mov = moves[n];
            let mut diff = self.0 ^ mov.0;
            diff |= diff >> 32;
            let diff = diff as u32;
            let ghost before = out;
            proof {
                self.lemma_diff_word(mov);
                crate::bits::lemma_bit32_probe(diff, sq as int);
                lemma_bit32_single(0);
            }
            if diff & bit != 0 {
                if occupied {
                    out |= diff;
                    out |= partners;
                } else {
                    out = 0;
                }
            }
            proof {
                lemma_bit32_ops(before, diff);
                lemma_bit32_ops(before | diff, partners);
                assert forall|t: int|
                    #[trigger] bit32(out, t) == (self.piece(sq as int) != Piece::Empty && exists|
                        i: int,
                    |
                        0 <= i < n + 1 && self.shows(#[trigger] moves[i], sq as int, t)) by {
                    let now = self.shows(mov, sq as int, t);
                    let was = exists|i: int|
                        0 <= i < n && self.shows(#[trigger] moves[i], sq as int, t);
                    let is = exists|i: int|
                        0 <= i < n + 1 && self.shows(#[trigger] moves[i], sq as int, t);
                    assert(bit32(before, t) == (occupied && was));
                    if is {
                        let i = choose|i: int|
                            0 <= i < n + 1 && self.shows(#[trigger] moves[i], sq as int, t);
                        if i < n {
                            assert(was);
                        } else {
                            assert(moves[i] == mov);
                        }
                    }
                    if was {
                        let i = choose|i: int|
                            0 <= i < n && self.shows(#[trigger] moves[i], sq as int, t);
                        assert(self.shows(moves[i], sq as int, t));
                    }
                    if now {
                        assert(self.shows(moves[n as int], sq as int, t));
                    }
                    assert(is == (was || now));
                    assert(now == (bit32(diff, sq as int) && (bit32(diff, t) || bit32(
                        partners,
                        t,
                    ))));
                }
            }
            n += 1;
        }
        proof {
            lemma_bit32_ops(bit, 0);
            lemma_bit32_ops(out, !bit);
            lemma_bit32_single(sq as u32);
            self.lemma_shown(moves@, sq as int);
            assert forall|t: int| 0 <= t < 32 implies bit32(out & !bit, t) == bit32(
                self.piece_moves(prev, sq as int),
                t,
            ) by {}
            lemma_bit32_ext(out & !bit, self.piece_moves(prev, sq as int));
        }
        out &= !bit;
        out
    }

    /// The board as two signed numbers.
    pub fn to_js(&self) -> (js: JsBoard)
        ensures
            js_word(js) == self.0,
    {
        proof {
            bv_js(self.0);
        }
        JsBoard {
            upper: #[verifier::truncate]
            (((self.0 >> 32) as u32) as i32),
            lower: #[verifier::truncate]
            ((self.0 as u32) as i32),
        }
    }

    /// The board that two signed numbers stand for.
    pub fn from_js(jsboard: JsBoard) -> (b: Board)
        ensures
            b.0 == js_word(jsboard),
    {
        Board((((jsboard.upper as u32) as u64) << 32) | ((jsboard.lower as u32) as u64))
    }

    /// Reads the two squares of a move from its text: for each square its
    /// column letter and its row digit. `None` for a text that names no two
    /// squares.
    pub fn parse_move(s: &str) -> (r: Option<(usize, usize)>)
        ensures
            named_move(s@) is None ==> r is None,
            named_move(s@) matches Some(m) ==> r == Some((m.0 as usize, m.1 as usize)) && m.0 < 32
                && m.1 < 32,
    {
        if s.unicode_len() < 4 {
            return None;
        }
        let l1 = s.get_char(0);
        let n1 = s.get_char(1);
        let l2 = s.get_char(2);
        let n2 = s.get_char(3);
        if l1 >= 'a' && l1 <= 'd' && n1 >= '1' && n1 <= '8' && l2 >= 'a' && l2 <= 'd' && n2 >= '1'
            && n2 <= '8' {
            let x1 = 3 - (l1 as usize - 97);
            let x2 = 3 - (l2 as usize - 97);
            let y1 = n1 as usize - 49;
            let y2 = n2 as usize - 49;
            Some((x1 + y1 * 4, x2 + y2 * 4))
        } else {
            None
        }
    }

    /// Makes the move that the text `s` names.
    pub fn do_string_move(&self, s: &str) -> (b: Board)
        requires
            named_move(s@) is Some,
        ensures
            named_move(s@) matches Some(m) && b == self.after(m.0, m.1),
    {
        match Self::parse_move(s) {
            Some((loc1, loc2)) => self.do_move(loc1, loc2),
            None => *self,
        }
    }
}

impl Default for Board {
    /// The board from which a game starts.
    fn default() -> (b: Board)
        ensures
            b@ == layout(START@),
    {
        Self::new()
    }
}

} // verus!
