//! A game in progress: the board, the board before the last move, whose
//! turn it is, and the material won so far.

use crate::board::{js_word, layout, named_move, Board, JsBoard, START};
use crate::gen_tables::Tables;
use crate::legal::{all_men, is_move, is_take, men};
use vstd::prelude::*;

verus! {

/// What a position holds, apart from the tables that it moves by.
pub struct State {
    /// The board as it stands.
    pub board: Board,
    /// The board before the last move.
    pub prev: Board,
    /// Whose turn it is: `false` for the first player.
    pub player: bool,
    /// The material that the first player has taken, less the material that
    /// the second player has taken.
    pub score: int,
}

/// The material that a move from the board `from` to the board `to` takes
/// off the board.
pub open spec fn taken(from: Board, to: Board) -> int {
    if from.material() > to.material() {
        from.material() - to.material()
    } else {
        0
    }
}

/// What a move takes is never negative and never more than the board can
/// hold, and it is what the material falls by where it does not rise.
pub proof fn lemma_taken(from: Board, to: Board)
    ensures
        0 <= taken(from, to) <= 64,
        to.material() <= from.material() ==> taken(from, to) == from.material() - to.material(),
{
    from.lemma_material_counts(32);
    to.lemma_material_counts(32);
}

impl State {
    /// The state after the player to move has made the board `next`.
    pub open spec fn moved(self, next: Board) -> State {
        State {
            board: next,
            prev: self.board,
            player: !self.player,
            score: if self.player {
                self.score - taken(self.board, next)
            } else {
                self.score + taken(self.board, next)
            },
        }
    }

    /// The state before the last move, if `earlier` was the board before
    /// the move before it.
    pub open spec fn unmoved(self, earlier: Board) -> State {
        State {
            board: self.prev,
            prev: earlier,
            player: !self.player,
            score: if !self.player {
                self.score + taken(self.prev, self.board)
            } else {
                self.score - taken(self.prev, self.board)
            },
        }
    }

    /// The score as the player to move sees it.
    pub open spec fn own_score(self) -> int {
        if self.player {
            -self.score
        } else {
            self.score
        }
    }

    /// The balance of the board as the player to move sees it.
    pub open spec fn own_balance(self) -> int {
        if self.player {
            -self.board.balance()
        } else {
            self.board.balance()
        }
    }

    /// The worth of the position to the player to move: a hundred for each
    /// point of material won, and the balance of the board.
    pub open spec fn eval(self) -> int {
        if self.player {
            -(self.score * 100 + self.board.balance())
        } else {
            self.score * 100 + self.board.balance()
        }
    }
}

/// Largest sum of the score, in either direction, and the material on the
/// board with which a position is searched: within it the values that the
/// search computes, up to a hundred times the worth of a position and the
/// bounds of its window, stay in the range of the machine's numbers.
pub const SEARCH_LIMIT: i32 = 212_000;

/// Largest worth, in either direction, of a position within `SEARCH_LIMIT`.
pub const EVAL_LIMIT: i32 = 21_200_048;

impl State {
    /// Whether score and material are within `SEARCH_LIMIT`: the score, in
    /// either direction, and with the material added to it.
    pub open spec fn sound(self) -> bool {
        &&& -SEARCH_LIMIT <= self.score <= SEARCH_LIMIT
        &&& (if self.score < 0 {
            -self.score
        } else {
            self.score
        }) + self.board.material() <= SEARCH_LIMIT
    }

    /// Whether the game is over: one of the halves holds no piece.
    pub open spec fn over(self) -> bool {
        self.board.side_empty(false) || self.board.side_empty(true)
    }
}

/// The worth of a sound position is within `EVAL_LIMIT`.
pub proof fn lemma_eval_bounds(s: State)
    requires
        s.sound(),
    ensures
        -EVAL_LIMIT <= s.eval() <= EVAL_LIMIT,
        -SEARCH_LIMIT <= s.score <= SEARCH_LIMIT,
{
    s.board.lemma_material_counts(32);
    s.board.lemma_balance_bounds(32);
}

/// A move that does not add material leads from a sound position to a
/// sound position.
pub proof fn lemma_moved_sound(s: State, next: Board)
    requires
        s.sound(),
        next.material() <= s.board.material(),
    ensures
        s.moved(next).sound(),
{
    s.board.lemma_material_counts(32);
    next.lemma_material_counts(32);
}

/// Taking a move back undoes it: whatever board `next` the move made, the
/// state after `moved(next)` and then `unmoved` with the earlier board is the
/// state before.
pub proof fn lemma_unmoved_moved(s: State, next: Board)
    ensures
        s.moved(next).unmoved(s.prev) == s,
{
}

/// Largest score, in either direction, with which a position can be
/// evaluated without leaving the range of the machine's numbers, whatever
/// stands on the board.
pub const SCORE_LIMIT: i32 = 21_474_835;

/// A position as plain numbers: the two boards each as two signed numbers,
/// the player and the score.
#[derive(Debug, Clone, Copy, PartialEq, Eq, Structural)]
pub struct JsPosition {
    pub board: JsBoard,
    pub prev: JsBoard,
    pub player: bool,
    pub score: i32,
}

/// A game in progress.
pub struct Position<'a> {
    /// The board as it stands.
    pub board: Board,
    /// The board before the last move.
    pub prev: Board,
    /// The tables that the position moves by.
    pub tables: &'a Tables,
    /// Whose turn it is: `false` for the first player.
    pub player: bool,
    /// The material that the first player has taken, less the material that
    /// the second player has taken.
    pub score: i32,
}

impl<'a> View for Position<'a> {
    type V = State;

    open spec fn view(&self) -> State {
        State { board: self.board, prev: self.prev, player: self.player, score: self.score as int }
    }
}

impl<'a> Position<'a> {
    /// Whether the score is within `SCORE_LIMIT`.
    pub open spec fn score_ok(&self) -> bool {
        -SCORE_LIMIT <= self.score <= SCORE_LIMIT
    }

    /// The position at the start of a game.
    pub fn new(tables: &'a Tables) -> (p: Self)
        ensures
            p@.board@ == layout(START@),
            p@.prev == Board(0),
            p@.player == false,
            p@.score == 0,
            p.tables == tables,
            p@.sound(),
    {
        let board = Board::new();
        proof {
            board.lemma_material_counts(32);
        }
        Self { board, prev: Board::empty(), tables, player: false, score: 0 }
    }

    /// Makes the move that leads to the board `new_board`, and returns the
    /// board before the last move, which `undo_move` asks for. The new
    /// score must be a number of the machine.
    pub fn do_move(&mut self, new_board: Board) -> (out: Board)
        requires
            i32::MIN <= old(self)@.moved(new_board).score <= i32::MAX,
        ensures
            out == old(self)@.prev,
            final(self)@ == old(self)@.moved(new_board),
            final(self).tables == old(self).tables,
    {
        let out = self.prev;
        self.prev = self.board;
        self.board = new_board;
        let before = self.prev.pieces_value();
        let after = self.board.pieces_value();
        let dscore = if before > after {
            before - after
        } else {
            0
        };
        if self.player {
            self.score -= dscore;
        } else {
            self.score += dscore;
        }
        self.player = !self.player;
        out
    }

    /// Takes the last move back, where `prev` is what `do_move` returned
    /// for it, and returns the board that the move had made. The score
    /// that comes back must be a number of the machine, as it is after
    /// `do_move`.
    pub fn undo_move(&mut self, prev: Board) -> (out: Board)
        requires
            i32::MIN <= old(self)@.unmoved(prev).score <= i32::MAX,
        ensures
            out == old(self)@.board,
            final(self)@ == old(self)@.unmoved(prev),
            final(self).tables == old(self).tables,
    {
        let before = self.prev.pieces_value();
        let after = self.board.pieces_value();
        let dscore = if before > after {
            before - after
        } else {
            0
        };
        let out = self.board;
        self.board = self.prev;
        self.prev = prev;
        self.player = !self.player;
        if self.player {
            self.score += dscore;
        } else {
            self.score -= dscore;
        }
        out
    }

    /// The number `i` as the player to move sees it: negated for the second
    /// player.
    fn negate_if_player(&self, i: i32) -> (r: i32)
        requires
            i != i32::MIN,
        ensures
            r == (if self@.player {
                -i
            } else {
                i as int
            }),
    {
        if self.player {
            -i
        } else {
            i
        }
    }

    /// The score as the player to move sees it.
    pub fn get_score(&self) -> (r: i32)
        requires
            self@.score != i32::MIN,
        ensures
            r == self@.own_score(),
    {
        self.negate_if_player(self.score)
    }

    /// The balance of the board as the player to move sees it.
    pub fn player_value(&self) -> (r: i32)
        ensures
            r == self@.own_balance(),
    {
        self.negate_if_player(self.board.player_value())
    }

    /// The worth of the position to the player to move.
    pub fn eval(&self) -> (r: i32)
        requires
            self.score_ok(),
        ensures
            r == self@.eval(),
    {
        self.negate_if_player(self.score * 100 + self.board.player_value())
    }

    /// Whose turn it is.
    pub fn get_player(&self) -> (r: bool)
        ensures
            r == self@.player,
    {
        self.player
    }

    /// Fills `out` with the boards that one legal move of the player to
    /// move leads to.
    pub fn gen_moves(&self, out: &mut Vec<Board>)
        requires
            self.tables.wf(),
        ensures
            final(out)@ == self@.board.moves(self@.player, self@.prev),
            forall|i: int|
                0 <= i < final(out).len() ==> is_move(
                    self@.board,
                    self@.player,
                    #[trigger] final(out)[i],
                ),
            forall|i: int|
                0 <= i < final(out).len() ==> self@.board.keeps(
                    self@.player,
                    self@.prev,
                    #[trigger] final(out)[i],
                ),
            forall|i: int|
                0 <= i < final(out).len() ==> men(#[trigger] final(out)[i], self@.player) <= men(
                    self@.board,
                    self@.player,
                ),
            forall|i: int|
                0 <= i < final(out).len() ==> (#[trigger] final(out)[i]).material()
                    <= self@.board.material(),
    {
        self.board.gen_moves(self.player, self.prev, self.tables, out)
    }

    /// Fills `out` with the boards that the player to move can make by
    /// taking a piece.
    pub fn gen_takes(&self, out: &mut Vec<Board>)
        requires
            self.tables.wf(),
        ensures
            final(out)@ == self@.board.takes(self@.player),
            forall|i: int|
                0 <= i < final(out).len() ==> is_take(
                    self@.board,
                    self@.player,
                    #[trigger] final(out)[i],
                ),
            forall|i: int|
                0 <= i < final(out).len() ==> (#[trigger] final(out)[i]).material()
                    < self@.board.material(),
            forall|i: int|
                0 <= i < final(out).len() ==> all_men(#[trigger] final(out)[i]) == all_men(
                    self@.board,
                ) - 1,
    {
        self.board.gen_takes(self.player, self.tables, out)
    }

    /// Tells the two squares of the last move.
    pub fn get_move(&self) -> (r: (usize, usize))
        requires
            self.tables.wf(),
        ensures
            (r.0 as int, r.1 as int) == self@.board.move_squares(self@.prev),
    {
        self.board.get_move(self.tables, &self.prev)
    }

    /// Makes the move that the text `s` names, if the text names two
    /// squares and the move between them is legal, and tells whether it
    /// did. The score after the move must be a number of the machine.
    pub fn do_string_move(&mut self, s: &str) -> (done: bool)
        requires
            old(self).tables.wf(),
            named_move(s@) matches Some(m) ==> i32::MIN <= old(self)@.moved(
                old(self)@.board.after(m.0, m.1),
            ).score <= i32::MAX,
        ensures
            final(self).tables == old(self).tables,
            done <==> (named_move(s@) matches Some(m) && old(self)@.board.moves(
                old(self)@.player,
                old(self)@.prev,
            ).contains(old(self)@.board.after(m.0, m.1))),
            done ==> (named_move(s@) matches Some(m) && final(self)@ == old(self)@.moved(
                old(self)@.board.after(m.0, m.1),
            )),
            !done ==> *final(self) == *old(self),
            old(self)@.sound() ==> final(self)@.sound(),
    {
        let squares = match Board::parse_move(s) {
            Some(squares) => squares,
            None => {
                return false;
            },
        };
        let mut moves: Vec<Board> = Vec::new();
        self.gen_moves(&mut moves);
        let mov = self.board.do_move(squares.0, squares.1);
        let mut i: usize = 0;
        let mut found = false;
        while i < moves.len()
            invariant
                0 <= i <= moves.len(),
                found <==> exists|k: int| 0 <= k < i && moves[k] == mov,
            decreases moves.len() - i,
        {
            if moves[i] == mov {
                found = true;
            }
            i += 1;
        }
        if !found {
            return false;
        }
        assert(moves@.contains(mov));
        proof {
            if self@.sound() {
                lemma_moved_sound(self@, mov);
            }
        }
        self.do_move(mov);
        true
    }

    /// Whether the position is within the limit up to which it can be
    /// searched.
    pub fn is_sound(&self) -> (r: bool)
        ensures
            r == self@.sound(),
    {
        let material = self.board.pieces_value();
        self.score >= -SEARCH_LIMIT && self.score <= SEARCH_LIMIT && (if self.score < 0 {
            -self.score
        } else {
            self.score
        }) + material <= SEARCH_LIMIT
    }

    /// The position as plain numbers.
    pub fn to_js(&self) -> (js: JsPosition)
        ensures
            js_word(js.board) == self@.board.0,
            js_word(js.prev) == self@.prev.0,
            js.player == self@.player,
            js.score == self@.score,
    {
        JsPosition {
            board: self.board.to_js(),
            prev: self.prev.to_js(),
            player: self.player,
            score: self.score,
        }
    }

    /// The position that plain numbers stand for.
    pub fn from_js(tables: &'a Tables, jspos: JsPosition) -> (p: Self)
        ensures
            p@.board.0 == js_word(jspos.board),
            p@.prev.0 == js_word(jspos.prev),
            p@.player == jspos.player,
            p@.score == jspos.score,
            p.tables == tables,
    {
        Self {
            board: Board::from_js(jspos.board),
            prev: Board::from_js(jspos.prev),
            tables,
            player: jspos.player,
            score: jspos.score,
        }
    }
}

} // verus!
