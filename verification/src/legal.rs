//! What holds of every move that the board generates: which pieces it
//! touches, and what it does to the number and the worth of the pieces.

use crate::bits::{bit32, lemma_bit32_ops, lemma_word_of};
use crate::board::{
    each_bit, home, home_word, lemma_each_bit_member, lemma_home_word, queen_attack, reach,
    Board, Piece,
};
use crate::gen_tables::{
    lemma_attack_captures, lemma_attack_misses_origin, piece_attack, piece_deltas, piece_dist,
    piece_mask, DRONE, FIELD_DRONE, PAWN, PIECES, QUEEN1, QUEEN2,
};
use vstd::prelude::*;

verus! {

/// The sum, over the squares below `n`, of what `w` gives for the square and
/// the piece on it.
pub open spec fn tally(b: Board, w: spec_fn(int, Piece) -> int, n: int) -> int
    decreases n,
{
    if n <= 0 {
        0
    } else {
        tally(b, w, n - 1) + w(n - 1, b.piece(n - 1))
    }
}

/// Two boards that differ on square `k` alone differ in their sums by what
/// `w` gives for the two pieces on `k`.
pub proof fn lemma_tally_update(a: Board, b: Board, w: spec_fn(int, Piece) -> int, k: int, n: int)
    requires
        0 <= n <= 32,
        forall|sq: int| 0 <= sq < 32 && sq != k ==> a.piece(sq) == b.piece(sq),
    ensures
        tally(b, w, n) == tally(a, w, n) + (if 0 <= k < n {
            w(k, b.piece(k)) - w(k, a.piece(k))
        } else {
            0
        }),
    decreases n,
{
    if n > 0 {
        lemma_tally_update(a, b, w, k, n - 1);
    }
}

/// Counts one for each piece in the half of `player`.
pub open spec fn one_each(player: bool) -> spec_fn(int, Piece) -> int {
    |sq: int, p: Piece|
        if home(player, sq) && p != Piece::Empty {
            1int
        } else {
            0int
        }
}

/// Counts each piece by its material worth.
pub open spec fn by_material() -> spec_fn(int, Piece) -> int {
    |sq: int, p: Piece| p.material()
}

/// The number of pieces in the half of `player`.
pub open spec fn men(b: Board, player: bool) -> int {
    tally(b, one_each(player), 32)
}

/// The number of pieces on the board.
pub open spec fn all_men(b: Board) -> int {
    men(b, false) + men(b, true)
}

/// A count of pieces is not negative, and at most one for each square.
pub proof fn lemma_men_bounds(b: Board, player: bool, n: int)
    requires
        0 <= n <= 32,
    ensures
        0 <= tally(b, one_each(player), n) <= n,
    decreases n,
{
    if n > 0 {
        lemma_men_bounds(b, player, n - 1);
    }
}

/// The material of a board is the sum of the worth of its pieces.
pub proof fn lemma_material_tally(b: Board, n: int)
    requires
        0 <= n <= 32,
    ensures
        b.material_upto(n) == tally(b, by_material(), n),
    decreases n,
{
    if n > 0 {
        lemma_material_tally(b, n - 1);
    }
}

/// The pieces of a board after a step from `from` to `to`.
pub proof fn lemma_relocated_pieces(b: Board, from: int, to: int)
    requires
        0 <= from < 32,
        0 <= to < 32,
    ensures
        forall|sq: int|
            0 <= sq < 32 ==> #[trigger] b.relocated(from, to).piece(sq) == (if sq == to {
                b.piece(from)
            } else if sq == from {
                Piece::Empty
            } else {
                b.piece(sq)
            }),
{
    let v = b@.update(from, Piece::Empty).update(to, b@[from]);
    Board::lemma_of(v);
    assert forall|sq: int| 0 <= sq < 32 implies #[trigger] b.relocated(from, to).piece(sq) == (if sq
        == to {
        b.piece(from)
    } else if sq == from {
        Piece::Empty
    } else {
        b.piece(sq)
    }) by {
        assert(b@[sq] == b.piece(sq));
        assert(b@[from] == b.piece(from));
        assert(Board::of(v).piece(sq) == v[sq]);
    }
}

/// The pieces of a board after the piece on `from` has joined the one on
/// `to`.
pub proof fn lemma_promoted_pieces(b: Board, from: int, to: int)
    requires
        0 <= from < 32,
        0 <= to < 32,
        from != to,
    ensures
        forall|sq: int|
            0 <= sq < 32 ==> #[trigger] b.promoted(from, to).piece(sq) == (if sq == to {
                Piece::of(b.piece(to).low() != b.piece(from).low(), true)
            } else if sq == from {
                Piece::Empty
            } else {
                b.piece(sq)
            }),
{
    let left = b@.update(from, Piece::Empty);
    let v = left.update(to, Piece::of(left[to].low() != b@[from].low(), true));
    Board::lemma_of(v);
    assert forall|sq: int| 0 <= sq < 32 implies #[trigger] b.promoted(from, to).piece(sq) == (if sq
        == to {
        Piece::of(b.piece(to).low() != b.piece(from).low(), true)
    } else if sq == from {
        Piece::Empty
    } else {
        b.piece(sq)
    }) by {
        assert(b@[sq] == b.piece(sq));
        assert(b@[from] == b.piece(from));
        assert(b@[to] == b.piece(to));
        assert(Board::of(v).piece(sq) == v[sq]);
    }
}

/// What a step from `from` to another square `to` does to any sum over the
/// squares: `from` counts as empty, and `to` counts with the piece that
/// came.
pub proof fn lemma_relocated_tally(b: Board, from: int, to: int, w: spec_fn(int, Piece) -> int)
    requires
        0 <= from < 32,
        0 <= to < 32,
        from != to,
    ensures
        tally(b.relocated(from, to), w, 32) == tally(b, w, 32) - w(from, b.piece(from)) + w(
            from,
            Piece::Empty,
        ) - w(to, b.piece(to)) + w(to, b.piece(from)),
{
    let mid = Board::of(b@.update(from, Piece::Empty));
    Board::lemma_of(b@.update(from, Piece::Empty));
    lemma_relocated_pieces(b, from, to);
    assert forall|sq: int| 0 <= sq < 32 implies mid.piece(sq) == (if sq == from {
        Piece::Empty
    } else {
        b.piece(sq)
    }) by {
        assert(b@[sq] == b.piece(sq));
        assert(mid.piece(sq) == b@.update(from, Piece::Empty)[sq]);
    }
    lemma_tally_update(b, mid, w, from, 32);
    lemma_tally_update(mid, b.relocated(from, to), w, to, 32);
}

/// What a join of the piece on `from` with the piece on another square `to`
/// does to any sum over the squares.
pub proof fn lemma_promoted_tally(b: Board, from: int, to: int, w: spec_fn(int, Piece) -> int)
    requires
        0 <= from < 32,
        0 <= to < 32,
        from != to,
    ensures
        tally(b.promoted(from, to), w, 32) == tally(b, w, 32) - w(from, b.piece(from)) + w(
            from,
            Piece::Empty,
        ) - w(to, b.piece(to)) + w(
            to,
            Piece::of(b.piece(to).low() != b.piece(from).low(), true),
        ),
{
    let mid = Board::of(b@.update(from, Piece::Empty));
    Board::lemma_of(b@.update(from, Piece::Empty));
    lemma_promoted_pieces(b, from, to);
    assert forall|sq: int| 0 <= sq < 32 implies mid.piece(sq) == (if sq == from {
        Piece::Empty
    } else {
        b.piece(sq)
    }) by {
        assert(b@[sq] == b.piece(sq));
        assert(mid.piece(sq) == b@.update(from, Piece::Empty)[sq]);
    }
    lemma_tally_update(b, mid, w, from, 32);
    lemma_tally_update(mid, b.promoted(from, to), w, to, 32);
}

/// Whether `player` may step from `from` to `to`: a piece of its own stands
/// on `from`, and none of its own on `to`.
pub open spec fn step_ok(b: Board, player: bool, from: int, to: int) -> bool {
    &&& 0 <= from < 32
    &&& 0 <= to < 32
    &&& from != to
    &&& home(player, from)
    &&& b.piece(from) != Piece::Empty
    &&& !(home(player, to) && b.piece(to) != Piece::Empty)
}

/// Whether `player` may join the piece on `from` with the piece on `to`:
/// both are its own, and they are two pawns, or a pawn and a drone.
pub open spec fn join_ok(b: Board, player: bool, from: int, to: int) -> bool {
    &&& from != to
    &&& home(player, from)
    &&& home(player, to)
    &&& (b.piece(from) == Piece::Pawn && (b.piece(to) == Piece::Pawn || b.piece(to)
        == Piece::Drone)) || (b.piece(from) == Piece::Drone && b.piece(to) == Piece::Pawn)
}

/// Whether `next` comes from `b` by a step of `player`.
pub open spec fn is_step(b: Board, player: bool, next: Board) -> bool {
    exists|from: int, to: int|
        step_ok(b, player, from, to) && next == #[trigger] b.relocated(from, to)
}

/// Whether `next` comes from `b` by a join of two pieces of `player`.
pub open spec fn is_join(b: Board, player: bool, next: Board) -> bool {
    exists|from: int, to: int|
        join_ok(b, player, from, to) && next == #[trigger] b.promoted(from, to)
}

/// Whether `next` comes from `b` by a step or a join of `player`.
pub open spec fn is_move(b: Board, player: bool, next: Board) -> bool {
    is_step(b, player, next) || is_join(b, player, next)
}

/// Whether `next` comes from `b` by a step of `player` onto a piece of the
/// opponent.
pub open spec fn is_take(b: Board, player: bool, next: Board) -> bool {
    exists|from: int, to: int|
        step_ok(b, player, from, to) && b.piece(to) != Piece::Empty && next
            == #[trigger] b.relocated(from, to)
}

/// Every rule moves: none of its directions stands still.
pub proof fn lemma_rules_move(piece: int)
    requires
        0 <= piece < PIECES,
    ensures
        crate::gen_tables::deltas_move(piece_deltas(piece)),
{
}

/// No rule reaches the square that the piece stands on, and a rule that may
/// not stop on pieces of its own half reaches an occupied square only in
/// the other half.
pub proof fn lemma_rule_targets(piece: int, sq: int, occ: u32, t: int)
    requires
        0 <= piece < PIECES,
        0 <= sq < 32,
        bit32(piece_attack(piece, sq, occ), t) || bit32(piece_mask(piece, sq), t),
    ensures
        0 <= t < 32,
        t != sq,
        piece != FIELD_DRONE && bit32(piece_attack(piece, sq, occ), t) && bit32(occ, t) ==> (t
            >= 16) != (sq >= 16),
{
    lemma_rules_move(piece);
    lemma_attack_misses_origin(
        sq,
        piece_dist(piece),
        piece_deltas(piece),
        occ,
        piece == FIELD_DRONE,
        piece_deltas(piece).len() as int,
    );
    lemma_attack_misses_origin(
        sq,
        piece_dist(piece),
        piece_deltas(piece),
        0,
        false,
        piece_deltas(piece).len() as int,
    );
    if piece != FIELD_DRONE && bit32(piece_attack(piece, sq, occ), t) && bit32(occ, t) {
        lemma_attack_captures(
            sq,
            piece_dist(piece),
            piece_deltas(piece),
            occ,
            piece_deltas(piece).len() as int,
            t,
        );
    }
}

/// Each board of `b.steps(from, targets)` is the step to a square of
/// `targets`.
pub proof fn lemma_steps_member(b: Board, from: int, targets: u32, k: int) -> (to: int)
    requires
        0 <= k < b.steps(from, targets).len(),
    ensures
        0 <= to < 32,
        bit32(targets, to),
        b.steps(from, targets)[k] == b.relocated(from, to),
{
    let jk = lemma_each_bit_member(targets, 32, b.step_to(from), k);
    jk.0
}

/// Each board of `b.joins(from, targets)` is the join with the piece on a
/// square of `targets`.
pub proof fn lemma_joins_member(b: Board, from: int, targets: u32, k: int) -> (to: int)
    requires
        0 <= k < b.joins(from, targets).len(),
    ensures
        0 <= to < 32,
        bit32(targets, to),
        b.joins(from, targets)[k] == b.promoted(from, to),
{
    let jk = lemma_each_bit_member(targets, 32, b.join_to(from), k);
    jk.0
}

/// The bits of the words that name the pieces of `player` and the pieces
/// that its pawns may join.
pub proof fn lemma_own_words(b: Board, player: bool)
    ensures
        forall|t: int|
            #[trigger] bit32(b.own_word(player), t) == (home(player, t) && b.piece(t)
                != Piece::Empty),
        forall|t: int|
            #[trigger] bit32(b.field_word(player), t) == (home(player, t) && ((!b.has(
                player,
                Piece::Drone,
            ) && b.piece(t) == Piece::Pawn) || (!b.has(player, Piece::Queen) && b.piece(t)
                == Piece::Drone))),
{
    b.lemma_words();
    lemma_home_word(player);
    lemma_bit32_ops(b.occ_word(), home_word(player));
    lemma_word_of(
        |t: int|
            home(player, t) && ((!b.has(player, Piece::Drone) && b.piece(t) == Piece::Pawn) || (
            !b.has(player, Piece::Queen) && b.piece(t) == Piece::Drone)),
    );
}

/// Every board that a pawn of `player` makes is a step or a join.
pub proof fn lemma_pawn_moves(b: Board, player: bool, sq: int, k: int)
    requires
        home(player, sq),
        b.piece(sq) == Piece::Pawn,
        0 <= k < (b.pawn_from(player))(sq).len(),
    ensures
        is_move(b, player, (b.pawn_from(player))(sq)[k]),
{
    let mask = piece_mask(PAWN as int, sq);
    let s = b.steps(sq, mask & !b.own_word(player));
    let j = b.joins(sq, mask & b.field_word(player));
    lemma_own_words(b, player);
    lemma_bit32_ops(mask, !b.own_word(player));
    lemma_bit32_ops(b.own_word(player), 0);
    lemma_bit32_ops(mask, b.field_word(player));
    if k < s.len() {
        let to = lemma_steps_member(b, sq, mask & !b.own_word(player), k);
        lemma_rule_targets(PAWN as int, sq, 0, to);
        assert(step_ok(b, player, sq, to));
        assert((s + j)[k] == b.relocated(sq, to));
    } else {
        let to = lemma_joins_member(b, sq, mask & b.field_word(player), k - s.len());
        lemma_rule_targets(PAWN as int, sq, 0, to);
        assert(join_ok(b, player, sq, to));
        assert((s + j)[k] == b.promoted(sq, to));
    }
}

/// Every board that a drone of `player` makes is a step or a join.
pub proof fn lemma_drone_moves(b: Board, player: bool, sq: int, k: int)
    requires
        home(player, sq),
        b.piece(sq) == Piece::Drone,
        0 <= k < (b.drone_from(player))(sq).len(),
    ensures
        is_move(b, player, (b.drone_from(player))(sq)[k]),
{
    let occ = b.occ_word();
    lemma_own_words(b, player);
    b.lemma_words();
    if b.has(player, Piece::Queen) {
        let att = piece_attack(DRONE as int, sq, occ);
        let to = lemma_steps_member(b, sq, att, k);
        lemma_rule_targets(DRONE as int, sq, occ, to);
        assert(step_ok(b, player, sq, to));
    } else {
        let att = piece_attack(FIELD_DRONE as int, sq, occ);
        let own = b.own_word(player);
        let s = b.steps(sq, att & !own);
        let j = b.joins(sq, att & (b.pawns_word() & own));
        lemma_bit32_ops(att, !own);
        lemma_bit32_ops(own, 0);
        lemma_bit32_ops(att, b.pawns_word() & own);
        lemma_bit32_ops(b.pawns_word(), own);
        if k < s.len() {
            let to = lemma_steps_member(b, sq, att & !own, k);
            lemma_rule_targets(FIELD_DRONE as int, sq, occ, to);
            assert(step_ok(b, player, sq, to));
            assert((s + j)[k] == b.relocated(sq, to));
        } else {
            let to = lemma_joins_member(b, sq, att & (b.pawns_word() & own), k - s.len());
            lemma_rule_targets(FIELD_DRONE as int, sq, occ, to);
            assert(join_ok(b, player, sq, to));
            assert((s + j)[k] == b.promoted(sq, to));
        }
    }
}

/// Every board that a queen of `player` makes is a step.
pub proof fn lemma_queen_moves(b: Board, player: bool, sq: int, k: int)
    requires
        home(player, sq),
        b.piece(sq) == Piece::Queen,
        0 <= k < (b.queen_from())(sq).len(),
    ensures
        is_move(b, player, (b.queen_from())(sq)[k]),
{
    let occ = b.occ_word();
    b.lemma_words();
    let a1 = piece_attack(QUEEN1 as int, sq, occ);
    let a2 = piece_attack(QUEEN2 as int, sq, occ);
    lemma_bit32_ops(a1, a2);
    let to = lemma_steps_member(b, sq, queen_attack(sq, occ), k);
    if bit32(a1, to) {
        lemma_rule_targets(QUEEN1 as int, sq, occ, to);
    } else {
        lemma_rule_targets(QUEEN2 as int, sq, occ, to);
    }
    assert(step_ok(b, player, sq, to));
}

/// Every board of `b.candidates(player)` comes from `b` by a step or a join
/// of `player`: a piece of the player leaves its square, and it lands on an
/// empty square, on a piece of the opponent, or joins a piece of its own
/// side; it never takes the place of one.
pub proof fn lemma_candidates_are_moves(b: Board, player: bool, i: int)
    requires
        0 <= i < b.candidates(player).len(),
    ensures
        is_move(b, player, b.candidates(player)[i]),
{
    let pw = b.pawns_word() & home_word(player);
    let dw = b.drones_word() & home_word(player);
    let qw = b.queens_word() & home_word(player);
    let p = each_bit(pw, 32, b.pawn_from(player));
    let d = each_bit(dw, 32, b.drone_from(player));
    b.lemma_words();
    lemma_home_word(player);
    lemma_bit32_ops(b.pawns_word(), home_word(player));
    lemma_bit32_ops(b.drones_word(), home_word(player));
    lemma_bit32_ops(b.queens_word(), home_word(player));
    if i < p.len() {
        let jk = lemma_each_bit_member(pw, 32, b.pawn_from(player), i);
        lemma_pawn_moves(b, player, jk.0, jk.1);
    } else if i < p.len() + d.len() {
        let jk = lemma_each_bit_member(dw, 32, b.drone_from(player), i - p.len());
        lemma_drone_moves(b, player, jk.0, jk.1);
    } else {
        let jk = lemma_each_bit_member(qw, 32, b.queen_from(), i - p.len() - d.len());
        lemma_queen_moves(b, player, jk.0, jk.1);
    }
}

/// Every board of `b.takes(player)` comes from `b` by a step of `player`
/// onto a piece of the opponent.
pub proof fn lemma_takes_are_takes(b: Board, player: bool, i: int)
    requires
        0 <= i < b.takes(player).len(),
    ensures
        is_take(b, player, b.takes(player)[i]),
{
    let p = b.takes_of(player, Piece::Pawn);
    let d = b.takes_of(player, Piece::Drone);
    let kind = if i < p.len() {
        Piece::Pawn
    } else if i < p.len() + d.len() {
        Piece::Drone
    } else {
        Piece::Queen
    };
    let at = if i < p.len() {
        i
    } else if i < p.len() + d.len() {
        i - p.len()
    } else {
        i - p.len() - d.len()
    };
    let occ = b.occ_word();
    b.lemma_words();
    lemma_home_word(player);
    lemma_own_words(b, !player);
    lemma_bit32_ops(b.kind_word(kind), home_word(player));
    let jk = lemma_each_bit_member(
        b.kind_word(kind) & home_word(player),
        32,
        b.take_from(player, kind),
        at,
    );
    let sq = jk.0;
    let targets = reach(kind, sq, occ) & b.own_word(!player);
    lemma_bit32_ops(reach(kind, sq, occ), b.own_word(!player));
    let to = lemma_steps_member(b, sq, targets, jk.1);
    if kind == Piece::Pawn {
        lemma_rule_targets(PAWN as int, sq, 0, to);
    } else if kind == Piece::Drone {
        lemma_rule_targets(DRONE as int, sq, occ, to);
    } else {
        let a1 = piece_attack(QUEEN1 as int, sq, occ);
        let a2 = piece_attack(QUEEN2 as int, sq, occ);
        lemma_bit32_ops(a1, a2);
        if bit32(a1, to) {
            lemma_rule_targets(QUEEN1 as int, sq, occ, to);
        } else {
            lemma_rule_targets(QUEEN2 as int, sq, occ, to);
        }
    }
    assert(step_ok(b, player, sq, to));
    assert(b.takes(player)[i] == b.relocated(sq, to));
}

/// What a step of `player` does to the board: the material falls by the
/// worth of what stood on the square stepped on, the player's half loses
/// the piece unless it stays in that half, and the other half gains it
/// where it lands there on an empty square.
pub proof fn lemma_step_effects(b: Board, player: bool, from: int, to: int)
    requires
        step_ok(b, player, from, to),
    ensures
        b.relocated(from, to).material() == b.material() - b.piece(to).material(),
        men(b.relocated(from, to), player) == men(b, player) - (if home(player, to) {
            0int
        } else {
            1int
        }),
        men(b.relocated(from, to), !player) == men(b, !player) + (if home(!player, to) && b.piece(
            to,
        ) == Piece::Empty {
            1int
        } else {
            0int
        }),
{
    let next = b.relocated(from, to);
    lemma_material_tally(b, 32);
    lemma_material_tally(next, 32);
    lemma_relocated_tally(b, from, to, by_material());
    lemma_relocated_tally(b, from, to, one_each(player));
    lemma_relocated_tally(b, from, to, one_each(!player));
}

/// What a join of two pieces of `player` does to the board: the material
/// does not rise, the player's half has one piece less, and the other half
/// is untouched.
pub proof fn lemma_join_effects(b: Board, player: bool, from: int, to: int)
    requires
        0 <= from < 32,
        0 <= to < 32,
        join_ok(b, player, from, to),
    ensures
        b.promoted(from, to).material() <= b.material(),
        men(b.promoted(from, to), player) == men(b, player) - 1,
        men(b.promoted(from, to), !player) == men(b, !player),
{
    let next = b.promoted(from, to);
    lemma_material_tally(b, 32);
    lemma_material_tally(next, 32);
    lemma_promoted_tally(b, from, to, by_material());
    lemma_promoted_tally(b, from, to, one_each(player));
    lemma_promoted_tally(b, from, to, one_each(!player));
}

/// No move of `player` raises the material on the board, the number of
/// pieces in the player's half, or the number of pieces on the board.
pub proof fn lemma_move_effects(b: Board, player: bool, next: Board)
    requires
        is_move(b, player, next),
    ensures
        next.material() <= b.material(),
        men(next, player) <= men(b, player),
        all_men(next) <= all_men(b),
{
    if is_step(b, player, next) {
        let (from, to) = choose|from: int, to: int|
            step_ok(b, player, from, to) && next == #[trigger] b.relocated(from, to);
        lemma_step_effects(b, player, from, to);
    } else {
        let (from, to) = choose|from: int, to: int|
            join_ok(b, player, from, to) && next == #[trigger] b.promoted(from, to);
        lemma_join_effects(b, player, from, to);
    }
}

/// A capture lowers the material on the board and leaves one piece less on
/// it: the half of the player who was captured from holds as many pieces
/// as before, the captor in place of the captured, and the captor's half
/// one less.
pub proof fn lemma_take_effects(b: Board, player: bool, next: Board)
    requires
        is_take(b, player, next),
    ensures
        next.material() < b.material(),
        all_men(next) == all_men(b) - 1,
        men(next, !player) == men(b, !player),
        is_move(b, player, next),
{
    let (from, to) = choose|from: int, to: int|
        step_ok(b, player, from, to) && b.piece(to) != Piece::Empty && next
            == #[trigger] b.relocated(from, to);
    lemma_step_effects(b, player, from, to);
}

/// Every legal move is a candidate that passes the test against
/// repetition, and it is a step or a join of `player`.
pub proof fn lemma_moves_are_moves(b: Board, player: bool, prev: Board, i: int)
    requires
        0 <= i < b.moves(player, prev).len(),
    ensures
        b.candidates(player).contains(b.moves(player, prev)[i]),
        b.keeps(player, prev, b.moves(player, prev)[i]),
        is_move(b, player, b.moves(player, prev)[i]),
{
    let cand = b.candidates(player);
    let pred = b.keeper(player, prev);
    let next = b.moves(player, prev)[i];
    cand.lemma_filter_pred(pred, i);
    assert(cand.filter(pred).contains(next));
    cand.lemma_filter_contains_rev(pred, next);
    let j = choose|j: int| 0 <= j < cand.len() && cand[j] == next;
    lemma_candidates_are_moves(b, player, j);
}

/// No candidate that passes the test against repetition is left out of the
/// legal moves, and none that fails it is among them: a move that changes
/// the other half, and gives it the look that it had on `prev`, is not
/// legal.
pub proof fn lemma_moves_complete(b: Board, player: bool, prev: Board, j: int)
    requires
        0 <= j < b.candidates(player).len(),
    ensures
        b.moves(player, prev).contains(b.candidates(player)[j]) == b.keeps(
            player,
            prev,
            b.candidates(player)[j],
        ),
{
    let cand = b.candidates(player);
    let pred = b.keeper(player, prev);
    if pred(cand[j]) {
        cand.lemma_filter_contains(pred, j);
    }
    if cand.filter(pred).contains(cand[j]) {
        let i = choose|i: int| 0 <= i < cand.filter(pred).len() && cand.filter(pred)[i] == cand[j];
        cand.lemma_filter_pred(pred, i);
    }
}

} // verus!
