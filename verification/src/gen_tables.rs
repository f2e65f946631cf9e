//! Movement rules of the three piece kinds on the 4×8 board, and the lookup
//! tables that answer "where can the piece on this square go?" in constant
//! time.

use crate::bits::{
    bit32, count32, lemma_below_pow2, lemma_count32_or, lemma_bit32_ext, lemma_bit32_ops, lemma_bit32_probe,
    lemma_bit32_single, lemma_count32_bounds, lemma_count32_gap, lemma_count32_rank,
    lemma_lowest32, lemma_lowest64, lemma_or32_laws, lemma_shift32_bound, lemma_slots,
    lemma_word_of,
    lowest32, lowest64, popcount32, word_of,
};
use vstd::prelude::*;

verus! {

/// Walks the set bits of a word from the lowest up, each as a one-bit word.
pub struct BitStack(pub u32);

impl BitStack {
    /// Takes the lowest set bit out of the stack and returns it as a word.
    pub fn next(&mut self) -> (r: Option<u32>)
        ensures
            old(self).0 == 0 ==> r is None && final(self).0 == 0,
            old(self).0 != 0 ==> r == Some(1u32 << (lowest32(old(self).0) as u32)) && final(self).0
                == old(self).0 ^ (1u32 << (lowest32(old(self).0) as u32)),
    {
        if self.0 == 0 {
            None
        } else {
            proof {
                lemma_lowest32(self.0);
            }
            let out = self.0 & !(self.0 - 1);
            self.0 ^= out;
            Some(out)
        }
    }
}

/// Walks the set bits of a word from the lowest up, each as its position.
pub struct LocStack(pub u32);

impl LocStack {
    /// Takes the lowest set bit out of the stack and returns its position.
    pub fn next(&mut self) -> (r: Option<usize>)
        ensures
            old(self).0 == 0 ==> r is None && final(self).0 == 0,
            old(self).0 != 0 ==> r == Some(lowest32(old(self).0) as usize) && final(self).0 == old(
                self,
            ).0 ^ (1u32 << (lowest32(old(self).0) as u32)),
    {
        if self.0 == 0 {
            None
        } else {
            proof {
                lemma_lowest32(self.0);
            }
            let out = self.0.trailing_zeros();
            self.0 ^= 1u32 << out;
            Some(out as usize)
        }
    }
}

/// Walks the set bits of a 64-bit word from the lowest up, each as its
/// position.
pub struct LocStack64(pub u64);

impl LocStack64 {
    /// Takes the lowest set bit out of the stack and returns its position.
    pub fn next(&mut self) -> (r: Option<usize>)
        ensures
            old(self).0 == 0 ==> r is None && final(self).0 == 0,
            old(self).0 != 0 ==> r == Some(lowest64(old(self).0) as usize) && final(self).0 == old(
                self,
            ).0 ^ (1u64 << (lowest64(old(self).0) as u64)),
    {
        if self.0 == 0 {
            None
        } else {
            proof {
                lemma_lowest64(self.0);
            }
            let out = self.0.trailing_zeros();
            self.0 ^= 1u64 << out;
            Some(out as usize)
        }
    }
}

/// `String::push` of the standard library appends the given character to the
/// end of the string.
pub assume_specification[ String::push ](s: &mut String, c: char)
    ensures
        final(s)@ == old(s)@.push(c),
;

/// The letter of column `x`: columns are lettered downwards from `d`.
pub open spec fn column_letter(x: int) -> char {
    if x == 0 {
        'd'
    } else if x == 1 {
        'c'
    } else if x == 2 {
        'b'
    } else {
        'a'
    }
}

/// The digit of row `y`: rows are numbered upwards from `1`.
pub open spec fn row_digit(y: int) -> char {
    if y == 0 {
        '1'
    } else if y == 1 {
        '2'
    } else if y == 2 {
        '3'
    } else if y == 3 {
        '4'
    } else if y == 4 {
        '5'
    } else if y == 5 {
        '6'
    } else if y == 6 {
        '7'
    } else {
        '8'
    }
}

/// The name of square `sq`: its column letter and row digit, or a question
/// mark for a number that names no square.
pub open spec fn square_name(sq: int) -> Seq<char> {
    if sq > 31 {
        seq!['?']
    } else {
        seq![column_letter(sq % 4), row_digit(sq / 4)]
    }
}

/// Appends the name of square `sq`.
fn push_square(out: &mut String, sq: usize)
    ensures
        final(out)@ == old(out)@ + square_name(sq as int),
{
    if sq > 31 {
        out.push('?');
        assert(out@ =~= old(out)@ + square_name(sq as int));
    } else {
        let x = sq % 4;
        let y = sq / 4;
        let letter = if x == 0 {
            'd'
        } else if x == 1 {
            'c'
        } else if x == 2 {
            'b'
        } else {
            'a'
        };
        let digit = if y == 0 {
            '1'
        } else if y == 1 {
            '2'
        } else if y == 2 {
            '3'
        } else if y == 3 {
            '4'
        } else if y == 4 {
            '5'
        } else if y == 5 {
            '6'
        } else if y == 6 {
            '7'
        } else {
            '8'
        };
        out.push(letter);
        out.push(digit);
        assert(out@ =~= old(out)@ + square_name(sq as int));
    }
}

/// Writes a move as the names of its two squares, the first square first.
pub fn stringify_move(mov: (usize, usize)) -> (out: String)
    ensures
        out@ == square_name(mov.0 as int) + square_name(mov.1 as int),
{
    let mut out = String::new();
    push_square(&mut out, mov.0);
    push_square(&mut out, mov.1);
    assert(out@ =~= square_name(mov.0 as int) + square_name(mov.1 as int));
    out
}

/// The word that carries, on the `k`-th set bit of `mask` counted from the
/// lowest, bit `k` of `num`, and nothing elsewhere.
pub open spec fn spread(num: u32, mask: u32) -> u32 {
    word_of(|p: int| bit32(mask, p) && bit32(num, count32(mask, p) as int))
}

/// Bit `p` of `spread(num, mask)` is set where `mask` has bit `p` and `num`
/// has the bit whose number is the count of `mask`'s bits below `p`.
pub proof fn lemma_spread_bits(num: u32, mask: u32)
    ensures
        forall|p: int| #[trigger]
            bit32(spread(num, mask), p) == (bit32(mask, p) && bit32(
                num,
                count32(mask, p) as int,
            )),
{
    lemma_word_of(|p: int| bit32(mask, p) && bit32(num, count32(mask, p) as int));
}

/// Deposits the low bits of `num` on the set bits of `mask`, lowest first.
pub fn num_to_mask(num: u32, mask: u32) -> (out: u32)
    ensures
        out == spread(num, mask),
{
    let mut num_bit: u32 = 1;
    let mut out: u32 = 0;
    let mut stack = BitStack(mask);
    let ghost mut pos: int = 0;
    proof {
        lemma_bit32_single(0);
        lemma_bit32_probe(0, 0);
    }
    loop
        invariant
            0 <= pos <= 32,
            forall|i: int| #[trigger] bit32(stack.0, i) == (bit32(mask, i) && i >= pos),
            count32(mask, pos) < 32 ==> num_bit == 1u32 << (count32(mask, pos) as u32),
            count32(mask, pos) >= 32 ==> num_bit == 0,
            forall|p: int| #[trigger]
                bit32(out, p) == (p < pos && bit32(mask, p) && bit32(
                    num,
                    count32(mask, p) as int,
                )),
        ensures
            stack.0 == 0,
        decreases stack.0,
    {
        let ghost rem = stack.0;
        let ghost old_out = out;
        let next = stack.next();
        match next {
            None => {
                break ;
            },
            Some(mask_bit) => {
                let ghost t = lowest32(rem);
                let ghost k = count32(mask, pos) as int;
                proof {
                    lemma_lowest32(rem);
                    lemma_bit32_single(t as u32);
                    lemma_bit32_ops(rem, mask_bit);
                    lemma_bit32_ops(out, mask_bit);
                    assert(bit32(rem, t));
                    assert forall|i: int| pos <= i < t implies !bit32(mask, i) by {
                        assert(!bit32(rem, i));
                    }
                    lemma_count32_gap(mask, pos, t);
                    lemma_count32_bounds(mask, 0, t);
                    lemma_bit32_probe(num, k);
                }
                if num & num_bit != 0 {
                    out |= mask_bit;
                }
                num_bit <<= 1;
                proof {
                    pos = t + 1;
                    assert(count32(mask, pos) == k + 1);
                    assert forall|p: int| #[trigger]
                        bit32(out, p) == (p < pos && bit32(mask, p) && bit32(
                            num,
                            count32(mask, p) as int,
                        )) by {
                        if p != t {
                            assert(bit32(out, p) == bit32(old_out, p));
                            assert(bit32(rem, p) ==> p > t);
                        }
                    }
                }
            },
        }
    }
    proof {
        lemma_bit32_single(0);
        lemma_spread_bits(num, mask);
        assert forall|i: int| 0 <= i < 32 implies bit32(out, i) == bit32(spread(num, mask), i) by {
            assert(!bit32(stack.0, i));
        }
        lemma_bit32_ext(out, spread(num, mask));
    }
    out
}

/// Every occupancy within `mask` is the spread of a number below
/// `1 << popcount32(mask)`: counting up to that bound visits each subset of
/// the mask.
pub proof fn lemma_spread_onto(sub: u32, mask: u32) -> (num: u32)
    requires
        forall|i: int| bit32(sub, i) ==> bit32(mask, i),
        popcount32(mask) < 32,
    ensures
        spread(num, mask) == sub,
        num < (1u32 << (popcount32(mask) as u32)),
{
    let pick = |k: int|
        exists|p: int| 0 <= p < 32 && bit32(mask, p) && count32(mask, p) == k && bit32(sub, p);
    let num = word_of(pick);
    lemma_word_of(pick);
    lemma_spread_bits(num, mask);
    assert forall|p: int| 0 <= p < 32 implies bit32(spread(num, mask), p) == bit32(sub, p) by {
        if bit32(mask, p) {
            lemma_count32_bounds(mask, 0, p);
            let k = count32(mask, p) as int;
            if bit32(sub, p) {
                assert(pick(k));
            }
            if pick(k) {
                let q = choose|q: int|
                    0 <= q < 32 && bit32(mask, q) && count32(mask, q) == k && bit32(sub, q);
                if q < p {
                    lemma_count32_rank(mask, q, p);
                }
                if p < q {
                    lemma_count32_rank(mask, p, q);
                }
            }
        }
    }
    lemma_bit32_ext(spread(num, mask), sub);
    assert forall|k: int| popcount32(mask) <= k < 32 implies !bit32(num, k) by {
        if pick(k) {
            let q = choose|q: int|
                0 <= q < 32 && bit32(mask, q) && count32(mask, q) == k && bit32(sub, q);
            lemma_count32_rank(mask, q, 32);
        }
    }
    lemma_below_pow2(num, popcount32(mask) as int);
    num
}

/// Whether column `x` and row `y` name a square of the board.
pub open spec fn on_board(x: int, y: int) -> bool {
    0 <= x < 4 && 0 <= y < 8
}

/// The one-bit word of the square in column `x` of row `y`.
pub open spec fn square_bit(x: int, y: int) -> u32 {
    1u32 << ((x + 4 * y) as u32)
}

/// Largest step, in columns or rows, that a direction of movement may take.
pub const MAX_DELTA: isize = 1_000_000;

/// Whether every direction in `deltas` stays within `MAX_DELTA`.
pub open spec fn deltas_ok(deltas: Seq<(isize, isize)>) -> bool {
    forall|i: int|
        0 <= i < deltas.len() ==> -MAX_DELTA <= (#[trigger] deltas[i]).0 <= MAX_DELTA && -MAX_DELTA
            <= deltas[i].1 <= MAX_DELTA
}

/// Whether column `x` and row `y` name a square of the board.
pub fn within_board(x: isize, y: isize) -> (r: bool)
    ensures
        r == on_board(x as int, y as int),
{
    x >= 0 && x < 4 && y >= 0 && y < 8
}

/// The squares that a slide covers which starts on `(x, y)`, moves by
/// `(dx, dy)` each step and has `steps` steps left, over the occupancy
/// `board`. The slide takes every empty square and ends at the board's edge
/// or on the first occupied square, which it takes too if `field` is set or
/// if that square lies in the other half than the one the piece came from
/// (`from_high` says whether that was the high half, rows 4 to 7).
pub open spec fn ray(
    x: int,
    y: int,
    dx: int,
    dy: int,
    steps: nat,
    board: u32,
    field: bool,
    from_high: bool,
) -> u32
    decreases steps,
{
    if steps == 0 || !on_board(x, y) {
        0
    } else if board & square_bit(x, y) == 0 {
        square_bit(x, y) | ray(
            x + dx,
            y + dy,
            dx,
            dy,
            (steps - 1) as nat,
            board,
            field,
            from_high,
        )
    } else if field || (y >= 4) != from_high {
        square_bit(x, y)
    } else {
        0
    }
}

/// The squares reached from `sq` by the first `n` directions of `deltas`.
pub open spec fn attack_upto(
    sq: int,
    dist: nat,
    deltas: Seq<(isize, isize)>,
    board: u32,
    field: bool,
    n: int,
) -> u32
    decreases n,
{
    if n <= 0 {
        0
    } else {
        attack_upto(sq, dist, deltas, board, field, n - 1) | ray(
            sq % 4 + deltas[n - 1].0,
            sq / 4 + deltas[n - 1].1,
            deltas[n - 1].0 as int,
            deltas[n - 1].1 as int,
            dist,
            board,
            field,
            sq / 4 >= 4,
        )
    }
}

/// The squares that a piece on `sq` reaches over the occupancy `board` when
/// it slides up to `dist` steps along each direction of `deltas`.
pub open spec fn attack(
    sq: int,
    dist: nat,
    deltas: Seq<(isize, isize)>,
    board: u32,
    field: bool,
) -> u32 {
    attack_upto(sq, dist, deltas, board, field, deltas.len() as int)
}

/// Computes the squares that a piece on `sq` reaches over `board`.
pub fn gen_att(sq: usize, dist: usize, deltas: &Vec<(isize, isize)>, board: u32, field: bool) -> (out:
    u32)
    requires
        sq < 32,
        deltas_ok(deltas@),
    ensures
        out == attack(sq as int, dist as nat, deltas@, board, field),
{
    let startx = (sq % 4) as isize;
    let starty = (sq / 4) as isize;
    let mut out: u32 = 0;
    let mut n: usize = 0;
    while n < deltas.len()
        invariant
            0 <= n <= deltas.len(),
            sq < 32,
            startx == sq % 4,
            starty == sq / 4,
            deltas_ok(deltas@),
            out == attack_upto(sq as int, dist as nat, deltas@, board, field, n as int),
        decreases deltas.len() - n,
    {
        let (dx, dy) = deltas[n];
        let mut i: usize = 0;
        let mut x = startx + dx;
        let mut y = starty + dy;
        let ghost before = out;
        let ghost whole = ray(
            x as int,
            y as int,
            dx as int,
            dy as int,
            dist as nat,
            board,
            field,
            starty >= 4,
        );
        proof {
            lemma_or32_laws(out, 0, 0);
        }
        while within_board(x, y) && i < dist && board & (1u32 << ((x + y * 4) as u32)) == 0
            invariant
                0 <= i <= dist,
                -MAX_DELTA <= dx <= MAX_DELTA,
                -MAX_DELTA <= dy <= MAX_DELTA,
                -MAX_DELTA - 1 <= x <= MAX_DELTA + 4,
                -MAX_DELTA - 1 <= y <= MAX_DELTA + 8,
                out | ray(
                    x as int,
                    y as int,
                    dx as int,
                    dy as int,
                    (dist - i) as nat,
                    board,
                    field,
                    starty >= 4,
                ) == before | whole,
            decreases dist - i,
        {
            proof {
                lemma_or32_laws(
                    out,
                    square_bit(x as int, y as int),
                    ray(
                        x + dx,
                        y + dy,
                        dx as int,
                        dy as int,
                        (dist - i - 1) as nat,
                        board,
                        field,
                        starty >= 4,
                    ),
                );
            }
            out |= 1u32 << ((x + y * 4) as u32);
            x += dx;
            y += dy;
            i += 1;
        }
        if within_board(x, y) && i < dist && (field || ((y >= 4) != (starty >= 4))) {
            out |= 1u32 << ((x + y * 4) as u32);
        } else {
            proof {
                lemma_or32_laws(out, 0, 0);
            }
        }
        n += 1;
    }
    out
}

/// Whether a slide that stands on `(x, y)` and moves by `(dx, dy)` has
/// left `(x0, y0)` behind for good.
pub open spec fn ahead(x: int, y: int, dx: int, dy: int, x0: int, y0: int) -> bool {
    (dx > 0 && x > x0) || (dx < 0 && x < x0) || (dy > 0 && y > y0) || (dy < 0 && y < y0)
}

/// A slide never comes back to a square that it has left behind.
pub proof fn lemma_ray_misses(
    x: int,
    y: int,
    dx: int,
    dy: int,
    steps: nat,
    board: u32,
    field: bool,
    from_high: bool,
    x0: int,
    y0: int,
)
    requires
        on_board(x0, y0),
        ahead(x, y, dx, dy, x0, y0),
    ensures
        !bit32(ray(x, y, dx, dy, steps, board, field, from_high), x0 + 4 * y0),
    decreases steps,
{
    lemma_bit32_single(0);
    if steps != 0 && on_board(x, y) {
        lemma_bit32_single((x + 4 * y) as u32);
        let rest = ray(x + dx, y + dy, dx, dy, (steps - 1) as nat, board, field, from_high);
        lemma_ray_misses(x + dx, y + dy, dx, dy, (steps - 1) as nat, board, field, from_high, x0, y0);
        lemma_bit32_ops(square_bit(x, y), rest);
    }
}

/// Whether no direction in `deltas` stands still.
pub open spec fn deltas_move(deltas: Seq<(isize, isize)>) -> bool {
    forall|i: int| 0 <= i < deltas.len() ==> (#[trigger] deltas[i]).0 != 0 || deltas[i].1 != 0
}

/// A piece never reaches the square that it stands on.
pub proof fn lemma_attack_misses_origin(
    sq: int,
    dist: nat,
    deltas: Seq<(isize, isize)>,
    board: u32,
    field: bool,
    n: int,
)
    requires
        0 <= sq < 32,
        0 <= n <= deltas.len(),
        deltas_move(deltas),
    ensures
        !bit32(attack_upto(sq, dist, deltas, board, field, n), sq),
        attack_upto(sq, dist, deltas, board, field, n) != u32::MAX,
    decreases n,
{
    lemma_bit32_single(0);
    if n > 0 {
        let d = deltas[n - 1];
        lemma_attack_misses_origin(sq, dist, deltas, board, field, n - 1);
        lemma_ray_misses(
            sq % 4 + d.0,
            sq / 4 + d.1,
            d.0 as int,
            d.1 as int,
            dist,
            board,
            field,
            sq / 4 >= 4,
            sq % 4,
            sq / 4,
        );
        lemma_bit32_ops(
            attack_upto(sq, dist, deltas, board, field, n - 1),
            ray(
                sq % 4 + d.0,
                sq / 4 + d.1,
                d.0 as int,
                d.1 as int,
                dist,
                board,
                field,
                sq / 4 >= 4,
            ),
        );
    }
    assert(bit32(!0u32, sq)) by {
        lemma_bit32_ops(0, 0);
    }
    assert(!0u32 == u32::MAX) by (bit_vector);
}

/// Number of movement rules: the pawn's, and four for sliding pieces.
pub const PIECES: usize = 5;

/// Index of the pawn's rule.
pub const PAWN: usize = 0;

/// Index of the drone's rule.
pub const DRONE: usize = 1;

/// Index of the rule of a drone that may land on its own side's pieces.
pub const FIELD_DRONE: usize = 2;

/// Index of the queen's rule along rows and diagonals.
pub const QUEEN1: usize = 3;

/// Index of the queen's rule along columns.
pub const QUEEN2: usize = 4;

/// How many steps a slide under rule `piece` may take.
pub open spec fn piece_dist(piece: int) -> nat {
    if piece == PAWN {
        1
    } else if piece == DRONE || piece == FIELD_DRONE {
        2
    } else {
        9
    }
}

/// The directions, as column and row steps, that rule `piece` slides along.
pub open spec fn piece_deltas(piece: int) -> Seq<(isize, isize)> {
    if piece == PAWN {
        seq![(-1isize, -1isize), (1isize, -1isize), (-1isize, 1isize), (1isize, 1isize)]
    } else if piece == DRONE || piece == FIELD_DRONE {
        seq![(-1isize, 0isize), (0isize, -1isize), (1isize, 0isize), (0isize, 1isize)]
    } else if piece == QUEEN1 {
        seq![
            (-1isize, 0isize),
            (1isize, 0isize),
            (-1isize, -1isize),
            (1isize, -1isize),
            (-1isize, 1isize),
            (1isize, 1isize),
        ]
    } else {
        seq![(0isize, -1isize), (0isize, 1isize)]
    }
}

/// The squares that matter to rule `piece` on `sq`: those it reaches over an
/// empty board.
pub open spec fn piece_mask(piece: int, sq: int) -> u32 {
    attack(sq, piece_dist(piece), piece_deltas(piece), 0, false)
}

/// The squares that rule `piece` reaches from `sq` over the occupancy
/// `board`. Only the field drone may end a slide on a piece in its own half.
pub open spec fn piece_attack(piece: int, sq: int, board: u32) -> u32 {
    attack(sq, piece_dist(piece), piece_deltas(piece), board, piece == FIELD_DRONE)
}

/// The movement rules, by index: for each its reach and its directions.
pub fn piece_properties() -> (props: Vec<(usize, Vec<(isize, isize)>)>)
    ensures
        props.len() == PIECES,
        forall|p: int|
            0 <= p < PIECES ==> (#[trigger] props[p]).0 == piece_dist(p) && props[p].1@
                == piece_deltas(p),
        forall|p: int| 0 <= p < PIECES ==> deltas_ok(#[trigger] piece_deltas(p)),
{
    let diagonal: Vec<(isize, isize)> = vec![(-1, -1), (1, -1), (-1, 1), (1, 1)];
    let straight: Vec<(isize, isize)> = vec![(-1, 0), (0, -1), (1, 0), (0, 1)];
    let field: Vec<(isize, isize)> = vec![(-1, 0), (0, -1), (1, 0), (0, 1)];
    let wide: Vec<(isize, isize)> = vec![(-1, 0), (1, 0), (-1, -1), (1, -1), (-1, 1), (1, 1)];
    let column: Vec<(isize, isize)> = vec![(0, -1), (0, 1)];
    proof {
        assert(diagonal@ =~= piece_deltas(0));
        assert(straight@ =~= piece_deltas(1));
        assert(field@ =~= piece_deltas(2));
        assert(wide@ =~= piece_deltas(3));
        assert(column@ =~= piece_deltas(4));
    }
    let props: Vec<(usize, Vec<(isize, isize)>)> = vec![
        (1, diagonal),
        (2, straight),
        (2, field),
        (9, wide),
        (9, column),
    ];
    props
}

/// For each rule and each square, the squares that matter to the rule there.
pub fn gen_masks() -> (out: Vec<Vec<u32>>)
    ensures
        out.len() == PIECES,
        forall|p: int| 0 <= p < PIECES ==> (#[trigger] out[p]).len() == 32,
        forall|p: int, sq: int|
            0 <= p < PIECES && 0 <= sq < 32 ==> #[trigger] out[p][sq] == piece_mask(p, sq),
{
    let props = piece_properties();
    let mut out: Vec<Vec<u32>> = Vec::new();
    let mut p: usize = 0;
    while p < PIECES
        invariant
            0 <= p <= PIECES,
            props.len() == PIECES,
            forall|q: int|
                0 <= q < PIECES ==> (#[trigger] props[q]).0 == piece_dist(q) && props[q].1@
                    == piece_deltas(q),
            forall|q: int| 0 <= q < PIECES ==> deltas_ok(#[trigger] piece_deltas(q)),
            out.len() == p,
            forall|q: int| 0 <= q < p ==> (#[trigger] out[q]).len() == 32,
            forall|q: int, sq: int|
                0 <= q < p && 0 <= sq < 32 ==> #[trigger] out[q][sq] == piece_mask(q, sq),
        decreases PIECES - p,
    {
        let mut o: Vec<u32> = Vec::new();
        let mut sq: usize = 0;
        assert(deltas_ok(piece_deltas(p as int)));
        while sq < 32
            invariant
                0 <= sq <= 32,
                0 <= p < PIECES,
                props.len() == PIECES,
                props[p as int].0 == piece_dist(p as int),
                props[p as int].1@ == piece_deltas(p as int),
                deltas_ok(piece_deltas(p as int)),
                o.len() == sq,
                forall|s: int| 0 <= s < sq ==> #[trigger] o[s] == piece_mask(p as int, s),
            decreases 32 - sq,
        {
            o.push(gen_att(sq, props[p].0, &props[p].1, 0, false));
            sq += 1;
        }
        out.push(o);
        p += 1;
    }
    out
}

/// The table slot that the occupancy `occ` falls into under the multiplier
/// `magic`: the upper bits of their product, which wraps at 32 bits.
pub open spec fn slot(occ: u32, magic: u32, shift: int) -> int {
    (occ.wrapping_mul(magic) >> (shift as u32)) as int
}

/// Whether `magic` sends no two occupancies of `occ_att` that differ in
/// their attack sets to one slot.
pub open spec fn collision_free(occ_att: Seq<(u32, u32)>, magic: u32, shift: int) -> bool {
    forall|i: int, j: int|
        0 <= i < occ_att.len() && 0 <= j < occ_att.len() && slot(
            (#[trigger] occ_att[i]).0,
            magic,
            shift,
        ) == slot((#[trigger] occ_att[j]).0, magic, shift) ==> occ_att[i].1 == occ_att[j].1
}

/// Whether no word of `table` differs from `u32::MAX`.
pub open spec fn all_free(table: Seq<u32>) -> bool {
    forall|i: int| 0 <= i < table.len() ==> #[trigger] table[i] == u32::MAX
}

/// Tries the multiplier `magic` on the pairs of occupancy and attack set in
/// `occ_att`, in a table with `1 << bits` slots that are all free, for up to
/// 32 bits where the machine can hold such a table. A failed
/// trial leaves the table free again. A trial that succeeds leaves in the
/// table the attack set of each occupancy in its slot, and in `changed`
/// the slots in the order of the occupancies; the other slots stay free.
pub fn test_magic(
    table: &mut Vec<u32>,
    changed: &mut Vec<usize>,
    occ_att: &Vec<(u32, u32)>,
    bits: usize,
    magic: u32,
) -> (ok: bool)
    requires
        1 <= bits <= 32,
        old(table).len() == 1u64 << (bits as u64),
        all_free(old(table)@),
        old(changed).len() >= occ_att.len(),
        forall|i: int| 0 <= i < occ_att.len() ==> (#[trigger] occ_att[i]).1 != u32::MAX,
    ensures
        ok == collision_free(occ_att@, magic, 32 - bits),
        final(table).len() == old(table).len(),
        final(changed).len() == old(changed).len(),
        !ok ==> all_free(final(table)@),
        ok ==> forall|i: int|
            0 <= i < occ_att.len() ==> final(table)[slot(
                (#[trigger] occ_att[i]).0,
                magic,
                32 - bits,
            )] == occ_att[i].1,
        ok ==> forall|i: int|
            0 <= i < occ_att.len() ==> #[trigger] final(changed)[i] == slot(
                occ_att[i].0,
                magic,
                32 - bits,
            ),
        ok ==> forall|ind: int|
            0 <= ind < final(table).len() && #[trigger] final(table)[ind] != u32::MAX ==> exists|
                k: int,
            |
                0 <= k < occ_att.len() && #[trigger] final(changed)[k] == ind,
{
    let shift: u32 = (32 - bits) as u32;
    let mut n: usize = 0;
    while n < occ_att.len()
        invariant
            0 <= n <= occ_att.len(),
            1 <= bits <= 32,
            shift == 32 - bits,
            table.len() == 1u64 << (bits as u64),
            table.len() == old(table).len(),
            changed.len() == old(changed).len(),
            changed.len() >= occ_att.len(),
            forall|i: int| 0 <= i < occ_att.len() ==> (#[trigger] occ_att[i]).1 != u32::MAX,
            forall|k: int|
                0 <= k < n ==> #[trigger] changed[k] == slot(occ_att[k].0, magic, 32 - bits),
            forall|k: int|
                0 <= k < n ==> 0 <= slot((#[trigger] occ_att[k]).0, magic, 32 - bits)
                    < table.len() && table[slot(occ_att[k].0, magic, 32 - bits)] == occ_att[k].1,
            forall|ind: int|
                0 <= ind < table.len() && #[trigger] table[ind] != u32::MAX ==> exists|k: int|
                    0 <= k < n && #[trigger] changed[k] == ind,
        decreases occ_att.len() - n,
    {
        let (occ, att) = occ_att[n];
        proof {
            lemma_slots(occ.wrapping_mul(magic), 32 - bits);
        }
        let ind = (occ.wrapping_mul(magic) >> shift) as usize;
        let ghost marks = changed@;
        changed.set(n, ind);
        if table[ind] == u32::MAX {
            let ghost prior = table@;
            table.set(ind, att);
            proof {
                assert forall|j: int|
                    0 <= j < table.len() && #[trigger] table[j] != u32::MAX implies exists|
                    k: int,
                |
                    0 <= k < n + 1 && #[trigger] changed[k] == j by {
                    if j == ind {
                        assert(changed[n as int] == j);
                    } else {
                        assert(prior[j] != u32::MAX);
                        let k = choose|k: int| 0 <= k < n && #[trigger] marks[k] == j;
                        assert(changed[k] == j);
                    }
                }
            }
        } else if table[ind] != att {
            proof {
                let k = choose|k: int| 0 <= k < n && #[trigger] marks[k] == ind as int;
                assert(table[slot(occ_att[k].0, magic, 32 - bits)] == occ_att[k].1);
                assert(occ_att[k].1 != occ_att[n as int].1);
                assert(slot(occ_att[k].0, magic, 32 - bits) == slot(
                    occ_att[n as int].0,
                    magic,
                    32 - bits,
                ));
                assert forall|j: int|
                    0 <= j < table.len() && #[trigger] table[j] != u32::MAX implies exists|
                    k: int,
                |
                    0 <= k < n + 1 && #[trigger] changed[k] == j by {
                    let k = choose|k: int| 0 <= k < n && #[trigger] marks[k] == j;
                    assert(changed[k] == j);
                }
            }
            let mut i: usize = 0;
            while i < n + 1
                invariant
                    0 <= i <= n + 1,
                    n < occ_att.len(),
                    table.len() == old(table).len(),
                    changed.len() == old(changed).len(),
                    changed.len() >= occ_att.len(),
                    forall|k: int| 0 <= k < n + 1 ==> 0 <= #[trigger] changed[k] < table.len(),
                    forall|j: int|
                        0 <= j < table.len() && #[trigger] table[j] != u32::MAX ==> exists|
                            k: int,
                        |
                            i <= k < n + 1 && #[trigger] changed[k] == j,
                decreases n + 1 - i,
            {
                let ghost prior = table@;
                table.set(changed[i], u32::MAX);
                proof {
                    assert forall|j: int|
                        0 <= j < table.len() && #[trigger] table[j] != u32::MAX implies exists|
                        k: int,
                    |
                        i + 1 <= k < n + 1 && #[trigger] changed[k] == j by {
                        assert(prior[j] != u32::MAX);
                        let k = choose|k: int| i <= k < n + 1 && #[trigger] changed[k] == j;
                        assert(k != i);
                    }
                }
                i += 1;
            }
            return false;
        } else {
            proof {
                assert forall|j: int|
                    0 <= j < table.len() && #[trigger] table[j] != u32::MAX implies exists|
                    k: int,
                |
                    0 <= k < n + 1 && #[trigger] changed[k] == j by {
                    let k = choose|k: int| 0 <= k < n && #[trigger] marks[k] == j;
                    assert(changed[k] == j);
                }
            }
        }
        n += 1;
    }
    true
}

/// Builds the table with `1 << bits` slots that holds, in the slot of each
/// occupancy of `occ_att` under `magic`, the attack set listed with it.
/// Where two occupancies share a slot the later one stays; a slot that no
/// occupancy falls into holds the empty set.
pub fn gen_magic_table(occ_att: &Vec<(u32, u32)>, bits: usize, magic: u32) -> (table: Vec<u32>)
    requires
        1 <= bits <= 31,
    ensures
        table.len() == 1u32 << (bits as u32),
        forall|k: int|
            0 <= k < occ_att.len() ==> 0 <= slot((#[trigger] occ_att[k]).0, magic, 32 - bits)
                < table.len(),
        forall|k: int|
            0 <= k < occ_att.len() && (forall|j: int|
                k < j < occ_att.len() ==> slot((#[trigger] occ_att[j]).0, magic, 32 - bits)
                    != slot(occ_att[k].0, magic, 32 - bits)) ==> table[slot(
                (#[trigger] occ_att[k]).0,
                magic,
                32 - bits,
            )] == occ_att[k].1,
        forall|ind: int|
            0 <= ind < table.len() && (forall|j: int|
                0 <= j < occ_att.len() ==> slot((#[trigger] occ_att[j]).0, magic, 32 - bits)
                    != ind) ==> #[trigger] table[ind] == 0,
        collision_free(occ_att@, magic, 32 - bits) ==> forall|k: int|
            0 <= k < occ_att.len() ==> table[slot((#[trigger] occ_att[k]).0, magic, 32 - bits)]
                == occ_att[k].1,
{
    let shift: u32 = (32 - bits) as u32;
    let size: usize = (1u32 << (bits as u32)) as usize;
    let mut table: Vec<u32> = vec![0u32; size];
    let mut n: usize = 0;
    while n < occ_att.len()
        invariant
            0 <= n <= occ_att.len(),
            1 <= bits <= 31,
            shift == 32 - bits,
            table.len() == 1u32 << (bits as u32),
            forall|k: int|
                0 <= k < n ==> 0 <= slot((#[trigger] occ_att[k]).0, magic, 32 - bits)
                    < table.len(),
            forall|k: int|
                0 <= k < n && (forall|j: int|
                    k < j < n ==> slot((#[trigger] occ_att[j]).0, magic, 32 - bits) != slot(
                        occ_att[k].0,
                        magic,
                        32 - bits,
                    )) ==> table[slot((#[trigger] occ_att[k]).0, magic, 32 - bits)]
                    == occ_att[k].1,
            forall|ind: int|
                0 <= ind < table.len() && (forall|j: int|
                    0 <= j < n ==> slot((#[trigger] occ_att[j]).0, magic, 32 - bits) != ind)
                    ==> #[trigger] table[ind] == 0,
            collision_free(occ_att@, magic, 32 - bits) ==> forall|k: int|
                0 <= k < n ==> table[slot((#[trigger] occ_att[k]).0, magic, 32 - bits)]
                    == occ_att[k].1,
        decreases occ_att.len() - n,
    {
        let (occ, att) = occ_att[n];
        proof {
            lemma_shift32_bound(occ.wrapping_mul(magic), 32 - bits);
        }
        let ind = (occ.wrapping_mul(magic) >> shift) as usize;
        let ghost prior = table@;
        table.set(ind, att);
        proof {
            assert(slot(occ_att[n as int].0, magic, 32 - bits) == ind);
            assert forall|k: int|
                0 <= k < n + 1 && (forall|j: int|
                    k < j < n + 1 ==> slot((#[trigger] occ_att[j]).0, magic, 32 - bits) != slot(
                        occ_att[k].0,
                        magic,
                        32 - bits,
                    )) implies table[slot((#[trigger] occ_att[k]).0, magic, 32 - bits)]
                == occ_att[k].1 by {
                if k < n {
                    assert(slot(occ_att[n as int].0, magic, 32 - bits) != slot(
                        occ_att[k].0,
                        magic,
                        32 - bits,
                    ));
                    assert(prior[slot(occ_att[k].0, magic, 32 - bits)] == occ_att[k].1);
                }
            }
            assert forall|i: int|
                0 <= i < table.len() && (forall|j: int|
                    0 <= j < n + 1 ==> slot((#[trigger] occ_att[j]).0, magic, 32 - bits) != i)
                implies #[trigger] table[i] == 0 by {
                assert(slot(occ_att[n as int].0, magic, 32 - bits) != i);
                assert(prior[i] == 0);
            }
        }
        n += 1;
    }
    table
}

/// `rand::random::<u32>()` draws a word from the thread's random number
/// generator. Nothing is claimed of the word.
#[verifier::external_body]
fn random_u32() -> u32 {
    rand::random::<u32>()
}

/// How many multipliers `gen_magic` draws before it gives up.
pub const MAGIC_TRIES: u64 = 10_000_000;

/// Whether no multiplier at all sends two occupancies of `occ_att` that
/// differ in their attack sets to one slot: the list is such that the
/// search for a multiplier cannot fail.
pub open spec fn always_free(occ_att: Seq<(u32, u32)>, shift: int) -> bool {
    forall|magic: u32| #[trigger] collision_free(occ_att, magic, shift)
}

/// Searches at random for a multiplier that sends no two occupancies of
/// `occ_att` with different attack sets to one of `1 << bits` slots. Sparse
/// words are drawn, each the conjunction of four random words, and each is
/// tried once; the first that is free of collisions is returned. The search
/// gives up after `MAGIC_TRIES` draws, each of which collided: where no
/// multiplier can collide, it does not fail.
pub fn gen_magic(occ_att: &Vec<(u32, u32)>, bits: usize) -> (found: Option<u32>)
    requires
        1 <= bits <= 31,
        forall|i: int| 0 <= i < occ_att.len() ==> (#[trigger] occ_att[i]).1 != u32::MAX,
    ensures
        found matches Some(magic) ==> collision_free(occ_att@, magic, 32 - bits),
        always_free(occ_att@, 32 - bits) ==> found is Some,
{
    let size: usize = (1u32 << (bits as u32)) as usize;
    let mut table: Vec<u32> = vec![u32::MAX; size];
    let mut changed: Vec<usize> = vec![0usize; occ_att.len()];
    let mut tries: u64 = 0;
    proof {
        lemma_slots(0, 32 - bits);
    }
    while tries < MAGIC_TRIES
        invariant
            1 <= bits <= 31,
            table.len() == 1u64 << (bits as u64),
            all_free(table@),
            changed.len() == occ_att.len(),
            forall|i: int| 0 <= i < occ_att.len() ==> (#[trigger] occ_att[i]).1 != u32::MAX,
            tries > 0 ==> !always_free(occ_att@, 32 - bits),
        decreases MAGIC_TRIES - tries,
    {
        let magic = random_u32() & random_u32() & random_u32() & random_u32();
        if test_magic(&mut table, &mut changed, occ_att, bits, magic) {
            return Some(magic);
        }
        assert(!collision_free(occ_att@, magic, 32 - bits));
        tries += 1;
    }
    None
}

/// A slide reads the occupancy only on squares that it covers on an empty
/// board: squares outside of `mask`, which holds those, do not matter.
pub proof fn lemma_ray_reads_mask(
    x: int,
    y: int,
    dx: int,
    dy: int,
    steps: nat,
    board: u32,
    field: bool,
    from_high: bool,
    mask: u32,
)
    requires
        forall|j: int| bit32(ray(x, y, dx, dy, steps, 0, false, from_high), j) ==> bit32(mask, j),
    ensures
        ray(x, y, dx, dy, steps, board & mask, field, from_high) == ray(
            x,
            y,
            dx,
            dy,
            steps,
            board,
            field,
            from_high,
        ),
    decreases steps,
{
    if steps != 0 && on_board(x, y) {
        let k = x + 4 * y;
        let rest = ray(x + dx, y + dy, dx, dy, (steps - 1) as nat, 0, false, from_high);
        lemma_or32_laws(square_bit(x, y), 0, 0);
        lemma_bit32_single(k as u32);
        lemma_bit32_ops(square_bit(x, y), rest);
        assert(bit32(square_bit(x, y) | rest, k));
        assert(bit32(mask, k));
        lemma_bit32_ops(board, mask);
        lemma_bit32_probe(board, k);
        lemma_bit32_probe(board & mask, k);
        assert forall|j: int| bit32(rest, j) implies bit32(mask, j) by {
            assert(bit32(square_bit(x, y) | rest, j));
        }
        lemma_ray_reads_mask(
            x + dx,
            y + dy,
            dx,
            dy,
            (steps - 1) as nat,
            board,
            field,
            from_high,
            mask,
        );
    }
}

/// What a piece reaches depends on the occupancy of its mask alone.
pub proof fn lemma_attack_reads_mask(
    sq: int,
    dist: nat,
    deltas: Seq<(isize, isize)>,
    board: u32,
    field: bool,
    mask: u32,
    n: int,
)
    requires
        0 <= n <= deltas.len(),
        forall|j: int| bit32(attack_upto(sq, dist, deltas, 0, false, n), j) ==> bit32(mask, j),
    ensures
        attack_upto(sq, dist, deltas, board & mask, field, n) == attack_upto(
            sq,
            dist,
            deltas,
            board,
            field,
            n,
        ),
    decreases n,
{
    if n > 0 {
        let d = deltas[n - 1];
        let before = attack_upto(sq, dist, deltas, 0, false, n - 1);
        let last = ray(sq % 4 + d.0, sq / 4 + d.1, d.0 as int, d.1 as int, dist, 0, false, sq / 4 >= 4);
        lemma_bit32_ops(before, last);
        assert forall|j: int| bit32(before, j) implies bit32(mask, j) by {
            assert(bit32(before | last, j));
        }
        assert forall|j: int| bit32(last, j) implies bit32(mask, j) by {
            assert(bit32(before | last, j));
        }
        lemma_attack_reads_mask(sq, dist, deltas, board, field, mask, n - 1);
        lemma_ray_reads_mask(
            sq % 4 + d.0,
            sq / 4 + d.1,
            d.0 as int,
            d.1 as int,
            dist,
            board,
            field,
            sq / 4 >= 4,
            mask,
        );
    }
}

/// What rule `piece` reaches from `sq` over `board` is what it reaches over
/// the part of `board` within its mask.
pub proof fn lemma_piece_attack_masked(piece: int, sq: int, board: u32)
    ensures
        piece_attack(piece, sq, board & piece_mask(piece, sq)) == piece_attack(piece, sq, board),
{
    lemma_attack_reads_mask(
        sq,
        piece_dist(piece),
        piece_deltas(piece),
        board,
        piece == FIELD_DRONE,
        piece_mask(piece, sq),
        piece_deltas(piece).len() as int,
    );
}

/// A slide that may not stop on pieces of its own half covers an occupied
/// square only in the other half.
pub proof fn lemma_ray_captures(
    x: int,
    y: int,
    dx: int,
    dy: int,
    steps: nat,
    board: u32,
    from_high: bool,
    j: int,
)
    requires
        bit32(ray(x, y, dx, dy, steps, board, false, from_high), j),
        bit32(board, j),
    ensures
        0 <= j < 32,
        (j / 4 >= 4) != from_high,
    decreases steps,
{
    lemma_bit32_single(0);
    if steps != 0 && on_board(x, y) {
        let k = x + 4 * y;
        lemma_bit32_single(k as u32);
        lemma_bit32_probe(board, k);
        if board & square_bit(x, y) == 0 {
            let rest = ray(x + dx, y + dy, dx, dy, (steps - 1) as nat, board, false, from_high);
            lemma_bit32_ops(square_bit(x, y), rest);
            lemma_ray_captures(x + dx, y + dy, dx, dy, (steps - 1) as nat, board, from_high, j);
        }
    }
}

/// A piece that may not stop on pieces of its own half reaches an occupied
/// square only in the other half than the one it stands in.
pub proof fn lemma_attack_captures(
    sq: int,
    dist: nat,
    deltas: Seq<(isize, isize)>,
    board: u32,
    n: int,
    j: int,
)
    requires
        0 <= sq < 32,
        0 <= n <= deltas.len(),
        bit32(attack_upto(sq, dist, deltas, board, false, n), j),
        bit32(board, j),
    ensures
        0 <= j < 32,
        (j >= 16) != (sq >= 16),
    decreases n,
{
    lemma_bit32_single(0);
    if n > 0 {
        let d = deltas[n - 1];
        let before = attack_upto(sq, dist, deltas, board, false, n - 1);
        let last = ray(
            sq % 4 + d.0,
            sq / 4 + d.1,
            d.0 as int,
            d.1 as int,
            dist,
            board,
            false,
            sq / 4 >= 4,
        );
        lemma_bit32_ops(before, last);
        if bit32(before, j) {
            lemma_attack_captures(sq, dist, deltas, board, n - 1, j);
        } else {
            lemma_ray_captures(
                sq % 4 + d.0,
                sq / 4 + d.1,
                d.0 as int,
                d.1 as int,
                dist,
                board,
                sq / 4 >= 4,
                j,
            );
        }
    }
}

/// How many squares a slide can cover at most that stands on `(x, y)` and
/// moves by `(dx, dy)`: those up to the board's edge.
pub open spec fn room(x: int, y: int, dx: int, dy: int) -> int {
    if !on_board(x, y) {
        0
    } else if dx > 0 {
        4 - x
    } else if dx < 0 {
        x + 1
    } else if dy > 0 {
        8 - y
    } else if dy < 0 {
        y + 1
    } else {
        32
    }
}

/// A slide covers no more squares than it has steps, and no more than there
/// are up to the board's edge.
pub proof fn lemma_ray_count(
    x: int,
    y: int,
    dx: int,
    dy: int,
    steps: nat,
    board: u32,
    field: bool,
    from_high: bool,
)
    ensures
        popcount32(ray(x, y, dx, dy, steps, board, field, from_high)) <= steps,
        popcount32(ray(x, y, dx, dy, steps, board, field, from_high)) <= room(x, y, dx, dy),
    decreases steps,
{
    lemma_count32_or(0, 0, 0, 32);
    lemma_count32_bounds(ray(x, y, dx, dy, steps, board, field, from_high), 0, 32);
    if steps != 0 && on_board(x, y) {
        let rest = ray(x + dx, y + dy, dx, dy, (steps - 1) as nat, board, field, from_high);
        lemma_ray_count(x + dx, y + dy, dx, dy, (steps - 1) as nat, board, field, from_high);
        lemma_count32_or(square_bit(x, y), rest, x + 4 * y, 32);
    }
}

/// The most squares that the first `n` directions of `deltas` can cover
/// with slides of up to `dist` steps: for each direction the steps, but no
/// more than three across the board and seven along it.
pub open spec fn span(deltas: Seq<(isize, isize)>, dist: nat, n: int) -> int
    decreases n,
{
    if n <= 0 {
        0
    } else {
        let edge: int = if deltas[n - 1].0 != 0 {
            3
        } else {
            7
        };
        span(deltas, dist, n - 1) + if dist < edge {
            dist as int
        } else {
            edge
        }
    }
}

/// A piece reaches no more squares than its directions span.
pub proof fn lemma_attack_count(
    sq: int,
    dist: nat,
    deltas: Seq<(isize, isize)>,
    board: u32,
    field: bool,
    n: int,
)
    requires
        0 <= sq < 32,
        0 <= n <= deltas.len(),
        deltas_move(deltas),
    ensures
        popcount32(attack_upto(sq, dist, deltas, board, field, n)) <= span(deltas, dist, n),
    decreases n,
{
    lemma_count32_or(0, 0, 0, 32);
    if n > 0 {
        let d = deltas[n - 1];
        let before = attack_upto(sq, dist, deltas, board, field, n - 1);
        let last = ray(
            sq % 4 + d.0,
            sq / 4 + d.1,
            d.0 as int,
            d.1 as int,
            dist,
            board,
            field,
            sq / 4 >= 4,
        );
        lemma_attack_count(sq, dist, deltas, board, field, n - 1);
        lemma_ray_count(
            sq % 4 + d.0,
            sq / 4 + d.1,
            d.0 as int,
            d.1 as int,
            dist,
            board,
            field,
            sq / 4 >= 4,
        );
        lemma_count32_or(before, last, 0, 32);
    }
}

/// Widest mask of a sliding rule, in set bits: the queen's along rows and
/// diagonals, of six directions with up to three squares each.
pub const MAX_MASK_BITS: u32 = 18;

/// No sliding rule has on any square a mask wider than `MAX_MASK_BITS`.
pub proof fn lemma_mask_bits(piece: int, sq: int)
    requires
        DRONE <= piece < PIECES,
        0 <= sq < 32,
    ensures
        popcount32(piece_mask(piece, sq)) <= MAX_MASK_BITS,
{
    let deltas = piece_deltas(piece);
    lemma_attack_count(sq, piece_dist(piece), deltas, 0, false, deltas.len() as int);
    assert(span(deltas, piece_dist(piece), deltas.len() as int) <= MAX_MASK_BITS) by {
        reveal_with_fuel(span, 7);
    }
}

/// Whether `list` pairs every occupancy within the mask of rule `piece` on
/// `sq`, in counting order, with the squares that the rule reaches over it.
pub open spec fn occ_att_ok(list: Seq<(u32, u32)>, piece: int, sq: int) -> bool {
    &&& list.len() == 1u32 << (popcount32(piece_mask(piece, sq)) as u32)
    &&& forall|i: int|
        0 <= i < list.len() ==> (#[trigger] list[i]).0 == spread(i as u32, piece_mask(piece, sq))
            && list[i].1 == piece_attack(piece, sq, list[i].0)
}

/// The list that pairs every occupancy within the mask of rule `piece` on
/// `sq`, in counting order, with the squares that the rule reaches over it.
pub open spec fn occ_att_list(piece: int, sq: int) -> Seq<(u32, u32)> {
    Seq::new(
        (1u32 << (popcount32(piece_mask(piece, sq)) as u32)) as nat,
        |i: int|
            (
                spread(i as u32, piece_mask(piece, sq)),
                piece_attack(piece, sq, spread(i as u32, piece_mask(piece, sq))),
            ),
    )
}

/// There is one list that `occ_att_ok` holds of.
pub proof fn lemma_occ_att_list(list: Seq<(u32, u32)>, piece: int, sq: int)
    requires
        occ_att_ok(list, piece, sq),
    ensures
        list == occ_att_list(piece, sq),
{
    assert(list =~= occ_att_list(piece, sq));
}

/// The shift that goes with a multiplier for rule `piece` on `sq`: it
/// leaves the product one bit more than the mask has squares.
pub open spec fn magic_shift(piece: int, sq: int) -> int {
    31 - popcount32(piece_mask(piece, sq))
}

/// Whether some multiplier sends two occupancies of rule `piece` on `sq`
/// that differ in their attack sets to one slot: whether the search for a
/// multiplier can fail there.
pub open spec fn may_collide(piece: int, sq: int) -> bool {
    !always_free(occ_att_list(piece, sq), magic_shift(piece, sq))
}

/// For each sliding rule and each square, every occupancy of the rule's mask
/// there with the squares reached over it.
pub fn gen_occ_att() -> (out: Vec<Vec<Vec<(u32, u32)>>>)
    ensures
        out.len() == PIECES - 1,
        forall|p: int| DRONE <= p < PIECES ==> (#[trigger] out[p - 1]).len() == 32,
        forall|p: int, sq: int|
            DRONE <= p < PIECES && 0 <= sq < 32 ==> occ_att_ok(#[trigger] out[p - 1][sq]@, p, sq),
{
    let masks = gen_masks();
    let props = piece_properties();
    let mut out: Vec<Vec<Vec<(u32, u32)>>> = Vec::new();
    let mut piece: usize = 1;
    while piece < PIECES
        invariant
            1 <= piece <= PIECES,
            props.len() == PIECES,
            forall|q: int|
                0 <= q < PIECES ==> (#[trigger] props[q]).0 == piece_dist(q) && props[q].1@
                    == piece_deltas(q),
            forall|q: int| 0 <= q < PIECES ==> deltas_ok(#[trigger] piece_deltas(q)),
            masks.len() == PIECES,
            forall|q: int| 0 <= q < PIECES ==> (#[trigger] masks[q]).len() == 32,
            forall|q: int, s: int|
                0 <= q < PIECES && 0 <= s < 32 ==> #[trigger] masks[q][s] == piece_mask(q, s),
            out.len() == piece - 1,
            forall|q: int| 1 <= q < piece ==> (#[trigger] out[q - 1]).len() == 32,
            forall|q: int, s: int|
                1 <= q < piece && 0 <= s < 32 ==> occ_att_ok(#[trigger] out[q - 1][s]@, q, s),
        decreases PIECES - piece,
    {
        let mut pout: Vec<Vec<(u32, u32)>> = Vec::new();
        let mut sq: usize = 0;
        assert(deltas_ok(piece_deltas(piece as int)));
        while sq < 32
            invariant
                0 <= sq <= 32,
                1 <= piece < PIECES,
                props.len() == PIECES,
                props[piece as int].0 == piece_dist(piece as int),
                props[piece as int].1@ == piece_deltas(piece as int),
                deltas_ok(piece_deltas(piece as int)),
                masks.len() == PIECES,
                masks[piece as int].len() == 32,
                forall|s: int|
                    0 <= s < 32 ==> #[trigger] masks[piece as int][s] == piece_mask(
                        piece as int,
                        s,
                    ),
                pout.len() == sq,
                forall|s: int| 0 <= s < sq ==> occ_att_ok(#[trigger] pout[s]@, piece as int, s),
            decreases 32 - sq,
        {
            let mask = masks[piece][sq];
            let count = mask.count_ones();
            proof {
                lemma_mask_bits(piece as int, sq as int);
            }
            let size: usize = (1u32 << count) as usize;
            let mut sout: Vec<(u32, u32)> = Vec::new();
            let mut i: usize = 0;
            while i < size
                invariant
                    0 <= i <= size,
                    size == 1u32 << count,
                    sq < 32,
                    1 <= piece < PIECES,
                    props.len() == PIECES,
                    props[piece as int].0 == piece_dist(piece as int),
                    props[piece as int].1@ == piece_deltas(piece as int),
                    deltas_ok(piece_deltas(piece as int)),
                    mask == piece_mask(piece as int, sq as int),
                    sout.len() == i,
                    forall|k: int|
                        0 <= k < i ==> (#[trigger] sout[k]).0 == spread(k as u32, mask) && sout[k].1
                            == piece_attack(piece as int, sq as int, sout[k].0),
                decreases size - i,
            {
                let board = num_to_mask(i as u32, mask);
                let att = gen_att(sq, props[piece].0, &props[piece].1, board, piece == FIELD_DRONE);
                sout.push((board, att));
                i += 1;
            }
            pout.push(sout);
            sq += 1;
        }
        out.push(pout);
        piece += 1;
    }
    out
}

/// The set that a table entry answers for the occupancy `occ`: the word in
/// the slot that `occ`, cut down to the entry's mask, falls into.
pub open spec fn lookup(entry: (u32, u32, usize, Vec<u32>), occ: u32) -> u32 {
    entry.3[slot(occ & entry.0, entry.1, entry.2 as int)]
}

/// Whether `entry`, made of a mask, a multiplier, a shift and a table, is
/// sound for rule `piece` on `sq`: the mask is the rule's, the table has a
/// slot for each number of one bit more than the mask has squares, and for
/// every occupancy of the board the lookup gives what the rule reaches
/// over it.
pub open spec fn sliding_ok(entry: (u32, u32, usize, Vec<u32>), piece: int, sq: int) -> bool {
    &&& entry.0 == piece_mask(piece, sq)
    &&& entry.2 == magic_shift(piece, sq)
    &&& 1 <= entry.2 <= 31
    &&& entry.3.len() == 1u32 << ((32 - entry.2) as u32)
    &&& forall|occ: u32| #[trigger] lookup(entry, occ) == piece_attack(piece, sq, occ)
}

/// Whether `entries` holds a sound entry for rule `piece` on each square.
pub open spec fn sliding_wf(entries: Seq<(u32, u32, usize, Vec<u32>)>, piece: int) -> bool {
    &&& entries.len() == 32
    &&& forall|sq: int| 0 <= sq < 32 ==> sliding_ok(#[trigger] entries[sq], piece, sq)
}

/// A table built with a multiplier that is free of collisions on the full
/// list of occupancies is sound.
pub proof fn lemma_sliding_ok(
    entry: (u32, u32, usize, Vec<u32>),
    list: Seq<(u32, u32)>,
    piece: int,
    sq: int,
)
    requires
        0 <= sq < 32,
        DRONE <= piece < PIECES,
        occ_att_ok(list, piece, sq),
        entry.0 == piece_mask(piece, sq),
        entry.2 == 32 - (popcount32(entry.0) + 1),
        entry.3.len() == 1u32 << ((32 - entry.2) as u32),
        forall|k: int|
            0 <= k < list.len() ==> 0 <= slot((#[trigger] list[k]).0, entry.1, entry.2 as int)
                < entry.3.len() && entry.3[slot(list[k].0, entry.1, entry.2 as int)] == list[k].1,
    ensures
        sliding_ok(entry, piece, sq),
{
    let mask = entry.0;
    lemma_mask_bits(piece, sq);
    assert forall|occ: u32| #[trigger] lookup(entry, occ) == piece_attack(piece, sq, occ) by {
        lemma_bit32_ops(occ, mask);
        let num = lemma_spread_onto(occ & mask, mask);
        assert(list[num as int].0 == occ & mask);
        lemma_piece_attack_masked(piece, sq, occ);
    }
}

/// For each sliding rule and each square: the rule's mask there, a
/// multiplier found for it, the shift that goes with the multiplier, and the
/// table of attack sets. `None` if no multiplier was found for some
/// square: every multiplier drawn for it collided. Nothing else makes the
/// tables fail.
pub fn gen_sliding_table() -> (out: Option<Vec<Vec<(u32, u32, usize, Vec<u32>)>>>)
    ensures
        out matches Some(v) ==> v.len() == PIECES - 1 && forall|i: int|
            0 <= i < PIECES - 1 ==> sliding_wf(#[trigger] v[i]@, i + 1),
        out is None ==> exists|p: int, sq: int|
            DRONE <= p < PIECES && 0 <= sq < 32 && #[trigger] may_collide(p, sq),
{
    let masks = gen_masks();
    let occ_atts = gen_occ_att();
    let mut out: Vec<Vec<(u32, u32, usize, Vec<u32>)>> = Vec::new();
    let mut piece: usize = 1;
    while piece < PIECES
        invariant
            1 <= piece <= PIECES,
            masks.len() == PIECES,
            forall|q: int| 0 <= q < PIECES ==> (#[trigger] masks[q]).len() == 32,
            forall|q: int, s: int|
                0 <= q < PIECES && 0 <= s < 32 ==> #[trigger] masks[q][s] == piece_mask(q, s),
            occ_atts.len() == PIECES - 1,
            forall|q: int| DRONE <= q < PIECES ==> (#[trigger] occ_atts[q - 1]).len() == 32,
            forall|q: int, s: int|
                DRONE <= q < PIECES && 0 <= s < 32 ==> occ_att_ok(
                    #[trigger] occ_atts[q - 1][s]@,
                    q,
                    s,
                ),
            out.len() == piece - 1,
            forall|i: int| 0 <= i < piece - 1 ==> sliding_wf(#[trigger] out[i]@, i + 1),
        decreases PIECES - piece,
    {
        let mut pout: Vec<(u32, u32, usize, Vec<u32>)> = Vec::new();
        let mut sq: usize = 0;
        while sq < 32
            invariant
                0 <= sq <= 32,
                1 <= piece < PIECES,
                masks.len() == PIECES,
                masks[piece as int].len() == 32,
                forall|s: int|
                    0 <= s < 32 ==> #[trigger] masks[piece as int][s] == piece_mask(
                        piece as int,
                        s,
                    ),
                occ_atts.len() == PIECES - 1,
                occ_atts[piece - 1].len() == 32,
                forall|s: int|
                    0 <= s < 32 ==> occ_att_ok(#[trigger] occ_atts[piece - 1][s]@, piece as int, s),
                pout.len() == sq,
                forall|s: int| 0 <= s < sq ==> sliding_ok(#[trigger] pout[s], piece as int, s),
            decreases 32 - sq,
        {
            let mask = masks[piece][sq];
            let occ_att = &occ_atts[piece - 1][sq];
            proof {
                lemma_mask_bits(piece as int, sq as int);
            }
            assert(occ_att_ok(occ_att@, piece as int, sq as int));
            let bits = mask.count_ones() as usize + 1;
            proof {
                assert forall|i: int| 0 <= i < occ_att.len() implies (#[trigger] occ_att[i]).1
                    != u32::MAX by {
                    lemma_attack_misses_origin(
                        sq as int,
                        piece_dist(piece as int),
                        piece_deltas(piece as int),
                        occ_att[i].0,
                        piece == FIELD_DRONE,
                        piece_deltas(piece as int).len() as int,
                    );
                }
            }
            proof {
                lemma_occ_att_list(occ_att@, piece as int, sq as int);
            }
            let magic = match gen_magic(occ_att, bits) {
                Some(m) => m,
                None => {
                    assert(may_collide(piece as int, sq as int));
                    return None;
                },
            };
            let table = gen_magic_table(occ_att, bits, magic);
            let entry = (mask, magic, 32 - bits, table);
            proof {
                lemma_sliding_ok(entry, occ_att@, piece as int, sq as int);
            }
            pout.push(entry);
            sq += 1;
        }
        out.push(pout);
        piece += 1;
    }
    Some(out)
}

/// The lookup tables of all movement rules.
pub struct Tables {
    /// For each square, where a pawn on it may go.
    pub pawn: Vec<u32>,
    /// For each square, the drone's mask, multiplier, shift and table.
    pub drone: Vec<(u32, u32, usize, Vec<u32>)>,
    /// The same for a drone that may land on pieces of its own side.
    pub field_drone: Vec<(u32, u32, usize, Vec<u32>)>,
    /// The same for the queen along rows and diagonals.
    pub queen1: Vec<(u32, u32, usize, Vec<u32>)>,
    /// The same for the queen along columns.
    pub queen2: Vec<(u32, u32, usize, Vec<u32>)>,
}

impl Tables {
    /// Whether the tables are complete and every lookup in them is sound.
    pub open spec fn wf(&self) -> bool {
        &&& self.pawn.len() == 32
        &&& forall|sq: int| 0 <= sq < 32 ==> #[trigger] self.pawn[sq] == piece_mask(PAWN as int, sq)
        &&& sliding_wf(self.drone@, DRONE as int)
        &&& sliding_wf(self.field_drone@, FIELD_DRONE as int)
        &&& sliding_wf(self.queen1@, QUEEN1 as int)
        &&& sliding_wf(self.queen2@, QUEEN2 as int)
    }

    /// In sound tables every lookup gives what the slow walk over the board
    /// gives: for each sliding rule, each square and each occupancy of the
    /// board, the word in the slot that the occupancy falls into is the set
    /// of squares that the rule reaches; and the pawn's table holds its
    /// diagonal neighbours.
    pub proof fn lemma_lookups(&self, sq: int, occ: u32)
        requires
            self.wf(),
            0 <= sq < 32,
        ensures
            self.pawn[sq] == piece_mask(PAWN as int, sq),
            lookup(self.drone[sq], occ) == piece_attack(DRONE as int, sq, occ),
            lookup(self.field_drone[sq], occ) == piece_attack(FIELD_DRONE as int, sq, occ),
            lookup(self.queen1[sq], occ) == piece_attack(QUEEN1 as int, sq, occ),
            lookup(self.queen2[sq], occ) == piece_attack(QUEEN2 as int, sq, occ),
    {
        assert(sliding_ok(self.drone[sq], DRONE as int, sq));
        assert(sliding_ok(self.field_drone[sq], FIELD_DRONE as int, sq));
        assert(sliding_ok(self.queen1[sq], QUEEN1 as int, sq));
        assert(sliding_ok(self.queen2[sq], QUEEN2 as int, sq));
    }

    /// Builds the tables. The search for multipliers draws random numbers;
    /// `None` is returned if it gave up on some square, where every
    /// multiplier drawn collided, and for nothing else.
    pub fn new() -> (tables: Option<Tables>)
        ensures
            tables matches Some(t) ==> t.wf(),
            tables is None ==> exists|p: int, sq: int|
                DRONE <= p < PIECES && 0 <= sq < 32 && #[trigger] may_collide(p, sq),
    {
        let mut masks = gen_masks();
        let mut sliding = match gen_sliding_table() {
            Some(s) => s,
            None => {
                return None;
            },
        };
        let ghost rules = sliding@;
        assert(sliding_wf(rules[0]@, 1) && sliding_wf(rules[1]@, 2) && sliding_wf(rules[2]@, 3)
            && sliding_wf(rules[3]@, 4));
        let ghost first = masks@[0];
        let queen2 = sliding.remove(3);
        let queen1 = sliding.remove(2);
        let field_drone = sliding.remove(1);
        let drone = sliding.remove(0);
        let pawn = masks.remove(0);
        assert(pawn == first);
        Some(Tables { pawn, drone, field_drone, queen1, queen2 })
    }
}

} // verus!
