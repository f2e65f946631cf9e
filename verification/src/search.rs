//! The search for a move: alpha-beta over the legal moves, with a cache of
//! positions met before, and a search over captures alone where the depth
//! runs out.

use crate::board::Board;
use crate::legal::{
    all_men, lemma_men_bounds, lemma_move_effects, lemma_moves_are_moves, lemma_take_effects,
    lemma_takes_are_takes,
};
use crate::position::{lemma_eval_bounds, lemma_moved_sound, lemma_unmoved_moved, Position, State};
use rand::seq::SliceRandom;
use vstd::multiset::Multiset;
use vstd::prelude::*;

verus! {

/// Number of slots of the cache of positions.
pub const TABLE_SIZE: usize = 1_048_573;

/// The bound, in either direction, of the window that a search starts
/// with. A hundred times the worth of a sound position lies inside it.
pub const WINDOW: i32 = 2_125_000_000;

/// Largest value, in either direction, that the search gives to a position
/// at which it stops.
pub const LEAF_LIMIT: i32 = 2_120_004_800;

/// The larger of two numbers.
pub open spec fn larger(a: int, b: int) -> int {
    if a >= b {
        a
    } else {
        b
    }
}

/// The best that the player to move can get in `s` by standing pat or by
/// one of the first `n` captures, where the opponent answers each capture
/// as well as captures allow.
pub open spec fn quiet_upto(s: State, n: int) -> int
    decreases all_men(s.board), n,
{
    if n <= 0 || n > s.board.takes(s.player).len() {
        s.eval()
    } else {
        let next = s.board.takes(s.player)[n - 1];
        proof {
            lemma_takes_are_takes(s.board, s.player, n - 1);
            lemma_take_effects(s.board, s.player, next);
            lemma_men_bounds(next, false, 32);
            lemma_men_bounds(next, true, 32);
        }
        larger(quiet_upto(s, n - 1), -settled(s.moved(next)))
    }
}

/// The value of `s` for the player to move once the captures have settled:
/// a hundred times the worth of the position where the game is over, and
/// else the best of standing pat and of every capture, each valued by what
/// it leaves to the opponent.
pub open spec fn settled(s: State) -> int
    decreases all_men(s.board), s.board.takes(s.player).len() + 1,
{
    if s.over() {
        s.eval() * 100
    } else {
        quiet_upto(s, s.board.takes(s.player).len() as int)
    }
}

/// What a search with a window gives for the value `v`: the value itself
/// inside the window, the lower bound `a` for a value at or below it, and
/// one more than the upper bound `b` for a value at or above it.
pub open spec fn window(v: int, a: int, b: int) -> int {
    if v >= b {
        b + 1
    } else if v > a {
        v
    } else {
        a
    }
}

/// What the search over captures returns for `s` with the window from `a`
/// to `b`: the settled value as it is where the game is over or no capture
/// can be made, and else the settled value seen through the window.
pub open spec fn quiet_result(s: State, a: int, b: int) -> int {
    if s.over() {
        s.eval() * 100
    } else if s.board.takes(s.player).len() == 0 {
        s.eval()
    } else {
        window(settled(s), a, b)
    }
}

/// What the search over captures returns for `s` once it has tried the
/// captures before the `i`-th and holds `cur` as the best value so far: it
/// tries the rest in their order, each with the window from `cur` to `b`
/// turned round for the opponent, ends with one more than `b` at the first
/// capture worth `b` or more, and else with the best value found.
pub open spec fn quiet_from(s: State, b: int, cur: int, i: int) -> int
    decreases all_men(s.board), s.board.takes(s.player).len() - i,
{
    if i < 0 || i >= s.board.takes(s.player).len() {
        cur
    } else {
        let next = s.board.takes(s.player)[i];
        proof {
            lemma_takes_are_takes(s.board, s.player, i);
            lemma_take_effects(s.board, s.player, next);
            lemma_men_bounds(next, false, 32);
            lemma_men_bounds(next, true, 32);
        }
        let score = -quiet_search(s.moved(next), -b, -cur);
        if score >= b {
            b + 1
        } else {
            quiet_from(s, b, larger(cur, score), i + 1)
        }
    }
}

/// What the search over captures returns for `s` with the window from `a`
/// to `b`, whatever the window: a hundred times the worth of the position
/// where the game is over, the worth where no capture can be made, one
/// more than `b` where the worth is `b` or more, and else what the captures
/// give, tried in their order from the better of `a` and the worth.
pub open spec fn quiet_search(s: State, a: int, b: int) -> int
    decreases all_men(s.board), s.board.takes(s.player).len() + 1,
{
    if s.over() {
        s.eval() * 100
    } else if s.board.takes(s.player).len() == 0 {
        s.eval()
    } else if s.eval() >= b {
        b + 1
    } else {
        quiet_from(s, b, larger(a, s.eval()), 0)
    }
}

/// Whether the result `r` of a search with the window from `a` to `b` tells
/// as much of the value `v` as the window lets through: on which side of
/// each bound the value lies, and the value itself inside.
pub open spec fn agrees(r: int, v: int, a: int, b: int) -> bool {
    &&& r <= a <==> v <= a
    &&& r < b <==> v < b
    &&& a < r < b ==> r == v
}

/// The search over captures is sound: within a window that is not empty
/// its result agrees with the settled value.
pub proof fn lemma_quiet_agrees(s: State, a: int, b: int)
    requires
        a < b,
    ensures
        agrees(quiet_result(s, a, b), settled(s), a, b),
{
}

/// A result at the window's upper bound is the settled value itself.
pub proof fn lemma_quiet_tie(s: State, a: int, b: int)
    requires
        a < b,
        quiet_result(s, a, b) == b,
    ensures
        settled(s) == b,
{
}

/// More captures never lower the best that the player can get.
pub proof fn lemma_quiet_grows(s: State, i: int, n: int)
    requires
        0 <= i <= n <= s.board.takes(s.player).len(),
    ensures
        quiet_upto(s, i) <= quiet_upto(s, n),
    decreases n - i,
{
    if i < n {
        lemma_quiet_grows(s, i, n - 1);
    }
}

/// The best of any number of captures in a sound position is within
/// `LEAF_LIMIT`.
pub proof fn lemma_quiet_bounds(s: State, n: int)
    requires
        s.sound(),
        0 <= n <= s.board.takes(s.player).len(),
    ensures
        -LEAF_LIMIT <= quiet_upto(s, n) <= LEAF_LIMIT,
    decreases all_men(s.board), n,
{
    lemma_eval_bounds(s);
    if n > 0 {
        let next = s.board.takes(s.player)[n - 1];
        lemma_takes_are_takes(s.board, s.player, n - 1);
        lemma_take_effects(s.board, s.player, next);
        lemma_men_bounds(next, false, 32);
        lemma_men_bounds(next, true, 32);
        lemma_moved_sound(s, next);
        let reply = s.moved(next);
        lemma_eval_bounds(reply);
        lemma_quiet_bounds(reply, reply.board.takes(reply.player).len() as int);
        lemma_quiet_bounds(s, n - 1);
        assert(-LEAF_LIMIT <= settled(reply) <= LEAF_LIMIT);
        assert(quiet_upto(s, n) == larger(quiet_upto(s, n - 1), -settled(reply)));
    }
}

/// The settled value of a sound position is within `LEAF_LIMIT`.
pub proof fn lemma_settled_bounds(s: State)
    requires
        s.sound(),
    ensures
        -LEAF_LIMIT <= settled(s) <= LEAF_LIMIT,
{
    lemma_eval_bounds(s);
    lemma_quiet_bounds(s, s.board.takes(s.player).len() as int);
}

/// A point in time, as `wasm_timer` has it: the standard library's where
/// that has a clock.
#[verifier::external_type_specification]
#[verifier::external_body]
pub struct ExInstant(wasm_timer::Instant);

/// `Instant::now` reads the clock. Nothing is claimed of the reading.
#[verifier::external_body]
fn clock_now() -> wasm_timer::Instant {
    wasm_timer::Instant::now()
}

/// `Instant::elapsed` gives the time that has passed since the reading
/// `since`. Nothing is claimed of it.
#[verifier::external_body]
fn clock_elapsed(since: &wasm_timer::Instant) -> std::time::Duration {
    since.elapsed()
}

/// `Duration::as_millis` gives the whole milliseconds of a span of time.
/// Nothing is claimed of their number.
#[verifier::external_body]
fn whole_millis(span: &std::time::Duration) -> u128 {
    span.as_millis()
}

/// The whole milliseconds that have passed since the reading `since`.
fn clock_millis(since: &wasm_timer::Instant) -> u128 {
    let span = clock_elapsed(since);
    whole_millis(&span)
}

/// `SliceRandom::choose` of `rand`, with the thread's random number
/// generator, returns one element of the slice picked at random, or `None`
/// if the slice is empty.
#[verifier::external_body]
fn choose_board(from: &Vec<Board>) -> (picked: Option<Board>)
    ensures
        from.len() == 0 ==> picked is None,
        from.len() > 0 ==> picked is Some && from@.contains(picked->0),
{
    from.choose(&mut rand::thread_rng()).cloned()
}

/// The slot of the cache that the board `b` falls into.
pub open spec fn cache_slot(b: Board) -> int {
    (b.0 % (TABLE_SIZE as u64)) as int
}

/// The key by which a move to the board `b` is ordered before it is
/// searched, for the player `player` who makes it: what the cache holds for
/// the board with the other player to move, and 0 if it holds nothing for
/// it.
pub open spec fn order_key(table: Seq<(Board, bool, usize, i32)>, player: bool, b: Board) -> int {
    let entry = table[cache_slot(b)];
    if entry.0 == b && player != entry.1 {
        entry.3 as int
    } else {
        0
    }
}

/// What the cache gives for the position `s` searched to `depth`, if its
/// entry is for this board and this player, was searched at least as deep,
/// and leads to a value that a search may return: the cached score above
/// the worth of the position.
pub open spec fn cached(entry: (Board, bool, usize, i32), s: State, depth: int) -> Option<int> {
    if entry.0 == s.board && entry.1 == s.player && entry.2 >= depth && -WINDOW <= s.eval()
        + entry.3 <= WINDOW + 1 {
        Some(s.eval() + entry.3)
    } else {
        None
    }
}

/// The test whether a board has the key `k`.
pub open spec fn keyed(
    table: Seq<(Board, bool, usize, i32)>,
    player: bool,
    k: int,
) -> spec_fn(Board) -> bool {
    |b: Board| order_key(table, player, b) == k
}

/// Whether the keys rise along `list`.
pub open spec fn keys_rise(
    list: Seq<Board>,
    table: Seq<(Board, bool, usize, i32)>,
    player: bool,
) -> bool {
    forall|i: int, j: int|
        0 <= i <= j < list.len() ==> order_key(table, player, #[trigger] list[i]) <= order_key(
            table,
            player,
            #[trigger] list[j],
        )
}

/// Whether `sorted` holds the boards of `list` in rising order of their
/// keys, the boards of each key in the order that they have in `list`.
pub open spec fn sorted_by_key(
    list: Seq<Board>,
    sorted: Seq<Board>,
    table: Seq<(Board, bool, usize, i32)>,
    player: bool,
) -> bool {
    &&& keys_rise(sorted, table, player)
    &&& forall|k: int|
        sorted.filter(#[trigger] keyed(table, player, k)) == list.filter(keyed(table, player, k))
}

/// The boards of `list` in rising order of their keys, the boards of each
/// key in the order that they have in `list`.
pub open spec fn ordered(
    list: Seq<Board>,
    table: Seq<(Board, bool, usize, i32)>,
    player: bool,
) -> Seq<Board> {
    choose|sorted: Seq<Board>| sorted_by_key(list, sorted, table, player)
}

/// Two lists with rising keys that hold the same boards of each key in the
/// same order are one list.
pub proof fn lemma_one_order(
    a: Seq<Board>,
    b: Seq<Board>,
    table: Seq<(Board, bool, usize, i32)>,
    player: bool,
)
    requires
        keys_rise(a, table, player),
        keys_rise(b, table, player),
        forall|k: int|
            a.filter(#[trigger] keyed(table, player, k)) == b.filter(keyed(table, player, k)),
    ensures
        a == b,
    decreases a.len(),
{
    reveal(Seq::filter);
    if a.len() == 0 {
        if b.len() > 0 {
            let k = order_key(table, player, b.last());
            assert(b.filter(keyed(table, player, k)).len() > 0);
            assert(a.filter(keyed(table, player, k)).len() == 0);
        }
        assert(a =~= b);
    } else {
        let la = a.last();
        let ka = order_key(table, player, la);
        let fa = a.filter(keyed(table, player, ka));
        assert(fa == a.drop_last().filter(keyed(table, player, ka)).push(la));
        if b.len() == 0 {
            assert(b.filter(keyed(table, player, ka)).len() == 0);
        }
        let lb = b.last();
        let kb = order_key(table, player, lb);
        let fb = b.filter(keyed(table, player, kb));
        assert(fb == b.drop_last().filter(keyed(table, player, kb)).push(lb));
        // The last boards have one key.
        assert(b.filter(keyed(table, player, ka)).contains(la)) by {
            assert(fa[fa.len() - 1] == la);
        }
        b.lemma_filter_contains_rev(keyed(table, player, ka), la);
        let jb = choose|j: int| 0 <= j < b.len() && b[j] == la;
        assert(order_key(table, player, b[jb]) <= order_key(table, player, b[b.len() - 1]));
        assert(a.filter(keyed(table, player, kb)).contains(lb)) by {
            assert(fb[fb.len() - 1] == lb);
        }
        a.lemma_filter_contains_rev(keyed(table, player, kb), lb);
        let ja = choose|j: int| 0 <= j < a.len() && a[j] == lb;
        assert(order_key(table, player, a[ja]) <= order_key(table, player, a[a.len() - 1]));
        assert(ka == kb);
        assert(la == lb) by {
            assert(fa[fa.len() - 1] == la);
            assert(fb[fb.len() - 1] == lb);
        }
        let a0 = a.drop_last();
        let b0 = b.drop_last();
        assert forall|k: int|
            a0.filter(#[trigger] keyed(table, player, k)) == b0.filter(
                keyed(table, player, k),
            ) by {
            let pa = a.filter(keyed(table, player, k));
            let pb = b.filter(keyed(table, player, k));
            assert(pa == pb);
            if k == ka {
                assert(pa == a0.filter(keyed(table, player, k)).push(la));
                assert(pb == b0.filter(keyed(table, player, k)).push(lb));
                assert(a0.filter(keyed(table, player, k)) =~= pa.drop_last());
                assert(b0.filter(keyed(table, player, k)) =~= pb.drop_last());
            } else {
                assert(pa == a0.filter(keyed(table, player, k)));
                assert(pb == b0.filter(keyed(table, player, k)));
            }
        }
        assert(keys_rise(a0, table, player)) by {
            assert forall|i: int, j: int| 0 <= i <= j < a0.len() implies order_key(
                table,
                player,
                #[trigger] a0[i],
            ) <= order_key(table, player, #[trigger] a0[j]) by {
                assert(a0[i] == a[i] && a0[j] == a[j]);
            }
        }
        assert(keys_rise(b0, table, player)) by {
            assert forall|i: int, j: int| 0 <= i <= j < b0.len() implies order_key(
                table,
                player,
                #[trigger] b0[i],
            ) <= order_key(table, player, #[trigger] b0[j]) by {
                assert(b0[i] == b[i] && b0[j] == b[j]);
            }
        }
        lemma_one_order(a0, b0, table, player);
        assert(a =~= a0.push(la));
        assert(b =~= b0.push(lb));
    }
}

/// A list sorted by key, with the boards of each key in their order, is
/// the one that `ordered` names.
pub proof fn lemma_ordered(
    list: Seq<Board>,
    sorted: Seq<Board>,
    table: Seq<(Board, bool, usize, i32)>,
    player: bool,
)
    requires
        sorted_by_key(list, sorted, table, player),
    ensures
        sorted == ordered(list, table, player),
{
    let named = ordered(list, table, player);
    assert(sorted_by_key(list, named, table, player));
    lemma_one_order(sorted, named, table, player);
}

/// Whether a search of `s` to the given depth takes the place of the
/// cache's entry: the entry is for another board or player, or from a
/// search less deep.
pub open spec fn supersedes(entry: (Board, bool, usize, i32), s: State, depth: int) -> bool {
    depth > entry.2 || entry.0 != s.board || entry.1 != s.player
}

/// Whether `r` is what a search one move deep returns for `s` with the
/// window from `a` to `b`: one more than `b` if some legal move is worth
/// `b` or more; else the worth of the best legal move, or `a` if no move
/// is worth more.
pub open spec fn tops(s: State, a: int, b: int, r: int) -> bool {
    if r == b + 1 {
        exists|j: int|
            0 <= j < legal_moves(s).len() && move_value(s, #[trigger] legal_moves(s)[j]) >= b
    } else {
        &&& a <= r < b
        &&& forall|j: int|
            0 <= j < legal_moves(s).len() ==> move_value(s, #[trigger] legal_moves(s)[j]) <= r
        &&& r > a ==> exists|j: int|
            0 <= j < legal_moves(s).len() && move_value(s, #[trigger] legal_moves(s)[j]) == r
    }
}

/// Two lists with the same boards, each as often in one as in the other,
/// are as long as each other, and each board of one is in the other.
pub proof fn lemma_same_boards(a: Seq<Board>, b: Seq<Board>, i: int)
    requires
        a.to_multiset() == b.to_multiset(),
        0 <= i < a.len(),
    ensures
        a.len() == b.len(),
        b.contains(a[i]),
{
    a.to_multiset_ensures();
    b.to_multiset_ensures();
    assert(a.contains(a[i]));
    assert(a.to_multiset().count(a[i]) > 0);
    assert(b.to_multiset().count(a[i]) > 0);
}

/// The boards that one legal move leads to from `s`.
pub open spec fn legal_moves(s: State) -> Seq<Board> {
    s.board.moves(s.player, s.prev)
}

/// What a move to the board `next` is worth to the player who makes it in
/// `s`, once the captures that follow have settled.
pub open spec fn move_value(s: State, next: Board) -> int {
    -settled(s.moved(next))
}

/// A legal move leads from a sound position to a sound position.
pub proof fn lemma_legal_sound(s: State, next: Board)
    requires
        s.sound(),
        legal_moves(s).contains(next),
    ensures
        s.moved(next).sound(),
{
    let i = choose|i: int| 0 <= i < legal_moves(s).len() && legal_moves(s)[i] == next;
    lemma_moves_are_moves(s.board, s.player, s.prev, i);
    lemma_move_effects(s.board, s.player, next);
    lemma_moved_sound(s, next);
}

/// What a search `depth` moves deep gives for `s` once it has tried the
/// moves of `order` before the `i`-th, holds `cur` as the best value so far
/// and has brought the cache to `tt`: the value, the cache afterwards, and
/// whether it ended early. It tries the rest in their order, each one move
/// less deep with the window from `cur` to `b` turned round for the
/// opponent, and ends early, with one more than `b`, at the first move
/// worth `b` or more.
pub open spec fn deep_from(
    tt: Seq<(Board, bool, usize, i32)>,
    s: State,
    b: int,
    depth: nat,
    order: Seq<Board>,
    cur: int,
    i: int,
) -> (int, Seq<(Board, bool, usize, i32)>, bool)
    decreases depth, 0nat, order.len() - i,
{
    if i < 0 || i >= order.len() || depth == 0 {
        (cur, tt, false)
    } else {
        let reply = deep_search(tt, s.moved(order[i]), -b, -cur, (depth - 1) as nat);
        if -reply.0 >= b {
            (b + 1, reply.1, true)
        } else {
            deep_from(reply.1, s, b, depth, order, larger(cur, -reply.0), i + 1)
        }
    }
}

/// What a search `depth` moves deep returns for `s` with the window from
/// `a` to `b` and the cache `tt`, and the cache that it leaves:
/// - where the game is over, a hundred times the worth of the position;
/// - at depth 0, what the search over captures returns;
/// - where the cache answers, its answer;
/// - else what the legal moves give, tried in the order of their keys, and
///   unless the search ended early or the cache holds the position from a
///   deeper search, the cache takes the position with the depth and with
///   the value above the worth of the position.
pub open spec fn deep_search(
    tt: Seq<(Board, bool, usize, i32)>,
    s: State,
    a: int,
    b: int,
    depth: nat,
) -> (int, Seq<(Board, bool, usize, i32)>)
    decreases depth, 1nat, 0int,
{
    if s.over() {
        (s.eval() * 100, tt)
    } else if depth == 0 {
        (quiet_search(s, a, b), tt)
    } else {
        let entry = tt[cache_slot(s.board)];
        match cached(entry, s, depth as int) {
            Some(v) => (v, tt),
            None => {
                let order = ordered(legal_moves(s), tt, s.player);
                let done = deep_from(tt, s, b, depth, order, a, 0);
                if !done.2 && supersedes(entry, s, depth as int) {
                    (
                        done.0,
                        done.1.update(
                            cache_slot(s.board),
                            (s.board, s.player, depth as usize, (done.0 - s.eval()) as i32),
                        ),
                    )
                } else {
                    (done.0, done.1)
                }
            },
        }
    }
}

/// Whether each list of `after` is empty or as it is in `before`, and
/// there are as many.
pub open spec fn lists_kept(before: Seq<Vec<Board>>, after: Seq<Vec<Board>>) -> bool {
    &&& after.len() == before.len()
    &&& forall|i: int|
        0 <= i < after.len() ==> (#[trigger] after[i])@.len() == 0 || after[i] == before[i]
}

/// The boards of a list from the `i`-th on are those from the next on and
/// the one before.
pub proof fn lemma_tail_multiset(list: Seq<Board>, i: int)
    requires
        0 < i <= list.len(),
    ensures
        list.subrange(i - 1, list.len() as int).to_multiset() == list.subrange(
            i,
            list.len() as int,
        ).to_multiset().insert(list[i - 1]),
{
    let t = list.subrange(i - 1, list.len() as int);
    let u = list.subrange(i, list.len() as int);
    t.to_multiset_ensures();
    assert(t.remove(0) =~= u);
    assert(t.contains(t[0]));
    assert(t.to_multiset() =~= u.to_multiset().insert(list[i - 1]));
}

/// A list that holds no board more often than `tail` still does so, against
/// `tail` with `m` added, when `m` is put behind it, when `m` alone takes
/// its place, and when it is left as it is.
pub proof fn lemma_best_grows(best: Seq<Board>, tail: Multiset<Board>, m: Board)
    requires
        best.to_multiset().subset_of(tail),
    ensures
        seq![m].to_multiset().subset_of(tail.insert(m)),
        best.push(m).to_multiset().subset_of(tail.insert(m)),
        best.to_multiset().subset_of(tail.insert(m)),
{
    best.to_multiset_ensures();
    Seq::<Board>::empty().to_multiset_ensures();
    assert(seq![m] =~= Seq::<Board>::empty().push(m));
    assert(Seq::<Board>::empty().to_multiset().len() == 0);
}

/// Whether a search `depth` moves deep is given up when `elapsed`
/// milliseconds have passed of a budget of `time`: a search deeper than one
/// move is, once the budget is used up.
pub open spec fn is_given_up(depth: int, elapsed: int, time: int) -> bool {
    depth > 1 && elapsed >= time
}

/// Whether a search `depth` moves deep is given up when `elapsed`
/// milliseconds have passed of a budget of `time`.
pub fn given_up(depth: usize, elapsed: u128, time: u128) -> (r: bool)
    ensures
        r == is_given_up(depth as int, elapsed as int, time as int),
{
    depth > 1 && elapsed >= time
}

/// What a search of the moves of `s`, `depth` moves deep, gives that is not
/// given up, once it has tried the moves of `order` from the `i`-th on,
/// last one first, holds `best` as the moves found best with their value
/// `score`, and has brought the cache to `tt`: the moves found best, their
/// value, and the cache afterwards. It tries the rest from the last to the
/// first, each one move less deep with the window below `score` turned
/// round for the opponent; a move worth more takes the place of the moves
/// held, and a move worth as much joins them.
pub open spec fn root_from(
    tt: Seq<(Board, bool, usize, i32)>,
    s: State,
    depth: nat,
    order: Seq<Board>,
    best: Seq<Board>,
    score: int,
    i: int,
) -> (Seq<Board>, int, Seq<(Board, bool, usize, i32)>)
    decreases i,
{
    if i <= 0 || i > order.len() || depth == 0 {
        (best, score, tt)
    } else {
        let m = order[i - 1];
        let reply = deep_search(tt, s.moved(m), -WINDOW as int, -score, (depth - 1) as nat);
        if -reply.0 > score {
            root_from(reply.1, s, depth, order, seq![m], -reply.0, i - 1)
        } else if -reply.0 == score {
            root_from(reply.1, s, depth, order, best.push(m), score, i - 1)
        } else {
            root_from(reply.1, s, depth, order, best, score, i - 1)
        }
    }
}

/// What a search of the moves of `s`, `depth` moves deep, returns that is
/// not given up, and the cache that it leaves: no move and a hundred times
/// the worth of the position where the game is over; else the moves found
/// best among the legal moves, tried from the highest key down, with their
/// value, and unless the cache holds the position from a deeper search, the
/// cache takes the position with the depth and with the value above the
/// worth of the position.
pub open spec fn root_search(
    tt: Seq<(Board, bool, usize, i32)>,
    s: State,
    depth: nat,
) -> (Seq<Board>, int, Seq<(Board, bool, usize, i32)>) {
    if s.over() {
        (Seq::empty(), s.eval() * 100, tt)
    } else {
        let entry = tt[cache_slot(s.board)];
        let order = ordered(legal_moves(s), tt, s.player);
        let done = root_from(
            tt,
            s,
            depth,
            order,
            Seq::empty(),
            -WINDOW as int,
            order.len() as int,
        );
        if supersedes(entry, s, depth as int) {
            (
                done.0,
                done.1,
                done.2.update(
                    cache_slot(s.board),
                    (s.board, s.player, depth as usize, (done.1 - s.eval()) as i32),
                ),
            )
        } else {
            done
        }
    }
}

/// The cache before the search `depth` moves deep, when the searches less
/// deep have run to their ends, one after the other, from the cache `tt`.
pub open spec fn cache_before(
    tt: Seq<(Board, bool, usize, i32)>,
    s: State,
    depth: nat,
) -> Seq<(Board, bool, usize, i32)>
    decreases depth,
{
    if depth <= 1 {
        tt
    } else {
        root_search(cache_before(tt, s, (depth - 1) as nat), s, (depth - 1) as nat).2
    }
}

/// What the search `depth` moves deep returns when it and the searches less
/// deep run to their ends, one after the other, from the cache `tt`.
pub open spec fn finished(
    tt: Seq<(Board, bool, usize, i32)>,
    s: State,
    depth: nat,
) -> (Seq<Board>, int, Seq<(Board, bool, usize, i32)>) {
    root_search(cache_before(tt, s, depth), s, depth)
}

/// Deepest search that `ab_search` goes on to.
pub const MAX_DEPTH: usize = 64;

/// The search for a move from one position.
pub struct Searcher<'a> {
    /// The position that is searched; a search leaves it as it found it.
    pub pos: Position<'a>,
    /// For each depth, a list that the search at that depth fills with
    /// moves.
    pub moves: Vec<Vec<Board>>,
    /// The cache: in the slot of a board, the board, the player to move,
    /// the depth to which it was searched, and what the search gave above
    /// the worth of the position.
    pub transposition: Vec<(Board, bool, usize, i32)>,
}

impl<'a> Searcher<'a> {
    /// Whether the searcher can search: the tables are sound, the position
    /// is within the search's limit, and the cache has all its slots.
    pub open spec fn wf(&self) -> bool {
        &&& self.pos.tables.wf()
        &&& self.pos@.sound()
        &&& self.transposition.len() == TABLE_SIZE
    }

    /// A searcher for the position `pos`, with an empty cache: every slot
    /// holds the empty board, searched to depth 0, with the score 0.
    pub fn new(pos: Position<'a>) -> (s: Self)
        ensures
            s.pos == pos,
            s.moves@.len() == 0,
            s.transposition.len() == TABLE_SIZE,
            pos.tables.wf() && pos@.sound() ==> s.wf(),
            forall|i: int|
                0 <= i < TABLE_SIZE ==> #[trigger] s.transposition[i] == (
                    Board(0),
                    false,
                    0usize,
                    0i32,
                ),
    {
        let mut transposition: Vec<(Board, bool, usize, i32)> = Vec::with_capacity(TABLE_SIZE);
        let mut i: usize = 0;
        while i < TABLE_SIZE
            invariant
                0 <= i <= TABLE_SIZE,
                transposition.len() == i,
                forall|k: int|
                    0 <= k < i ==> #[trigger] transposition[k] == (Board(0), false, 0usize, 0i32),
            decreases TABLE_SIZE - i,
        {
            transposition.push((Board::empty(), false, 0, 0));
            i += 1;
        }
        Self { pos, moves: Vec::new(), transposition }
    }

    /// Hands the position back.
    pub fn into_position(self) -> (pos: Position<'a>)
        ensures
            pos == self.pos,
    {
        self.pos
    }

    /// The value of the position for the player to move once the captures
    /// have settled, seen through the window from `alpha` to `beta`.
    pub fn quiesce(&mut self, alpha: i32, beta: i32) -> (r: i32)
        requires
            old(self).wf(),
            -WINDOW <= alpha <= WINDOW,
            -WINDOW <= beta <= WINDOW,
        ensures
            final(self).pos == old(self).pos,
            final(self).moves == old(self).moves,
            final(self).transposition == old(self).transposition,
            -WINDOW <= r <= WINDOW + 1,
            r == quiet_search(old(self).pos@, alpha as int, beta as int),
            alpha < beta ==> r == quiet_result(old(self).pos@, alpha as int, beta as int),
            old(self).pos@.over() ==> r == old(self).pos@.eval() * 100,
        decreases all_men(old(self).pos@.board),
    {
        let ghost s = self.pos@;
        proof {
            lemma_eval_bounds(s);
            lemma_settled_bounds(s);
        }
        if self.pos.board.game_end() {
            return self.pos.eval() * 100;
        }
        let mut moves: Vec<Board> = Vec::new();
        self.pos.gen_takes(&mut moves);
        if moves.len() == 0 {
            return self.pos.eval();
        }
        let null_score = self.pos.eval();
        if null_score >= beta {
            proof {
                lemma_quiet_grows(s, 0, moves.len() as int);
            }
            return beta + 1;
        }
        let mut cur = alpha;
        if null_score > cur {
            cur = null_score;
        }
        let mut i: usize = 0;
        while i < moves.len()
            invariant
                0 <= i <= moves.len(),
                self.wf(),
                self.pos == old(self).pos,
                self.moves == old(self).moves,
                self.transposition == old(self).transposition,
                s == old(self).pos@,
                s == self.pos@,
                !s.over(),
                moves@ == s.board.takes(s.player),
                moves.len() > 0,
                -WINDOW <= alpha <= WINDOW,
                -WINDOW <= beta <= WINDOW,
                -WINDOW <= cur <= WINDOW,
                alpha <= cur,
                alpha < beta ==> cur == larger(alpha as int, quiet_upto(s, i as int)) && quiet_upto(
                    s,
                    i as int,
                ) < beta,
                quiet_from(s, beta as int, cur as int, i as int) == quiet_search(
                    s,
                    alpha as int,
                    beta as int,
                ),
            decreases moves.len() - i,
        {
            let m = moves[i];
            proof {
                lemma_eval_bounds(s);
                lemma_takes_are_takes(s.board, s.player, i as int);
                lemma_take_effects(s.board, s.player, m);
                lemma_moved_sound(s, m);
                lemma_eval_bounds(s.moved(m));
                lemma_unmoved_moved(s, m);
                lemma_settled_bounds(s.moved(m));
                lemma_men_bounds(m, false, 32);
                lemma_men_bounds(m, true, 32);
            }
            let u = self.pos.do_move(m);
            let score = -self.quiesce(-beta, -cur);
            self.pos.undo_move(u);
            proof {
                assert(self.pos@ == s);
                if alpha < beta {
                    lemma_quiet_agrees(s.moved(m), -beta as int, -cur as int);
                    lemma_quiet_grows(s, i + 1, moves.len() as int);
                    assert(quiet_upto(s, i + 1) == larger(
                        quiet_upto(s, i as int),
                        -settled(s.moved(m)),
                    ));
                }
            }
            if score >= beta {
                return beta + 1;
            }
            if score > cur {
                cur = score;
            }
            i += 1;
        }
        cur
    }

    /// The key by which a move to `board` is ordered.
    pub fn move_key(&self, board: &Board) -> (key: i32)
        requires
            self.transposition.len() == TABLE_SIZE,
        ensures
            key == order_key(self.transposition@, self.pos@.player, *board),
    {
        let ind = (board.0 % (TABLE_SIZE as u64)) as usize;
        let (b, play, _, score) = self.transposition[ind];
        let board_eq = b == *board && self.pos.get_player() != play;
        if board_eq {
            score
        } else {
            0
        }
    }

    /// `slice::sort_by_cached_key` of the standard library sorts the slice
    /// by the key that the given function extracts, here `move_key`, and
    /// keeps the order of elements with equal keys: the same boards stand in
    /// `moves` afterwards, in rising order of their keys, and the boards of
    /// each key in the order that they had.
    #[verifier::external_body]
    fn sort_moves(&self, moves: &mut Vec<Board>)
        requires
            self.transposition.len() == TABLE_SIZE,
        ensures
            final(moves)@.to_multiset() == old(moves)@.to_multiset(),
            sorted_by_key(old(moves)@, final(moves)@, self.transposition@, self.pos@.player),
    {
        moves.sort_by_cached_key(|board| self.move_key(board));
    }

    /// The value of the position for the player to move, searched `depth`
    /// moves deep, seen through the window from `alpha` to `beta`. Where the
    /// depth has run out the search goes on over captures alone. A position
    /// that the cache holds, searched at least as deep, is not searched
    /// again; a position searched to the end is put into the cache unless
    /// the cache holds it from a deeper search. The list of the depth is
    /// used for the moves and handed back empty.
    pub fn alphabeta(&mut self, alpha: i32, beta: i32, depth: usize) -> (r: i32)
        requires
            old(self).wf(),
            !old(self).pos@.over() && depth > 0 ==> depth < old(self).moves.len(),
            -WINDOW <= alpha <= WINDOW,
            -WINDOW <= beta <= WINDOW,
        ensures
            final(self).wf(),
            final(self).pos == old(self).pos,
            lists_kept(old(self).moves@, final(self).moves@),
            old(self).pos@.over() || depth == 0 ==> final(self).moves == old(self).moves
                && final(self).transposition == old(self).transposition,
            -WINDOW <= r <= WINDOW + 1,
            (r as int, final(self).transposition@) == deep_search(
                old(self).transposition@,
                old(self).pos@,
                alpha as int,
                beta as int,
                depth as nat,
            ),
            old(self).pos@.over() ==> r == old(self).pos@.eval() * 100,
            !old(self).pos@.over() && depth == 0 && alpha < beta ==> r == quiet_result(
                old(self).pos@,
                alpha as int,
                beta as int,
            ),
            !old(self).pos@.over() && depth == 1 && alpha < beta && cached(
                old(self).transposition[cache_slot(old(self).pos@.board)],
                old(self).pos@,
                1,
            ) is None ==> tops(old(self).pos@, alpha as int, beta as int, r as int),
        decreases depth,
    {
        let ghost s = self.pos@;
        let ghost tt0 = self.transposition@;
        let ghost lists0 = self.moves@;
        proof {
            lemma_eval_bounds(s);
        }
        if self.pos.board.game_end() {
            return self.pos.eval() * 100;
        }
        if depth == 0 {
            return self.quiesce(alpha, beta);
        }
        let ind = (self.pos.board.0 % (TABLE_SIZE as u64)) as usize;
        let ghost entry = self.transposition[ind as int];
        let (board, play, depth2, score) = self.transposition[ind];
        let board_eq = self.pos.board == board && self.pos.get_player() == play;
        if depth2 >= depth && board_eq {
            let value = self.pos.eval() as i64 + score as i64;
            if -(WINDOW as i64) <= value && value <= WINDOW as i64 + 1 {
                return value as i32;
            }
        }
        let mut moves: Vec<Board> = Vec::new();
        std::mem::swap(&mut moves, &mut self.moves[depth]);
        self.pos.gen_moves(&mut moves);
        let ghost legal = moves@;
        self.sort_moves(&mut moves);
        let ghost sorted = moves@;
        proof {
            lemma_ordered(legal, sorted, tt0, s.player);
        }
        let ghost done = deep_from(tt0, s, beta as int, depth as nat, sorted, alpha as int, 0);
        let mut cur = alpha;
        let mut i: usize = 0;
        while i < moves.len()
            invariant
                0 <= i <= moves.len(),
                self.wf(),
                self.pos == old(self).pos,
                self.moves.len() == old(self).moves.len(),
                forall|k: int|
                    0 <= k < self.moves.len() ==> (#[trigger] self.moves[k])@.len() == 0
                        || self.moves[k] == lists0[k],
                self.moves[depth as int]@.len() == 0,
                lists0 == old(self).moves@,
                depth < self.moves.len(),
                depth > 0,
                s == self.pos@,
                s == old(self).pos@,
                !s.over(),
                ind == cache_slot(s.board),
                entry == old(self).transposition[ind as int],
                entry == (board, play, depth2, score),
                board_eq == (s.board == board && s.player == play),
                cached(entry, s, depth as int) is None,
                moves@ == sorted,
                tt0 == old(self).transposition@,
                sorted == ordered(legal_moves(s), tt0, s.player),
                done == deep_from(tt0, s, beta as int, depth as nat, sorted, alpha as int, 0),
                moves@.to_multiset() == legal.to_multiset(),
                forall|j: int|
                    0 <= j < legal.len() ==> (#[trigger] legal[j]).material() <= s.board.material(),
                -WINDOW <= alpha <= WINDOW,
                -WINDOW <= beta <= WINDOW,
                -WINDOW <= cur <= WINDOW,
                alpha <= beta ==> cur <= beta,
                alpha <= cur < beta || cur == alpha,
                legal == legal_moves(s),
                deep_from(
                    self.transposition@,
                    s,
                    beta as int,
                    depth as nat,
                    sorted,
                    cur as int,
                    i as int,
                ) == done,
                depth == 1 && alpha < beta ==> {
                    &&& forall|k: int| 0 <= k < i ==> move_value(s, #[trigger] moves[k]) <= cur
                    &&& cur > alpha ==> exists|k: int|
                        0 <= k < i && move_value(s, #[trigger] moves[k]) == cur
                },
            decreases moves.len() - i,
        {
            let m = moves[i];
            let ghost lists1 = self.moves@;
            let ghost tt1 = self.transposition@;
            proof {
                lemma_eval_bounds(s);
                lemma_same_boards(moves@, legal, i as int);
                let j = choose|j: int| 0 <= j < legal.len() && legal[j] == m;
                assert(legal[j].material() <= s.board.material());
                lemma_moved_sound(s, m);
                lemma_eval_bounds(s.moved(m));
                lemma_unmoved_moved(s, m);
                if depth == 1 && alpha < beta {
                    lemma_quiet_agrees(s.moved(m), -beta as int, -cur as int);
                }
            }
            let u = self.pos.do_move(m);
            let score = -self.alphabeta(-beta, -cur, depth - 1);
            self.pos.undo_move(u);
            assert(self.pos@ == s);
            proof {
                let reply = deep_search(tt1, s.moved(m), -beta as int, -cur as int, (depth - 1) as nat);
                assert(reply == (-score as int, self.transposition@));
                assert(done == if score >= beta {
                    (beta + 1, self.transposition@, true)
                } else {
                    deep_from(
                        self.transposition@,
                        s,
                        beta as int,
                        depth as nat,
                        sorted,
                        larger(cur as int, score as int),
                        i + 1,
                    )
                });
                assert forall|k: int| 0 <= k < self.moves.len() implies (#[trigger] self.moves[k])@.len()
                    == 0 || self.moves[k] == lists0[k] by {
                    assert(self.moves[k]@.len() == 0 || self.moves[k] == lists1[k]);
                }
            }
            if score >= beta {
                proof {
                    if depth == 1 && alpha < beta {
                        let j = choose|j: int| 0 <= j < legal.len() && legal[j] == m;
                        assert(move_value(s, legal_moves(s)[j]) >= beta);
                    }
                }
                moves.clear();
                self.moves.set(depth, moves);
                return beta + 1;
            }
            proof {
                if depth == 1 && alpha < beta && score > cur {
                    assert(move_value(s, moves[i as int]) == score);
                }
            }
            if score > cur {
                cur = score;
            }
            i += 1;
        }
        proof {
            if depth == 1 && alpha < beta {
                assert forall|j: int| 0 <= j < legal.len() implies move_value(
                    s,
                    #[trigger] legal[j],
                ) <= cur by {
                    lemma_same_boards(legal, moves@, j);
                    let k = choose|k: int| 0 <= k < moves.len() && moves[k] == legal[j];
                    assert(move_value(s, moves[k]) <= cur);
                }
                if cur > alpha {
                    let k = choose|k: int|
                        0 <= k < moves.len() && move_value(s, #[trigger] moves[k]) == cur;
                    lemma_same_boards(moves@, legal, k);
                    let j = choose|j: int| 0 <= j < legal.len() && legal[j] == moves[k];
                    assert(move_value(s, legal_moves(s)[j]) == cur);
                }
            }
        }
        moves.clear();
        self.moves.set(depth, moves);
        if depth > depth2 || !board_eq {
            let entry = (self.pos.board, self.pos.get_player(), depth, cur - self.pos.eval());
            self.transposition.set(ind, entry);
        }
        cur
    }

    /// Searches every legal move `depth` moves deep and returns the moves
    /// found best, with their value. A search deeper than one move reads
    /// the clock before each move and is given up, with no move and the
    /// value 0, once `time` milliseconds have passed since `now`; the search
    /// one move deep always runs to its end. A search that runs to its end
    /// returns what `root_search` says and leaves the cache that it says.
    /// The list of the depth is used for the moves and handed back empty.
    pub fn best_moves(&mut self, depth: usize, now: &wasm_timer::Instant, time: u128) -> (r: (
        Vec<Board>,
        i32,
    ))
        requires
            old(self).wf(),
            1 <= depth,
            !old(self).pos@.over() ==> depth < old(self).moves.len(),
        ensures
            final(self).wf(),
            final(self).pos == old(self).pos,
            lists_kept(old(self).moves@, final(self).moves@),
            -WINDOW <= r.1 <= WINDOW,
            old(self).pos@.over() ==> r.0.len() == 0 && r.1 == old(self).pos@.eval() * 100
                && final(self).transposition == old(self).transposition && final(self).moves
                == old(self).moves,
            forall|i: int|
                0 <= i < r.0.len() ==> legal_moves(old(self).pos@).contains(#[trigger] r.0[i]),
            r.0@.to_multiset().subset_of(legal_moves(old(self).pos@).to_multiset()),
            (depth > 1 && r.0.len() == 0 && r.1 == 0) || (r.0@, r.1 as int, final(self).transposition@)
                == root_search(old(self).transposition@, old(self).pos@, depth as nat),
            !old(self).pos@.over() && depth == 1 ==> {
                &&& legal_moves(old(self).pos@).len() > 0 ==> r.0.len() > 0
                &&& legal_moves(old(self).pos@).len() == 0 ==> r.1 == -WINDOW
                &&& forall|j: int|
                    0 <= j < legal_moves(old(self).pos@).len() ==> move_value(
                        old(self).pos@,
                        #[trigger] legal_moves(old(self).pos@)[j],
                    ) <= r.1
                &&& forall|i: int|
                    0 <= i < r.0.len() ==> move_value(old(self).pos@, #[trigger] r.0[i]) == r.1
            },
    {
        let ghost s = self.pos@;
        let ghost tt0 = self.transposition@;
        let ghost lists0 = self.moves@;
        proof {
            lemma_eval_bounds(s);
            Seq::<Board>::empty().to_multiset_ensures();
            assert(Seq::<Board>::empty().to_multiset().len() == 0);
        }
        if self.pos.board.game_end() {
            return (Vec::new(), self.pos.eval() * 100);
        }
        let ind = (self.pos.board.0 % (TABLE_SIZE as u64)) as usize;
        let ghost entry = self.transposition[ind as int];
        let (board, play, depth2, _) = self.transposition[ind];
        let board_eq = self.pos.board == board && self.pos.get_player() == play;
        let mut best_moves: Vec<Board> = Vec::new();
        let mut best_score: i32 = -WINDOW;
        let mut moves: Vec<Board> = Vec::new();
        std::mem::swap(&mut moves, &mut self.moves[depth]);
        self.pos.gen_moves(&mut moves);
        let ghost legal = moves@;
        self.sort_moves(&mut moves);
        let ghost sorted = moves@;
        proof {
            lemma_ordered(legal, sorted, tt0, s.player);
            assert(sorted.subrange(sorted.len() as int, sorted.len() as int) =~= Seq::<
                Board,
            >::empty());
        }
        let ghost done = root_from(
            tt0,
            s,
            depth as nat,
            sorted,
            Seq::empty(),
            -WINDOW as int,
            sorted.len() as int,
        );
        let mut i: usize = moves.len();
        while i > 0
            invariant
                0 <= i <= moves.len(),
                self.wf(),
                self.pos == old(self).pos,
                self.moves.len() == old(self).moves.len(),
                forall|k: int|
                    0 <= k < self.moves.len() ==> (#[trigger] self.moves[k])@.len() == 0
                        || self.moves[k] == lists0[k],
                self.moves[depth as int]@.len() == 0,
                lists0 == old(self).moves@,
                1 <= depth < self.moves.len(),
                s == self.pos@,
                s == old(self).pos@,
                !s.over(),
                legal == legal_moves(s),
                moves@ == sorted,
                tt0 == old(self).transposition@,
                sorted == ordered(legal_moves(s), tt0, s.player),
                ind == cache_slot(s.board),
                entry == tt0[ind as int],
                entry == (board, play, depth2, entry.3),
                board_eq == (s.board == board && s.player == play),
                done == root_from(
                    tt0,
                    s,
                    depth as nat,
                    sorted,
                    Seq::empty(),
                    -WINDOW as int,
                    sorted.len() as int,
                ),
                root_from(
                    self.transposition@,
                    s,
                    depth as nat,
                    sorted,
                    best_moves@,
                    best_score as int,
                    i as int,
                ) == done,
                moves@.to_multiset() == legal.to_multiset(),
                best_moves@.to_multiset().subset_of(
                    sorted.subrange(i as int, sorted.len() as int).to_multiset(),
                ),
                forall|j: int|
                    0 <= j < legal.len() ==> (#[trigger] legal[j]).material() <= s.board.material(),
                -WINDOW <= best_score <= WINDOW,
                forall|k: int|
                    0 <= k < best_moves.len() ==> legal.contains(#[trigger] best_moves[k]),
                depth == 1 ==> {
                    &&& i < moves.len() ==> best_moves.len() > 0 && -LEAF_LIMIT <= best_score
                        <= LEAF_LIMIT
                    &&& i == moves.len() ==> best_score == -WINDOW
                    &&& forall|k: int|
                        i <= k < moves.len() ==> move_value(s, #[trigger] moves[k]) <= best_score
                    &&& forall|k: int|
                        0 <= k < best_moves.len() ==> move_value(s, #[trigger] best_moves[k])
                            == best_score
                },
            decreases i,
        {
            if depth > 1 && given_up(depth, clock_millis(now), time) {
                let none: Vec<Board> = Vec::new();
                proof {
                    none@.to_multiset_ensures();
                }
                return (none, 0);
            }
            proof {
                lemma_tail_multiset(sorted, i as int);
                lemma_best_grows(
                    best_moves@,
                    sorted.subrange(i as int, sorted.len() as int).to_multiset(),
                    sorted[i - 1],
                );
            }
            i -= 1;
            let m = moves[i];
            let ghost lists1 = self.moves@;
            let ghost tt1 = self.transposition@;
            let ghost held = best_moves@;
            proof {
                lemma_eval_bounds(s);
                lemma_same_boards(moves@, legal, i as int);
                let j = choose|j: int| 0 <= j < legal.len() && legal[j] == m;
                assert(legal[j].material() <= s.board.material());
                lemma_moved_sound(s, m);
                lemma_eval_bounds(s.moved(m));
                lemma_unmoved_moved(s, m);
                lemma_settled_bounds(s.moved(m));
                if depth == 1 {
                    lemma_quiet_agrees(s.moved(m), -WINDOW as int, -best_score as int);
                }
            }
            let u = self.pos.do_move(m);
            let score = -self.alphabeta(-WINDOW, -best_score, depth - 1);
            self.pos.undo_move(u);
            assert(self.pos@ == s);
            proof {
                if depth == 1 && score == best_score {
                    lemma_quiet_tie(s.moved(m), -WINDOW as int, -best_score as int);
                }
                let reply = deep_search(
                    tt1,
                    s.moved(m),
                    -WINDOW as int,
                    -best_score as int,
                    (depth - 1) as nat,
                );
                assert(reply == (-score as int, self.transposition@));
                assert(done == if score > best_score {
                    root_from(
                        self.transposition@,
                        s,
                        depth as nat,
                        sorted,
                        seq![m],
                        score as int,
                        i as int,
                    )
                } else if score == best_score {
                    root_from(
                        self.transposition@,
                        s,
                        depth as nat,
                        sorted,
                        held.push(m),
                        best_score as int,
                        i as int,
                    )
                } else {
                    root_from(
                        self.transposition@,
                        s,
                        depth as nat,
                        sorted,
                        held,
                        best_score as int,
                        i as int,
                    )
                });
                assert forall|k: int| 0 <= k < self.moves.len() implies (#[trigger] self.moves[k])@.len()
                    == 0 || self.moves[k] == lists0[k] by {
                    assert(self.moves[k]@.len() == 0 || self.moves[k] == lists1[k]);
                }
            }
            if score > best_score {
                best_moves.clear();
                best_moves.push(m);
                best_score = score;
                assert(best_moves@ =~= seq![m]);
            } else if score == best_score {
                best_moves.push(m);
            }
        }
        assert(forall|k: int| 0 <= k < sorted.len() ==> depth == 1 ==> move_value(
            s,
            #[trigger] sorted[k],
        ) <= best_score);
        if depth > depth2 || !board_eq {
            let entry = (
                self.pos.board,
                self.pos.get_player(),
                depth,
                best_score - self.pos.eval(),
            );
            self.transposition.set(ind, entry);
        }
        moves.clear();
        self.moves.set(depth, moves);
        proof {
            sorted.to_multiset_ensures();
            legal.to_multiset_ensures();
            assert(sorted.subrange(0, sorted.len() as int) =~= sorted);
            if depth == 1 {
                assert forall|j: int| 0 <= j < legal.len() implies move_value(
                    s,
                    #[trigger] legal[j],
                ) <= best_score by {
                    lemma_same_boards(legal, sorted, j);
                    let k = choose|k: int| 0 <= k < sorted.len() && sorted[k] == legal[j];
                    assert(move_value(s, sorted[k]) <= best_score);
                }
            }
        }
        (best_moves, best_score)
    }

    /// Searches for a move, deeper and deeper, and returns one of the moves
    /// that the deepest finished search found best, picked at random, with
    /// their value. The search one move deep always runs; after each search
    /// the next goes one move deeper unless `time` milliseconds have passed
    /// or `MAX_DEPTH` is reached, and a search that is given up for want of
    /// time, or that finds no move, leaves the result of the one before. No
    /// move is returned, with the value 0, exactly where the game is over or
    /// the player has no legal move. A move returned is, for some depth, one
    /// of the moves that `finished` gives for it, and the value is theirs;
    /// with no time at all the depth is 1.
    pub fn ab_search(&mut self, time: usize) -> (r: (Option<Board>, i32))
        requires
            old(self).wf(),
        ensures
            final(self).wf(),
            final(self).pos == old(self).pos,
            r.0 is Some <==> !old(self).pos@.over() && legal_moves(old(self).pos@).len() > 0,
            r.0 matches Some(m) ==> legal_moves(old(self).pos@).contains(m) && old(
                self,
            ).pos@.moved(m).sound(),
            r.0 is None ==> r.1 == 0,
            -WINDOW <= r.1 <= WINDOW,
            r.0 matches Some(m) ==> exists|d: nat|
                1 <= d <= MAX_DEPTH && (time == 0 ==> d == 1) && (#[trigger] finished(
                    old(self).transposition@,
                    old(self).pos@,
                    d,
                )).0.contains(m) && r.1 == finished(
                    old(self).transposition@,
                    old(self).pos@,
                    d,
                ).1,
            time == 0 ==> (r.0 matches Some(m) ==> move_value(old(self).pos@, m) == r.1 && forall|
                j: int,
            |
                0 <= j < legal_moves(old(self).pos@).len() ==> move_value(
                    old(self).pos@,
                    #[trigger] legal_moves(old(self).pos@)[j],
                ) <= r.1),
            final(self).moves.len() >= old(self).moves.len(),
            forall|i: int|
                0 <= i < final(self).moves.len() ==> (#[trigger] final(self).moves[i])@.len() == 0
                    || (i < old(self).moves.len() && final(self).moves[i] == old(self).moves[i]),
    {
        let ghost s = self.pos@;
        let ghost tt0 = self.transposition@;
        let ghost lists0 = self.moves@;
        let limit = time as u128;
        let now = clock_now();
        let mut best: Vec<Board> = Vec::new();
        let mut score: i32 = 0;
        let mut d: usize = 1;
        while d <= MAX_DEPTH
            invariant_except_break
                time == 0 ==> d == 1,
            invariant
                1 <= d <= MAX_DEPTH + 1,
                self.wf(),
                self.pos == old(self).pos,
                s == old(self).pos@,
                tt0 == old(self).transposition@,
                lists0 == old(self).moves@,
                limit == time,
                self.moves.len() >= lists0.len(),
                forall|i: int|
                    0 <= i < self.moves.len() ==> (#[trigger] self.moves[i])@.len() == 0 || (i
                        < lists0.len() && self.moves[i] == lists0[i]),
                self.transposition@ == cache_before(tt0, s, d as nat),
                d > 1 ==> best@ == finished(tt0, s, (d - 1) as nat).0 && score == finished(
                    tt0,
                    s,
                    (d - 1) as nat,
                ).1,
                -WINDOW <= score <= WINDOW,
                forall|k: int| 0 <= k < best.len() ==> legal_moves(s).contains(#[trigger] best[k]),
                d == 1 ==> best.len() == 0 && score == 0,
                d > 1 ==> best.len() > 0 && !s.over(),
                d == 2 ==> {
                    &&& forall|j: int|
                        0 <= j < legal_moves(s).len() ==> move_value(
                            s,
                            #[trigger] legal_moves(s)[j],
                        ) <= score
                    &&& forall|k: int|
                        0 <= k < best.len() ==> move_value(s, #[trigger] best[k]) == score
                },
            ensures
                d > 1,
                time == 0 ==> d == 2,
            decreases MAX_DEPTH + 1 - d,
        {
            while self.moves.len() <= d
                invariant
                    self.wf(),
                    self.pos == old(self).pos,
                    self.transposition@ == cache_before(tt0, s, d as nat),
                    self.moves.len() >= lists0.len(),
                    forall|i: int|
                        0 <= i < self.moves.len() ==> (#[trigger] self.moves[i])@.len() == 0 || (i
                            < lists0.len() && self.moves[i] == lists0[i]),
                decreases d + 1 - self.moves.len(),
            {
                self.moves.push(Vec::new());
            }
            let ghost lists1 = self.moves@;
            let (m, v) = self.best_moves(d, &now, limit);
            proof {
                assert forall|i: int| 0 <= i < self.moves.len() implies (#[trigger] self.moves[i])@.len()
                    == 0 || (i < lists0.len() && self.moves[i] == lists0[i]) by {
                    assert(self.moves[i]@.len() == 0 || self.moves[i] == lists1[i]);
                }
            }
            if m.len() == 0 {
                assert(d > 1 ==> legal_moves(s).contains(best[0]));
                let picked = choose_board(&best);
                proof {
                    if picked is Some {
                        lemma_legal_sound(s, picked->0);
                        assert(finished(tt0, s, (d - 1) as nat).0.contains(picked->0));
                    }
                }
                return (picked, score);
            }
            proof {
                assert((m@, v as int, self.transposition@) == finished(tt0, s, d as nat));
                assert(cache_before(tt0, s, (d + 1) as nat) == finished(tt0, s, d as nat).2);
            }
            best = m;
            score = v;
            d += 1;
            if given_up(d, clock_millis(&now), limit) {
                break ;
            }
        }
        assert(legal_moves(s).contains(best[0]));
        if best.len() == 0 {
            (None, score)
        } else {
            let picked = choose_board(&best);
            proof {
                lemma_legal_sound(s, picked->0);
                assert(finished(tt0, s, (d - 1) as nat).0.contains(picked->0));
            }
            (picked, score)
        }
    }
}

} // verus!
