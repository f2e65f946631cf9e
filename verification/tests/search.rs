use martian_chess::board::Board;
use martian_chess::gen_tables::Tables;
use martian_chess::position::Position;
use martian_chess::search::{given_up, Searcher};

#[test]
fn zero_budget_still_finds_a_move() {
    let tables = Tables::new().unwrap();
    let pos = Position::new(&tables);
    let mut legal = Vec::new();
    pos.gen_moves(&mut legal);
    let mut searcher = Searcher::new(pos);
    let (mov, score) = searcher.ab_search(0);
    let mov = mov.unwrap();
    assert!(legal.contains(&mov));
    assert!(score.abs() <= 2_125_000_000);
    let back = searcher.into_position();
    assert_eq!(back.board, Board::new());
    assert_eq!(back.prev, Board::empty());
    assert!(!back.player);
    assert_eq!(back.score, 0);
}

#[test]
fn short_budget_returns_a_legal_move() {
    let tables = Tables::new().unwrap();
    let pos = Position::new(&tables);
    let mut legal = Vec::new();
    pos.gen_moves(&mut legal);
    let mut searcher = Searcher::new(pos);
    let (mov, _) = searcher.ab_search(30);
    assert!(legal.contains(&mov.unwrap()));
    assert_eq!(searcher.into_position().board, Board::new());
}

#[test]
fn finished_game_has_no_move() {
    let tables = Tables::new().unwrap();
    let mut pos = Position::new(&tables);
    pos.board = Board::from_desc("4/4/4/4/4/1p2/4/3q");
    assert!(pos.board.game_end());
    let mut searcher = Searcher::new(pos);
    assert_eq!(searcher.ab_search(0), (None, 0));
}

#[test]
fn one_capture_each_way() {
    let tables = Tables::new().unwrap();
    // A pawn on square 13 (row 3) and a pawn on square 18 (row 4), diagonal
    // neighbours across the middle.
    let board = Board((1 << 13) | (1 << 18));
    let mut takes = Vec::new();
    board.gen_takes(false, &tables, &mut takes);
    assert_eq!(takes, vec![Board(1 << 18)]);
    board.gen_takes(true, &tables, &mut takes);
    assert_eq!(takes, vec![Board(1 << 13)]);

    let mut pos = Position::new(&tables);
    pos.board = board;
    let mut searcher = Searcher::new(pos);
    // The first player takes the pawn: the game is over, a point of
    // material is won, and the pawn stands in the other half.
    let value = searcher.quiesce(-2_125_000_000, 2_125_000_000);
    assert_eq!(value, (100 + 1) * 100);
    let back = searcher.into_position();
    assert_eq!(back.board, board);
    assert_eq!(back.score, 0);
    assert!(!back.player);
}

#[test]
fn search_takes_the_hanging_piece() {
    let tables = Tables::new().unwrap();
    let mut pos = Position::new(&tables);
    // The first player's queen on square 1 can take the drone on square 17
    // along the column; a pawn of each side stands far off.
    pos.board = Board::from_desc("p3/4/4/2d1/4/4/4/p1q1");
    let mut searcher = Searcher::new(pos);
    let (mov, score) = searcher.ab_search(0);
    assert_eq!(mov, Some(Board::from_desc("p3/4/4/2q1/4/4/4/p3")));
    // Two points for the drone; on the board a queen and a pawn, 3 and 1,
    // stand in the second half against a pawn, 1, in the first.
    assert_eq!(score, 200 + 3);
}

#[test]
fn moves_are_tried_in_the_order_of_their_keys() {
    let tables = Tables::new().unwrap();
    // Two pawns in the corners of the first half, each with one step.
    let board = Board::from_desc("p3/4/4/4/4/4/4/p2p");
    let first = board.do_move(0, 5);
    let second = board.do_move(3, 6);
    let mut pos = Position::new(&tables);
    pos.board = board;
    let mut legal = Vec::new();
    pos.gen_moves(&mut legal);
    assert_eq!(legal, vec![first, second]);

    // With an empty cache the moves keep their order and are tried from the
    // last to the first; both are worth the same: two pawns against one.
    let mut searcher = Searcher::new(pos);
    searcher.moves = vec![Vec::new(), Vec::new()];
    let now = std::time::Instant::now();
    let (best, score) = searcher.best_moves(1, &now, 0);
    assert_eq!(best, vec![second, first]);
    assert_eq!(score, -1);
    assert_eq!(searcher.moves.len(), 2);

    // A higher key in the cache moves the first move behind the second.
    let mut pos = Position::new(&tables);
    pos.board = board;
    let mut searcher = Searcher::new(pos);
    searcher.moves = vec![Vec::new(), Vec::new()];
    assert_eq!(searcher.move_key(&first), 0);
    searcher.transposition[(first.0 % 1_048_573) as usize] = (first, true, 0, 5);
    assert_eq!(searcher.move_key(&first), 5);
    assert_eq!(searcher.move_key(&second), 0);
    let (best, score) = searcher.best_moves(1, &now, 0);
    assert_eq!(best, vec![first, second]);
    assert_eq!(score, -1);
}

#[test]
fn cache_answers_for_a_position_searched_as_deep() {
    let tables = Tables::new().unwrap();
    let board = Board::from_desc("p3/4/4/4/4/4/4/p2p");
    let mut pos = Position::new(&tables);
    pos.board = board;
    let worth = pos.eval();
    let mut searcher = Searcher::new(pos);
    searcher.moves = vec![Vec::new(); 4];
    let slot = (board.0 % 1_048_573) as usize;
    searcher.transposition[slot] = (board, false, 3, 40);
    // Searched to depth 3 before: a search to depth 2 takes the answer.
    assert_eq!(searcher.alphabeta(-2_125_000_000, 2_125_000_000, 2), worth + 40);
    assert_eq!(searcher.transposition[slot], (board, false, 3, 40));
    // A deeper search does not, and puts its own result in the cache.
    let deep = searcher.alphabeta(-2_125_000_000, 2_125_000_000, 4 - 1);
    assert_eq!(deep, worth + 40);
    searcher.transposition[slot] = (board, false, 1, 40);
    let value = searcher.alphabeta(-2_125_000_000, 2_125_000_000, 2);
    assert_eq!(searcher.transposition[slot], (board, false, 2, value - worth));
    // An entry for the other player does not answer.
    searcher.transposition[slot] = (board, true, 9, 40);
    let again = searcher.alphabeta(-2_125_000_000, 2_125_000_000, 1);
    assert_eq!(searcher.transposition[slot], (board, false, 1, again - worth));
    // At a board where the game is over the value is a hundred times the worth.
    let mut over = Position::new(&tables);
    over.board = Board::from_desc("4/4/4/4/4/4/4/p2p");
    over.score = 3;
    let mut searcher = Searcher::new(over);
    searcher.moves = vec![Vec::new(); 2];
    assert_eq!(searcher.alphabeta(-2_125_000_000, 2_125_000_000, 1), (300 - 2) * 100);
    assert_eq!(searcher.quiesce(-2_125_000_000, 2_125_000_000), (300 - 2) * 100);
}

#[test]
fn search_bears_a_large_score() {
    let tables = Tables::new().unwrap();
    let mut pos = Position::new(&tables);
    pos.score = -211_000;
    assert!(pos.is_sound());
    let mut legal = Vec::new();
    pos.gen_moves(&mut legal);
    let mut searcher = Searcher::new(pos);
    let (mov, score) = searcher.ab_search(0);
    assert!(legal.contains(&mov.unwrap()));
    // No capture can be made from the start: the score stands.
    assert!((score + 21_100_000).abs() <= 48);
    assert_eq!(searcher.into_position().score, -211_000);
}

#[test]
fn a_deeper_search_is_given_up_when_the_time_is_used() {
    assert!(!given_up(1, 500, 100));
    assert!(!given_up(1, 0, 0));
    assert!(given_up(2, 100, 100));
    assert!(given_up(2, 0, 0));
    assert!(!given_up(2, 99, 100));
    assert!(given_up(64, u128::MAX, 3));

    let tables = Tables::new().unwrap();
    let pos = Position::new(&tables);
    let mut searcher = Searcher::new(pos);
    searcher.moves = vec![Vec::new(), Vec::new(), vec![Board(7)]];
    let now = std::time::Instant::now();
    // No time at all: the search two moves deep is given up before its
    // first move, the search one move deep is not.
    assert_eq!(searcher.best_moves(2, &now, 0), (vec![], 0));
    assert!(searcher.moves.iter().all(|list| list.is_empty()));
    let (best, _) = searcher.best_moves(1, &now, 0);
    assert!(!best.is_empty());
    // With time enough it runs to its end.
    let (best, _) = searcher.best_moves(2, &now, u128::MAX);
    assert!(!best.is_empty());
    let mut legal = Vec::new();
    searcher.pos.gen_moves(&mut legal);
    for m in &best {
        let times = best.iter().filter(|b| *b == m).count();
        assert!(times <= legal.iter().filter(|b| *b == m).count());
    }
}

#[test]
fn a_finished_game_leaves_cache_and_lists() {
    let tables = Tables::new().unwrap();
    let mut over = Position::new(&tables);
    over.board = Board::from_desc("4/4/4/4/4/4/4/p2p");
    let mut searcher = Searcher::new(over);
    searcher.moves = vec![vec![Board(3)], vec![Board(5), Board(6)]];
    searcher.transposition[17] = (Board(9), true, 4, -3);
    let cache = searcher.transposition.clone();
    // No list is read: any depth will do.
    assert_eq!(searcher.alphabeta(-10, 10, 0), -200);
    assert_eq!(searcher.alphabeta(-10, 10, 1), -200);
    assert_eq!(searcher.alphabeta(-10, 10, 40), -200);
    let now = std::time::Instant::now();
    assert_eq!(searcher.best_moves(1, &now, 0), (vec![], -200));
    assert_eq!(searcher.best_moves(9, &now, 0), (vec![], -200));
    assert_eq!(searcher.moves, vec![vec![Board(3)], vec![Board(5), Board(6)]]);
    assert!(searcher.transposition == cache);
}

#[test]
fn lists_come_back_empty_or_untouched() {
    let tables = Tables::new().unwrap();
    let pos = Position::new(&tables);
    let start = pos.board;
    let mut searcher = Searcher::new(pos);
    searcher.moves = vec![vec![Board(1)], vec![Board(2)], vec![Board(3)], vec![Board(4)]];
    let cache = searcher.transposition.clone();
    // At depth 0 neither a list nor the cache is touched.
    searcher.alphabeta(-1000, 1000, 0);
    assert_eq!(searcher.moves.len(), 4);
    assert_eq!(searcher.moves[2], vec![Board(3)]);
    assert!(searcher.transposition == cache);
    // A search two moves deep uses the lists of depth 2 and 1.
    let value = searcher.alphabeta(-1000, 1000, 2);
    assert_eq!(searcher.moves[0], vec![Board(1)]);
    assert!(searcher.moves[1].is_empty());
    assert!(searcher.moves[2].is_empty());
    assert_eq!(searcher.moves[3], vec![Board(4)]);
    // It has put the position into the cache, with the value above its worth.
    let slot = (start.0 % 1_048_573) as usize;
    assert_eq!(searcher.transposition[slot], (start, false, 2, value));
    // Asked again, the cache answers.
    assert_eq!(searcher.alphabeta(-1000, 1000, 2), value);
    assert_eq!(searcher.alphabeta(-1000, 1000, 1), value);
}
