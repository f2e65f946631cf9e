use martian_chess::board::Board;
use martian_chess::gen_tables::Tables;
use martian_chess::position::Position;

#[test]
fn new_position_is_the_start() {
    let tables = Tables::new().unwrap();
    let pos = Position::new(&tables);
    assert_eq!(pos.board, Board::new());
    assert_eq!(pos.prev, Board::empty());
    assert!(!pos.get_player());
    assert_eq!(pos.get_score(), 0);
    assert_eq!(pos.eval(), 0);
    assert!(pos.is_sound());
}

#[test]
fn undo_takes_a_move_back() {
    let tables = Tables::new().unwrap();
    let mut pos = Position::new(&tables);
    pos.board = Board::from_desc("p3/4/4/2d1/4/4/4/p1q1");
    pos.prev = Board::from_desc("p3/4/4/4/2d1/4/4/p1q1");
    pos.score = -3;
    pos.player = false;
    let mut moves = Vec::new();
    pos.gen_moves(&mut moves);
    assert!(!moves.is_empty());
    for m in moves {
        let (board, prev, player, score) = (pos.board, pos.prev, pos.player, pos.score);
        let u = pos.do_move(m);
        assert_eq!(u, prev);
        assert_eq!(pos.board, m);
        assert_eq!(pos.prev, board);
        assert_eq!(pos.player, !player);
        assert!(pos.score >= score);
        let back = pos.undo_move(u);
        assert_eq!(back, m);
        assert_eq!((pos.board, pos.prev, pos.player, pos.score), (board, prev, player, score));
    }
}

#[test]
fn score_follows_the_captures() {
    let tables = Tables::new().unwrap();
    let mut pos = Position::new(&tables);
    pos.board = Board::from_desc("p3/4/4/2d1/4/4/4/p1q1");
    // The first player takes a drone: two points.
    pos.do_move(Board::from_desc("p3/4/4/2q1/4/4/4/p3"));
    assert_eq!(pos.score, 2);
    assert!(pos.get_player());
    assert_eq!(pos.get_score(), -2);
    // On the board a queen and a pawn stand in the second half, a pawn in
    // the first.
    assert_eq!(pos.player_value(), -3);
    assert_eq!(pos.eval(), -203);
    // The second player takes the pawn with the queen: one point.
    pos.do_move(Board::from_desc("p3/4/4/4/4/4/4/q3"));
    assert_eq!(pos.score, 1);
    assert!(!pos.get_player());
    assert_eq!(pos.eval(), 100 + 1 - 3);
    // A move that takes nothing leaves the score.
    let mut quiet = Position::new(&tables);
    let before = quiet.board;
    quiet.do_move(before.do_move(9, 13));
    assert_eq!(quiet.score, 0);
    assert_eq!(quiet.prev, before);
}

#[test]
fn string_moves_must_be_legal() {
    let tables = Tables::new().unwrap();
    let mut pos = Position::new(&tables);
    pos.board = Board::from_desc("p3/4/4/2d1/4/4/4/p1q1");
    let start = pos.board;
    // No text, a text that names no squares, a move of no piece, a move
    // of the opponent's piece.
    assert!(!pos.do_string_move(""));
    assert!(!pos.do_string_move("c1x5"));
    assert!(!pos.do_string_move("b1b2"));
    assert!(!pos.do_string_move("a8a7"));
    assert_eq!(pos.board, start);
    assert!(!pos.get_player());
    assert!(pos.do_string_move("c1c5"));
    assert_eq!(pos.board, Board::from_desc("p3/4/4/2q1/4/4/4/p3"));
    assert_eq!(pos.prev, start);
    assert_eq!(pos.score, 2);
    assert!(pos.get_player());
    assert_eq!(pos.get_move(), (17, 1));
}

#[test]
fn fen_is_written_and_read() {
    let tables = Tables::new().unwrap();
    let pos = Position::new(&tables);
    assert_eq!(pos.to_fen(), "ec800137ca600653 0000000000000000 1 0");
    let read = Position::from_fen("ec200a27ca406643 ec100a27ca406643 1 0", &tables).unwrap();
    assert_eq!(read.board, Board(0xec200a27ca406643));
    assert_eq!(read.prev, Board(0xec100a27ca406643));
    assert!(!read.player);
    assert_eq!(read.score, 0);
    assert_eq!(read.to_fen(), "ec200a27ca406643 ec100a27ca406643 1 0");

    let mut other = Position::new(&tables);
    other.board = Board(0x1);
    other.prev = Board(u64::MAX);
    other.player = true;
    for score in [0, 7, -7, 10, -10, 123456, i32::MAX, i32::MIN] {
        other.score = score;
        let text = other.to_fen();
        let back = Position::from_fen(&text, &tables).unwrap();
        assert_eq!((back.board, back.prev, back.player, back.score), (
            other.board,
            other.prev,
            true,
            score
        ));
    }
    other.score = -2147483648;
    assert_eq!(other.to_fen(), "0000000000000001 ffffffffffffffff 2 -2147483648");

    // Short numbers and capital letters are read too.
    let short = Position::from_fen("FF 1a 2 -12", &tables).unwrap();
    assert_eq!((short.board, short.prev, short.player, short.score), (
        Board(255),
        Board(26),
        true,
        -12
    ));
}

#[test]
fn fen_that_is_no_position_is_refused() {
    let tables = Tables::new().unwrap();
    for text in [
        "",
        "ec800137ca600653",
        "ec800137ca600653 0000000000000000",
        "ec800137ca600653 0000000000000000 1",
        "ec800137ca600653 0000000000000000 1 ",
        "ec800137ca600653 0000000000000000 3 0",
        "ec800137ca600653 0000000000000000 1 x",
        "ec800137ca600653 0000000000000000 1 0 ",
        "ec800137ca600653 0000000000000000 1 -",
        "ec800137ca600653  0000000000000000 1 0",
        "ec800137ca60065g 0000000000000000 1 0",
        "1ec800137ca600653 0000000000000000 1 0",
        "ec800137ca600653 0000000000000000 1 2147483648",
        "ec800137ca600653 0000000000000000 1 -2147483649",
        " 0000000000000000 1 0",
    ] {
        assert!(Position::from_fen(text, &tables).is_none(), "{}", text);
    }
}

#[test]
fn js_position_holds_the_fields() {
    let tables = Tables::new().unwrap();
    let mut pos = Position::new(&tables);
    pos.score = -5;
    pos.player = true;
    pos.prev = Board(0x8000_0000_0000_0001);
    let js = pos.to_js();
    assert_eq!(js.score, -5);
    assert!(js.player);
    assert_eq!(js.prev.upper, i32::MIN);
    assert_eq!(js.prev.lower, 1);
    let back = Position::from_js(&tables, js);
    assert_eq!((back.board, back.prev, back.player, back.score), (
        pos.board,
        pos.prev,
        true,
        -5
    ));
}

#[test]
fn soundness_is_a_limit_on_score_and_material() {
    let tables = Tables::new().unwrap();
    let mut pos = Position::new(&tables);
    // The start holds thirty points of material.
    pos.score = 212_000 - 30;
    assert!(pos.is_sound());
    pos.score = 212_000 - 29;
    assert!(!pos.is_sound());
    pos.score = 30 - 212_000;
    assert!(pos.is_sound());
    pos.score = 29 - 212_000;
    assert!(!pos.is_sound());
    pos.score = i32::MIN;
    assert!(!pos.is_sound());
}

#[test]
fn text_shows_the_board_from_the_top() {
    let tables = Tables::new().unwrap();
    let board = Board::from_desc("qqd1/qdp1/dpp1/4/4/1ppd/1pdq/1dqq");
    let rows = "8  A A * _ \n7  A * ^ _ \n6  * ^ ^ _ \n5  _ _ _ _ \n4  _ _ _ _ \n\
                3  _ ^ ^ * \n2  _ ^ * A \n1  _ * A A \n\n   A B C D\n";
    assert_eq!(board.to_text(), rows);
    let mut pos = Position::new(&tables);
    assert_eq!(pos.to_text(), format!("p1 0\n\n{}\n", rows));
    pos.player = true;
    pos.score = -12;
    assert_eq!(pos.to_text(), format!("p2 -12\n\n{}\n", rows));
}
