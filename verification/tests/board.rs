use martian_chess::board::Board;
use martian_chess::gen_tables::{stringify_move, Tables};

#[test]
fn t_field_promotions() {
    let board = Board::from_desc("4/4/4/1p1p/2p1/1p1p/4/4");
    let tables = Tables::new().unwrap();
    let mut moves = Vec::new();

    board.gen_moves(false, Board(0), &tables, &mut moves);

    assert_eq!(moves.len(), 10);

    let board2 = Board::from_desc("4/4/4/2p1/1pdp/2p1/2p1/4");

    board2.gen_moves(false, Board(0), &tables, &mut moves);

    assert_eq!(moves.len(), 14);

    let board3 = Board::from_desc("q3/4/4/4/4/4/4/3d");

    board3.gen_moves(false, Board(0), &tables, &mut moves);

    assert_eq!(moves.len(), 4);

    let board4 = Board::from_desc("q3/4/4/4/4/4/4/3d");

    board4.gen_moves(true, Board(0), &tables, &mut moves);

    assert_eq!(moves.len(), 13);
}

#[test]
fn start_layout_has_moves_and_is_not_over() {
    let tables = Tables::new().unwrap();
    let board = Board::from_desc("qqd1/qdp1/dpp1/4/4/1ppd/1pdq/1dqq");
    assert_eq!(board, Board::new());
    assert!(!board.game_end());
    let mut moves = Vec::new();
    board.gen_moves(false, Board::empty(), &tables, &mut moves);
    assert!(!moves.is_empty());
    board.gen_moves(true, Board::empty(), &tables, &mut moves);
    assert!(!moves.is_empty());
}

#[test]
fn layout_sets_pieces_from_the_top_right() {
    // The first letter of a layout stands on square 31, the last on square 0.
    assert_eq!(Board::from_desc("p3/4/4/4/4/4/4/4"), Board(1 << 31));
    assert_eq!(Board::from_desc("4/4/4/4/4/4/4/3d"), Board(1 << 32));
    assert_eq!(Board::from_desc("4/4/4/4/4/4/4/2q1"), Board((1 << 1) | (1 << 33)));
    assert_eq!(Board::from_desc("4/4/4/4/4/4/1p2/4"), Board(1 << 6));
    assert_eq!(Board::from_desc(""), Board::empty());
    // What runs over the row's end or the board's end is left out.
    assert_eq!(Board::from_desc("4p/4/4/4/4/4/4/4"), Board::empty());
    assert_eq!(Board::from_desc("4/4/4/4/4/4/4/4/pppp"), Board::empty());
    assert_eq!(Board::from_desc("x3p"), Board(1 << 28));
    assert_eq!(Board::new().0, 0xec80_0137_ca60_0653);
    assert_eq!(Board::default(), Board::new());
}

#[test]
fn words_name_the_kinds() {
    let board = Board::from_desc("qqd1/qdp1/dpp1/4/4/1ppd/1pdq/1dqq");
    assert_eq!(board.occ(), 0xeee0_0777);
    assert_eq!(board.pawns(), 0x0260_0640);
    assert_eq!(board.drones(), 0x2480_0124);
    assert_eq!(board.queens(), 0xc800_0013);
    assert_eq!(board.pawns() | board.drones() | board.queens(), board.occ());
}

#[test]
fn values_count_the_planes() {
    let start = Board::new();
    // Three pawns, three drones and three queens on each side.
    assert_eq!(start.pieces_value(), 2 * (3 * 1 + 3 * 2 + 3 * 2));
    assert_eq!(start.player_value(), 0);
    assert_eq!(Board::empty().pieces_value(), 0);
    assert_eq!(Board::empty().player_value(), 0);
    // A pawn, a drone and a queen in the first half.
    let low = Board::from_desc("4/4/4/4/4/4/4/1pdq");
    assert_eq!(low.pieces_value(), 5);
    assert_eq!(low.player_value(), -6);
    // The same in the second half.
    let high = Board::from_desc("1pdq/4/4/4/4/4/4/4");
    assert_eq!(high.pieces_value(), 5);
    assert_eq!(high.player_value(), 6);
    assert_eq!(Board(u64::MAX).pieces_value(), 64);
    assert_eq!(Board(u64::MAX).player_value(), 0);
    assert_eq!(Board(0xffff_0000_ffff_0000).player_value(), 48);
    assert_eq!(Board(0x0000_ffff_0000_ffff).player_value(), -48);
}

#[test]
fn game_ends_when_a_half_is_empty() {
    assert!(Board::empty().game_end());
    assert!(Board::from_desc("4/4/4/4/4/4/4/1pdq").game_end());
    assert!(Board::from_desc("1pdq/4/4/4/4/4/4/4").game_end());
    assert!(!Board::from_desc("1pdq/4/4/4/4/4/4/3p").game_end());
    assert!(!Board::new().game_end());
}

#[test]
fn do_move_steps_takes_and_joins() {
    let board = Board::from_desc("4/4/4/2d1/4/4/4/p1q1");
    // The queen on square 1 steps to the empty square 5.
    assert_eq!(board.do_move(1, 5), Board::from_desc("4/4/4/2d1/4/4/2q1/p3"));
    // It takes the drone on square 17, in the other half.
    assert_eq!(board.do_move(1, 17), Board::from_desc("4/4/4/2q1/4/4/4/p3"));
    // Two pawns of one half join to a drone, a pawn and a drone to a queen.
    let pawns = Board::from_desc("4/4/4/4/4/4/1p2/p1d1");
    assert_eq!(pawns.do_move(3, 6), Board::from_desc("4/4/4/4/4/4/1d2/2d1"));
    assert_eq!(pawns.do_move(6, 1), Board::from_desc("4/4/4/4/4/4/4/p1q1"));
    assert_eq!(pawns.do_move(1, 6), Board::from_desc("4/4/4/4/4/4/1q2/p3"));
    // A move from an empty square to an empty square changes nothing.
    assert_eq!(pawns.do_move(0, 2), pawns);
}

#[test]
fn do_string_move_reads_squares() {
    let board = Board::from_desc("4/4/4/2d1/4/4/4/p1q1");
    assert_eq!(Board::parse_move("c1c5"), Some((1, 17)));
    assert_eq!(Board::parse_move("a1d8"), Some((3, 28)));
    assert_eq!(Board::parse_move("d1a8 and more"), Some((0, 31)));
    assert_eq!(Board::parse_move("c1c"), None);
    assert_eq!(Board::parse_move("e1c5"), None);
    assert_eq!(Board::parse_move("c0c5"), None);
    assert_eq!(Board::parse_move("c1c9"), None);
    assert_eq!(Board::parse_move("C1c5"), None);
    assert_eq!(board.do_string_move("c1c5"), board.do_move(1, 17));
    assert_eq!(board.do_string_move("c1c2"), board.do_move(1, 5));
}

#[test]
fn moves_never_land_on_own_pieces_nor_add_any() {
    let tables = Tables::new().unwrap();
    let boards = [
        Board::new(),
        Board::from_desc("4/4/4/1p1p/2p1/1p1p/4/4"),
        Board::from_desc("4/4/4/2p1/1pdp/2p1/2p1/4"),
        Board::from_desc("q3/4/4/4/4/4/4/3d"),
        Board::from_desc("pdq1/1qdp/4/2p1/1d2/q3/1ppd/2q1"),
    ];
    let mut moves = Vec::new();
    for board in boards {
        for player in [false, true] {
            let own: u32 = if player { 0xffff_0000 } else { 0x0000_ffff };
            board.gen_moves(player, Board::empty(), &tables, &mut moves);
            for next in &moves {
                assert!((next.occ() & own).count_ones() <= (board.occ() & own).count_ones());
                assert!(next.occ().count_ones() <= board.occ().count_ones());
                assert!(next.pieces_value() <= board.pieces_value());
                // One piece of the player has left its square.
                let left = board.occ() & own & !next.occ();
                assert_eq!(left.count_ones(), 1);
            }
            board.gen_takes(player, &tables, &mut moves);
            for next in &moves {
                assert_eq!(next.occ().count_ones() + 1, board.occ().count_ones());
                assert!(next.pieces_value() < board.pieces_value());
            }
        }
    }
}

#[test]
fn a_move_that_restores_the_other_half_is_left_out() {
    let tables = Tables::new().unwrap();
    // The first player's queen can take the drone on square 17.
    let board = Board::from_desc("p3/4/4/2d1/4/4/4/p1q1");
    let taken = Board::from_desc("p3/4/4/2q1/4/4/4/p3");
    let mut moves = Vec::new();
    board.gen_moves(false, Board::empty(), &tables, &mut moves);
    assert!(moves.contains(&taken));
    let free = moves.len();
    // Not if the other half then looks as it did on the board before.
    board.gen_moves(false, taken, &tables, &mut moves);
    assert!(!moves.contains(&taken));
    assert_eq!(moves.len(), free - 1);
    // A move that leaves the other half alone stays, whatever was before.
    let quiet = board.do_move(1, 5);
    board.gen_moves(false, quiet, &tables, &mut moves);
    assert!(moves.contains(&quiet));
    board.gen_moves(false, board, &tables, &mut moves);
    assert_eq!(moves.len(), free);
    // Captures are listed whatever was before.
    board.gen_takes(false, &tables, &mut moves);
    assert_eq!(moves, vec![taken]);
}

#[test]
fn get_move_tells_the_squares() {
    let tables = Tables::new().unwrap();
    let board = Board::from_desc("p3/4/4/2d1/4/4/4/p1q1");
    let step = board.do_move(1, 5);
    // The square that is empty on the other board comes first.
    assert_eq!(board.get_move(&tables, &step), (1, 5));
    assert_eq!(step.get_move(&tables, &board), (5, 1));
    let take = board.do_move(1, 17);
    assert_eq!(take.get_move(&tables, &board), (17, 1));
    assert_eq!(board.get_move(&tables, &board), (32, 32));
    // Two pawns joined on square 6, where now a drone stands.
    let pawns = Board::from_desc("4/4/4/4/4/4/1p2/p1d1");
    let joined = pawns.do_move(3, 6);
    assert_eq!(joined.get_move(&tables, &pawns), (6, 3));
    assert_eq!(pawns.get_move(&tables, &joined), (3, 6));
    // One square differs: the other is the lowest partner of its piece, a
    // pawn among the diagonal neighbours of the pawn on square 3.
    let lone = Board::from_desc("4/4/4/4/4/4/1p2/p3");
    assert_eq!(lone.get_move(&tables, &Board::from_desc("4/4/4/4/4/4/1p2/4")), (3, 32));
    let across = Board::from_desc("4/4/4/1p2/2p1/4/4/4");
    assert_eq!(across.get_move(&tables, &Board::from_desc("4/4/4/1p2/4/4/4/4")), (13, 18));
}

#[test]
fn piece_moves_show_where_a_piece_can_go() {
    let tables = Tables::new().unwrap();
    let board = Board::from_desc("p3/4/4/2d1/4/4/4/p1q1");
    // The pawn on square 3 has one diagonal neighbour, square 6.
    assert_eq!(board.gen_piece_moves(Board::empty(), &tables, 3), 1 << 6);
    // An empty square shows nothing.
    assert_eq!(board.gen_piece_moves(Board::empty(), &tables, 2), 0);
    // The queen on square 1: the row, the diagonals, and the column up to
    // the drone on square 17.
    let queen = board.gen_piece_moves(Board::empty(), &tables, 1);
    assert_eq!(
        queen,
        (1 << 0) | (1 << 2) | (1 << 4) | (1 << 6) | (1 << 11) | (1 << 5) | (1 << 9) | (1 << 13)
            | (1 << 17)
    );
}

#[test]
fn js_numbers_hold_the_planes() {
    let board = Board(0xec80_0137_ca60_0653);
    let js = board.to_js();
    assert_eq!(js.upper, 0xec80_0137u32 as i32);
    assert_eq!(js.lower, 0xca60_0653u32 as i32);
    assert_eq!(Board::from_js(js), board);
    assert_eq!(Board::from_js(Board(u64::MAX).to_js()), Board(u64::MAX));
    assert_eq!(Board::empty().to_js().upper, 0);
}

#[test]
fn move_text_names_its_squares() {
    for from in 0..32 {
        for to in 0..32 {
            assert_eq!(Board::parse_move(&stringify_move((from, to))), Some((from, to)));
        }
    }
    assert_eq!(Board::parse_move(&stringify_move((32, 0))), None);
}
