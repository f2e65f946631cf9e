use martian_chess::gen_tables::{
    gen_att, gen_magic, gen_magic_table, gen_masks, num_to_mask, piece_properties,
    stringify_move, test_magic, within_board, BitStack, LocStack, LocStack64, Tables,
};

#[test]
fn t_gen_tables() {
    let tables = Tables::new().unwrap();

    assert_eq!(tables.queen2.len(), 32);
}

#[test]
fn stacks_walk_bits_from_the_lowest() {
    let mut bits = BitStack(0b1010_0100);
    assert_eq!(bits.next(), Some(0b100));
    assert_eq!(bits.next(), Some(0b10_0000));
    assert_eq!(bits.next(), Some(0b1000_0000));
    assert_eq!(bits.next(), None);
    assert_eq!(bits.0, 0);

    let mut locs = LocStack(0x8000_0011);
    assert_eq!(locs.next(), Some(0));
    assert_eq!(locs.next(), Some(4));
    assert_eq!(locs.next(), Some(31));
    assert_eq!(locs.next(), None);

    let mut wide = LocStack64(0x8000_0001_0000_0000);
    assert_eq!(wide.next(), Some(32));
    assert_eq!(wide.next(), Some(63));
    assert_eq!(wide.next(), None);
}

#[test]
fn stringify_move_names_squares() {
    assert_eq!(stringify_move((0, 31)), "d1a8");
    assert_eq!(stringify_move((3, 4)), "a1d2");
    assert_eq!(stringify_move((13, 18)), "c4b5");
    assert_eq!(stringify_move((32, 5)), "?c2");
    assert_eq!(stringify_move((7, 99)), "a2?");
}

#[test]
fn num_to_mask_deposits_low_bits() {
    assert_eq!(num_to_mask(0, 0b1011_0000), 0);
    assert_eq!(num_to_mask(0b101, 0b1011_0000), 0b1001_0000);
    assert_eq!(num_to_mask(0b111, 0b1011_0000), 0b1011_0000);
    assert_eq!(num_to_mask(0b1010, 0b1011_0000), 0b0010_0000);
    assert_eq!(num_to_mask(u32::MAX, u32::MAX), u32::MAX);
    assert_eq!(num_to_mask(0x1234_5678, u32::MAX), 0x1234_5678);
}

#[test]
fn within_board_is_four_by_eight() {
    assert!(within_board(0, 0));
    assert!(within_board(3, 7));
    assert!(!within_board(4, 0));
    assert!(!within_board(0, 8));
    assert!(!within_board(-1, 3));
    assert!(!within_board(2, -1));
}

#[test]
fn gen_att_slides_and_stops() {
    let straight = vec![(-1, 0), (0, -1), (1, 0), (0, 1)];
    // A drone on square 5 (column 1, row 1) of an empty board.
    let open = gen_att(5, 2, &straight, 0, false);
    assert_eq!(open, (1 << 4) | (1 << 1) | (1 << 6) | (1 << 7) | (1 << 9) | (1 << 13));
    // A piece on square 9, in the same half, ends the slide before it.
    let blocked = gen_att(5, 2, &straight, 1 << 9, false);
    assert_eq!(blocked, (1 << 4) | (1 << 1) | (1 << 6) | (1 << 7));
    // A field drone may land on it.
    let field = gen_att(5, 2, &straight, 1 << 9, true);
    assert_eq!(field, (1 << 4) | (1 << 1) | (1 << 6) | (1 << 7) | (1 << 9));
    // From square 13 (row 3) a piece on square 17 (row 4) is in the other half.
    let capture = gen_att(13, 2, &straight, 1 << 17, false);
    assert_eq!(capture, (1 << 12) | (1 << 14) | (1 << 15) | (1 << 9) | (1 << 5) | (1 << 17));
}

#[test]
fn masks_follow_the_rules() {
    let props = piece_properties();
    assert_eq!(props.len(), 5);
    assert_eq!(props[0], (1, vec![(-1, -1), (1, -1), (-1, 1), (1, 1)]));
    assert_eq!(props[4], (9, vec![(0, -1), (0, 1)]));
    let masks = gen_masks();
    assert_eq!(masks.len(), 5);
    // A pawn in the corner has one diagonal neighbour.
    assert_eq!(masks[0][0], 1 << 5);
    assert_eq!(masks[0][5], (1 << 0) | (1 << 2) | (1 << 8) | (1 << 10));
    // The queen's column rule from square 0 covers the rest of the column.
    assert_eq!(masks[4][0], 0x1111_1110);
    for p in 0..5 {
        assert_eq!(masks[p].len(), 32);
        for sq in 0..32 {
            assert_eq!(masks[p][sq] & (1 << sq), 0);
        }
    }
}

#[test]
fn magic_trial_detects_collisions() {
    let occ_att = vec![(0u32, 1u32), (1 << 4, 2), (1 << 8, 3), ((1 << 4) | (1 << 8), 4)];
    let mut table = vec![u32::MAX; 8];
    let mut changed = vec![0usize; 4];
    // The multiplier 0 sends every occupancy to slot 0.
    assert!(!test_magic(&mut table, &mut changed, &occ_att, 3, 0));
    assert!(table.iter().all(|&w| w == u32::MAX));
    // 1 << 25 moves bits 4 and 8 to bits 29 and, past the word, nowhere.
    assert!(!test_magic(&mut table, &mut changed, &occ_att, 3, 1 << 25));
    assert!(table.iter().all(|&w| w == u32::MAX));
    // (1 << 25) | (1 << 22) moves bit 4 to bit 29 and bit 8 to bit 30.
    let magic = (1 << 25) | (1 << 22);
    assert!(test_magic(&mut table, &mut changed, &occ_att, 3, magic));
    let built = gen_magic_table(&occ_att, 3, magic);
    assert_eq!(built, vec![1, 2, 3, 4, 0, 0, 0, 0]);
}

#[test]
fn found_magic_is_free_of_collisions() {
    let occ_att = vec![(0u32, 1u32), (1 << 4, 2), (1 << 8, 3), ((1 << 4) | (1 << 8), 4)];
    let magic = gen_magic(&occ_att, 3).unwrap();
    let table = gen_magic_table(&occ_att, 3, magic);
    for (occ, att) in occ_att {
        assert_eq!(table[(occ.wrapping_mul(magic) >> 29) as usize], att);
    }
}

#[test]
fn tables_answer_like_the_slow_walk() {
    let tables = Tables::new().unwrap();
    let props = piece_properties();
    let rules = [&tables.drone, &tables.field_drone, &tables.queen1, &tables.queen2];
    let boards = [0u32, 0xffff_ffff, 0x0f0f_1234, 0x8421_8421, 0x0000_ffff, 0x1111_2222];
    for (i, rule) in rules.iter().enumerate() {
        let piece = i + 1;
        assert_eq!(rule.len(), 32);
        for sq in 0..32 {
            let (mask, magic, shift, table) = &rule[sq];
            assert_eq!(*mask, gen_att(sq, props[piece].0, &props[piece].1, 0, false));
            for board in boards {
                let slot = ((board & mask).wrapping_mul(*magic) >> shift) as usize;
                let slow = gen_att(sq, props[piece].0, &props[piece].1, board, piece == 2);
                assert_eq!(table[slot], slow);
            }
        }
    }
    for sq in 0..32 {
        assert_eq!(tables.pawn[sq], gen_att(sq, 1, &props[0].1, 0, false));
    }
}

#[test]
fn no_magic_parts_one_occupancy_from_itself() {
    // One occupancy listed with two attack sets falls into one slot
    // whatever the multiplier.
    let occ_att = vec![(1u32 << 4, 2u32), (1 << 4, 3)];
    let mut table = vec![u32::MAX; 4];
    let mut changed = vec![0usize; 2];
    assert!(!test_magic(&mut table, &mut changed, &occ_att, 2, 0x1234_5678));
    assert_eq!(table, vec![u32::MAX; 4]);
    assert_eq!(gen_magic(&occ_att, 2), None);
    // The table built all the same holds the later of the two.
    assert_eq!(gen_magic_table(&occ_att, 2, 1 << 26), vec![0, 3, 0, 0]);
}

#[test]
fn magic_is_found_where_none_can_collide() {
    // No occupancy, one occupancy, or one attack set for all: whatever is
    // drawn will do.
    let none: Vec<(u32, u32)> = Vec::new();
    assert!(gen_magic(&none, 3).is_some());
    let one = vec![(1u32 << 4, 2u32)];
    assert!(gen_magic(&one, 1).is_some());
    let same = vec![(0u32, 6u32), (1 << 4, 6), (1 << 8, 6), ((1 << 4) | (1 << 8), 6)];
    let magic = gen_magic(&same, 3).unwrap();
    let mut table = vec![u32::MAX; 8];
    let mut changed = vec![0usize; 4];
    assert!(test_magic(&mut table, &mut changed, &same, 3, magic));
}

#[test]
fn tables_have_one_bit_more_than_the_mask() {
    let tables = Tables::new().unwrap();
    for rule in [&tables.drone, &tables.field_drone, &tables.queen1, &tables.queen2] {
        for (mask, _, shift, table) in rule.iter() {
            assert!(mask.count_ones() <= 18);
            assert_eq!(*shift, 31 - mask.count_ones() as usize);
            assert_eq!(table.len(), 2 << mask.count_ones());
        }
    }
}
