use xiangqi::board::{Board, Move, BLACK, RED};

#[test]
fn null_move_round_trip() {
    let mut b = Board::initial();
    let hash0 = b.hash();
    b.make_null();
    assert_eq!(b.side, BLACK);
    assert_ne!(b.hash(), hash0);
    b.unmake_null();
    assert_eq!(b.side, RED);
    assert_eq!(b.hash(), hash0);
    assert_eq!(b.undo_len(), 0);
}

#[test]
fn undo_to_takes_moves_back() {
    let mut b = Board::initial();
    let fen0 = b.to_fen();
    for t in ["h2e2", "h9g7", "h0g2"] {
        b.make_move(Move::from_iccs(t).unwrap());
    }
    assert_eq!(b.undo_len(), 3);
    b.undo_to(1);
    assert_eq!(b.undo_len(), 1);
    b.undo_to(0);
    assert_eq!(b.to_fen(), fen0);
}

#[test]
fn repetition_counted() {
    let mut b = Board::initial();
    assert_eq!(b.repetition_count(), 1);
    for _ in 0..2 {
        for t in ["h0g2", "h9g7", "g2h0", "g7h9"] {
            b.make_move(Move::from_iccs(t).unwrap());
        }
    }
    assert_eq!(b.repetition_count(), 3);
}

#[test]
fn insufficient_material_cases() {
    assert!(Board::from_fen("3k5/4a4/9/9/9/9/9/9/4A4/3AK4 r").unwrap().insufficient_material());
    assert!(!Board::from_fen("3k5/9/9/9/9/9/9/9/4P4/4K4 r").unwrap().insufficient_material());
    assert!(!Board::initial().insufficient_material());
}

#[test]
fn king_squares_and_check() {
    let b = Board::from_fen("4k4/9/9/9/9/9/9/9/9/3K1R3 r").unwrap();
    assert_eq!(b.king_square(RED), Some(84));
    assert_eq!(b.king_square(BLACK), Some(4));
    assert!(!b.in_check(RED));
    let b = Board::from_fen("4k4/9/9/9/9/9/9/9/9/3K1R3 b").unwrap();
    assert!(b.is_attacked(85, RED));
    assert!(!b.in_check(BLACK));
    let facing = Board::from_fen("4k4/9/9/9/9/9/9/9/9/4K4 r").unwrap();
    assert!(facing.kings_facing());
    assert!(facing.in_check(RED));
    assert!(facing.in_check(BLACK));
}

#[test]
fn every_legal_move_leaves_king_safe() {
    let b = Board::from_fen("4k4/9/9/9/4r4/9/9/9/4A4/4K4 r").unwrap();
    let legal = b.legal_moves();
    for mv in &legal {
        let mut w = Board::from_fen(&b.to_fen()).unwrap();
        w.make_move(*mv);
        assert!(!w.in_check(RED));
        assert!(!w.kings_facing());
    }
    // the pinned advisor cannot leave the file
    assert!(legal.iter().all(|m| m.from != 76));
}

#[test]
fn stalemated_side_has_no_moves() {
    // black king boxed in by the red king facing and a rook
    let b = Board::from_fen("3k5/9/9/9/9/9/9/9/9/4K3R b").unwrap();
    assert_eq!(b.no_moves(), b.legal_moves().is_empty());
}
