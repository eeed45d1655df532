use xiangqi::board::{Board, Move};

#[test]
fn fen_roundtrip() {
    let fens = [
        "rnbakabnr/9/1c5c1/p1p1p1p1p/9/9/P1P1P1P1P/1C5C1/9/RNBAKABNR r",
        "2b1k4/9/2b6/p1N6/9/9/4C4/9/9/4K4 r",
        "4k4/4a4/9/4R4/9/9/9/9/9/3AK4 b",
    ];
    for f in fens {
        let b = Board::from_fen(f).unwrap();
        assert_eq!(b.to_fen(), f, "FEN 往返不一致: {f}");
    }
}

#[test]
fn iccs_roundtrip() {
    let mv = Move::from_iccs("h2e2").unwrap();
    assert_eq!((mv.from / 9, mv.from % 9), (7, 7)); // 红炮 h2
    assert_eq!((mv.to / 9, mv.to % 9), (7, 4));
    assert_eq!(mv.iccs(), "h2e2");
}

#[test]
fn make_unmake_restores() {
    let mut b = Board::initial();
    let moves = b.legal_moves();
    let hash0 = b.hash();
    let fen0 = b.to_fen();
    for mv in moves.iter().take(10) {
        b.make_move(*mv);
        b.unmake_move();
    }
    assert_eq!(b.hash(), hash0);
    assert_eq!(b.to_fen(), fen0);
}

#[test]
fn initial_legal_moves_44() {
    let b = Board::initial();
    assert_eq!(b.legal_moves().len(), 44);
}
