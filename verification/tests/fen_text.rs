use xiangqi::board::{Board, Move, BLACK, RED};

#[test]
fn fen_written_reads_back_after_moves() {
    let mut b = Board::initial();
    for t in ["h2e2", "h9g7", "h0g2", "i9h9"] {
        let mv = Move::from_iccs(t).unwrap();
        b.make_move(mv);
    }
    let fen = b.to_fen();
    let c = Board::from_fen(&fen).unwrap();
    assert_eq!(c.squares, b.squares);
    assert_eq!(c.side, b.side);
    assert_eq!(c.to_fen(), fen);
}

#[test]
fn fen_black_to_move_reads_back() {
    let b = Board::from_fen("3k5/4a4/9/9/2n6/9/9/9/4p4/3K5 b").unwrap();
    assert_eq!(b.side, BLACK);
    let c = Board::from_fen(&b.to_fen()).unwrap();
    assert_eq!(c.squares, b.squares);
    assert_eq!(c.side, BLACK);
}

#[test]
fn fen_side_letters() {
    let fen = "4k4/9/9/9/9/9/9/9/9/4K4";
    assert_eq!(Board::from_fen(fen).unwrap().side, RED);
    assert_eq!(Board::from_fen(&format!("{fen} w")).unwrap().side, RED);
    assert_eq!(Board::from_fen(&format!("{fen} R")).unwrap().side, RED);
    assert_eq!(Board::from_fen(&format!("{fen} B")).unwrap().side, BLACK);
    assert_eq!(Board::from_fen(&format!("  {fen}   b  - - 0 1")).unwrap().side, BLACK);
}

#[test]
fn fen_error_empty() {
    assert_eq!(Board::from_fen("").err(), Some("FEN 为空".to_string()));
    assert_eq!(Board::from_fen("   ").err(), Some("FEN 为空".to_string()));
}

#[test]
fn fen_error_row_count() {
    assert_eq!(Board::from_fen("4k4/9/9 r").err(), Some("FEN 应有 10 行，实际 3".to_string()));
}

#[test]
fn fen_error_bad_char() {
    assert_eq!(
        Board::from_fen("4k4/9/9/9/9/9/9/9/9/4X4 r").err(),
        Some("非法 FEN 字符: X".to_string())
    );
}

#[test]
fn fen_error_row_too_long() {
    assert_eq!(Board::from_fen("4k4/9/9/9/9/9/9/9/9/4K4R r").err(), Some("FEN 行超长".to_string()));
}

#[test]
fn fen_error_row_length() {
    assert_eq!(
        Board::from_fen("4k5/9/9/9/9/9/9/9/9/4K4 r").err(),
        Some("FEN 第 0 行长度错误".to_string())
    );
}

#[test]
fn fen_error_bad_side() {
    assert_eq!(
        Board::from_fen("4k4/9/9/9/9/9/9/9/9/4K4 X").err(),
        Some("非法行棋方: x".to_string())
    );
}

#[test]
fn iccs_parsing_edges() {
    assert_eq!(Move::from_iccs("H2E2"), Move::from_iccs("h2e2"));
    assert_eq!(Move::from_iccs("j2e2"), None);
    assert_eq!(Move::from_iccs("h2e"), None);
    assert_eq!(Move::from_iccs("h2ex"), None);
    let mv = Move::from_iccs("a0i9").unwrap();
    assert_eq!((mv.from, mv.to), (81, 8));
    assert_eq!(mv.iccs(), "a0i9");
}
