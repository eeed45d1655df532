use xiangqi::board::{Board, Move};
use xiangqi::notation::move_notation;

#[test]
fn initial_opening_notations() {
    let b = Board::initial();
    // 炮二平五：h2e2
    let mv = Move::from_iccs("h2e2").unwrap();
    assert_eq!(move_notation(&b, mv), "炮二平五");
    // 马二进三：h0g2
    let mv = Move::from_iccs("h0g2").unwrap();
    assert_eq!(move_notation(&b, mv), "马二进三");
    // 兵三进一：g3g4
    let mv = Move::from_iccs("g3g4").unwrap();
    assert_eq!(move_notation(&b, mv), "兵三进一");
    // 车一平二：i0h0
    let mv = Move::from_iccs("i0h0").unwrap();
    assert_eq!(move_notation(&b, mv), "车一平二");
}

#[test]
fn black_notations() {
    let b = Board::initial();
    // 黑方：炮8平5 = h7e7
    let mv = Move::from_iccs("h7e7").unwrap();
    assert_eq!(move_notation(&b, mv), "炮8平5");
    // 黑方：马8进7 = h9g7
    let mv = Move::from_iccs("h9g7").unwrap();
    assert_eq!(move_notation(&b, mv), "马8进7");
    // 黑方：卒3进1 = c6c5
    let mv = Move::from_iccs("c6c5").unwrap();
    assert_eq!(move_notation(&b, mv), "卒3进1");
}

#[test]
fn front_back_disambiguation() {
    // 两红炮同线（row6、row8）
    let b = Board::from_fen("4k4/9/9/9/9/9/4C4/9/4C4/4K4 r").unwrap();
    let mv = Move::from_iccs("e3e6").unwrap(); // 前炮（row6 更靠前）
    assert!(move_notation(&b, mv).starts_with("前炮"), "实际: {}", move_notation(&b, mv));
    let mv = Move::from_iccs("e1e6").unwrap(); // 后炮
    assert!(move_notation(&b, mv).starts_with("后炮"), "实际: {}", move_notation(&b, mv));
}
