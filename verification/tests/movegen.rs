use xiangqi::board::{Board, Move};
use xiangqi::movegen::perft;

// 象棋起始局面公开 perft 值
#[test]
fn perft_initial() {
    let mut b = Board::initial();
    assert_eq!(perft(&mut b, 1), 44);
    assert_eq!(perft(&mut b, 2), 1_920);
}

#[test]
fn perft_initial_deep() {
    let mut b = Board::initial();
    assert_eq!(perft(&mut b, 3), 79_666);
}

#[test]
fn perft_check_positions() {
    // 包含将军/应将的局面
    let b = Board::from_fen("4k4/9/9/9/9/9/9/9/9/3K1R3 r").unwrap();
    // 车 e1 将军：黑王必须应将
    let moves = b.legal_moves();
    assert!(moves.iter().any(|m| m.from % 9 == 5 && m.to % 9 == 4));
    // 黑方无子可动应将的场景
    let b2 = Board::from_fen("4k4/9/9/9/9/9/9/9/9/3K2R2 b").unwrap();
    let ms = b2.legal_moves();
    // 黑将可横移避开
    assert!(ms.len() >= 2);
}

#[test]
fn kings_facing_rule() {
    // 双王照面：红车移开后若双王同列无遮挡则为非法
    let b = Board::from_fen("4k4/9/9/9/9/9/9/9/4R4/3K5 r").unwrap();
    // 红车在 e2 挡住照面；把车移走（车二进X离线）应导致照面非法
    let mv = Move::from_iccs("e2h2").unwrap();
    let legal = b.legal_moves();
    assert!(!legal.contains(&mv), "移开车导致双王照面应为非法");
}
