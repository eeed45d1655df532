use xiangqi::board::Board;
use xiangqi::eval::evaluate;

#[test]
fn initial_eval_near_zero() {
    let b = Board::initial();
    let e = evaluate(&b);
    assert!(e.abs() < 60, "开局评估应接近均衡，实际 {e}");
}

#[test]
fn material_dominance() {
    // 红多一车
    let b = Board::from_fen("4k4/9/9/9/9/9/9/9/9/R3K4 r").unwrap();
    assert!(evaluate(&b) > 900);
}
