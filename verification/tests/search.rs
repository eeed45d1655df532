use xiangqi::board::Board;
use xiangqi::search::{SearchLimits, Searcher, MATE};

#[test]
fn finds_mate_in_one() {
    // 高钓马杀：车五进四吃士沉底即杀（f4f9）
    let b = Board::from_fen("2bak4/4a4/2b3N2/9/9/r4R3/9/9/9/4K4 r").unwrap();
    let mut s = Searcher::new();
    let r = s.search(&b, SearchLimits { max_depth: 4, max_time_ms: 2000, pool: 1, window: 0, pure: true });
    assert!(r.score >= MATE - 4, "应发现杀棋, score={}", r.score);
    let mv = r.best.unwrap();
    assert_eq!(mv.iccs(), "f4f9", "应走车沉底, 实际 {}", mv.iccs());
}

#[test]
fn finds_recapture() {
    // 黑车压中路，红车应回吃
    let b = Board::from_fen("4k4/9/9/9/4r4/9/9/9/9/3KR4 r").unwrap();
    let mut s = Searcher::new();
    let r = s.search(&b, SearchLimits::quick(4));
    let mv = r.best.unwrap();
    assert_eq!((mv.to / 9, mv.to % 9), (4, 4), "应吃黑车, 实际 {}", mv.iccs());
    assert!(r.score > 300, "吃车后应大优, score={}", r.score);
}
