use xiangqi::board::{Board, Move};
use xiangqi::movegen::perft;
use xiangqi::search::{SearchLimits, Searcher, MATE};

#[test]
fn iccs_text_of_parsed_move_is_lower_case() {
    let mv = Move::from_iccs("H2E2").unwrap();
    assert_eq!(mv.iccs(), "h2e2");
    let mv = Move::from_iccs("a0I9").unwrap();
    assert_eq!(mv.iccs(), "a0i9");
}

#[test]
fn undo_to_restores_after_moves_and_null_moves() {
    let mut b = Board::initial();
    let depth = b.undo_len();
    let fen0 = b.to_fen();
    let hash0 = b.hash();
    let first = b.legal_moves()[3];
    b.make_move(first);
    b.make_null();
    let second = b.legal_moves()[5];
    b.make_move(second);
    b.undo_to(depth);
    assert_eq!(b.undo_len(), depth);
    assert_eq!(b.to_fen(), fen0);
    assert_eq!(b.hash(), hash0);
    b.undo_to(depth + 4);
    assert_eq!(b.to_fen(), fen0);
    assert_eq!(b.undo_len(), depth);
}

#[test]
fn perft_splits_over_legal_moves() {
    let mut b = Board::from_fen("4k4/9/9/9/4r4/9/9/9/4A4/4K4 r").unwrap();
    let total = perft(&mut b, 3);
    let mut sum = 0u64;
    for mv in b.legal_moves() {
        let mut w = Board::from_fen(&b.to_fen()).unwrap();
        w.make_move(mv);
        sum += perft(&mut w, 2);
    }
    assert_eq!(total, sum);
}

#[test]
fn no_legal_move_scores_mated() {
    let mut s = Searcher::new();
    let mut mated = Board::from_fen("4k4/9/4N4/4C4/9/9/9/9/9/4K4 b").unwrap();
    assert!(mated.legal_moves().is_empty());
    assert_eq!(s.negamax(&mut mated, 1, -2 * MATE, 2 * MATE, 0), -MATE);
    let mut s = Searcher::new();
    let mut stalemated = Board::from_fen("3k5/8R/9/9/9/9/9/9/9/4K4 b").unwrap();
    assert!(stalemated.legal_moves().is_empty());
    assert_eq!(s.negamax(&mut stalemated, 1, -2 * MATE, 2 * MATE, 0), -MATE);
    let mut s = Searcher::new();
    assert_eq!(s.negamax(&mut mated, 1, -2 * MATE, 2 * MATE, 3), -MATE + 3);
}

#[test]
fn untimed_search_scores_every_move_to_full_depth() {
    let b = Board::from_fen("4k4/9/9/9/4r4/9/9/9/4A4/4K4 r").unwrap();
    let mut s = Searcher::new();
    let r = s.search(&b, SearchLimits { max_depth: 2, max_time_ms: 0, pool: 1, window: 0, pure: false });
    let legal = b.legal_moves();
    assert_eq!(r.depth_reached, 2);
    assert_eq!(r.root_scores.len(), legal.len());
    for mv in &legal {
        assert!(r.root_scores.iter().any(|e| e.0 == *mv));
    }
}

#[test]
fn untimed_search_stops_at_a_mate() {
    let b = Board::from_fen("2bak4/4a4/2b3N2/9/9/r4R3/9/9/9/4K4 r").unwrap();
    let mut s = Searcher::new();
    let r = s.search(&b, SearchLimits { max_depth: 5, max_time_ms: 0, pool: 1, window: 0, pure: true });
    assert_eq!(r.depth_reached, 1);
    assert_eq!(r.score, MATE - 1);
    assert_eq!(r.best.unwrap().iccs(), "f4f9");
}

#[test]
fn attack_test_reaches_past_the_board_edge() {
    let b = Board::from_fen("4k4/9/9/9/9/4R4/9/9/9/3K5 r").unwrap();
    assert!(b.is_attacked(94, 0));
    assert!(!b.is_attacked(95, 0));
    assert!(!b.is_attacked(94, 8));
}
