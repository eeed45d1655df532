use xiangqi::analysis::{classification_label, classify, feedback_from_scores, review_from_scores, review_game};
use xiangqi::board::{Board, Move};
use xiangqi::search::MATE;
use xiangqi::session::score_label;

fn record(moves: &[(&str, &str)]) -> Vec<(String, String, bool, bool)> {
    moves.iter().map(|(i, n)| (i.to_string(), n.to_string(), false, false)).collect()
}

#[test]
fn classification_thresholds() {
    assert_eq!(classify(0, true, false), "best");
    assert_eq!(classify(5, false, false), "best");
    assert_eq!(classify(25, false, false), "good");
    assert_eq!(classify(70, false, false), "ok");
    assert_eq!(classify(70, false, true), "good");
    assert_eq!(classify(160, false, false), "inaccuracy");
    assert_eq!(classify(380, false, false), "mistake");
    assert_eq!(classify(381, false, false), "blunder");
}

#[test]
fn labels() {
    assert_eq!(classification_label("best"), "最佳");
    assert_eq!(classification_label("blunder"), "漏着");
    assert_eq!(classification_label("brilliant"), "—");
    assert_eq!(score_label(MATE), "红方绝杀在即");
    assert_eq!(score_label(-MATE), "黑方绝杀在即");
    assert_eq!(score_label(301), "红方大优");
    assert_eq!(score_label(61), "红方略优");
    assert_eq!(score_label(0), "局面均衡");
    assert_eq!(score_label(-100), "黑方略优");
    assert_eq!(score_label(-300), "黑方大优");
}

#[test]
fn review_from_given_scores() {
    let start = Board::initial().to_fen();
    let moves = record(&[("h2e2", "炮二平五"), ("h9g7", "马8进7")]);
    let best = Move::from_iccs("h0g2");
    let scores = [20, 400, -10];
    let bests = [best, None, None];
    let items = review_from_scores(&start, &moves, &scores, &bests);
    assert_eq!(items.len(), 2);
    let a = &items[0];
    assert_eq!(a.ply, 0);
    assert_eq!(a.color, "red");
    assert_eq!(a.score_before, 20);
    assert_eq!(a.score_after, -400);
    assert_eq!(a.loss, 420);
    assert_eq!(a.classification, "blunder");
    assert_eq!(a.best_iccs, Some("h0g2".to_string()));
    assert_eq!(a.best_notation, Some("马二进三".to_string()));
    let b = &items[1];
    assert_eq!(b.color, "black");
    assert_eq!(b.score_before, 400);
    assert_eq!(b.score_after, 10);
    assert_eq!(b.loss, 390);
    assert_eq!(b.classification, "blunder");
    assert_eq!(b.best_iccs, None);
    assert_eq!(b.notation, "马8进7");
}

#[test]
fn review_halves_loss_near_mate() {
    let start = Board::initial().to_fen();
    let moves = record(&[("h2e2", "炮二平五")]);
    let scores = [-(MATE - 10), 0];
    let items = review_from_scores(&start, &moves, &scores, &[None, None]);
    assert_eq!(items[0].loss, -(MATE - 10));
    assert_eq!(items[0].classification, "best");
    let scores = [200, 0];
    let items = review_from_scores(&start, &moves, &scores, &[None, None]);
    assert_eq!(items[0].loss, 200);
    assert_eq!(items[0].classification, "mistake");
    let scores = [MATE - 200, MATE - 200];
    let items = review_from_scores(&start, &moves, &scores, &[None, None]);
    assert_eq!(items[0].loss, 2 * MATE - 400);
    assert_eq!(items[0].classification, "blunder");
}

#[test]
fn review_game_reports_progress() {
    let start = Board::initial().to_fen();
    let moves = record(&[("h2e2", "炮二平五"), ("h9g7", "马8进7")]);
    let calls = std::cell::Cell::new(0usize);
    let items = review_game(&start, &moves, 1, 1000, |done, total| {
        assert_eq!(total, 3);
        calls.set(done);
    });
    assert_eq!(calls.get(), 3);
    assert_eq!(items.len(), 2);
    assert_eq!(items[0].iccs, "h2e2");
    assert_eq!(items[1].color, "black");
    assert_eq!(items[0].loss, items[0].score_before - items[0].score_after);
    assert!(review_game(&start, &[], 1, 10, |_, _| {}).is_empty());
}

#[test]
fn feedback_values() {
    let b = Board::initial();
    let f = feedback_from_scores(&b, Move::from_iccs("h2e2").unwrap(), 30, Move::from_iccs("h0g2"), -20);
    assert_eq!(f.loss, 10);
    assert_eq!(f.classification, "good");
    assert_eq!(f.best_iccs, Some("h0g2".to_string()));
    assert_eq!(f.best_notation, Some("马二进三".to_string()));
    let f = feedback_from_scores(&b, Move::from_iccs("h2e2").unwrap(), 30, None, 100);
    assert_eq!(f.loss, 130);
    assert_eq!(f.classification, "inaccuracy");
    assert_eq!(f.best_iccs, None);
}
