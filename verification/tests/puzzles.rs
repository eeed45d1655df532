use xiangqi::board::{Board, Move, BLACK, RED};
use xiangqi::puzzles::{puzzles, PuzzleKind};
use xiangqi::search::{SearchLimits, Searcher, MATE};

/// 所有杀局谜题必须是强制杀，且不超回合数
#[test]
fn verify_mate_puzzles() {
    for p in puzzles() {
        let PuzzleKind::Mate { mate_in } = p.kind else { continue };
        let b = Board::from_fen(p.fen).unwrap_or_else(|e| panic!("{} FEN 错误: {e}", p.name));
        assert_eq!(b.side, RED, "{} 应红先", p.name);
        assert!(!b.in_check(b.side), "{} 红方不应被将军", p.name);
        assert!(!b.in_check(b.side ^ 8), "{} 黑方在红走棋时不应被将军", p.name);
        assert!(!b.kings_facing(), "{} 双王照面", p.name);
        let mut s = Searcher::new();
        let plies = (mate_in as u8 * 2 - 1).min(10);
        assert!(
            s.forced_mate(&b, plies),
            "谜题【{}】无法在 {} 回合内强制将杀",
            p.name,
            mate_in
        );
        if mate_in >= 2 {
            assert!(!s.forced_mate(&b, 1), "谜题【{}】实为一步杀，与标注不符", p.name);
        }
        if let Some(first) = p.solution.first() {
            let mv = Move::from_iccs(first).unwrap_or_else(|| panic!("{} ICCS 非法", p.name));
            assert!(
                b.legal_moves().iter().any(|m| m.from == mv.from && m.to == mv.to),
                "{} 主变 {} 非法",
                p.name,
                first
            );
        }
    }
}

/// 教程图解中的额外杀法（一步杀，逐个引擎验证）
#[test]
fn verify_tutorial_mates() {
    let cases: &[(&str, &str, &str)] = &[("二鬼拍门", "3k1a3/2P1P4/9/9/9/9/9/9/7R1/4K4 r", "h1d1")];
    for (name, fen, key) in cases {
        let b = Board::from_fen(fen).unwrap_or_else(|e| panic!("{name} FEN 错误: {e}"));
        assert_eq!(b.side, RED, "{name} 应红先");
        assert!(!b.in_check(BLACK), "{name}: 红走棋时黑方不应已被将军");
        assert!(!b.in_check(RED), "{name}: 红方不应被将军");
        assert!(!b.kings_facing(), "{name}: 双王照面");
        let mut s = Searcher::new();
        assert!(s.forced_mate(&b, 1), "{name}: 应为一步杀");
        let mv = Move::from_iccs(key).unwrap();
        assert!(
            b.legal_moves().iter().any(|m| m.from == mv.from && m.to == mv.to),
            "{name}: 主变 {key} 非法"
        );
    }
}

/// 残局训练局面应合法
#[test]
fn practice_positions_legal() {
    for p in puzzles() {
        if matches!(p.kind, PuzzleKind::Mate { .. }) {
            continue;
        }
        let b = Board::from_fen(p.fen).unwrap_or_else(|e| panic!("{} FEN 错误: {e}", p.name));
        let opp = b.side ^ 8;
        assert!(!b.in_check(opp), "{}：不应轮到走棋方时对方被将军", p.name);
        assert!(!b.kings_facing(), "{}：双王照面", p.name);
    }
}

/// 引擎自弈验证：红方残局应保持优势（粗验证）
#[test]
fn practice_red_winnable() {
    for p in puzzles() {
        if !matches!(p.kind, PuzzleKind::Practice) || p.fen.ends_with('b') {
            continue;
        }
        let mut s = Searcher::new();
        let b = Board::from_fen(p.fen).unwrap();
        let r = s.search(&b, SearchLimits { max_depth: 8, max_time_ms: 1500, pool: 1, window: 0, pure: true });
        assert!(
            r.score > 30 || r.score >= MATE - 20,
            "残局【{}】引擎评估应为红优, 实际 {}",
            p.name,
            r.score
        );
    }
}
