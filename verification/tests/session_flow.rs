use xiangqi::board::Board;
use xiangqi::search::MATE;
use xiangqi::session::{puzzles_list, side_str, Session};

#[test]
fn new_session_snapshot() {
    let s = Session::new();
    let snap = s.snapshot();
    assert_eq!(snap.fen, Board::initial().to_fen());
    assert_eq!(snap.side, "red");
    assert_eq!(snap.status, "playing");
    assert_eq!(snap.mode, "ai");
    assert_eq!(snap.player_side, "red");
    assert_eq!(snap.difficulty, 2);
    assert!(!snap.can_undo);
    assert!(!snap.in_check);
    assert!(snap.records.is_empty());
    assert_eq!(snap.last_move, None);
    assert_eq!(snap.opening, None);
    assert!(snap.puzzle.is_none());
    assert_eq!(snap.start_fen, snap.fen);
}

#[test]
fn two_player_moves_and_undo() {
    let mut s = Session::new();
    let snap = s.game_new_pvp(false);
    assert_eq!(snap.mode, "pvp");
    assert_eq!(snap.player_side, "both");
    // h2e2 = from (7,7) to (7,4)
    let r = s.player_move(70, 67).unwrap();
    assert!(r.is_none());
    let snap = s.snapshot();
    assert_eq!(snap.records.len(), 1);
    assert_eq!(snap.records[0].iccs, "h2e2");
    assert_eq!(snap.records[0].notation, "炮二平五");
    assert!(snap.records[0].is_red);
    assert!(!snap.records[0].capture);
    assert_eq!(snap.last_move, Some((70, 67)));
    assert_eq!(snap.opening, Some("中炮局".to_string()));
    assert_eq!(snap.side, "black");
    assert!(snap.can_undo);
    let snap = s.undo();
    assert!(snap.records.is_empty());
    assert_eq!(snap.fen, Board::initial().to_fen());
}

#[test]
fn refused_moves() {
    let mut s = Session::new();
    assert_eq!(s.player_move(90, 1).err(), Some("坐标非法".to_string()));
    assert_eq!(s.player_move(70, 60).err(), Some("该走法不合法".to_string()));
    let mut s = Session::new();
    s.game_new(2, "black", true);
    assert_eq!(s.player_move(70, 67).err(), Some("还没轮到你走棋".to_string()));
    let snap = s.resign();
    assert_eq!(snap.status, "red_win");
    assert_eq!(snap.reason, "认输");
    assert_eq!(snap.eval_cp, MATE);
    assert_eq!(s.player_move(70, 67).err(), Some("对局已结束".to_string()));
}

#[test]
fn time_loss_and_game_new_clamp() {
    let mut s = Session::new();
    let snap = s.time_loss("red");
    assert_eq!(snap.status, "black_win");
    assert_eq!(snap.reason, "超时");
    assert_eq!(snap.eval_cp, -MATE);
    let snap = s.game_new(99, "red", false);
    assert_eq!(snap.difficulty, 5);
    assert_eq!(snap.status, "playing");
    assert_eq!(snap.reason, "");
}

#[test]
fn legal_targets_from_square() {
    let s = Session::new();
    let mut t = s.legal_moves(70);
    t.sort();
    // the red cannon on h2 moves along its file and rank
    assert!(t.contains(&67));
    // and captures the knight on h9 over the screen on h7
    assert!(t.contains(&7));
    assert!(!t.contains(&60));
    assert!(s.legal_moves(95).is_empty());
    assert!(s.legal_moves(40).is_empty());
}

#[test]
fn study_start_errors_and_success() {
    let mut s = Session::new();
    assert_eq!(s.game_study_start("").err(), Some("局面错误: FEN 为空".to_string()));
    let snap = s.game_study_start("4k4/9/9/9/9/9/9/9/9/3K5 b").unwrap();
    assert_eq!(snap.mode, "study");
    assert_eq!(snap.side, "black");
    assert_eq!(snap.player_side, "both");
    assert_eq!(snap.start_fen, "4k4/9/9/9/9/9/9/9/9/3K5 b");
}

#[test]
fn mate_puzzle_solved() {
    let mut s = Session::new();
    assert_eq!(s.puzzle_start(999_999).err(), Some("谜题不存在".to_string()));
    let snap = s.puzzle_start(1).unwrap();
    assert_eq!(snap.mode, "puzzle");
    let pv = snap.puzzle.unwrap();
    assert_eq!(pv.objective, "1 回合内将死黑方");
    assert!(pv.is_mate);
    assert_eq!(pv.mate_in, 1);
    // g6e7: knight from (3,6) to (2,4)
    let req = s.puzzle_move_request(33, 22).unwrap();
    assert!(req.is_mate());
    let check = req.verify();
    let r = s.puzzle_mate_move(&req, &check);
    assert!(r.accepted);
    assert!(r.solved);
    assert_eq!(r.feedback, "漂亮！绝杀达成！");
    assert_eq!(r.snapshot.status, "red_win");
    assert_eq!(r.snapshot.reason, "绝杀");
    assert_eq!(r.snapshot.eval_cp, MATE);
    assert!(r.snapshot.records[0].mate);
    assert_eq!(s.puzzle_move_request(33, 22).err(), Some("本题已结束，请开始下一题".to_string()));
}

#[test]
fn mate_puzzle_wrong_move() {
    let mut s = Session::new();
    s.puzzle_start(1).unwrap();
    // the knight runs away instead: g6h4 = (3,6) -> (5,7)
    let req = s.puzzle_move_request(33, 52).unwrap();
    let check = req.verify();
    let r = s.puzzle_mate_move(&req, &check);
    assert!(!r.accepted);
    assert!(!r.solved);
    assert_eq!(r.feedback, "走错啦！这步之后无法在 1 回合内成杀，再想想。");
    assert_eq!(r.snapshot.puzzle.unwrap().wrong_count, 1);
    assert!(r.snapshot.records.is_empty());
}

#[test]
fn puzzle_requests_refused_outside_puzzles() {
    let s = Session::new();
    assert_eq!(s.puzzle_move_request(70, 67).err(), Some("当前不在解谜模式".to_string()));
    assert_eq!(s.puzzle_hint_request().err(), Some("当前不在解谜模式".to_string()));
}

#[test]
fn puzzle_hint_gives_main_line() {
    let mut s = Session::new();
    s.puzzle_start(1).unwrap();
    let h = s.puzzle_hint_request().unwrap().answer();
    assert_eq!(h.kind, "move");
    assert_eq!(h.iccs, Some("g6e7".to_string()));
    assert_eq!(h.text, "马跳到炮的正后方一格，用马作炮架，炮借马力将军。");
}

#[test]
fn hint_for_a_mate() {
    let mut s = Session::new();
    s.game_study_start("2bak4/4a4/2b3N2/9/9/r4R3/9/9/9/4K4 r").unwrap();
    let found = s.hint_request().unwrap().search();
    let h = s.hint_result(&found).unwrap();
    assert_eq!(h.iccs, "f4f9");
    assert_eq!(h.score_label, "红方绝杀在即");
}

#[test]
fn puzzle_list_matches_puzzles() {
    let list = puzzles_list();
    assert!(!list.is_empty());
    assert_eq!(list[0].id, 1);
    assert_eq!(list[0].name, "马后炮");
    assert!(list[0].is_mate);
    assert_eq!(list[0].mate_in, 1);
}

#[test]
fn engine_replies_from_book() {
    let mut s = Session::new();
    s.game_new(2, "red", false);
    s.player_move(70, 67).unwrap();
    let req = s.ai_request().unwrap();
    let serial = req.serial();
    let mv = req.pick_move().unwrap();
    let snap = s.ai_finish(serial, Some(mv));
    assert_eq!(snap.records.len(), 2);
    assert!(!snap.records[1].is_red);
    // a stale answer is ignored
    let snap = s.ai_finish(serial, Some(mv));
    assert_eq!(snap.records.len(), 2);
}

#[test]
fn colour_names() {
    assert_eq!(side_str(0), "red");
    assert_eq!(side_str(8), "black");
}

#[test]
fn hint_without_moves() {
    let mut s = Session::new();
    let snap = s.game_study_start("R2k5/R8/9/9/9/9/9/9/9/4K4 b").unwrap();
    assert!(snap.in_check);
    let found = s.hint_request().unwrap().search();
    assert_eq!(s.hint_result(&found).err(), Some("无棋可走".to_string()));
}

#[test]
fn practice_puzzle_move() {
    let mut s = Session::new();
    let snap = s.puzzle_start(7).unwrap();
    assert_eq!(snap.mode, "practice");
    assert_eq!(snap.puzzle.unwrap().objective, "执红取胜（对方认负即达成）");
    // the rook on d6 = (3,3) moves to a6 = (3,0)
    let req = s.puzzle_move_request(30, 27).unwrap();
    assert!(!req.is_mate());
    let r = s.puzzle_practice_move(&req);
    assert!(r.accepted);
    assert!(!r.solved);
    assert_eq!(r.feedback, "");
    assert_eq!(r.reply, None);
    assert_eq!(r.snapshot.records.len(), 1);
    assert_eq!(r.snapshot.status, "playing");
    let req = s.ai_request().unwrap();
    let serial = req.serial();
    let reply = req.pick_move();
    let snap = s.ai_finish(serial, reply);
    assert_eq!(snap.records.len(), 2);
}
