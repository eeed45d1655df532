//! A game session: the position, the move record, the game status and the puzzle in
//! progress, with the rules that decide each command of the user interface.
use vstd::prelude::*;

use crate::board::{
    spec_undo_to, spec_unmake, count_of, iccs_text, in_check_spec, insufficient_material_spec, lemma_piece_bits, spec_make,
    Board, BoardView, Move, BLACK, EMPTY, RED,
};
use crate::analysis::{
    feedback_ok, iccs_move, judge_move, judging_limits, search_found, search_position, searched_with, MoveFeedback,
};
use crate::fen::parse_fen;
use crate::search::{
    can_settle, has_legal_move, level_limits, SearchLimits, Searcher, LEVEL_COUNT, MATE,
};
use crate::text::text_eq;
use crate::notation::{move_notation, move_notation_spec};
use crate::openings::{book_replies, book_replies_spec, identify, identify_spec};
use crate::puzzles::{first_with_id, puzzle_by_id, puzzle_table, puzzle_view, puzzles, Puzzle, PuzzleData, PuzzleKind};
use crate::text::{decimal, push_decimal, push_str};
use crate::fen::{fresh_board, initial_squares, lemma_fresh_board_wf, to_fen_spec};
use crate::movegen::legal_moves_spec;

verus! {

/// Who moves which pieces.
#[derive(Clone, Copy, PartialEq, Eq, Debug, Structural)]
pub enum Mode {
    /// Against the engine.
    Ai,
    /// Two players on one board.
    Pvp,
    /// A mate puzzle.
    Puzzle,
    /// Endgame practice against the engine.
    Practice,
    /// Free study of a position: both sides are moved by the user.
    Study,
}

#[derive(Clone, Copy, PartialEq, Eq, Debug, Structural)]
pub enum GameStatus {
    Playing,
    RedWin,
    BlackWin,
    Draw,
}

/// One move of the game record.
#[derive(Clone, Debug)]
pub struct MoveRecord {
    pub ply: usize,
    pub iccs: String,
    pub notation: String,
    pub is_red: bool,
    pub capture: bool,
    pub check: bool,
    pub mate: bool,
    pub badge: Option<String>,
    pub best_iccs: Option<String>,
    pub loss: Option<i32>,
    pub fen_after: String,
}

/// State of the puzzle being solved.
#[derive(Clone, Copy, PartialEq, Eq, Debug, Structural)]
pub struct PuzzleState {
    pub id: u32,
    pub mate: bool,
    pub mate_in: u8,
    pub solved: bool,
    pub wrong_count: u32,
}

/// A game session.
pub struct Session {
    board: Board,
    mode: Mode,
    difficulty: usize,
    player_side: u8,
    records: Vec<MoveRecord>,
    status: GameStatus,
    reason: String,
    start_fen: String,
    eval_cp: i32,
    instant_feedback: bool,
    serial: u64,
    puzzle: Option<PuzzleState>,
}

/// The mathematical state of a session.
pub struct SessionView {
    pub board: BoardView,
    pub mode: Mode,
    pub difficulty: usize,
    pub player_side: u8,
    pub records: Seq<MoveRecord>,
    pub status: GameStatus,
    pub reason: Seq<char>,
    pub start_fen: Seq<char>,
    pub eval_cp: i32,
    pub instant_feedback: bool,
    pub serial: u64,
    pub puzzle: Option<PuzzleState>,
}

impl View for Session {
    type V = SessionView;

    closed spec fn view(&self) -> SessionView {
        SessionView {
            board: self.board@,
            mode: self.mode,
            difficulty: self.difficulty,
            player_side: self.player_side,
            records: self.records@,
            status: self.status,
            reason: self.reason@,
            start_fen: self.start_fen@,
            eval_cp: self.eval_cp,
            instant_feedback: self.instant_feedback,
            serial: self.serial,
            puzzle: self.puzzle,
        }
    }
}

impl Session {
    /// The board is well formed with Red or Black to move.
    #[verifier::type_invariant]
    spec fn valid(self) -> bool {
        &&& self.board@.wf()
        &&& (self.board.side == RED || self.board.side == BLACK)
    }

    /// A new session: a game against the engine at the middle level from the standard
    /// starting position, the user playing Red.
    pub fn new() -> (s: Session)
        ensures
            s@.board == fresh_board(initial_squares(), RED),
            s@.mode == Mode::Ai,
            s@.difficulty == 2,
            s@.player_side == RED,
            s@.records.len() == 0,
            s@.status == GameStatus::Playing,
            s@.reason.len() == 0,
            s@.start_fen == to_fen_spec(initial_squares(), RED),
            s@.eval_cp == 0,
            s@.instant_feedback,
            s@.serial == 0,
            s@.puzzle is None,
    {
        let board = Board::initial();
        let start_fen = board.to_fen();
        proof {
            lemma_fresh_board_wf(initial_squares(), RED);
        }
        Session {
            board,
            mode: Mode::Ai,
            difficulty: 2,
            player_side: RED,
            records: Vec::new(),
            status: GameStatus::Playing,
            reason: String::new(),
            start_fen,
            eval_cp: 0,
            instant_feedback: true,
            serial: 0,
            puzzle: None,
        }
    }

    /// Marks a change of state (requests made before it are stale).
    fn bump(&mut self)
        ensures
            final(self)@ == (SessionView { serial: old(self)@.serial.wrapping_add(1), ..old(self)@ }),
    {
        proof {
            use_type_invariant(&*self);
        }
        self.serial = self.serial.wrapping_add(1);
    }

    fn push_record(&mut self, r: MoveRecord)
        ensures
            final(self)@ == (SessionView { records: old(self)@.records.push(r), ..old(self)@ }),
    {
        proof {
            use_type_invariant(&*self);
        }
        let mut recs: Vec<MoveRecord> = Vec::new();
        std::mem::swap(&mut recs, &mut self.records);
        recs.push(r);
        self.records = recs;
    }
}

/// `r` records move `mv` played as ply `ply` in position `v`: its ICCS and notation, the
/// mover's colour, whether it captured, gave check or left no move, and the FEN after it.
#[verifier::opaque]
pub open spec fn record_ok(r: MoveRecord, ply: int, v: BoardView, mv: Move) -> bool {
    let w = spec_make(v, mv.from as int, mv.to as int);
    &&& r.ply == ply
    &&& r.iccs@ == iccs_text(mv.from, mv.to)
    &&& r.notation@ == move_notation_spec(v.squares, mv)
    &&& r.is_red == (v.side == RED)
    &&& r.capture == (mv.captured != EMPTY)
    &&& r.check == in_check_spec(w.squares, w.king_sq, w.side)
    &&& r.mate == (legal_moves_spec(w).len() == 0)
    &&& r.badge is None
    &&& r.best_iccs is None
    &&& r.loss is None
    &&& r.fen_after@ == to_fen_spec(w.squares, w.side)
}

/// Status and reason after a move led to position `w`: a side without a move loses
/// (mate or stalemate), a position seen three times or material that cannot mate on
/// either side is a draw; otherwise they stay.
#[verifier::opaque]
pub open spec fn status_after(status: GameStatus, reason: Seq<char>, w: BoardView, mover_red: bool) -> (GameStatus, Seq<char>) {
    if legal_moves_spec(w).len() == 0 {
        (
            if mover_red {
                GameStatus::RedWin
            } else {
                GameStatus::BlackWin
            },
            if in_check_spec(w.squares, w.king_sq, w.side) {
                "绝杀"@
            } else {
                "困毙"@
            },
        )
    } else if count_of(w.history, w.hash) >= 3 {
        (GameStatus::Draw, "三次重复局面"@)
    } else if insufficient_material_spec(w.squares) {
        (GameStatus::Draw, "双方子力不足"@)
    } else {
        (status, reason)
    }
}

/// Position `w`, reached by a move, ends the game: the side to move has no move, the
/// position has been seen three times, or neither side can mate.
pub open spec fn game_ends(w: BoardView) -> bool {
    ||| legal_moves_spec(w).len() == 0
    ||| count_of(w.history, w.hash) >= 3
    ||| insufficient_material_spec(w.squares)
}

/// Session `w` is session `v` after move `mv` was played and recorded (see `record_ok`)
/// and the game status settled (see `status_after`).
#[verifier::opaque]
pub open spec fn applied(v: SessionView, mv: Move, w: SessionView) -> bool {
    let b = spec_make(v.board, mv.from as int, mv.to as int);
    let st = status_after(v.status, v.reason, b, v.board.side == RED);
    &&& w == (SessionView {
        board: b,
        records: w.records,
        status: st.0,
        reason: st.1,
        serial: v.serial.wrapping_add(1),
        ..v
    })
    &&& w.records.len() == v.records.len() + 1
    &&& w.records.take(v.records.len() as int) == v.records
    &&& record_ok(w.records.last(), v.records.len() as int, v.board, mv)
}

/// Playing a move leaves the mode, sides, start, evaluation, settings and puzzle as they
/// were.
pub proof fn lemma_applied_frame(v: SessionView, mv: Move, w: SessionView)
    requires
        applied(v, mv, w),
    ensures
        w == (SessionView {
            board: w.board,
            records: w.records,
            status: w.status,
            reason: w.reason,
            serial: w.serial,
            ..v
        }),
        w.board == spec_make(v.board, mv.from as int, mv.to as int),
        w.serial == v.serial.wrapping_add(1),
{
    reveal(applied);
}

/// Taking back one move right after it was played restores the position, provided the
/// moving piece is not a king standing off its cached square (as on any board whose
/// king slots hold its kings).
pub proof fn lemma_undo_after_move(v: SessionView, mv: Move, w: SessionView)
    requires
        applied(v, mv, w),
        v.board.wf(),
        mv.from < 90,
        mv.to < 90,
        v.board.squares[mv.from as int] != EMPTY,
        v.board.kings_consistent(),
    ensures
        spec_undo_to(w.board, v.board.undo.len()) == v.board,
{
    lemma_applied_frame(v, mv, w);
    let p = v.board.squares[mv.from as int];
    lemma_piece_bits(p);
    crate::board::lemma_make_unmake_restores(v.board, mv.from as int, mv.to as int);
    let u = spec_unmake(w.board);
    assert(u.undo.len() == v.board.undo.len());
    assert(spec_undo_to(u, v.board.undo.len()) == u);
}

/// Whose turn the user has: in the one-sided modes the user's side; in the others always.
pub open spec fn player_turn(v: SessionView) -> bool {
    match v.mode {
        Mode::Ai | Mode::Puzzle | Mode::Practice => v.board.side == v.player_side,
        Mode::Pvp | Mode::Study => true,
    }
}

/// "red" or "black".
pub open spec fn side_name(c: u8) -> Seq<char> {
    if c == RED {
        "red"@
    } else {
        "black"@
    }
}

/// The name of a colour: "red" or "black".
pub fn side_str(c: u8) -> (r: &'static str)
    ensures
        r@ == side_name(c),
{
    if c == RED {
        "red"
    } else {
        "black"
    }
}

impl Session {
    /// Plays `mv` and records it, then settles the game status: the side left without a
    /// move loses, threefold repetition or insufficient material draws. Returns whether
    /// the move ended the game.
    fn apply_move(&mut self, mv: Move) -> (ended: bool)
        requires
            mv.from < 90,
            mv.to < 90,
        ensures
            applied(old(self)@, mv, final(self)@),
            ended == game_ends(spec_make(old(self)@.board, mv.from as int, mv.to as int)),
    {
        proof {
            use_type_invariant(&*self);
            reveal(record_ok);
            reveal(applied);
            reveal(status_after);
        }
        let notation = move_notation(&self.board, mv);
        let capture = mv.captured != EMPTY;
        let mover_red = self.board.side == RED;
        let mut b = self.board.duplicate();
        b.make_move(mv);
        proof {
            crate::board::lemma_side_flip(self.board.side);
        }
        self.board = b;
        let check = self.board.in_check(self.board.side);
        let no_moves = self.board.no_moves();
        let fen_after = self.board.to_fen();
        let mut ended = true;
        if no_moves {
            self.status = if mover_red {
                GameStatus::RedWin
            } else {
                GameStatus::BlackWin
            };
            self.reason = if check {
                String::from_str("绝杀")
            } else {
                String::from_str("困毙")
            };
        } else if self.board.repetition_count() >= 3 {
            self.status = GameStatus::Draw;
            self.reason = String::from_str("三次重复局面");
        } else if self.board.insufficient_material() {
            self.status = GameStatus::Draw;
            self.reason = String::from_str("双方子力不足");
        } else {
            ended = false;
        }
        let record = MoveRecord {
            ply: self.records.len(),
            iccs: mv.iccs(),
            notation,
            is_red: mover_red,
            capture,
            check,
            mate: no_moves,
            badge: None,
            best_iccs: None,
            loss: None,
            fen_after,
        };
        let ghost before = self@.records;
        self.push_record(record);
        assert(self@.records.take(before.len() as int) =~= before);
        self.bump();
        ended
    }

    /// The ICCS texts of the moves played so far.
    pub fn move_seq(&self) -> (r: Vec<String>)
        ensures
            r@.len() == self@.records.len(),
            forall|i: int| 0 <= i < r@.len() ==> (#[trigger] r@[i])@ == self@.records[i].iccs@,
    {
        let mut r: Vec<String> = Vec::new();
        let mut i: usize = 0;
        while i < self.records.len()
            invariant
                0 <= i <= self.records@.len(),
                r@.len() == i,
                forall|k: int| 0 <= k < i ==> (#[trigger] r@[k])@ == self.records@[k].iccs@,
            decreases self.records@.len() - i,
        {
            r.push(self.records[i].iccs.clone());
            i += 1;
        }
        r
    }

    /// Whether the user is to move.
    pub fn is_player_turn(&self) -> (r: bool)
        ensures
            r == player_turn(self@),
    {
        match self.mode {
            Mode::Ai | Mode::Puzzle | Mode::Practice => self.board.side == self.player_side,
            Mode::Pvp | Mode::Study => true,
        }
    }
}

/// A puzzle as the user interface shows it.
pub struct PuzzleView {
    pub id: u32,
    pub name: String,
    pub theme: String,
    pub hint: String,
    pub difficulty: u8,
    pub is_mate: bool,
    pub mate_in: u8,
    pub solved: bool,
    pub wrong_count: u32,
    pub objective: String,
}

/// Everything the user interface shows of a session.
pub struct Snapshot {
    pub fen: String,
    pub side: String,
    pub records: Vec<MoveRecord>,
    pub last_move: Option<(u8, u8)>,
    pub in_check: bool,
    pub status: String,
    pub reason: String,
    pub eval_cp: i32,
    pub opening: Option<String>,
    pub mode: String,
    pub difficulty: usize,
    pub player_side: String,
    pub can_undo: bool,
    pub puzzle: Option<PuzzleView>,
    pub start_fen: String,
}

/// Name of a game status.
pub open spec fn status_name(s: GameStatus) -> Seq<char> {
    match s {
        GameStatus::Playing => "playing"@,
        GameStatus::RedWin => "red_win"@,
        GameStatus::BlackWin => "black_win"@,
        GameStatus::Draw => "draw"@,
    }
}

/// Name of a mode.
pub open spec fn mode_name(m: Mode) -> Seq<char> {
    match m {
        Mode::Ai => "ai"@,
        Mode::Pvp => "pvp"@,
        Mode::Puzzle => "puzzle"@,
        Mode::Practice => "practice"@,
        Mode::Study => "study"@,
    }
}

/// The ICCS texts of a record.
pub open spec fn record_texts(records: Seq<MoveRecord>) -> Seq<Seq<char>> {
    records.map_values(|r: MoveRecord| r.iccs@)
}

/// The puzzle with id `id`, if any.
pub open spec fn puzzle_entry(id: u32) -> Option<PuzzleData> {
    match first_with_id(puzzle_table(), id, puzzle_table().len()) {
        Some(i) => Some(puzzle_table()[i]),
        None => None,
    }
}

/// The objective of a puzzle: mate within its moves, or for practice win with Red or
/// hold with Black.
pub open spec fn objective_text(kind: PuzzleKind, player_side: u8) -> Seq<char> {
    match kind {
        PuzzleKind::Mate { mate_in } => decimal(mate_in as nat) + " 回合内将死黑方"@,
        PuzzleKind::Practice => if player_side == RED {
            "执红取胜（对方认负即达成）"@
        } else {
            "执黑守和即为成功"@
        },
    }
}

/// `pv` shows puzzle `def` in state `st` to a user playing `player_side`.
pub open spec fn puzzle_view_ok(pv: PuzzleView, def: PuzzleData, st: PuzzleState, player_side: u8) -> bool {
    &&& pv.id == def.id
    &&& pv.name@ == def.name
    &&& pv.theme@ == def.theme
    &&& pv.hint@ == def.hint
    &&& pv.difficulty == def.difficulty
    &&& pv.is_mate == st.mate
    &&& pv.mate_in == st.mate_in
    &&& pv.solved == st.solved
    &&& pv.wrong_count == st.wrong_count
    &&& pv.objective@ == objective_text(def.kind, player_side)
}

/// `snap` shows session `v`: position, record, last move, check, status, evaluation,
/// the opening (only for games from the standard start), mode, sides, whether a move
/// can be taken back, and the puzzle.
#[verifier::opaque]
pub open spec fn snapshot_ok(v: SessionView, snap: Snapshot) -> bool {
    &&& snap.fen@ == to_fen_spec(v.board.squares, v.board.side)
    &&& snap.side@ == side_name(v.board.side)
    &&& snap.records@ == v.records
    &&& snap.last_move == (if v.records.len() == 0 {
        None
    } else {
        match iccs_move(v.records.last().iccs@) {
            Some(m) => Some((m.from, m.to)),
            None => None,
        }
    })
    &&& snap.in_check == in_check_spec(v.board.squares, v.board.king_sq, v.board.side)
    &&& snap.status@ == status_name(v.status)
    &&& snap.reason@ == v.reason
    &&& snap.eval_cp == v.eval_cp
    &&& (if v.start_fen == to_fen_spec(initial_squares(), RED) {
        match identify_spec(record_texts(v.records)) {
            Some(name) => snap.opening matches Some(o) && o@ == name,
            None => snap.opening is None,
        }
    } else {
        snap.opening is None
    })
    &&& snap.mode@ == mode_name(v.mode)
    &&& snap.difficulty == v.difficulty
    &&& snap.player_side@ == (match v.mode {
        Mode::Pvp | Mode::Study => "both"@,
        _ => side_name(v.player_side),
    })
    &&& snap.can_undo == (v.records.len() > 0 && v.status == GameStatus::Playing)
    &&& (match v.puzzle {
        Some(st) => match puzzle_entry(st.id) {
            Some(def) => snap.puzzle matches Some(pv) && puzzle_view_ok(pv, def, st, v.player_side),
            None => snap.puzzle is None,
        },
        None => snap.puzzle is None,
    })
    &&& snap.start_fen@ == v.start_fen
}

/// An identical copy of a record.
fn copy_record(r: &MoveRecord) -> (c: MoveRecord)
    ensures
        c == *r,
{
    MoveRecord {
        ply: r.ply,
        iccs: r.iccs.clone(),
        notation: r.notation.clone(),
        is_red: r.is_red,
        capture: r.capture,
        check: r.check,
        mate: r.mate,
        badge: copy_text(&r.badge),
        best_iccs: copy_text(&r.best_iccs),
        loss: r.loss,
        fen_after: r.fen_after.clone(),
    }
}

/// An identical copy of an optional text.
fn copy_text(t: &Option<String>) -> (c: Option<String>)
    ensures
        c == *t,
{
    match t {
        Some(x) => Some(x.clone()),
        None => None,
    }
}

/// The objective of a puzzle of kind `kind` for a user playing `player_side`.
fn objective(kind: PuzzleKind, player_side: u8) -> (r: String)
    ensures
        r@ == objective_text(kind, player_side),
{
    match kind {
        PuzzleKind::Mate { mate_in } => {
            let mut t = String::new();
            push_decimal(&mut t, mate_in as u128);
            push_str(&mut t, " 回合内将死黑方");
            t
        },
        PuzzleKind::Practice => {
            if player_side == RED {
                String::from_str("执红取胜（对方认负即达成）")
            } else {
                String::from_str("执黑守和即为成功")
            }
        },
    }
}

impl Session {
    /// What the user interface shows of the session.
    pub fn snapshot(&self) -> (snap: Snapshot)
        ensures
            snapshot_ok(self@, snap),
    {
        proof {
            use_type_invariant(self);
            lemma_piece_bits(self.board.side);
            reveal(snapshot_ok);
        }
        let n = self.records.len();
        let last_move = if n == 0 {
            None
        } else {
            match Move::from_iccs(self.records[n - 1].iccs.as_str()) {
                Some(m) => Some((m.from, m.to)),
                None => None,
            }
        };
        let status = match self.status {
            GameStatus::Playing => "playing",
            GameStatus::RedWin => "red_win",
            GameStatus::BlackWin => "black_win",
            GameStatus::Draw => "draw",
        };
        let mode = match self.mode {
            Mode::Ai => "ai",
            Mode::Pvp => "pvp",
            Mode::Puzzle => "puzzle",
            Mode::Practice => "practice",
            Mode::Study => "study",
        };
        let initial_fen = Board::initial().to_fen();
        let opening = if self.start_fen == initial_fen {
            let seq = self.move_seq();
            proof {
                assert(seq@.map_values(|m: String| m@) =~= record_texts(self@.records));
            }
            match identify(seq.as_slice()) {
                Some(name) => Some(String::from_str(name)),
                None => None,
            }
        } else {
            None
        };
        let puzzle = match self.puzzle {
            Some(st) => match puzzle_by_id(st.id) {
                Some(def) => Some(
                    PuzzleView {
                        id: def.id,
                        name: String::from_str(def.name),
                        theme: String::from_str(def.theme),
                        hint: String::from_str(def.hint),
                        difficulty: def.difficulty,
                        is_mate: st.mate,
                        mate_in: st.mate_in,
                        solved: st.solved,
                        wrong_count: st.wrong_count,
                        objective: objective(def.kind, self.player_side),
                    },
                ),
                None => None,
            },
            None => None,
        };
        let mut records: Vec<MoveRecord> = Vec::new();
        let mut i: usize = 0;
        while i < n
            invariant
                0 <= i <= n,
                n == self.records@.len(),
                records@ == self.records@.take(i as int),
            decreases n - i,
        {
            records.push(copy_record(&self.records[i]));
            proof {
                assert(self.records@.take(i + 1) =~= self.records@.take(i as int).push(self.records@[i as int]));
            }
            i += 1;
        }
        proof {
            assert(self.records@.take(n as int) =~= self.records@);
        }
        let player_side = match self.mode {
            Mode::Pvp | Mode::Study => String::from_str("both"),
            _ => String::from_str(side_str(self.player_side)),
        };
        Snapshot {
            fen: self.board.to_fen(),
            side: String::from_str(side_str(self.board.side)),
            records,
            last_move,
            in_check: self.board.in_check(self.board.side),
            status: String::from_str(status),
            reason: self.reason.clone(),
            eval_cp: self.eval_cp,
            opening,
            mode: String::from_str(mode),
            difficulty: self.difficulty,
            player_side,
            can_undo: n > 0 && self.status == GameStatus::Playing,
            puzzle,
            start_fen: self.start_fen.clone(),
        }
    }
}

/// `e` is a quick evaluation of position `v` from Red's point of view: the score a
/// search found for the side to move, negated when Black is to move.
pub open spec fn red_eval(v: BoardView, e: i32) -> bool {
    exists|score: i32, best: Option<Move>|
        search_found(v, score, best) && e == (if v.side == RED {
            score as int
        } else {
            -score
        })
}

/// A quick evaluation of `board` to `depth` plies, from Red's point of view.
pub fn quick_eval_red(board: &Board, depth: u8) -> (r: i32)
    requires
        board@.wf(),
        board.side < 16,
    ensures
        red_eval(board@, r),
        exists|score: i32, best: Option<Move>|
            {
                &&& search_found(board@, score, best)
                &&& searched_with(
                    board@,
                    SearchLimits { max_depth: depth, max_time_ms: 400, pool: 1, window: 0, pure: false },
                    score,
                    best,
                )
                &&& r == (if board.side == RED {
                    score as int
                } else {
                    -score
                })
            },
{
    let mut s = Searcher::new();
    let (score, best) = search_position(&mut s, board, SearchLimits::quick(depth));
    if board.side == RED {
        score
    } else {
        -score
    }
}

/// The evaluation shown once a game is over: a mate score for the winner, 0 for a draw.
pub open spec fn result_eval(status: GameStatus) -> int {
    match status {
        GameStatus::RedWin => MATE as int,
        GameStatus::BlackWin => -MATE,
        _ => 0,
    }
}

/// Mixes a seed into a book index.
pub open spec fn book_mix(seed: u64) -> u64 {
    let x = seed.wrapping_mul(0x2545F4914F6CDD1Du64).wrapping_add(0x9E3779B9u64);
    x ^ (x >> 33u64)
}

/// Picks a book move by the position's hash: none from an empty book.
pub fn pick_book<'a>(book: &[&'a str], seed: u64) -> (r: Option<&'a str>)
    ensures
        book@.len() == 0 ==> r is None,
        book@.len() > 0 ==> r == Some(book@[((book_mix(seed) as usize) % (book@.len() as usize)) as int]),
{
    if book.len() == 0 {
        return None;
    }
    let mut x = seed.wrapping_mul(0x2545F4914F6CDD1D).wrapping_add(0x9E3779B9);
    x = x ^ (x >> 33u64);
    let idx = (x as usize) % book.len();
    Some(book[idx])
}

/// The session after a new game started from `board` (a well-formed position, Red or
/// Black to move) in `mode`, with the user on `player_side`.
pub open spec fn restarted(v: SessionView, board: BoardView, mode: Mode, player_side: u8, w: SessionView) -> bool {
    &&& w.board == board
    &&& w.mode == mode
    &&& w.player_side == player_side
    &&& w.records.len() == 0
    &&& w.status == GameStatus::Playing
    &&& w.reason.len() == 0
    &&& w.start_fen == to_fen_spec(board.squares, board.side)
    &&& w.serial == v.serial.wrapping_add(1)
}

impl Session {
    /// Shows the evaluation after a move: a quick search while the game goes on, the
    /// result once it is over.
    fn refresh_eval(&mut self)
        ensures
            final(self)@ == (SessionView { eval_cp: final(self)@.eval_cp, ..old(self)@ }),
            old(self)@.status == GameStatus::Playing ==> red_eval(old(self)@.board, final(self)@.eval_cp),
            old(self)@.status != GameStatus::Playing ==> final(self)@.eval_cp == result_eval(old(self)@.status),
    {
        proof {
            use_type_invariant(&*self);
            lemma_piece_bits(self.board.side);
        }
        if self.status == GameStatus::Playing {
            self.eval_cp = quick_eval_red(&self.board, 3);
        } else {
            self.eval_cp = match self.status {
                GameStatus::RedWin => MATE,
                GameStatus::BlackWin => -MATE,
                _ => 0,
            };
        }
    }

    /// Starts a game from `board`, the previous game's record, status and puzzle dropped.
    fn restart(&mut self, board: Board, mode: Mode, player_side: u8)
        requires
            board@.wf(),
            board.side == RED || board.side == BLACK,
        ensures
            restarted(old(self)@, board@, mode, player_side, final(self)@),
            final(self)@.difficulty == old(self)@.difficulty,
            final(self)@.instant_feedback == old(self)@.instant_feedback,
            final(self)@.eval_cp == old(self)@.eval_cp,
            final(self)@.puzzle is None,
    {
        proof {
            use_type_invariant(&*self);
        }
        self.start_fen = board.to_fen();
        self.board = board;
        self.mode = mode;
        self.player_side = player_side;
        self.records = Vec::new();
        self.status = GameStatus::Playing;
        self.reason = String::new();
        self.puzzle = None;
        self.bump();
    }

    /// A new game against the engine from the standard start at level `difficulty`
    /// (capped at the hardest), the user playing Black when `player_side` is "black"
    /// and Red otherwise.
    pub fn game_new(&mut self, difficulty: usize, player_side: &str, instant_feedback: bool) -> (snap: Snapshot)
        ensures
            restarted(
                old(self)@,
                fresh_board(initial_squares(), RED),
                Mode::Ai,
                if player_side@ == "black"@ { BLACK } else { RED },
                final(self)@,
            ),
            final(self)@.difficulty == (if difficulty < LEVEL_COUNT - 1 { difficulty } else { (LEVEL_COUNT - 1) as usize }),
            final(self)@.instant_feedback == instant_feedback,
            final(self)@.eval_cp == 0,
            final(self)@.puzzle is None,
            snapshot_ok(final(self)@, snap),
    {
        proof {
            use_type_invariant(&*self);
        }
        let diff = if difficulty < LEVEL_COUNT - 1 {
            difficulty
        } else {
            LEVEL_COUNT - 1
        };
        let side = if text_eq(player_side, "black") {
            BLACK
        } else {
            RED
        };
        let board = Board::initial();
        proof {
            lemma_fresh_board_wf(initial_squares(), RED);
        }
        self.difficulty = diff;
        self.instant_feedback = instant_feedback;
        self.eval_cp = 0;
        self.restart(board, Mode::Ai, side);
        self.snapshot()
    }

    /// Study mode: from any FEN position, the user moving both sides.
    pub fn game_study_start(&mut self, fen: &str) -> (r: Result<Snapshot, String>)
        ensures
            match parse_fen(fen@) {
                Ok((sq, side)) => {
                    &&& restarted(old(self)@, fresh_board(sq, side), Mode::Study, RED, final(self)@)
                    &&& final(self)@.difficulty == old(self)@.difficulty
                    &&& final(self)@.instant_feedback == old(self)@.instant_feedback
                    &&& final(self)@.puzzle is None
                    &&& red_eval(fresh_board(sq, side), final(self)@.eval_cp)
                    &&& r matches Ok(snap) && snapshot_ok(final(self)@, snap)
                },
                Err(e) => {
                    &&& final(self)@ == old(self)@
                    &&& r matches Err(m) && m@ == "局面错误: "@ + crate::fen::fen_error_message(e)
                },
            },
    {
        proof {
            use_type_invariant(&*self);
        }
        let board = match Board::from_fen(fen) {
            Ok(b) => b,
            Err(e) => {
                let mut m = String::from_str("局面错误: ");
                push_str(&mut m, e.as_str());
                return Err(m);
            },
        };
        proof {
            crate::fen::lemma_parsed_board_wf(fen@);
            lemma_piece_bits(board.side);
        }
        self.restart(board, Mode::Study, RED);
        self.eval_cp = quick_eval_red(&self.board, 3);
        Ok(self.snapshot())
    }

    /// A new two-player game from the standard start.
    pub fn game_new_pvp(&mut self, instant_feedback: bool) -> (snap: Snapshot)
        ensures
            restarted(old(self)@, fresh_board(initial_squares(), RED), Mode::Pvp, RED, final(self)@),
            final(self)@.difficulty == old(self)@.difficulty,
            final(self)@.instant_feedback == instant_feedback,
            final(self)@.eval_cp == 0,
            final(self)@.puzzle is None,
            snapshot_ok(final(self)@, snap),
    {
        proof {
            use_type_invariant(&*self);
        }
        let board = Board::initial();
        proof {
            lemma_fresh_board_wf(initial_squares(), RED);
        }
        self.instant_feedback = instant_feedback;
        self.eval_cp = 0;
        self.restart(board, Mode::Pvp, RED);
        self.snapshot()
    }

    /// Target squares of the legal moves from square `from` (none off the board).
    pub fn legal_moves(&self, from: u8) -> (r: Vec<u8>)
        ensures
            from > 89 ==> r@.len() == 0,
            from <= 89 ==> r@ == legal_moves_spec(self@.board).filter(|m: Move| m.from == from).map_values(
                |m: Move| m.to,
            ),
    {
        proof {
            use_type_invariant(self);
        }
        if from > 89 {
            return Vec::new();
        }
        let legal = self.board.legal_moves();
        let ghost f = |m: Move| m.from == from;
        let mut r: Vec<u8> = Vec::new();
        let mut i: usize = 0;
        while i < legal.len()
            invariant
                0 <= i <= legal@.len(),
                f == (|m: Move| m.from == from),
                r@ == legal@.take(i as int).filter(f).map_values(|m: Move| m.to),
            decreases legal@.len() - i,
        {
            proof {
                reveal(Seq::filter);
                assert(legal@.take(i + 1).drop_last() =~= legal@.take(i as int));
            }
            if legal[i].from == from {
                let ghost before = r@;
                r.push(legal[i].to);
                proof {
                    assert(legal@.take(i + 1).filter(f) == legal@.take(i as int).filter(f).push(legal@[i as int]));
                    assert(r@ =~= legal@.take(i + 1).filter(f).map_values(|m: Move| m.to));
                }
            } else {
                assert(legal@.take(i + 1).filter(f) == legal@.take(i as int).filter(f));
            }
            i += 1;
        }
        proof {
            assert(legal@.take(legal@.len() as int) =~= legal@);
        }
        r
    }

    /// The side that gives up, `loser`, loses the game (when it is still going on).
    fn concede(&mut self, loser: u8, reason: &str)
        requires
            old(self)@.status == GameStatus::Playing,
        ensures
            final(self)@ == (SessionView {
                status: if loser == RED { GameStatus::BlackWin } else { GameStatus::RedWin },
                reason: reason@,
                eval_cp: (if loser == RED { -MATE } else { MATE as int }) as i32,
                serial: old(self)@.serial.wrapping_add(1),
                ..old(self)@
            }),
    {
        proof {
            use_type_invariant(&*self);
        }
        self.status = if loser == RED {
            GameStatus::BlackWin
        } else {
            GameStatus::RedWin
        };
        self.reason = String::from_str(reason);
        self.eval_cp = if loser == RED {
            -MATE
        } else {
            MATE
        };
        self.bump();
    }

    /// The user resigns (in a two-player game, the side to move does).
    pub fn resign(&mut self) -> (snap: Snapshot)
        ensures
            old(self)@.status != GameStatus::Playing ==> final(self)@ == old(self)@,
            old(self)@.status == GameStatus::Playing ==> ({
                let loser = if old(self)@.mode == Mode::Pvp {
                    old(self)@.board.side
                } else {
                    old(self)@.player_side
                };
                final(self)@ == (SessionView {
                    status: if loser == RED { GameStatus::BlackWin } else { GameStatus::RedWin },
                    reason: "认输"@,
                    eval_cp: (if loser == RED { -MATE } else { MATE as int }) as i32,
                    serial: old(self)@.serial.wrapping_add(1),
                    ..old(self)@
                })
            }),
            snapshot_ok(final(self)@, snap),
    {
        if self.status == GameStatus::Playing {
            let loser = match self.mode {
                Mode::Pvp => self.board.side,
                _ => self.player_side,
            };
            self.concede(loser, "认输");
        }
        self.snapshot()
    }

    /// The clock of `side` ("red", else Black) ran out: that side loses.
    pub fn time_loss(&mut self, side: &str) -> (snap: Snapshot)
        ensures
            old(self)@.status != GameStatus::Playing ==> final(self)@ == old(self)@,
            old(self)@.status == GameStatus::Playing ==> ({
                let loser = if side@ == "red"@ { RED } else { BLACK };
                final(self)@ == (SessionView {
                    status: if loser == RED { GameStatus::BlackWin } else { GameStatus::RedWin },
                    reason: "超时"@,
                    eval_cp: (if loser == RED { -MATE } else { MATE as int }) as i32,
                    serial: old(self)@.serial.wrapping_add(1),
                    ..old(self)@
                })
            }),
            snapshot_ok(final(self)@, snap),
    {
        if self.status == GameStatus::Playing {
            let loser = if text_eq(side, "red") {
                RED
            } else {
                BLACK
            };
            self.concede(loser, "超时");
        }
        self.snapshot()
    }
}

/// `w` shows the evaluation after a move: a quick evaluation while the game goes on,
/// the result once it is over.
pub open spec fn evaluated(w: SessionView) -> bool {
    if w.status == GameStatus::Playing {
        red_eval(w.board, w.eval_cp)
    } else {
        w.eval_cp == result_eval(w.status)
    }
}

/// Session `w` is session `v` after move `mv` was played (see `applied`) and the
/// evaluation refreshed.
pub open spec fn played(v: SessionView, mv: Move, w: SessionView) -> bool {
    &&& applied(v, mv, SessionView { eval_cp: v.eval_cp, ..w })
    &&& evaluated(w)
}

/// Whether `b` has a legal move from `from` to `to`.
fn legal_from_to(b: &Board, from: u8, to: u8) -> (r: bool)
    requires
        b@.wf(),
    ensures
        r == crate::search::has_legal_move(b@, from, to),
        r ==> from < 90 && to < 90,
{
    let legal = b.legal_moves();
    proof {
        crate::movegen::lemma_legal_moves_ok(b@);
    }
    let mut i: usize = 0;
    while i < legal.len()
        invariant
            0 <= i <= legal@.len(),
            legal@ == legal_moves_spec(b@),
            forall|t: int| 0 <= t < legal@.len() ==> crate::movegen::pseudo_ok(b.squares@, b.side, #[trigger] legal@[t]),
            forall|t: int| 0 <= t < i ==> !((#[trigger] legal@[t]).from == from && legal@[t].to == to),
        decreases legal@.len() - i,
    {
        if legal[i].from == from && legal[i].to == to {
            assert(crate::movegen::pseudo_ok(b.squares@, b.side, legal@[i as int]));
            return true;
        }
        i += 1;
    }
    false
}

/// A request to judge the user's last move: the position before it and the move.
pub struct JudgeRequest {
    board: Board,
    mv: Move,
    serial: u64,
}

/// The contents of a judge request.
pub struct JudgeRequestView {
    pub board: BoardView,
    pub mv: Move,
    pub serial: u64,
}

impl View for JudgeRequest {
    type V = JudgeRequestView;

    closed spec fn view(&self) -> JudgeRequestView {
        JudgeRequestView { board: self.board@, mv: self.mv, serial: self.serial }
    }
}

impl JudgeRequest {
    #[verifier::type_invariant]
    spec fn valid(self) -> bool {
        &&& self.board@.wf()
        &&& (self.board.side == RED || self.board.side == BLACK)
        &&& self.mv.from < 90
        &&& self.mv.to < 90
    }

    /// The session state the judgement belongs to.
    pub fn serial(&self) -> (r: u64)
        ensures
            r == self@.serial,
    {
        self.serial
    }

    /// Judges the move with searches of 4 plies and 260 ms.
    pub fn judge(&self) -> (f: MoveFeedback)
        ensures
            exists|score_before: i32, best: Option<Move>, reply_score: i32, reply: Option<Move>|
                {
                    &&& search_found(self@.board, score_before, best)
                    &&& searched_with(self@.board, judging_limits(4, 260), score_before, best)
                    &&& search_found(
                        spec_make(self@.board, self@.mv.from as int, self@.mv.to as int),
                        reply_score,
                        reply,
                    )
                    &&& searched_with(
                        spec_make(self@.board, self@.mv.from as int, self@.mv.to as int),
                        judging_limits(4, 260),
                        reply_score,
                        reply,
                    )
                    &&& feedback_ok(self@.board, score_before, best, reply_score, f)
                },
    {
        proof {
            use_type_invariant(self);
        }
        let f = judge_move(&self.board, self.mv, 4, 260);
        assert(self@.board == self.board@ && self@.mv == self.mv);
        f
    }
}

/// The move from `from` to `to` in position `v`, with what stands on the target.
pub open spec fn move_at(v: BoardView, from: u8, to: u8) -> Move {
    Move { from, to, captured: v.squares[to as int] }
}

impl Session {
    fn pop_record(&mut self)
        ensures
            final(self)@ == (SessionView { records: pop_records(old(self)@.records), ..old(self)@ }),
    {
        proof {
            use_type_invariant(&*self);
        }
        let mut recs: Vec<MoveRecord> = Vec::new();
        std::mem::swap(&mut recs, &mut self.records);
        let _ = recs.pop();
        self.records = recs;
    }

    /// Takes back the last move (two-player and study modes) or the last two (the user's
    /// move and the reply); a finished game resumes.
    pub fn undo(&mut self) -> (snap: Snapshot)
        ensures
            old(self)@.records.len() == 0 ==> final(self)@ == old(self)@,
            old(self)@.records.len() > 0 ==> ({
                let v = old(self)@;
                let k: int = match v.mode {
                    Mode::Pvp | Mode::Study => 1,
                    _ => 2,
                };
                let n = if v.board.undo.len() >= k { v.board.undo.len() - k } else { 0 };
                &&& final(self)@ == (SessionView {
                    board: spec_undo_to(v.board, n as nat),
                    records: if k == 1 { pop_records(v.records) } else { pop_records(pop_records(v.records)) },
                    status: GameStatus::Playing,
                    reason: if v.status != GameStatus::Playing { Seq::empty() } else { v.reason },
                    eval_cp: final(self)@.eval_cp,
                    serial: v.serial.wrapping_add(1),
                    ..v
                })
                &&& red_eval(final(self)@.board, final(self)@.eval_cp)
            }),
            snapshot_ok(final(self)@, snap),
    {
        proof {
            use_type_invariant(&*self);
        }
        if self.records.len() == 0 {
            return self.snapshot();
        }
        if self.status != GameStatus::Playing {
            // taking back after the end: back to before the last move
            self.status = GameStatus::Playing;
            self.reason = String::new();
        }
        let k: usize = match self.mode {
            Mode::Pvp | Mode::Study => 1,
            _ => 2,
        };
        let len = self.board.undo_len();
        let n = if len >= k {
            len - k
        } else {
            0
        };
        let mut b = self.board.duplicate();
        b.undo_to(n);
        proof {
            crate::board::lemma_undo_to_side(self.board@, n as nat);
        }
        self.board = b;
        self.pop_record();
        if k == 2 {
            self.pop_record();
        }
        proof {
            lemma_piece_bits(self.board.side);
        }
        self.eval_cp = quick_eval_red(&self.board, 3);
        self.bump();
        self.snapshot()
    }

    /// The user plays from `from` to `to`. Refused when the game is over, it is not the
    /// user's turn, a square is off the board or the move is illegal. Otherwise the move
    /// is played and the evaluation refreshed; when instant feedback is on for this move
    /// (two players, or the user's move against the engine) and the game goes on, a
    /// request to judge it is returned.
    pub fn player_move(&mut self, from: u8, to: u8) -> (r: Result<Option<JudgeRequest>, String>)
        ensures
            ({
                let v = old(self)@;
                if v.status != GameStatus::Playing {
                    final(self)@ == v && refused(r, "对局已结束"@)
                } else if !player_turn(v) {
                    final(self)@ == v && refused(r, "还没轮到你走棋"@)
                } else if from > 89 || to > 89 {
                    final(self)@ == v && refused(r, "坐标非法"@)
                } else if !crate::search::has_legal_move(v.board, from, to) {
                    final(self)@ == v && refused(r, "该走法不合法"@)
                } else {
                    let mv = move_at(v.board, from, to);
                    let want = v.instant_feedback && (v.mode == Mode::Pvp || (v.mode == Mode::Ai
                        && v.board.side == v.player_side));
                    &&& played(v, mv, final(self)@)
                    &&& if want && final(self)@.status == GameStatus::Playing {
                        r matches Ok(Some(req)) && req@ == (JudgeRequestView {
                            board: v.board,
                            mv,
                            serial: final(self)@.serial,
                        })
                    } else {
                        r matches Ok(None)
                    }
                }
            }),
    {
        proof {
            use_type_invariant(&*self);
        }
        if self.status != GameStatus::Playing {
            return Err(String::from_str("对局已结束"));
        }
        if !self.is_player_turn() {
            return Err(String::from_str("还没轮到你走棋"));
        }
        if from > 89 || to > 89 {
            return Err(String::from_str("坐标非法"));
        }
        let mv = Move::new(from, to, self.board.piece_at(to));
        if !legal_from_to(&self.board, from, to) {
            return Err(String::from_str("该走法不合法"));
        }
        let board_before = self.board.duplicate();
        let want_judge = self.instant_feedback && (self.mode == Mode::Pvp || (self.mode == Mode::Ai
            && self.board.side == self.player_side));
        let ghost v = self@;
        self.apply_move(mv);
        let ghost m = self@;
        proof {
            lemma_applied_frame(v, mv, m);
        }
        self.refresh_eval();
        assert(m == (SessionView { eval_cp: v.eval_cp, ..self@ }));
        if want_judge && self.status == GameStatus::Playing {
            Ok(Some(JudgeRequest { board: board_before, mv, serial: self.serial }))
        } else {
            Ok(None)
        }
    }

    /// Writes the judgement of the last move into the record, unless the session has
    /// changed since the move (`serial`) or has no move.
    pub fn record_feedback(&mut self, serial: u64, feedback: &MoveFeedback)
        ensures
            ({
                let v = old(self)@;
                if v.serial == serial && v.records.len() > 0 {
                    final(self)@ == (SessionView {
                        records: v.records.update(
                            v.records.len() - 1,
                            MoveRecord {
                                badge: Some(feedback.classification),
                                best_iccs: feedback.best_iccs,
                                loss: Some(feedback.loss),
                                ..v.records.last()
                            },
                        ),
                        ..v
                    })
                } else {
                    final(self)@ == v
                }
            }),
    {
        proof {
            use_type_invariant(&*self);
        }
        if self.serial == serial && self.records.len() > 0 {
            let mut recs: Vec<MoveRecord> = Vec::new();
            std::mem::swap(&mut recs, &mut self.records);
            let mut last = recs.pop().unwrap();
            last.badge = Some(feedback.classification.clone());
            last.best_iccs = copy_text(&feedback.best_iccs);
            last.loss = Some(feedback.loss);
            recs.push(last);
            self.records = recs;
            proof {
                let v = old(self)@;
                assert(self@.records =~= v.records.update(
                    v.records.len() - 1,
                    MoveRecord {
                        badge: Some(feedback.classification),
                        best_iccs: feedback.best_iccs,
                        loss: Some(feedback.loss),
                        ..v.records.last()
                    },
                ));
            }
        }
    }
}

/// `r` is a refusal with message `msg`.
pub open spec fn refused<T>(r: Result<T, String>, msg: Seq<char>) -> bool {
    r matches Err(m) && m@ == msg
}

/// A record without its last move (unchanged when empty).
pub open spec fn pop_records(r: Seq<MoveRecord>) -> Seq<MoveRecord> {
    if r.len() > 0 {
        r.drop_last()
    } else {
        r
    }
}

// ---------------------------------------------------------------------------
// The engine's move
// ---------------------------------------------------------------------------

/// A request for the engine's move: the position and what decides how the engine plays.
pub struct AiRequest {
    board: Board,
    serial: u64,
    difficulty: usize,
    mode: Mode,
    start_fen: String,
    seq: Vec<String>,
}

/// The contents of a request for the engine's move.
pub struct AiRequestView {
    pub board: BoardView,
    pub serial: u64,
    pub difficulty: usize,
    pub mode: Mode,
    pub start_fen: Seq<char>,
    pub seq: Seq<Seq<char>>,
}

impl View for AiRequest {
    type V = AiRequestView;

    closed spec fn view(&self) -> AiRequestView {
        AiRequestView {
            board: self.board@,
            serial: self.serial,
            difficulty: self.difficulty,
            mode: self.mode,
            start_fen: self.start_fen@,
            seq: self.seq@.map_values(|m: String| m@),
        }
    }
}

/// The opening book moves the engine chooses from: book replies while a game from the
/// standard start (not a puzzle or practice) is in its first eight plies, else none.
pub open spec fn ai_book(req: AiRequestView) -> Seq<Seq<char>> {
    let from_start = req.start_fen == to_fen_spec(initial_squares(), RED) && !(req.mode == Mode::Puzzle
        || req.mode == Mode::Practice);
    if from_start && req.seq.len() < 8 {
        book_replies_spec(req.seq)
    } else {
        Seq::empty()
    }
}

/// Index of the level an engine of `difficulty` plays at.
pub open spec fn level_index(difficulty: usize) -> int {
    if difficulty < LEVEL_COUNT - 1 {
        difficulty as int
    } else {
        LEVEL_COUNT - 1
    }
}

/// The book move picked from `book` (not empty) by the hash `seed`.
fn book_move(book: &Vec<&'static str>, seed: u64) -> (r: Option<Move>)
    requires
        book@.len() > 0,
    ensures
        r == iccs_move(book@[((book_mix(seed) as usize) % (book@.len() as usize)) as int]@),
{
    match pick_book(book.as_slice(), seed) {
        Some(next) => Move::from_iccs(next),
        None => None,
    }
}

/// The move a search at the level of `difficulty` settles on.
fn level_move(board: &Board, difficulty: usize) -> (r: Option<Move>)
    requires
        board@.wf(),
        board.side < 16,
    ensures
        (r is None) == (legal_moves_spec(board@).len() == 0),
        r matches Some(m) ==> can_settle(board@, level_limits()[level_index(difficulty)], m),
{
    let lvl = if difficulty < LEVEL_COUNT - 1 {
        difficulty
    } else {
        LEVEL_COUNT - 1
    };
    let limits = crate::search::level_limits_of(lvl);
    let mut s = Searcher::new();
    let r = s.search(board, limits);
    proof {
        if let Some(m) = r.best {
            crate::search::lemma_can_settle(board@, limits, m, r.score, r.root_scores@, r.depth_reached);
        }
    }
    r.best
}

impl AiRequest {
    #[verifier::type_invariant]
    spec fn valid(self) -> bool {
        &&& self.board@.wf()
        &&& (self.board.side == RED || self.board.side == BLACK)
    }

    /// The session state the request belongs to.
    pub fn serial(&self) -> (r: u64)
        ensures
            r == self@.serial,
    {
        self.serial
    }

    /// The engine's move: a book move picked by the position's hash while the book has
    /// one, else the move a search at the engine's level settles on.
    #[verifier::rlimit(30)]
    pub fn pick_move(&self) -> (r: Option<Move>)
        ensures
            ({
                let book = ai_book(self@);
                if book.len() > 0 {
                    r == iccs_move(book[((book_mix(self@.board.hash) as usize) % (book.len() as usize)) as int])
                } else {
                    &&& (r is None) == (legal_moves_spec(self@.board).len() == 0)
                    &&& r matches Some(m) ==> can_settle(self@.board, level_limits()[level_index(self@.difficulty)], m)
                }
            }),
    {
        proof {
            use_type_invariant(self);
            lemma_piece_bits(self.board.side);
        }
        let initial_fen = Board::initial().to_fen();
        let from_start = self.start_fen == initial_fen && !(self.mode == Mode::Puzzle || self.mode
            == Mode::Practice);
        let book: Vec<&'static str> = if from_start && self.seq.len() < 8 {
            book_replies(self.seq.as_slice())
        } else {
            Vec::new()
        };
        proof {
            assert(book@.map_values(|m: &str| m@) == ai_book(self@));
            assert(book@.len() == ai_book(self@).len());
            if book@.len() > 0 {
                let k = ((book_mix(self.board.hash) as usize) % (book@.len() as usize)) as int;
                assert(book@.map_values(|m: &str| m@)[k] == book@[k]@);
            }
        }
        if book.len() > 0 {
            book_move(&book, self.board.hash())
        } else {
            level_move(&self.board, self.difficulty)
        }
    }
}

impl Session {
    /// A request for the engine's move, unless the game is over. In practice mode the
    /// engine defends at level 3.
    pub fn ai_request(&self) -> (r: Option<AiRequest>)
        ensures
            self@.status != GameStatus::Playing ==> r is None,
            self@.status == GameStatus::Playing ==> (r matches Some(req) && req@ == (AiRequestView {
                board: self@.board,
                serial: self@.serial,
                difficulty: if self@.mode == Mode::Practice { 3 } else { self@.difficulty },
                mode: self@.mode,
                start_fen: self@.start_fen,
                seq: record_texts(self@.records),
            })),
    {
        proof {
            use_type_invariant(self);
        }
        if self.status != GameStatus::Playing {
            return None;
        }
        let difficulty = if self.mode == Mode::Practice {
            3
        } else {
            self.difficulty
        };
        let seq = self.move_seq();
        let req = AiRequest {
            board: self.board.duplicate(),
            serial: self.serial,
            difficulty,
            mode: self.mode,
            start_fen: self.start_fen.clone(),
            seq,
        };
        assert(req@.seq =~= record_texts(self@.records));
        Some(req)
    }

    /// Plays the engine's move `chosen` when the session is still the one asked
    /// (`serial`), the game goes on and the move is legal; the evaluation is refreshed.
    pub fn ai_finish(&mut self, serial: u64, chosen: Option<Move>) -> (snap: Snapshot)
        ensures
            ({
                let v = old(self)@;
                if v.serial == serial && v.status == GameStatus::Playing && (chosen matches Some(mv)
                    && has_legal_move(v.board, mv.from, mv.to)) {
                    played(v, chosen->Some_0, final(self)@)
                } else {
                    final(self)@ == v
                }
            }),
            snapshot_ok(final(self)@, snap),
    {
        proof {
            use_type_invariant(&*self);
        }
        if self.serial != serial || self.status != GameStatus::Playing {
            return self.snapshot();
        }
        if let Some(mv) = chosen {
            if legal_from_to(&self.board, mv.from, mv.to) {
                let ghost v = self@;
                self.apply_move(mv);
                let ghost m = self@;
                proof {
                    lemma_applied_frame(v, mv, m);
                }
                self.refresh_eval();
                assert(m == (SessionView { eval_cp: v.eval_cp, ..self@ }));
            }
        }
        self.snapshot()
    }
}

// ---------------------------------------------------------------------------
// Hints
// ---------------------------------------------------------------------------

/// A request for a hint: the position, and whether a puzzle is being solved.
pub struct HintRequest {
    board: Board,
    in_puzzle: bool,
}

/// The contents of a hint request.
pub struct HintRequestView {
    pub board: BoardView,
    pub in_puzzle: bool,
}

impl View for HintRequest {
    type V = HintRequestView;

    closed spec fn view(&self) -> HintRequestView {
        HintRequestView { board: self.board@, in_puzzle: self.in_puzzle }
    }
}

/// What the hint search found: the best move (if any) and its score.
pub struct HintFound {
    best: Option<Move>,
    score: i32,
}

/// The contents of a hint search's finding.
pub struct HintFoundView {
    pub best: Option<Move>,
    pub score: i32,
}

impl View for HintFound {
    type V = HintFoundView;

    closed spec fn view(&self) -> HintFoundView {
        HintFoundView { best: self.best, score: self.score }
    }
}

impl HintFound {
    #[verifier::type_invariant]
    spec fn valid(self) -> bool {
        self.best matches Some(m) ==> (m.from < 90 && m.to < 90)
    }
}

/// A hint for the user.
pub struct HintResult {
    pub iccs: String,
    pub notation: String,
    pub from: u8,
    pub to: u8,
    pub score: i32,
    pub score_label: String,
}

/// Search limits of a hint: deeper and pure within a puzzle.
pub open spec fn hint_limits(in_puzzle: bool) -> SearchLimits {
    if in_puzzle {
        SearchLimits { max_depth: 8, max_time_ms: 1500, pool: 1, window: 0, pure: true }
    } else {
        SearchLimits { max_depth: 7, max_time_ms: 1200, pool: 1, window: 0, pure: false }
    }
}

/// Words for a score: a mate in sight for either side, or the advantage.
pub open spec fn score_label_spec(score: i32) -> Seq<char> {
    if score > MATE - 100 {
        "红方绝杀在即"@
    } else if score < -(MATE - 100) {
        "黑方绝杀在即"@
    } else if score > 300 {
        "红方大优"@
    } else if score > 60 {
        "红方略优"@
    } else if score > -60 {
        "局面均衡"@
    } else if score > -300 {
        "黑方略优"@
    } else {
        "黑方大优"@
    }
}

/// Words for a score.
pub fn score_label(score: i32) -> (r: &'static str)
    ensures
        r@ == score_label_spec(score),
{
    if score > MATE - 100 {
        "红方绝杀在即"
    } else if score < -(MATE - 100) {
        "黑方绝杀在即"
    } else if score > 300 {
        "红方大优"
    } else if score > 60 {
        "红方略优"
    } else if score > -60 {
        "局面均衡"
    } else if score > -300 {
        "黑方略优"
    } else {
        "黑方大优"
    }
}

impl HintRequest {
    #[verifier::type_invariant]
    spec fn valid(self) -> bool {
        &&& self.board@.wf()
        &&& (self.board.side == RED || self.board.side == BLACK)
    }

    /// Searches the position for the hint.
    pub fn search(&self) -> (f: HintFound)
        ensures
            search_found(self@.board, f@.score, f@.best),
            f@.best matches Some(m) ==> can_settle(self@.board, hint_limits(self@.in_puzzle), m),
            searched_with(self@.board, hint_limits(self@.in_puzzle), f@.score, f@.best),
    {
        proof {
            use_type_invariant(self);
            lemma_piece_bits(self.board.side);
        }
        let limits = if self.in_puzzle {
            SearchLimits { max_depth: 8, max_time_ms: 1500, pool: 1, window: 0, pure: true }
        } else {
            SearchLimits { max_depth: 7, max_time_ms: 1200, pool: 1, window: 0, pure: false }
        };
        let mut s = Searcher::new();
        let (score, best) = search_position(&mut s, &self.board, limits);
        HintFound { best, score }
    }
}

impl Session {
    /// A request for a hint, refused once the game is over.
    pub fn hint_request(&self) -> (r: Result<HintRequest, String>)
        ensures
            self@.status != GameStatus::Playing ==> refused(r, "对局已结束"@),
            self@.status == GameStatus::Playing ==> (r matches Ok(req) && req@ == (HintRequestView {
                board: self@.board,
                in_puzzle: self@.puzzle is Some,
            })),
    {
        proof {
            use_type_invariant(self);
        }
        if self.status != GameStatus::Playing {
            return Err(String::from_str("对局已结束"));
        }
        Ok(HintRequest { board: self.board.duplicate(), in_puzzle: self.puzzle.is_some() })
    }

    /// The hint for what the search found: its move in ICCS and in notation (on the
    /// current board) and words for its score; refused when there is no move.
    pub fn hint_result(&self, found: &HintFound) -> (r: Result<HintResult, String>)
        ensures
            match found@.best {
                None => refused(r, "无棋可走"@),
                Some(mv) => r matches Ok(h) && {
                    &&& h.iccs@ == iccs_text(mv.from, mv.to)
                    &&& h.notation@ == move_notation_spec(self@.board.squares, mv)
                    &&& h.from == mv.from
                    &&& h.to == mv.to
                    &&& h.score == found@.score
                    &&& h.score_label@ == score_label_spec(found@.score)
                },
            },
    {
        proof {
            use_type_invariant(found);
        }
        let mv = match found.best {
            Some(m) => m,
            None => return Err(String::from_str("无棋可走")),
        };
        let notation = move_notation(&self.board, mv);
        Ok(
            HintResult {
                iccs: mv.iccs(),
                notation,
                from: mv.from,
                to: mv.to,
                score: found.score,
                score_label: String::from_str(score_label(found.score)),
            },
        )
    }
}

// ---------------------------------------------------------------------------
// Puzzles
// ---------------------------------------------------------------------------

/// A puzzle in the list of puzzles.
pub struct PuzzleInfo {
    pub id: u32,
    pub name: String,
    pub theme: String,
    pub difficulty: u8,
    pub is_mate: bool,
    pub mate_in: u8,
}

/// `info` lists puzzle `p`.
pub open spec fn puzzle_info_ok(info: PuzzleInfo, p: PuzzleData) -> bool {
    &&& info.id == p.id
    &&& info.name@ == p.name
    &&& info.theme@ == p.theme
    &&& info.difficulty == p.difficulty
    &&& info.is_mate == (p.kind is Mate)
    &&& info.mate_in == (match p.kind {
        PuzzleKind::Mate { mate_in } => mate_in,
        PuzzleKind::Practice => 0,
    })
}

/// The list of puzzles, in order.
pub fn puzzles_list() -> (r: Vec<PuzzleInfo>)
    ensures
        r@.len() == puzzle_table().len(),
        forall|i: int| 0 <= i < r@.len() ==> puzzle_info_ok(#[trigger] r@[i], puzzle_table()[i]),
{
    let all = puzzles();
    let ghost t = puzzle_table();
    let mut r: Vec<PuzzleInfo> = Vec::new();
    let mut i: usize = 0;
    while i < all.len()
        invariant
            0 <= i <= all@.len(),
            all@.map_values(|p: Puzzle| puzzle_view(p)) == t,
            t == puzzle_table(),
            r@.len() == i,
            forall|k: int| 0 <= k < i ==> puzzle_info_ok(#[trigger] r@[k], t[k]),
        decreases all@.len() - i,
    {
        let p = &all[i];
        assert(puzzle_view(all@[i as int]) == t[i as int]);
        let (is_mate, mate_in) = match p.kind {
            PuzzleKind::Mate { mate_in } => (true, mate_in),
            PuzzleKind::Practice => (false, 0),
        };
        r.push(
            PuzzleInfo {
                id: p.id,
                name: String::from_str(p.name),
                theme: String::from_str(p.theme),
                difficulty: p.difficulty,
                is_mate,
                mate_in,
            },
        );
        i += 1;
    }
    r
}

impl Session {
    /// Starts puzzle `id` from its position, the user playing the side to move; refused
    /// for an unknown puzzle or an unreadable position.
    pub fn puzzle_start(&mut self, id: u32) -> (r: Result<Snapshot, String>)
        ensures
            match puzzle_entry(id) {
                None => final(self)@ == old(self)@ && refused(r, "谜题不存在"@),
                Some(p) => match parse_fen(p.fen) {
                    Err(e) => final(self)@ == old(self)@ && refused(
                        r,
                        "谜题局面错误: "@ + crate::fen::fen_error_message(e),
                    ),
                    Ok((sq, side)) => {
                        let mate = p.kind is Mate;
                        let mate_in = match p.kind {
                            PuzzleKind::Mate { mate_in } => mate_in,
                            PuzzleKind::Practice => 0,
                        };
                        &&& restarted(
                            old(self)@,
                            fresh_board(sq, side),
                            if mate { Mode::Puzzle } else { Mode::Practice },
                            side,
                            final(self)@,
                        )
                        &&& final(self)@.difficulty == old(self)@.difficulty
                        &&& final(self)@.instant_feedback == old(self)@.instant_feedback
                        &&& final(self)@.puzzle == Some(
                            PuzzleState { id, mate, mate_in, solved: false, wrong_count: 0 },
                        )
                        &&& red_eval(fresh_board(sq, side), final(self)@.eval_cp)
                        &&& r matches Ok(snap) && snapshot_ok(final(self)@, snap)
                    },
                },
            },
    {
        proof {
            use_type_invariant(&*self);
        }
        let p = match puzzle_by_id(id) {
            Some(p) => p,
            None => return Err(String::from_str("谜题不存在")),
        };
        let board = match Board::from_fen(p.fen) {
            Ok(b) => b,
            Err(e) => {
                let mut m = String::from_str("谜题局面错误: ");
                push_str(&mut m, e.as_str());
                return Err(m);
            },
        };
        proof {
            crate::fen::lemma_parsed_board_wf(p.fen@);
            lemma_piece_bits(board.side);
        }
        let (mate, mate_in) = match p.kind {
            PuzzleKind::Mate { mate_in } => (true, mate_in),
            PuzzleKind::Practice => (false, 0),
        };
        let side = board.side;
        self.restart(board, if mate { Mode::Puzzle } else { Mode::Practice }, side);
        self.puzzle = Some(PuzzleState { id, mate, mate_in, solved: false, wrong_count: 0 });
        self.eval_cp = quick_eval_red(&self.board, 4);
        Ok(self.snapshot())
    }
}

/// A move tried in a puzzle: the position after it, the move, the puzzle's kind and
/// length, the plies played so far, and whether the opponent is left without a move.
pub struct PuzzleMoveRequest {
    after: Board,
    mv: Move,
    mate: bool,
    mate_in: u8,
    plies_done: u32,
    black_dead: bool,
}

/// The contents of a puzzle move request.
pub struct PuzzleMoveRequestView {
    pub after: BoardView,
    pub mv: Move,
    pub mate: bool,
    pub mate_in: u8,
    pub plies_done: u32,
    pub black_dead: bool,
}

impl View for PuzzleMoveRequest {
    type V = PuzzleMoveRequestView;

    closed spec fn view(&self) -> PuzzleMoveRequestView {
        PuzzleMoveRequestView {
            after: self.after@,
            mv: self.mv,
            mate: self.mate,
            mate_in: self.mate_in,
            plies_done: self.plies_done,
            black_dead: self.black_dead,
        }
    }
}

/// Whether a move keeps a forced mate, and the engine's best defence.
pub struct MateCheck {
    still: bool,
    defense: Option<Move>,
}

/// The contents of a mate check.
pub struct MateCheckView {
    pub still: bool,
    pub defense: Option<Move>,
}

impl View for MateCheck {
    type V = MateCheckView;

    closed spec fn view(&self) -> MateCheckView {
        MateCheckView { still: self.still, defense: self.defense }
    }
}

impl MateCheck {
    #[verifier::type_invariant]
    spec fn valid(self) -> bool {
        self.defense matches Some(m) ==> (m.from < 90 && m.to < 90)
    }
}

/// The outcome of a puzzle move.
pub struct PuzzleMoveResult {
    pub snapshot: Snapshot,
    pub accepted: bool,
    pub feedback: String,
    pub solved: bool,
    /// The engine's defence (ICCS), for display.
    pub reply: Option<String>,
}

/// Plies left to check a mate in: twice the user's moves left (at most 10), after
/// `plies_done` plies of a mate in `mate_in`.
pub open spec fn verify_plies(mate_in: u8, plies_done: u32) -> int {
    let left = mate_in - (plies_done / 2 + 1);
    let remaining = if left < 0 {
        0
    } else {
        left
    };
    if remaining * 2 < 10 {
        remaining * 2
    } else {
        10
    }
}

/// Limits of the search that checks a mate within `plies` plies.
pub open spec fn mate_check_limits(plies: int) -> SearchLimits {
    SearchLimits {
        max_depth: (if plies < 2 { 2 } else { plies }) as u8,
        max_time_ms: 2500,
        pool: 1,
        window: 0,
        pure: true,
    }
}

impl PuzzleMoveRequest {
    #[verifier::type_invariant]
    spec fn valid(self) -> bool {
        &&& self.after@.wf()
        &&& (self.after.side == RED || self.after.side == BLACK)
        &&& self.mv.from < 90
        &&& self.mv.to < 90
    }

    /// Whether the puzzle is a mate puzzle (else endgame practice).
    pub fn is_mate(&self) -> (r: bool)
        ensures
            r == self@.mate,
    {
        self.mate
    }

    /// Checks that the forced mate still holds after the move: at once when the opponent
    /// has no move, else by a pure search of the plies left, which must find the
    /// opponent mated within them; the search's move is the defence.
    pub fn verify(&self) -> (c: MateCheck)
        ensures
            self@.black_dead ==> c@ == (MateCheckView { still: true, defense: None }),
            !self@.black_dead ==> ({
                let v = verify_plies(self@.mate_in, self@.plies_done);
                exists|score: i32|
                    {
                        &&& search_found(self@.after, score, c@.defense)
                        &&& searched_with(self@.after, mate_check_limits(v), score, c@.defense)
                        &&& c@.still == (score <= -(MATE - v - 2))
                        &&& c@.defense matches Some(m) ==> can_settle(self@.after, mate_check_limits(v), m)
                    }
            }),
    {
        proof {
            use_type_invariant(self);
            lemma_piece_bits(self.after.side);
        }
        if self.black_dead {
            return MateCheck { still: true, defense: None };
        }
        let used: i64 = (self.plies_done / 2) as i64 + 1;
        let left: i64 = self.mate_in as i64 - used;
        let remaining: i64 = if left < 0 {
            0
        } else {
            left
        };
        let v: u8 = if remaining * 2 < 10 {
            (remaining * 2) as u8
        } else {
            10
        };
        let limits = SearchLimits {
            max_depth: if v < 2 { 2 } else { v },
            max_time_ms: 2500,
            pool: 1,
            window: 0,
            pure: true,
        };
        let mut s = Searcher::new();
        let (score, best) = search_position(&mut s, &self.after, limits);
        let c = MateCheck { still: score <= -(MATE - v as i32 - 2), defense: best };
        proof {
            assert(v as int == verify_plies(self@.mate_in, self@.plies_done));
            assert(limits == mate_check_limits(v as int));
            assert(search_found(self@.after, score, c@.defense));
        }
        c
    }
}

impl Session {
    /// A move from `from` to `to` in the puzzle. Refused when the puzzle is over, no
    /// puzzle is on, it is solved already, a square is off the board or the move is
    /// illegal; nothing is played yet.
    pub fn puzzle_move_request(&self, from: u8, to: u8) -> (r: Result<PuzzleMoveRequest, String>)
        ensures
            ({
                let v = self@;
                if v.status != GameStatus::Playing {
                    refused(r, "本题已结束，请开始下一题"@)
                } else if v.puzzle is None {
                    refused(r, "当前不在解谜模式"@)
                } else if v.puzzle->Some_0.solved {
                    refused(r, "已解答"@)
                } else if from > 89 || to > 89 {
                    refused(r, "坐标非法"@)
                } else if !has_legal_move(v.board, from, to) {
                    refused(r, "该走法不合法"@)
                } else {
                    let after = spec_make(v.board, from as int, to as int);
                    r matches Ok(req) && req@ == (PuzzleMoveRequestView {
                        after,
                        mv: move_at(v.board, from, to),
                        mate: v.puzzle->Some_0.mate,
                        mate_in: v.puzzle->Some_0.mate_in,
                        plies_done: v.records.len() as u32,
                        black_dead: legal_moves_spec(after).len() == 0,
                    })
                }
            }),
    {
        proof {
            use_type_invariant(self);
        }
        if self.status != GameStatus::Playing {
            return Err(String::from_str("本题已结束，请开始下一题"));
        }
        let pz = match self.puzzle {
            Some(p) => p,
            None => return Err(String::from_str("当前不在解谜模式")),
        };
        if pz.solved {
            return Err(String::from_str("已解答"));
        }
        if from > 89 || to > 89 {
            return Err(String::from_str("坐标非法"));
        }
        let mv = Move::new(from, to, self.board.piece_at(to));
        if !legal_from_to(&self.board, from, to) {
            return Err(String::from_str("该走法不合法"));
        }
        let mut after = self.board.duplicate();
        after.make_move(mv);
        proof {
            crate::board::lemma_side_flip(self.board.side);
        }
        let black_dead = after.no_moves();
        Ok(
            PuzzleMoveRequest {
                after,
                mv,
                mate: pz.mate,
                mate_in: pz.mate_in,
                plies_done: #[verifier::truncate] (self.records.len() as u32),
                black_dead,
            },
        )
    }

    /// Endgame practice: the move is accepted and played; the puzzle is solved once the
    /// game ends in the user's favour.
    pub fn puzzle_practice_move(&mut self, req: &PuzzleMoveRequest) -> (r: PuzzleMoveResult)
        ensures
            ({
                let v = old(self)@;
                let w = final(self)@;
                let won = (w.status == GameStatus::RedWin) == (v.player_side == RED);
                &&& applied(v, req@.mv, SessionView { eval_cp: v.eval_cp, puzzle: v.puzzle, ..w })
                &&& w.status == GameStatus::Playing ==> red_eval(w.board, w.eval_cp) && w.puzzle == v.puzzle
                &&& w.status != GameStatus::Playing ==> w.eval_cp == v.eval_cp && w.puzzle == (if won {
                    match v.puzzle {
                        Some(pz) => Some(PuzzleState { solved: true, ..pz }),
                        None => None,
                    }
                } else {
                    v.puzzle
                })
                &&& snapshot_ok(w, r.snapshot)
                &&& r.accepted
                &&& r.feedback@.len() == 0
                &&& r.solved == (match w.puzzle {
                    Some(pz) => pz.solved,
                    None => false,
                })
                &&& r.reply is None
            }),
    {
        proof {
            use_type_invariant(&*self);
            use_type_invariant(req);
        }
        let ghost v = self@;
        self.apply_move(req.mv);
        let ghost m = self@;
        proof {
            lemma_applied_frame(v, req@.mv, m);
            use_type_invariant(&*self);
        }
        if self.status == GameStatus::Playing {
            proof {
                use_type_invariant(&*self);
                lemma_piece_bits(self.board.side);
            }
            self.eval_cp = quick_eval_red(&self.board, 3);
        } else {
            // the user mated the opponent: done
            let player_won = (self.status == GameStatus::RedWin) == (self.player_side == RED);
            if player_won {
                if let Some(pz) = self.puzzle {
                    self.puzzle = Some(PuzzleState { solved: true, ..pz });
                }
            }
        }
        let solved_now = match self.puzzle {
            Some(pz) => pz.solved,
            None => false,
        };
        assert(m == (SessionView { eval_cp: v.eval_cp, puzzle: v.puzzle, ..self@ }));
        PuzzleMoveResult {
            snapshot: self.snapshot(),
            accepted: true,
            feedback: String::new(),
            solved: solved_now,
            reply: None,
        }
    }

    /// A mate puzzle move, given the mate check. A move that loses the forced mate is
    /// refused and counted as wrong. Otherwise it is played: a mate solves the puzzle;
    /// else the engine's defence is played too (when legal).
    pub fn puzzle_mate_move(&mut self, req: &PuzzleMoveRequest, check: &MateCheck) -> (r: PuzzleMoveResult)
        ensures
            ({
                let v = old(self)@;
                let w = final(self)@;
                if !(req@.black_dead || check@.still) {
                    &&& w == (SessionView {
                        puzzle: match v.puzzle {
                            Some(pz) => Some(PuzzleState { wrong_count: pz.wrong_count.wrapping_add(1), ..pz }),
                            None => None,
                        },
                        ..v
                    })
                    &&& !r.accepted
                    &&& r.feedback@ == "走错啦！这步之后无法在 "@ + decimal(req@.mate_in as nat) + " 回合内成杀，再想想。"@
                    &&& !r.solved
                    &&& r.reply is None
                } else if req@.black_dead {
                    &&& applied(v, req@.mv, SessionView { eval_cp: v.eval_cp, puzzle: v.puzzle, ..w })
                    &&& w.eval_cp == MATE
                    &&& w.puzzle == (match v.puzzle {
                        Some(pz) => Some(PuzzleState { solved: true, ..pz }),
                        None => None,
                    })
                    &&& r.accepted
                    &&& r.feedback@ == "漂亮！绝杀达成！"@
                    &&& r.solved
                    &&& r.reply is None
                } else {
                    &&& r.accepted
                    &&& r.feedback@ == "好棋！继续保持强制杀。"@
                    &&& !r.solved
                    &&& w.puzzle == v.puzzle
                    &&& match check@.defense {
                        Some(d) => r.reply matches Some(t) && t@ == iccs_text(d.from, d.to),
                        None => r.reply is None,
                    }
                    &&& exists|mid: SessionView| {
                        &&& applied(v, req@.mv, mid)
                        &&& if check@.defense matches Some(d) && has_legal_move(mid.board, d.from, d.to) {
                            applied(mid, check@.defense->Some_0, SessionView { eval_cp: v.eval_cp, ..w })
                        } else {
                            mid == SessionView { eval_cp: v.eval_cp, ..w }
                        }
                    }
                    &&& w.status == GameStatus::Playing ==> red_eval(w.board, w.eval_cp)
                    &&& w.status != GameStatus::Playing ==> w.eval_cp == v.eval_cp
                }
            }),
            snapshot_ok(final(self)@, r.snapshot),
    {
        proof {
            use_type_invariant(&*self);
            use_type_invariant(req);
            use_type_invariant(check);
        }
        let still = req.black_dead || check.still;
        if !still {
            if let Some(pz) = self.puzzle {
                self.puzzle = Some(PuzzleState { wrong_count: pz.wrong_count.wrapping_add(1), ..pz });
            }
            let mut feedback = String::from_str("走错啦！这步之后无法在 ");
            push_decimal(&mut feedback, req.mate_in as u128);
            push_str(&mut feedback, " 回合内成杀，再想想。");
            return PuzzleMoveResult {
                snapshot: self.snapshot(),
                accepted: false,
                feedback,
                solved: false,
                reply: None,
            };
        }
        let ghost v = self@;
        self.apply_move(req.mv);
        let ghost m0 = self@;
        proof {
            lemma_applied_frame(v, req@.mv, m0);
            use_type_invariant(&*self);
        }
        if req.black_dead {
            if let Some(pz) = self.puzzle {
                self.puzzle = Some(PuzzleState { solved: true, ..pz });
            }
            self.eval_cp = MATE;
            return PuzzleMoveResult {
                snapshot: self.snapshot(),
                accepted: true,
                feedback: String::from_str("漂亮！绝杀达成！"),
                solved: true,
                reply: None,
            };
        }
        let reply = match check.defense {
            Some(d) => Some(d.iccs()),
            None => None,
        };
        if let Some(d) = check.defense {
            if legal_from_to(&self.board, d.from, d.to) {
                self.apply_move(d);
                proof {
                    lemma_applied_frame(m0, d, self@);
                    use_type_invariant(&*self);
                }
            }
        }
        let ghost m1 = self@;
        if self.status == GameStatus::Playing {
            proof {
                use_type_invariant(&*self);
                lemma_piece_bits(self.board.side);
            }
            self.eval_cp = quick_eval_red(&self.board, 3);
        }
        assert(m1 == (SessionView { eval_cp: v.eval_cp, ..self@ }));
        PuzzleMoveResult {
            snapshot: self.snapshot(),
            accepted: true,
            feedback: String::from_str("好棋！继续保持强制杀。"),
            solved: false,
            reply,
        }
    }
}

/// A request for a puzzle hint: the position, the puzzle, the plies played and the
/// puzzle's hint text.
pub struct PuzzleHintRequest {
    board: Board,
    puzzle_id: u32,
    plies_done: usize,
    hint: String,
}

/// The contents of a puzzle hint request.
pub struct PuzzleHintRequestView {
    pub board: BoardView,
    pub puzzle_id: u32,
    pub plies_done: usize,
    pub hint: Seq<char>,
}

impl View for PuzzleHintRequest {
    type V = PuzzleHintRequestView;

    closed spec fn view(&self) -> PuzzleHintRequestView {
        PuzzleHintRequestView {
            board: self.board@,
            puzzle_id: self.puzzle_id,
            plies_done: self.plies_done,
            hint: self.hint@,
        }
    }
}

/// A puzzle hint: a move ("move", with its ICCS and notation) or only the hint text
/// ("text").
pub struct PuzzleHintResult {
    pub kind: String,
    pub iccs: Option<String>,
    pub notation: Option<String>,
    pub text: String,
}

/// Limits of the puzzle hint search.
pub open spec fn puzzle_hint_limits() -> SearchLimits {
    SearchLimits { max_depth: 6, max_time_ms: 1200, pool: 1, window: 0, pure: true }
}

/// `h` is the hint for request `req` when the search found `best`: the main line's
/// next move while it lasts (else the found move) with the found move's notation, or
/// the hint text alone when no move was found.
pub open spec fn puzzle_hint_ok(req: PuzzleHintRequestView, best: Option<Move>, h: PuzzleHintResult) -> bool {
    let p = puzzle_entry(req.puzzle_id)->Some_0;
    &&& h.text@ == req.hint
    &&& match best {
        Some(mv) => {
            &&& h.kind@ == "move"@
            &&& h.iccs matches Some(t) && t@ == (if req.plies_done < p.solution.len() {
                p.solution[req.plies_done as int]
            } else {
                iccs_text(mv.from, mv.to)
            })
            &&& h.notation matches Some(n) && n@ == move_notation_spec(req.board.squares, mv)
        },
        None => h.kind@ == "text"@ && h.iccs is None && h.notation is None,
    }
}

impl PuzzleHintRequest {
    #[verifier::type_invariant]
    spec fn valid(self) -> bool {
        &&& self.board@.wf()
        &&& (self.board.side == RED || self.board.side == BLACK)
        &&& puzzle_entry(self.puzzle_id) is Some
    }

    /// Searches the position (pure, 6 plies, 1.2 s) and gives the hint.
    pub fn answer(&self) -> (h: PuzzleHintResult)
        ensures
            exists|score: i32, best: Option<Move>|
                {
                    &&& search_found(self@.board, score, best)
                    &&& best matches Some(m) ==> can_settle(self@.board, puzzle_hint_limits(), m)
                    &&& searched_with(self@.board, puzzle_hint_limits(), score, best)
                    &&& puzzle_hint_ok(self@, best, h)
                },
    {
        proof {
            use_type_invariant(self);
            lemma_piece_bits(self.board.side);
        }
        let p = match puzzle_by_id(self.puzzle_id) {
            Some(p) => p,
            None => {
                return PuzzleHintResult { kind: String::new(), iccs: None, notation: None, text: String::new() };
            },
        };
        proof {
            assert(p.solution@.map_values(|m: &str| m@) == puzzle_entry(self.puzzle_id)->Some_0.solution);
        }
        let solution_next: Option<String> = if self.plies_done < p.solution.len() {
            proof {
                assert(p.solution@.map_values(|m: &str| m@)[self.plies_done as int] == p.solution@[self.plies_done as int]@);
            }
            Some(String::from_str(p.solution[self.plies_done]))
        } else {
            None
        };
        let limits = SearchLimits { max_depth: 6, max_time_ms: 1200, pool: 1, window: 0, pure: true };
        let mut s = Searcher::new();
        let (score, best) = search_position(&mut s, &self.board, limits);
        let h = match best {
            Some(mv) => {
                let iccs = match solution_next {
                    Some(t) => t,
                    None => mv.iccs(),
                };
                PuzzleHintResult {
                    kind: String::from_str("move"),
                    iccs: Some(iccs),
                    notation: Some(move_notation(&self.board, mv)),
                    text: self.hint.clone(),
                }
            },
            None => PuzzleHintResult {
                kind: String::from_str("text"),
                iccs: None,
                notation: None,
                text: self.hint.clone(),
            },
        };
        proof {
            assert(limits == puzzle_hint_limits());
            assert(search_found(self@.board, score, best));
            assert(puzzle_hint_ok(self@, best, h));
        }
        h
    }
}

impl Session {
    /// A request for a puzzle hint; refused outside a puzzle or for an unknown one.
    pub fn puzzle_hint_request(&self) -> (r: Result<PuzzleHintRequest, String>)
        ensures
            match self@.puzzle {
                None => refused(r, "当前不在解谜模式"@),
                Some(pz) => match puzzle_entry(pz.id) {
                    None => refused(r, "谜题不存在"@),
                    Some(p) => r matches Ok(req) && req@ == (PuzzleHintRequestView {
                        board: self@.board,
                        puzzle_id: pz.id,
                        plies_done: self@.records.len() as usize,
                        hint: p.hint,
                    }),
                },
            },
    {
        proof {
            use_type_invariant(self);
        }
        let pz = match self.puzzle {
            Some(pz) => pz,
            None => return Err(String::from_str("当前不在解谜模式")),
        };
        let p = match puzzle_by_id(pz.id) {
            Some(p) => p,
            None => return Err(String::from_str("谜题不存在")),
        };
        Ok(
            PuzzleHintRequest {
                board: self.board.duplicate(),
                puzzle_id: pz.id,
                plies_done: self.records.len(),
                hint: String::from_str(p.hint),
            },
        )
    }

    /// The game so far for a review: the starting FEN and, per move, its ICCS, notation,
    /// and whether it gave check or captured.
    pub fn review_input(&self) -> (r: (String, Vec<(String, String, bool, bool)>))
        ensures
            r.0@ == self@.start_fen,
            r.1@.len() == self@.records.len(),
            forall|i: int|
                0 <= i < r.1@.len() ==> {
                    let e = #[trigger] r.1@[i];
                    let rec = self@.records[i];
                    e.0@ == rec.iccs@ && e.1@ == rec.notation@ && e.2 == rec.check && e.3 == rec.capture
                },
    {
        let mut meta: Vec<(String, String, bool, bool)> = Vec::new();
        let mut i: usize = 0;
        while i < self.records.len()
            invariant
                0 <= i <= self.records@.len(),
                meta@.len() == i,
                forall|k: int|
                    0 <= k < i ==> {
                        let e = #[trigger] meta@[k];
                        let rec = self.records@[k];
                        e.0@ == rec.iccs@ && e.1@ == rec.notation@ && e.2 == rec.check && e.3 == rec.capture
                    },
            decreases self.records@.len() - i,
        {
            let rec = &self.records[i];
            meta.push((rec.iccs.clone(), rec.notation.clone(), rec.check, rec.capture));
            i += 1;
        }
        (self.start_fen.clone(), meta)
    }
}

} // verus!
