//! Game review: an engine evaluation of every move of a game, classified from best to
//! blunder, and the instant judgement of a single move.
use vstd::prelude::*;
use vstd::utf8::encode_utf8;

use crate::board::{
    iccs_parse, iccs_text, in_check_spec, lemma_iccs_parse_squares, lemma_piece_bits, play_line,
    spec_make, Board, BoardView, Move, RED,
};
use crate::fen::{fresh_board, lemma_parsed_board_wf, parse_fen};
use crate::movegen::{legal_moves_spec, lemma_legal_moves_ok, pseudo_ok};
use crate::notation::{move_notation, move_notation_spec};
use crate::search::{can_settle, score_cap, search_outcome, SearchLimits, Searcher, MATE};
use crate::text::text_eq;

verus! {

/// The review of one move.
#[derive(Clone, Debug)]
pub struct ReviewItem {
    pub ply: usize,
    pub iccs: String,
    pub notation: String,
    /// "red" or "black".
    pub color: String,
    /// Best score of the mover before the move (centipawns, mover's point of view).
    pub score_before: i32,
    /// Score of the mover after the move (mover's point of view).
    pub score_after: i32,
    /// score_before - score_after, at least 0 and at most MATE: the larger, the worse.
    pub loss: i32,
    /// The engine's best move (ICCS).
    pub best_iccs: Option<String>,
    pub best_notation: Option<String>,
    /// best / good / ok / inaccuracy / mistake / blunder.
    pub classification: String,
    pub is_check: bool,
    pub is_capture: bool,
}

/// Class of a move by its loss in centipawns; replies to a check get some leeway.
pub open spec fn classify_spec(loss: int, was_in_check: bool) -> Seq<char> {
    if loss <= 5 {
        "best"@
    } else if loss <= 25 {
        "good"@
    } else if loss <= 70 {
        if was_in_check {
            "good"@
        } else {
            "ok"@
        }
    } else if loss <= 160 {
        "inaccuracy"@
    } else if loss <= 380 {
        "mistake"@
    } else {
        "blunder"@
    }
}

/// Class of a move by its loss (centipawns).
pub fn classify(loss: i32, is_best: bool, was_in_check: bool) -> (r: &'static str)
    ensures
        r@ == classify_spec(loss as int, was_in_check),
{
    if loss <= 5 {
        if is_best {
            "best"
        } else {
            "best"
        }
    } else if loss <= 25 {
        "good"
    } else if loss <= 70 {
        if was_in_check {
            "good"  // a quiet reply to a check is judged more leniently
        } else {
            "ok"
        }
    } else if loss <= 160 {
        "inaccuracy"
    } else if loss <= 380 {
        "mistake"
    } else {
        "blunder"
    }
}

/// How bad a class is: best 0, good 1, ok 2, inaccuracy 3, mistake 4, blunder 5.
pub open spec fn class_rank(c: Seq<char>) -> int {
    if c == "best"@ {
        0
    } else if c == "good"@ {
        1
    } else if c == "ok"@ {
        2
    } else if c == "inaccuracy"@ {
        3
    } else if c == "mistake"@ {
        4
    } else {
        5
    }
}

/// A larger loss never earns a better class, and a reply to a check is never judged
/// more harshly than the same loss elsewhere.
pub proof fn lemma_classify_monotone(l1: int, l2: int, in_check: bool)
    requires
        l1 <= l2,
    ensures
        class_rank(classify_spec(l1, in_check)) <= class_rank(classify_spec(l2, in_check)),
        class_rank(classify_spec(l1, true)) <= class_rank(classify_spec(l1, false)),
{
    reveal_strlit("best");
    reveal_strlit("good");
    reveal_strlit("ok");
    reveal_strlit("inaccuracy");
    reveal_strlit("mistake");
    reveal_strlit("blunder");
    assert("good"@ != "best"@) by {
        assert("good"@[0] != "best"@[0]);
    }
    assert("blunder"@ != "mistake"@) by {
        assert("blunder"@[0] != "mistake"@[0]);
    }
    assert("best"@.len() == 4 && "good"@.len() == 4 && "ok"@.len() == 2 && "inaccuracy"@.len() == 10);
    assert("mistake"@.len() == 7 && "blunder"@.len() == 7);
    assert("ok"@ != "best"@ && "ok"@ != "good"@);
    assert("inaccuracy"@ != "best"@ && "inaccuracy"@ != "good"@ && "inaccuracy"@ != "ok"@);
    assert("mistake"@ != "best"@ && "mistake"@ != "good"@ && "mistake"@ != "ok"@ && "mistake"@ != "inaccuracy"@);
    assert("blunder"@ != "best"@ && "blunder"@ != "good"@ && "blunder"@ != "ok"@ && "blunder"@ != "inaccuracy"@);
}

/// The Chinese label of a class.
pub open spec fn classification_label_spec(c: Seq<char>) -> Seq<char> {
    if c == "best"@ {
        "最佳"@
    } else if c == "good"@ {
        "佳着"@
    } else if c == "ok"@ {
        "一般"@
    } else if c == "inaccuracy"@ {
        "欠准"@
    } else if c == "mistake"@ {
        "失误"@
    } else if c == "blunder"@ {
        "漏着"@
    } else {
        "—"@
    }
}

/// The Chinese label of a class.
pub fn classification_label(c: &str) -> (r: &'static str)
    ensures
        r@ == classification_label_spec(c@),
{
    if text_eq(c, "best") {
        "最佳"
    } else if text_eq(c, "good") {
        "佳着"
    } else if text_eq(c, "ok") {
        "一般"
    } else if text_eq(c, "inaccuracy") {
        "欠准"
    } else if text_eq(c, "mistake") {
        "失误"
    } else if text_eq(c, "blunder") {
        "漏着"
    } else {
        "—"
    }
}

/// The move written in an ICCS text, if it is one.
pub open spec fn iccs_move(t: Seq<char>) -> Option<Move> {
    iccs_parse(encode_utf8(t))
}

/// Every entry of a game record (ICCS, notation, gave check, captured) holds an ICCS move.
pub open spec fn record_parses(moves: Seq<(String, String, bool, bool)>) -> bool {
    forall|i: int| 0 <= i < moves.len() ==> (#[trigger] iccs_move(moves[i].0@)) is Some
}

/// The first `n` moves of a game record.
pub open spec fn record_line(moves: Seq<(String, String, bool, bool)>, n: int) -> Seq<Move> {
    Seq::new(n as nat, |i: int| iccs_move(moves[i].0@).unwrap())
}

/// The position a FEN text describes (when it parses).
pub open spec fn start_position(fen: Seq<char>) -> BoardView {
    fresh_board(parse_fen(fen)->Ok_0.0, parse_fen(fen)->Ok_0.1)
}

/// The position before move `i` of a game record played from `fen`.
pub open spec fn review_position(fen: Seq<char>, moves: Seq<(String, String, bool, bool)>, i: int) -> BoardView {
    play_line(start_position(fen), record_line(moves, i))
}

/// A loss clamped to 0..MATE.
pub open spec fn clamp_loss(x: int) -> int {
    if x < 0 {
        0
    } else if x > MATE {
        MATE as int
    } else {
        x
    }
}

/// The best move `best` of a position `v`, in ICCS and in notation (none for none).
pub open spec fn best_texts(v: BoardView, best: Option<Move>, iccs: Option<String>, notation: Option<String>) -> bool {
    match best {
        Some(m) => {
            &&& iccs matches Some(t) && t@ == iccs_text(m.from, m.to)
            &&& notation matches Some(n) && n@ == move_notation_spec(v.squares, m)
        },
        None => iccs is None && notation is None,
    }
}

/// `item` reviews the move `entry` (ICCS, notation, gave check, captured) played as move
/// `i` in position `v`, the engine scoring the position before it `before` and the one
/// after it `next` (each for its side to move) and finding `best` before it. The loss
/// is the score before the move less the score after it; the move is classed by that
/// loss clamped to 0..MATE, halved once either side of the move is close to being mated.
pub open spec fn review_item_ok(
    item: ReviewItem,
    i: int,
    v: BoardView,
    entry: (String, String, bool, bool),
    before: i32,
    next: i32,
    best: Option<Move>,
) -> bool {
    let after = -next;
    let loss = before - after;
    let judged = if before <= -(MATE - 300) || after <= -(MATE - 300) {
        clamp_loss(loss) / 2
    } else {
        clamp_loss(loss)
    };
    &&& item.ply == i
    &&& item.iccs@ == entry.0@
    &&& item.notation@ == entry.1@
    &&& item.color@ == (if v.side == RED {
        "red"@
    } else {
        "black"@
    })
    &&& item.score_before == before
    &&& item.score_after == after
    &&& item.loss == loss
    &&& best_texts(v, best, item.best_iccs, item.best_notation)
    &&& item.classification@ == classify_spec(judged, in_check_spec(v.squares, v.king_sq, v.side))
    &&& item.is_check == entry.2
    &&& item.is_capture == entry.3
}

/// `items` reviews the game record `moves` played from `fen`, given the engine's score
/// and best move in every position (the last one included).
pub open spec fn reviewed(
    fen: Seq<char>,
    moves: Seq<(String, String, bool, bool)>,
    scores: Seq<i32>,
    bests: Seq<Option<Move>>,
    items: Seq<ReviewItem>,
) -> bool {
    &&& items.len() == moves.len()
    &&& forall|i: int|
        0 <= i < moves.len() ==> review_item_ok(
            #[trigger] items[i],
            i,
            review_position(fen, moves, i),
            moves[i],
            scores[i],
            scores[i + 1],
            bests[i],
        )
}

/// Every score lies within the score cap.
pub open spec fn capped_scores(scores: Seq<i32>) -> bool {
    forall|i: int| 0 <= i < scores.len() ==> -score_cap() <= #[trigger] scores[i] <= score_cap()
}

/// Every best move names two squares of the board.
pub open spec fn bests_on_board(bests: Seq<Option<Move>>) -> bool {
    forall|i: int|
        0 <= i < bests.len() ==> (#[trigger] bests[i] matches Some(m) ==> (m.from < 90 && m.to < 90))
}

/// Plays move `i` of the game record on `b`, the position before it.
fn play_record_move(b: &mut Board, start_fen: &str, moves: &[(String, String, bool, bool)], i: usize)
    requires
        record_parses(moves@),
        i < moves@.len(),
        old(b)@ == review_position(start_fen@, moves@, i as int),
        old(b)@.wf(),
        old(b).side == RED || old(b).side == 8,
    ensures
        final(b)@ == review_position(start_fen@, moves@, i + 1),
        final(b)@.wf(),
        final(b).side == RED || final(b).side == 8,
{
    assert(iccs_move(moves@[i as int].0@) is Some);
    let mv = match Move::from_iccs(&moves[i].0) {
        Some(m) => m,
        None => return,
    };
    proof {
        lemma_iccs_parse_squares(encode_utf8(moves@[i as int].0@));
        crate::board::lemma_side_flip(b.side);
    }
    b.make_move(mv);
    proof {
        let line = record_line(moves@, i + 1);
        assert(line.drop_last() =~= record_line(moves@, i as int));
    }
}

/// Reviews the game record `moves` played from `start_fen`, given the engine's score
/// (for the side to move) and best move in each position, the final one included.
pub fn review_from_scores(
    start_fen: &str,
    moves: &[(String, String, bool, bool)],
    scores: &[i32],
    bests: &[Option<Move>],
) -> (items: Vec<ReviewItem>)
    requires
        parse_fen(start_fen@) is Ok,
        record_parses(moves@),
        scores@.len() == moves@.len() + 1,
        bests@.len() == moves@.len() + 1,
        capped_scores(scores@),
        bests_on_board(bests@),
    ensures
        reviewed(start_fen@, moves@, scores@, bests@, items@),
{
    let mut items: Vec<ReviewItem> = Vec::new();
    let n = moves.len();
    let mut b = match Board::from_fen(start_fen) {
        Ok(b) => b,
        Err(_) => return items,
    };
    proof {
        lemma_parsed_board_wf(start_fen@);
        assert(record_line(moves@, 0) =~= Seq::<Move>::empty());
    }
    let ghost fen = start_fen@;
    let mut i: usize = 0;
    while i < n
        invariant
            0 <= i <= n,
            n == moves@.len(),
            fen == start_fen@,
            record_parses(moves@),
            scores@.len() == n + 1,
            bests@.len() == n + 1,
            capped_scores(scores@),
            bests_on_board(bests@),
            b@ == review_position(fen, moves@, i as int),
            b@.wf(),
            b.side == RED || b.side == 8,
            items@.len() == i,
            forall|k: int|
                0 <= k < i ==> review_item_ok(
                    #[trigger] items@[k],
                    k,
                    review_position(fen, moves@, k),
                    moves@[k],
                    scores@[k],
                    scores@[k + 1],
                    bests@[k],
                ),
        decreases n - i,
    {
        proof {
            lemma_piece_bits(b.side);
        }
        assert(iccs_move(moves@[i as int].0@) is Some);
        let mv = match Move::from_iccs(&moves[i].0) {
            Some(m) => m,
            None => return items,
        };
        let mover = b.side;
        let was_in_check = b.in_check(mover);
        let score_before = scores[i];
        let score_after = -scores[i + 1];
        let best = bests[i];
        assert(bests@[i as int] matches Some(m) ==> m.from < 90 && m.to < 90);
        let is_best = match best {
            Some(bb) => bb.from == mv.from && bb.to == mv.to,
            None => true,
        };
        let loss = score_before - score_after;
        let clamped: i32 = if loss < 0 {
            0
        } else if loss > MATE {
            MATE
        } else {
            loss
        };
        let (best_iccs, best_notation) = match best {
            Some(bb) => (Some(bb.iccs()), Some(move_notation(&b, bb))),
            None => (None, None),
        };
        let classification = if score_before <= -(MATE - 300) || score_after <= -(MATE - 300) {
            classify(clamped / 2, is_best, was_in_check)
        } else {
            classify(clamped, is_best, was_in_check)
        };
        let color = if mover == RED {
            String::from_str("red")
        } else {
            String::from_str("black")
        };
        let item = ReviewItem {
            ply: i,
            iccs: moves[i].0.clone(),
            notation: moves[i].1.clone(),
            color,
            score_before,
            score_after,
            loss,
            best_iccs,
            best_notation,
            classification: String::from_str(classification),
            is_check: moves[i].2,
            is_capture: moves[i].3,
        };
        assert(review_item_ok(item, i as int, b@, moves@[i as int], scores@[i as int], scores@[i + 1], bests@[i as int]));
        items.push(item);
        play_record_move(&mut b, start_fen, moves, i);
        assert(items@[i as int] == item);
        i += 1;
    }
    items
}

/// What a search of position `v` reports, whatever its clock did: a capped score, and a
/// legal best move, or none and a mated score when there is no legal move.
pub open spec fn search_found(v: BoardView, score: i32, best: Option<Move>) -> bool {
    &&& -score_cap() <= score <= score_cap()
    &&& match best {
        Some(m) => legal_moves_spec(v).contains(m),
        None => legal_moves_spec(v).len() == 0 && score == -MATE,
    }
}

/// `score` and `best` are what a search of `v` within `limits` can report.
pub open spec fn searched_with(v: BoardView, limits: SearchLimits, score: i32, best: Option<Move>) -> bool {
    best matches Some(m) ==> exists|roots: Seq<(Move, i32)>, depth: u8| search_outcome(v, limits, m, score, roots, depth)
}

/// The limits of the searches of a review or of a move judgement: a single best move to
/// `depth` plies within `time_ms`, with null-move pruning.
pub open spec fn judging_limits(depth: u8, time_ms: u64) -> SearchLimits {
    SearchLimits { max_depth: depth, max_time_ms: time_ms, pool: 1, window: 0, pure: false }
}

/// Searches `b` with a single best move, returning its score and best move.
pub(crate) fn search_position(searcher: &mut Searcher, b: &Board, limits: SearchLimits) -> (r: (i32, Option<Move>))
    requires
        old(searcher).inv(),
        b@.wf(),
        b.side < 16,
        limits.pool == 1,
    ensures
        final(searcher).inv(),
        search_found(b@, r.0, r.1),
        r.1 matches Some(m) ==> (m.from < 90 && m.to < 90) && can_settle(b@, limits, m),
        searched_with(b@, limits, r.0, r.1),
{
    let r = searcher.search(b, limits);
    proof {
        lemma_legal_moves_ok(b@);
        if let Some(m) = r.best {
            crate::search::lemma_can_settle(b@, limits, m, r.score, r.root_scores@, r.depth_reached);
            let t = choose|t: int| 0 <= t < legal_moves_spec(b@).len() && legal_moves_spec(b@)[t] == m;
            assert(pseudo_ok(b@.squares, b@.side, legal_moves_spec(b@)[t]));
            assert(r.root_scores@.len() >= 1);
            assert((m, r.score) == r.root_scores@[0]);
        }
    }
    (r.score, r.best)
}

/// Reviews a whole game: searches every position (the final one included) to `depth`
/// plies within `time_ms` each, reporting progress as (done, total), then reviews each
/// move against the engine's best.
pub fn review_game(
    start_fen: &str,
    moves: &[(String, String, bool, bool)],
    depth: u8,
    time_ms: u64,
    progress: impl Fn(usize, usize),
) -> (items: Vec<ReviewItem>)
    requires
        parse_fen(start_fen@) is Ok,
        record_parses(moves@),
        moves@.len() < usize::MAX,
        forall|d: usize, t: usize| call_requires(progress, (d, t)),
    ensures
        moves@.len() == 0 ==> items@.len() == 0,
        moves@.len() > 0 ==> exists|scores: Seq<i32>, bests: Seq<Option<Move>>|
            {
                &&& scores.len() == moves@.len() + 1
                &&& bests.len() == moves@.len() + 1
                &&& forall|i: int|
                    0 <= i <= moves@.len() ==> search_found(
                        review_position(start_fen@, moves@, i),
                        #[trigger] scores[i],
                        bests[i],
                    ) && searched_with(review_position(start_fen@, moves@, i), judging_limits(depth, time_ms), scores[i], bests[i])
                &&& reviewed(start_fen@, moves@, scores, bests, items@)
            },
{
    let n = moves.len();
    if n == 0 {
        return Vec::new();
    }
    let mut searcher = Searcher::new();
    let mut scores: Vec<i32> = Vec::new();
    let mut bests: Vec<Option<Move>> = Vec::new();
    let mut b = match Board::from_fen(start_fen) {
        Ok(b) => b,
        Err(_) => return Vec::new(),
    };
    proof {
        lemma_parsed_board_wf(start_fen@);
        assert(record_line(moves@, 0) =~= Seq::<Move>::empty());
    }
    let ghost fen = start_fen@;
    let limits = SearchLimits { max_depth: depth, max_time_ms: time_ms, pool: 1, window: 0, pure: false };
    let mut i: usize = 0;
    while i <= n
        invariant
            0 <= i <= n + 1,
            n == moves@.len(),
            n < usize::MAX,
            fen == start_fen@,
            record_parses(moves@),
            limits.pool == 1,
            searcher.inv(),
            forall|d: usize, t: usize| call_requires(progress, (d, t)),
            i <= n ==> b@ == review_position(fen, moves@, i as int),
            b@.wf(),
            b.side == RED || b.side == 8,
            scores@.len() == i,
            bests@.len() == i,
            forall|k: int|
                0 <= k < i ==> search_found(review_position(fen, moves@, k), #[trigger] scores@[k], bests@[k])
                    && searched_with(review_position(fen, moves@, k), limits, scores@[k], bests@[k]),
            limits == judging_limits(depth, time_ms),
            bests_on_board(bests@),
        decreases n + 1 - i,
    {
        proof {
            lemma_piece_bits(b.side);
        }
        let (score, best) = search_position(&mut searcher, &b, limits);
        scores.push(score);
        bests.push(best);
        if i < n {
            play_record_move(&mut b, start_fen, moves, i);
        }
        progress(i + 1, n + 1);
        i += 1;
    }
    proof {
        assert forall|k: int| 0 <= k < scores@.len() implies -score_cap() <= #[trigger] scores@[k] <= score_cap() by {
            assert(search_found(review_position(fen, moves@, k), scores@[k], bests@[k]));
        }
    }
    review_from_scores(start_fen, moves, scores.as_slice(), bests.as_slice())
}

/// The instant judgement of one move.
pub struct MoveFeedback {
    pub classification: String,
    pub loss: i32,
    pub best_iccs: Option<String>,
    pub best_notation: Option<String>,
}

/// `f` judges a move in position `v`, the engine scoring `v` `score_before` with best
/// move `best`, and the position after the move `reply_score` for the opponent.
pub open spec fn feedback_ok(v: BoardView, score_before: i32, best: Option<Move>, reply_score: i32, f: MoveFeedback) -> bool {
    let d = score_before + reply_score;
    let loss = if d < 0 {
        0
    } else {
        d
    };
    &&& f.loss == loss
    &&& f.classification@ == classify_spec(loss, in_check_spec(v.squares, v.king_sq, v.side))
    &&& best_texts(v, best, f.best_iccs, f.best_notation)
}

/// Judges move `played` of board `b` given the engine's score and best move before it
/// and its score of the reply position (for the opponent).
pub fn feedback_from_scores(b: &Board, played: Move, score_before: i32, best: Option<Move>, reply_score: i32) -> (f: MoveFeedback)
    requires
        b@.wf(),
        b.side < 16,
        -score_cap() <= score_before <= score_cap(),
        -score_cap() <= reply_score <= score_cap(),
        best matches Some(m) ==> (m.from < 90 && m.to < 90),
    ensures
        feedback_ok(b@, score_before, best, reply_score, f),
{
    let score_after = -reply_score;
    let is_best = match best {
        Some(bb) => bb.from == played.from && bb.to == played.to,
        None => true,
    };
    let d = score_before - score_after;
    let loss = if d < 0 {
        0
    } else {
        d
    };
    let classification = classify(loss, is_best, b.in_check(b.side));
    let (best_iccs, best_notation) = match best {
        Some(m) => (Some(m.iccs()), Some(move_notation(b, m))),
        None => (None, None),
    };
    MoveFeedback { classification: String::from_str(classification), loss, best_iccs, best_notation }
}

/// Judges move `played` of board `b` (for in-game feedback): searches the position before
/// and after it to `depth` plies within `time_ms` each.
pub fn judge_move(start_board: &Board, played: Move, depth: u8, time_ms: u64) -> (f: MoveFeedback)
    requires
        start_board@.wf(),
        start_board.side < 16,
        played.from < 90,
        played.to < 90,
    ensures
        exists|score_before: i32, best: Option<Move>, reply_score: i32, reply: Option<Move>|
            {
                &&& search_found(start_board@, score_before, best)
                &&& searched_with(start_board@, judging_limits(depth, time_ms), score_before, best)
                &&& search_found(spec_make(start_board@, played.from as int, played.to as int), reply_score, reply)
                &&& searched_with(
                    spec_make(start_board@, played.from as int, played.to as int),
                    judging_limits(depth, time_ms),
                    reply_score,
                    reply,
                )
                &&& feedback_ok(start_board@, score_before, best, reply_score, f)
            },
{
    let mut s = Searcher::new();
    let limits = SearchLimits { max_depth: depth, max_time_ms: time_ms, pool: 1, window: 0, pure: false };
    let (score_before, best) = search_position(&mut s, start_board, limits);
    let mut after = start_board.duplicate();
    after.make_move(played);
    proof {
        lemma_piece_bits(start_board.side);
    }
    let (reply_score, reply) = search_position(&mut s, &after, limits);
    feedback_from_scores(start_board, played, score_before, best, reply_score)
}

} // verus!
