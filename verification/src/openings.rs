//! A small opening book: names openings from ICCS move sequences and offers book
//! replies to the engine.
use vstd::prelude::*;

use crate::text::text_eq;

verus! {

pub struct OpeningLine {
    pub moves: Vec<&'static str>,
    pub name: &'static str,
}

/// The book: each line's ICCS moves and the opening's name.
pub open spec fn opening_table() -> Seq<(Seq<Seq<char>>, Seq<char>)> {
    seq![
        (seq!["h2e2"@], "中炮局"@),
        (seq!["b2e2"@], "中炮局"@),
        (seq!["h2e2"@, "h7e7"@], "顺手炮"@),
        (seq!["h2e2"@, "b7e7"@], "列手炮"@),
        (seq!["h2e2"@, "h9g7"@], "中炮对屏风马"@),
        (seq!["h2e2"@, "b9c7"@], "中炮对进右马"@),
        (seq!["h2e2"@, "h9g7"@, "h0g2"@], "中炮对屏风马"@),
        (seq!["h2e2"@, "h9g7"@, "h0g2"@, "b9c7"@], "中炮直车对屏风马"@),
        (seq!["h2e2"@, "h9g7"@, "h0g2"@, "i0h0"@], "中炮直车对屏风马"@),
        (seq!["h2e2"@, "h9g7"@, "h0g2"@, "b9c7"@, "i0h0"@], "中炮直车对屏风马"@),
        (seq!["h2e2"@, "h9g7"@, "c3c4"@], "中炮七兵对屏风马"@),
        (seq!["h2e2"@, "h9g7"@, "h0h1"@], "中炮横车对屏风马"@),
        (seq!["h2e2"@, "h9g7"@, "i0h0"@, "i9h9"@], "中炮直车对屏风马"@),
        (seq!["h2e2"@, "b7e7"@, "h0g2"@], "列炮对屏风马"@),
        (seq!["g0e2"@], "飞相局"@),
        (seq!["c0e2"@], "飞相局"@),
        (seq!["g0e2"@, "c6c5"@], "飞相局对卒底炮"@),
        (seq!["g0e2"@, "b7c7"@], "飞相局对过宫炮"@),
        (seq!["g0e2"@, "h7e7"@], "飞相局对中炮"@),
        (seq!["h0g2"@], "起马局"@),
        (seq!["b0c2"@], "起马局"@),
        (seq!["h0g2"@, "c6c5"@], "起马局对卒底炮"@),
        (seq!["h0g2"@, "b7c7"@], "起马局对过宫炮"@),
        (seq!["c3c4"@], "仙人指路"@),
        (seq!["g3g4"@], "仙人指路"@),
        (seq!["c3c4"@, "c6c5"@], "对兵局"@),
        (seq!["c3c4"@, "b7c7"@], "仙人指路对卒底炮"@),
        (seq!["c3c4"@, "h7e7"@], "仙人指路对中炮"@),
        (seq!["c3c4"@, "h9g7"@], "仙人指路对兵马局"@),
        (seq!["c3c4"@, "b2e2"@], "卒底炮对中炮"@),
        (seq!["h2f2"@], "士角炮"@),
        (seq!["b2f2"@], "士角炮"@),
        (seq!["h2d2"@], "过宫炮"@),
        (seq!["b2d2"@], "过宫炮"@),
        (seq!["h2d2"@, "h9g7"@], "过宫炮对屏风马"@),
        (seq!["h2d2"@, "c6c5"@], "过宫炮对卒底炮"@),
        (seq!["e3e4"@], "中兵局"@),
    ]
}

/// The moves and name of a book line.
pub open spec fn line_view(l: OpeningLine) -> (Seq<Seq<char>>, Seq<char>) {
    (l.moves@.map_values(|m: &str| m@), l.name@)
}

/// The book lines.
pub fn opening_lines() -> (r: Vec<OpeningLine>)
    ensures
        r@.map_values(|l: OpeningLine| line_view(l)) == opening_table(),
{
    let r = vec![
        OpeningLine { moves: vec!["h2e2"], name: "中炮局" },
        OpeningLine { moves: vec!["b2e2"], name: "中炮局" },
        OpeningLine { moves: vec!["h2e2", "h7e7"], name: "顺手炮" },
        OpeningLine { moves: vec!["h2e2", "b7e7"], name: "列手炮" },
        OpeningLine { moves: vec!["h2e2", "h9g7"], name: "中炮对屏风马" },
        OpeningLine { moves: vec!["h2e2", "b9c7"], name: "中炮对进右马" },
        OpeningLine { moves: vec!["h2e2", "h9g7", "h0g2"], name: "中炮对屏风马" },
        OpeningLine { moves: vec!["h2e2", "h9g7", "h0g2", "b9c7"], name: "中炮直车对屏风马" },
        OpeningLine { moves: vec!["h2e2", "h9g7", "h0g2", "i0h0"], name: "中炮直车对屏风马" },
        OpeningLine { moves: vec!["h2e2", "h9g7", "h0g2", "b9c7", "i0h0"], name: "中炮直车对屏风马" },
        OpeningLine { moves: vec!["h2e2", "h9g7", "c3c4"], name: "中炮七兵对屏风马" },
        OpeningLine { moves: vec!["h2e2", "h9g7", "h0h1"], name: "中炮横车对屏风马" },
        OpeningLine { moves: vec!["h2e2", "h9g7", "i0h0", "i9h9"], name: "中炮直车对屏风马" },
        OpeningLine { moves: vec!["h2e2", "b7e7", "h0g2"], name: "列炮对屏风马" },
        OpeningLine { moves: vec!["g0e2"], name: "飞相局" },
        OpeningLine { moves: vec!["c0e2"], name: "飞相局" },
        OpeningLine { moves: vec!["g0e2", "c6c5"], name: "飞相局对卒底炮" },
        OpeningLine { moves: vec!["g0e2", "b7c7"], name: "飞相局对过宫炮" },
        OpeningLine { moves: vec!["g0e2", "h7e7"], name: "飞相局对中炮" },
        OpeningLine { moves: vec!["h0g2"], name: "起马局" },
        OpeningLine { moves: vec!["b0c2"], name: "起马局" },
        OpeningLine { moves: vec!["h0g2", "c6c5"], name: "起马局对卒底炮" },
        OpeningLine { moves: vec!["h0g2", "b7c7"], name: "起马局对过宫炮" },
        OpeningLine { moves: vec!["c3c4"], name: "仙人指路" },
        OpeningLine { moves: vec!["g3g4"], name: "仙人指路" },
        OpeningLine { moves: vec!["c3c4", "c6c5"], name: "对兵局" },
        OpeningLine { moves: vec!["c3c4", "b7c7"], name: "仙人指路对卒底炮" },
        OpeningLine { moves: vec!["c3c4", "h7e7"], name: "仙人指路对中炮" },
        OpeningLine { moves: vec!["c3c4", "h9g7"], name: "仙人指路对兵马局" },
        OpeningLine { moves: vec!["c3c4", "b2e2"], name: "卒底炮对中炮" },
        OpeningLine { moves: vec!["h2f2"], name: "士角炮" },
        OpeningLine { moves: vec!["b2f2"], name: "士角炮" },
        OpeningLine { moves: vec!["h2d2"], name: "过宫炮" },
        OpeningLine { moves: vec!["b2d2"], name: "过宫炮" },
        OpeningLine { moves: vec!["h2d2", "h9g7"], name: "过宫炮对屏风马" },
        OpeningLine { moves: vec!["h2d2", "c6c5"], name: "过宫炮对卒底炮" },
        OpeningLine { moves: vec!["e3e4"], name: "中兵局" },
    ];
    assert forall|i: int| 0 <= i < r@.len() implies #[trigger] line_view(r@[i]) == opening_table()[i] by {
        assert(r@[i].moves@.map_values(|m: &str| m@) =~= opening_table()[i].0);
    }
    assert(r@.map_values(|l: OpeningLine| line_view(l)) =~= opening_table());
    r
}

/// The start of `moves` is the book line `line`.
pub open spec fn line_matches(line: Seq<Seq<char>>, moves: Seq<Seq<char>>) -> bool {
    line.len() <= moves.len() && forall|i: int| 0 <= i < line.len() ==> line[i] == moves[i]
}

/// Longest book line (the first among equals) matched by `moves` among the first `n`
/// lines, with its length.
pub open spec fn identify_upto(t: Seq<(Seq<Seq<char>>, Seq<char>)>, moves: Seq<Seq<char>>, n: nat) -> Option<
    (nat, Seq<char>),
>
    decreases n,
{
    if n == 0 {
        None
    } else {
        let prev = identify_upto(t, moves, (n - 1) as nat);
        let line = t[n - 1];
        if line_matches(line.0, moves) && !(prev is Some && prev.unwrap().0 >= line.0.len()) {
            Some((line.0.len(), line.1))
        } else {
            prev
        }
    }
}

/// Name of the opening of a move sequence: the longest matching book line.
pub open spec fn identify_spec(moves: Seq<Seq<char>>) -> Option<Seq<char>> {
    match identify_upto(opening_table(), moves, opening_table().len()) {
        Some((_, name)) => Some(name),
        None => None,
    }
}

/// The next book moves after `moves` among the first `n` lines, each once, in the
/// order the book first gives them.
pub open spec fn replies_upto(t: Seq<(Seq<Seq<char>>, Seq<char>)>, moves: Seq<Seq<char>>, n: nat) -> Seq<
    Seq<char>,
>
    decreases n,
{
    if n == 0 {
        Seq::empty()
    } else {
        let r = replies_upto(t, moves, (n - 1) as nat);
        let line = t[n - 1].0;
        if line.len() > moves.len() && (forall|i: int| 0 <= i < moves.len() ==> line[i] == moves[i])
            && !r.contains(line[moves.len() as int]) {
            r.push(line[moves.len() as int])
        } else {
            r
        }
    }
}

/// Book replies to a move sequence.
pub open spec fn book_replies_spec(moves: Seq<Seq<char>>) -> Seq<Seq<char>> {
    replies_upto(opening_table(), moves, opening_table().len())
}

/// Central Cannon answered by a cannon on the same side is 顺手炮.
pub proof fn lemma_same_side_cannons()
    ensures
        identify_spec(seq!["h2e2"@, "h7e7"@]) == Some("顺手炮"@),
{
    reveal_strlit("b0c2");
    reveal_strlit("b2d2");
    reveal_strlit("b2e2");
    reveal_strlit("b2f2");
    reveal_strlit("b7c7");
    reveal_strlit("b7e7");
    reveal_strlit("b9c7");
    reveal_strlit("c0e2");
    reveal_strlit("c3c4");
    reveal_strlit("c6c5");
    reveal_strlit("e3e4");
    reveal_strlit("g0e2");
    reveal_strlit("g3g4");
    reveal_strlit("h0g2");
    reveal_strlit("h0h1");
    reveal_strlit("h2d2");
    reveal_strlit("h2e2");
    reveal_strlit("h2f2");
    reveal_strlit("h7e7");
    reveal_strlit("h9g7");
    reveal_strlit("i0h0");
    reveal_strlit("i9h9");
    let t = opening_table();
    let m = seq!["h2e2"@, "h7e7"@];
    assert(identify_upto(t, m, 0) is None);
    assert(identify_upto(t, m, 1) == Some((1nat, "中炮局"@)));
    assert("b2e2"@[0] != "h2e2"@[0]);
    assert(identify_upto(t, m, 2) == Some((1nat, "中炮局"@)));
    assert(identify_upto(t, m, 3) == Some((2nat, "顺手炮"@)));
    assert("b7e7"@[0] != "h7e7"@[0]);
    assert(identify_upto(t, m, 4) == Some((2nat, "顺手炮"@)));
    assert("h9g7"@[1] != "h7e7"@[1]);
    assert(identify_upto(t, m, 5) == Some((2nat, "顺手炮"@)));
    assert("b9c7"@[0] != "h7e7"@[0]);
    assert(identify_upto(t, m, 6) == Some((2nat, "顺手炮"@)));
    assert(identify_upto(t, m, 7) == Some((2nat, "顺手炮"@)));
    assert(identify_upto(t, m, 8) == Some((2nat, "顺手炮"@)));
    assert(identify_upto(t, m, 9) == Some((2nat, "顺手炮"@)));
    assert(identify_upto(t, m, 10) == Some((2nat, "顺手炮"@)));
    assert(identify_upto(t, m, 11) == Some((2nat, "顺手炮"@)));
    assert(identify_upto(t, m, 12) == Some((2nat, "顺手炮"@)));
    assert(identify_upto(t, m, 13) == Some((2nat, "顺手炮"@)));
    assert(identify_upto(t, m, 14) == Some((2nat, "顺手炮"@)));
    assert("g0e2"@[0] != "h2e2"@[0]);
    assert(identify_upto(t, m, 15) == Some((2nat, "顺手炮"@)));
    assert("c0e2"@[0] != "h2e2"@[0]);
    assert(identify_upto(t, m, 16) == Some((2nat, "顺手炮"@)));
    assert("g0e2"@[0] != "h2e2"@[0]);
    assert(identify_upto(t, m, 17) == Some((2nat, "顺手炮"@)));
    assert("g0e2"@[0] != "h2e2"@[0]);
    assert(identify_upto(t, m, 18) == Some((2nat, "顺手炮"@)));
    assert("g0e2"@[0] != "h2e2"@[0]);
    assert(identify_upto(t, m, 19) == Some((2nat, "顺手炮"@)));
    assert("h0g2"@[1] != "h2e2"@[1]);
    assert(identify_upto(t, m, 20) == Some((2nat, "顺手炮"@)));
    assert("b0c2"@[0] != "h2e2"@[0]);
    assert(identify_upto(t, m, 21) == Some((2nat, "顺手炮"@)));
    assert("h0g2"@[1] != "h2e2"@[1]);
    assert(identify_upto(t, m, 22) == Some((2nat, "顺手炮"@)));
    assert("h0g2"@[1] != "h2e2"@[1]);
    assert(identify_upto(t, m, 23) == Some((2nat, "顺手炮"@)));
    assert("c3c4"@[0] != "h2e2"@[0]);
    assert(identify_upto(t, m, 24) == Some((2nat, "顺手炮"@)));
    assert("g3g4"@[0] != "h2e2"@[0]);
    assert(identify_upto(t, m, 25) == Some((2nat, "顺手炮"@)));
    assert("c3c4"@[0] != "h2e2"@[0]);
    assert(identify_upto(t, m, 26) == Some((2nat, "顺手炮"@)));
    assert("c3c4"@[0] != "h2e2"@[0]);
    assert(identify_upto(t, m, 27) == Some((2nat, "顺手炮"@)));
    assert("c3c4"@[0] != "h2e2"@[0]);
    assert(identify_upto(t, m, 28) == Some((2nat, "顺手炮"@)));
    assert("c3c4"@[0] != "h2e2"@[0]);
    assert(identify_upto(t, m, 29) == Some((2nat, "顺手炮"@)));
    assert("c3c4"@[0] != "h2e2"@[0]);
    assert(identify_upto(t, m, 30) == Some((2nat, "顺手炮"@)));
    assert("h2f2"@[2] != "h2e2"@[2]);
    assert(identify_upto(t, m, 31) == Some((2nat, "顺手炮"@)));
    assert("b2f2"@[0] != "h2e2"@[0]);
    assert(identify_upto(t, m, 32) == Some((2nat, "顺手炮"@)));
    assert("h2d2"@[2] != "h2e2"@[2]);
    assert(identify_upto(t, m, 33) == Some((2nat, "顺手炮"@)));
    assert("b2d2"@[0] != "h2e2"@[0]);
    assert(identify_upto(t, m, 34) == Some((2nat, "顺手炮"@)));
    assert("h2d2"@[2] != "h2e2"@[2]);
    assert(identify_upto(t, m, 35) == Some((2nat, "顺手炮"@)));
    assert("h2d2"@[2] != "h2e2"@[2]);
    assert(identify_upto(t, m, 36) == Some((2nat, "顺手炮"@)));
    assert("e3e4"@[0] != "h2e2"@[0]);
    assert(identify_upto(t, m, 37) == Some((2nat, "顺手炮"@)));
}

/// Central Cannon answered by a cannon on the other side is 列手炮.
pub proof fn lemma_opposite_cannons()
    ensures
        identify_spec(seq!["h2e2"@, "b7e7"@]) == Some("列手炮"@),
{
    reveal_strlit("b0c2");
    reveal_strlit("b2d2");
    reveal_strlit("b2e2");
    reveal_strlit("b2f2");
    reveal_strlit("b7c7");
    reveal_strlit("b7e7");
    reveal_strlit("b9c7");
    reveal_strlit("c0e2");
    reveal_strlit("c3c4");
    reveal_strlit("c6c5");
    reveal_strlit("e3e4");
    reveal_strlit("g0e2");
    reveal_strlit("g3g4");
    reveal_strlit("h0g2");
    reveal_strlit("h0h1");
    reveal_strlit("h2d2");
    reveal_strlit("h2e2");
    reveal_strlit("h2f2");
    reveal_strlit("h7e7");
    reveal_strlit("h9g7");
    reveal_strlit("i0h0");
    reveal_strlit("i9h9");
    let t = opening_table();
    let m = seq!["h2e2"@, "b7e7"@];
    assert(identify_upto(t, m, 0) is None);
    assert(identify_upto(t, m, 1) == Some((1nat, "中炮局"@)));
    assert("b2e2"@[0] != "h2e2"@[0]);
    assert(identify_upto(t, m, 2) == Some((1nat, "中炮局"@)));
    assert("h7e7"@[0] != "b7e7"@[0]);
    assert(identify_upto(t, m, 3) == Some((1nat, "中炮局"@)));
    assert(identify_upto(t, m, 4) == Some((2nat, "列手炮"@)));
    assert("h9g7"@[0] != "b7e7"@[0]);
    assert(identify_upto(t, m, 5) == Some((2nat, "列手炮"@)));
    assert("b9c7"@[1] != "b7e7"@[1]);
    assert(identify_upto(t, m, 6) == Some((2nat, "列手炮"@)));
    assert(identify_upto(t, m, 7) == Some((2nat, "列手炮"@)));
    assert(identify_upto(t, m, 8) == Some((2nat, "列手炮"@)));
    assert(identify_upto(t, m, 9) == Some((2nat, "列手炮"@)));
    assert(identify_upto(t, m, 10) == Some((2nat, "列手炮"@)));
    assert(identify_upto(t, m, 11) == Some((2nat, "列手炮"@)));
    assert(identify_upto(t, m, 12) == Some((2nat, "列手炮"@)));
    assert(identify_upto(t, m, 13) == Some((2nat, "列手炮"@)));
    assert(identify_upto(t, m, 14) == Some((2nat, "列手炮"@)));
    assert("g0e2"@[0] != "h2e2"@[0]);
    assert(identify_upto(t, m, 15) == Some((2nat, "列手炮"@)));
    assert("c0e2"@[0] != "h2e2"@[0]);
    assert(identify_upto(t, m, 16) == Some((2nat, "列手炮"@)));
    assert("g0e2"@[0] != "h2e2"@[0]);
    assert(identify_upto(t, m, 17) == Some((2nat, "列手炮"@)));
    assert("g0e2"@[0] != "h2e2"@[0]);
    assert(identify_upto(t, m, 18) == Some((2nat, "列手炮"@)));
    assert("g0e2"@[0] != "h2e2"@[0]);
    assert(identify_upto(t, m, 19) == Some((2nat, "列手炮"@)));
    assert("h0g2"@[1] != "h2e2"@[1]);
    assert(identify_upto(t, m, 20) == Some((2nat, "列手炮"@)));
    assert("b0c2"@[0] != "h2e2"@[0]);
    assert(identify_upto(t, m, 21) == Some((2nat, "列手炮"@)));
    assert("h0g2"@[1] != "h2e2"@[1]);
    assert(identify_upto(t, m, 22) == Some((2nat, "列手炮"@)));
    assert("h0g2"@[1] != "h2e2"@[1]);
    assert(identify_upto(t, m, 23) == Some((2nat, "列手炮"@)));
    assert("c3c4"@[0] != "h2e2"@[0]);
    assert(identify_upto(t, m, 24) == Some((2nat, "列手炮"@)));
    assert("g3g4"@[0] != "h2e2"@[0]);
    assert(identify_upto(t, m, 25) == Some((2nat, "列手炮"@)));
    assert("c3c4"@[0] != "h2e2"@[0]);
    assert(identify_upto(t, m, 26) == Some((2nat, "列手炮"@)));
    assert("c3c4"@[0] != "h2e2"@[0]);
    assert(identify_upto(t, m, 27) == Some((2nat, "列手炮"@)));
    assert("c3c4"@[0] != "h2e2"@[0]);
    assert(identify_upto(t, m, 28) == Some((2nat, "列手炮"@)));
    assert("c3c4"@[0] != "h2e2"@[0]);
    assert(identify_upto(t, m, 29) == Some((2nat, "列手炮"@)));
    assert("c3c4"@[0] != "h2e2"@[0]);
    assert(identify_upto(t, m, 30) == Some((2nat, "列手炮"@)));
    assert("h2f2"@[2] != "h2e2"@[2]);
    assert(identify_upto(t, m, 31) == Some((2nat, "列手炮"@)));
    assert("b2f2"@[0] != "h2e2"@[0]);
    assert(identify_upto(t, m, 32) == Some((2nat, "列手炮"@)));
    assert("h2d2"@[2] != "h2e2"@[2]);
    assert(identify_upto(t, m, 33) == Some((2nat, "列手炮"@)));
    assert("b2d2"@[0] != "h2e2"@[0]);
    assert(identify_upto(t, m, 34) == Some((2nat, "列手炮"@)));
    assert("h2d2"@[2] != "h2e2"@[2]);
    assert(identify_upto(t, m, 35) == Some((2nat, "列手炮"@)));
    assert("h2d2"@[2] != "h2e2"@[2]);
    assert(identify_upto(t, m, 36) == Some((2nat, "列手炮"@)));
    assert("e3e4"@[0] != "h2e2"@[0]);
    assert(identify_upto(t, m, 37) == Some((2nat, "列手炮"@)));
}

proof fn lemma_identify_upto(t: Seq<(Seq<Seq<char>>, Seq<char>)>, moves: Seq<Seq<char>>, n: nat)
    requires
        n <= t.len(),
    ensures
        identify_upto(t, moves, n) is None <==> (forall|k: int| 0 <= k < n ==> !line_matches(#[trigger] t[k].0, moves)),
        identify_upto(t, moves, n) matches Some((l, name)) ==> exists|j: int|
            #![trigger t[j]]
            0 <= j < n && line_matches(t[j].0, moves) && t[j].0.len() == l && t[j].1 == name,
        identify_upto(t, moves, n) matches Some((l, name)) ==> forall|k: int|
            0 <= k < n && line_matches(#[trigger] t[k].0, moves) ==> t[k].0.len() <= l,
    decreases n,
{
    if n > 0 {
        lemma_identify_upto(t, moves, (n - 1) as nat);
        let prev = identify_upto(t, moves, (n - 1) as nat);
        if prev is Some {
            let (pl, pn) = prev->0;
            let j = choose|j: int|
                #![trigger t[j]]
                0 <= j < n - 1 && line_matches(t[j].0, moves) && t[j].0.len() == pl && t[j].1 == pn;
            assert(t[j] == t[j]);
        }
        if identify_upto(t, moves, n) != prev {
            assert(t[n - 1] == t[n - 1]);
        }
    }
}

/// The opening named for `moves` is that of a book line which `moves` begins with and
/// than which no book line that `moves` begins with is longer; there is a name exactly
/// when some book line begins `moves`.
pub proof fn lemma_identify_longest_line(moves: Seq<Seq<char>>)
    ensures
        identify_spec(moves) is None <==> (forall|k: int|
            0 <= k < opening_table().len() ==> !line_matches(#[trigger] opening_table()[k].0, moves)),
        identify_spec(moves) matches Some(name) ==> exists|j: int|
            #![trigger opening_table()[j]]
            0 <= j < opening_table().len() && line_matches(opening_table()[j].0, moves) && opening_table()[j].1 == name
                && forall|k: int|
                0 <= k < opening_table().len() && line_matches(#[trigger] opening_table()[k].0, moves)
                    ==> opening_table()[k].0.len() <= opening_table()[j].0.len(),
{
    let t = opening_table();
    lemma_identify_upto(t, moves, t.len());
    if identify_upto(t, moves, t.len()) is Some {
        let (l, nm) = identify_upto(t, moves, t.len())->0;
        let j = choose|j: int|
            #![trigger t[j]]
            0 <= j < t.len() && line_matches(t[j].0, moves) && t[j].0.len() == l && t[j].1 == nm;
        assert(t[j] == t[j]);
    }
}

/// One of the first `n` lines of `t` begins with the whole of `moves` and continues with `x`.
pub open spec fn line_continues(t: Seq<(Seq<Seq<char>>, Seq<char>)>, moves: Seq<Seq<char>>, n: int, x: Seq<char>) -> bool {
    exists|j: int|
        #![trigger t[j]]
        0 <= j < n && t[j].0.len() > moves.len() && (forall|i: int| 0 <= i < moves.len() ==> t[j].0[i] == moves[i])
            && t[j].0[moves.len() as int] == x
}

proof fn lemma_replies_upto(t: Seq<(Seq<Seq<char>>, Seq<char>)>, moves: Seq<Seq<char>>, n: nat)
    requires
        n <= t.len(),
    ensures
        forall|k: int|
            0 <= k < replies_upto(t, moves, n).len() ==> line_continues(t, moves, n as int, #[trigger] replies_upto(t, moves, n)[k]),
        forall|x: Seq<char>| line_continues(t, moves, n as int, x) ==> #[trigger] replies_upto(t, moves, n).contains(x),
        forall|a: int, b: int|
            0 <= a < b < replies_upto(t, moves, n).len() ==> replies_upto(t, moves, n)[a] != replies_upto(
                t,
                moves,
                n,
            )[b],
    decreases n,
{
    if n > 0 {
        lemma_replies_upto(t, moves, (n - 1) as nat);
        let r = replies_upto(t, moves, (n - 1) as nat);
        let line = t[n - 1].0;
        let out = replies_upto(t, moves, n);
        let takes = line.len() > moves.len() && (forall|i: int| 0 <= i < moves.len() ==> line[i] == moves[i]);
        assert forall|k: int| 0 <= k < out.len() implies line_continues(t, moves, n as int, #[trigger] out[k]) by {
            if k < r.len() {
                assert(out[k] == r[k]);
                assert(line_continues(t, moves, (n - 1) as int, r[k]));
                let j = choose|j: int|
                    #![trigger t[j]]
                    0 <= j < n - 1 && t[j].0.len() > moves.len() && (forall|i: int| 0 <= i < moves.len() ==> t[j].0[i] == moves[i])
                        && t[j].0[moves.len() as int] == r[k];
                assert(t[j].0[moves.len() as int] == out[k]);
            } else {
                assert(t[n - 1].0[moves.len() as int] == out[k]);
            }
        }
        assert forall|x: Seq<char>| line_continues(t, moves, n as int, x) implies #[trigger] out.contains(x) by {
            let j = choose|j: int|
                #![trigger t[j]]
                0 <= j < n && t[j].0.len() > moves.len() && (forall|i: int| 0 <= i < moves.len() ==> t[j].0[i] == moves[i])
                    && t[j].0[moves.len() as int] == x;
            if j < n - 1 {
                assert(line_continues(t, moves, (n - 1) as int, x));
                assert(r.contains(x));
                let k = choose|k: int| 0 <= k < r.len() && r[k] == x;
                if out != r {
                    assert(out[k] == r[k]);
                }
            } else if out != r {
                assert(out[r.len() as int] == x);
            }
        }
        if out != r {
            assert forall|a: int, b: int| 0 <= a < b < out.len() implies out[a] != out[b] by {
                if b == r.len() {
                    assert(out[a] == r[a]);
                    assert(!r.contains(out[b]));
                } else {
                    assert(out[a] == r[a] && out[b] == r[b]);
                }
            }
        }
    }
}

/// The book replies to `moves` are exactly the next moves of the book lines that begin
/// with the whole of `moves`, each given once.
pub proof fn lemma_book_replies_continue_lines(moves: Seq<Seq<char>>)
    ensures
        forall|k: int|
            0 <= k < book_replies_spec(moves).len() ==> line_continues(
                opening_table(),
                moves,
                opening_table().len() as int,
                #[trigger] book_replies_spec(moves)[k],
            ),
        forall|x: Seq<char>|
            line_continues(opening_table(), moves, opening_table().len() as int, x) ==> #[trigger] book_replies_spec(
                moves,
            ).contains(x),
        forall|a: int, b: int|
            0 <= a < b < book_replies_spec(moves).len() ==> book_replies_spec(moves)[a] != book_replies_spec(moves)[b],
{
    lemma_replies_upto(opening_table(), moves, opening_table().len());
}

/// Whether `line` is a prefix of `moves` (its first `k` moves match when `k` is given).
fn prefix_matches(line: &Vec<&'static str>, moves: &[String], k: usize) -> (r: bool)
    requires
        k <= line@.len(),
        k <= moves@.len(),
    ensures
        r == (forall|i: int| 0 <= i < k ==> line@[i]@ == moves@[i]@),
{
    let mut i: usize = 0;
    while i < k
        invariant
            0 <= i <= k,
            k <= line@.len(),
            k <= moves@.len(),
            forall|j: int| 0 <= j < i ==> line@[j]@ == moves@[j]@,
        decreases k - i,
    {
        if !text_eq(line[i], moves[i].as_str()) {
            return false;
        }
        i += 1;
    }
    true
}

/// The opening name of the move sequence (longest match in the book).
pub fn identify(moves: &[String]) -> (r: Option<&'static str>)
    ensures
        r matches Some(name) ==> identify_spec(moves@.map_values(|m: String| m@)) == Some(name@),
        r is None ==> identify_spec(moves@.map_values(|m: String| m@)) is None,
{
    let ghost mv = moves@.map_values(|m: String| m@);
    let lines = opening_lines();
    let ghost t = opening_table();
    let mut best: Option<(usize, &'static str)> = None;
    let mut n: usize = 0;
    while n < lines.len()
        invariant
            0 <= n <= lines@.len(),
            lines@.map_values(|l: OpeningLine| line_view(l)) == t,
            t == opening_table(),
            mv == moves@.map_values(|m: String| m@),
            match identify_upto(t, mv, n as nat) {
                Some((l, name)) => best matches Some(b) && b.0 == l && b.1@ == name,
                None => best is None,
            },
        decreases lines@.len() - n,
    {
        let line = &lines[n];
        assert(line_view(lines@[n as int]) == t[n as int]);
        if line.moves.len() <= moves.len() {
            let m = prefix_matches(&line.moves, moves, line.moves.len());
            if m {
                assert(line_matches(t[n as int].0, mv));
                match best {
                    Some((l, _)) if l >= line.moves.len() => {},
                    _ => best = Some((line.moves.len(), line.name)),
                }
            } else {
                assert(!line_matches(t[n as int].0, mv)) by {
                    assert(t[n as int].0 == line.moves@.map_values(|m: &str| m@));
                    let i = choose|i: int|
                        0 <= i < line.moves@.len() && line.moves@[i]@ != moves@[i]@;
                    assert(t[n as int].0[i] == line.moves@[i]@);
                    assert(mv[i] == moves@[i]@);
                }
            }
        }
        n += 1;
    }
    match best {
        Some((_, name)) => Some(name),
        None => None,
    }
}

/// The engine's book replies: the next move of every book line that continues the
/// sequence, each once.
pub fn book_replies(moves: &[String]) -> (r: Vec<&'static str>)
    ensures
        r@.map_values(|m: &str| m@) == book_replies_spec(moves@.map_values(|m: String| m@)),
{
    let ghost mv = moves@.map_values(|m: String| m@);
    let lines = opening_lines();
    let ghost t = opening_table();
    let mut replies: Vec<&'static str> = Vec::new();
    let mut n: usize = 0;
    while n < lines.len()
        invariant
            0 <= n <= lines@.len(),
            lines@.map_values(|l: OpeningLine| line_view(l)) == t,
            t == opening_table(),
            mv == moves@.map_values(|m: String| m@),
            replies@.map_values(|m: &str| m@) == replies_upto(t, mv, n as nat),
        decreases lines@.len() - n,
    {
        let line = &lines[n];
        assert(line_view(lines@[n as int]) == t[n as int]);
        assert(t[n as int].0 == line.moves@.map_values(|m: &str| m@));
        let ghost lv = t[n as int].0;
        let ghost prev = replies@.map_values(|m: &str| m@);
        if line.moves.len() > moves.len() {
            let pm = prefix_matches(&line.moves, moves, moves.len());
            assert(pm == (forall|i: int| 0 <= i < mv.len() ==> lv[i] == mv[i])) by {
                if !pm {
                    let i = choose|i: int| 0 <= i < moves@.len() && line.moves@[i]@ != moves@[i]@;
                    assert(lv[i] == line.moves@[i]@);
                    assert(mv[i] == moves@[i]@);
                } else {
                    assert forall|i: int| 0 <= i < mv.len() implies lv[i] == mv[i] by {
                        assert(lv[i] == line.moves@[i]@);
                        assert(mv[i] == moves@[i]@);
                    }
                }
            }
            if pm {
                let next = line.moves[moves.len()];
                assert(lv[mv.len() as int] == next@);
                let mut seen = false;
                let mut j: usize = 0;
                while j < replies.len()
                    invariant
                        0 <= j <= replies@.len(),
                        seen == (exists|x: int| 0 <= x < j && replies@[x]@ == next@),
                    decreases replies@.len() - j,
                {
                    if text_eq(replies[j], next) {
                        seen = true;
                    }
                    j += 1;
                }
                assert(seen == prev.contains(next@)) by {
                    if seen {
                        let x = choose|x: int| 0 <= x < replies@.len() && replies@[x]@ == next@;
                        assert(prev[x] == next@);
                    }
                    if prev.contains(next@) {
                        let x = choose|x: int| 0 <= x < prev.len() && prev[x] == next@;
                        assert(replies@[x]@ == next@);
                    }
                }
                if !seen {
                    replies.push(next);
                    assert(replies@.map_values(|m: &str| m@) =~= prev.push(next@));
                }
            }
        }
        n += 1;
    }
    replies
}

} // verus!
