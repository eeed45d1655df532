//! Mate puzzles and endgame practice positions.
//! Mate puzzles are checked by a full-width search in the tests; in practice positions
//! the engine defends while the player works out the win.
use vstd::prelude::*;

verus! {

#[derive(Clone, Copy, PartialEq, Eq, Debug, Structural)]
pub enum PuzzleKind {
    /// Mate the opponent within `mate_in` moves.
    Mate { mate_in: u8 },
    /// Endgame practice: win (or hold) against the engine's defence.
    Practice,
}

pub struct Puzzle {
    pub id: u32,
    pub name: &'static str,
    pub kind: PuzzleKind,
    pub difficulty: u8,  // 1-5
    pub fen: &'static str,
    pub theme: &'static str,
    pub hint: &'static str,
    /// Main line (shown as a hint), in ICCS.
    pub solution: Vec<&'static str>,
}

/// The contents of a puzzle.
pub struct PuzzleData {
    pub id: u32,
    pub name: Seq<char>,
    pub kind: PuzzleKind,
    pub difficulty: u8,
    pub fen: Seq<char>,
    pub theme: Seq<char>,
    pub hint: Seq<char>,
    pub solution: Seq<Seq<char>>,
}

/// The contents of a puzzle value.
pub open spec fn puzzle_view(p: Puzzle) -> PuzzleData {
    PuzzleData {
        id: p.id,
        name: p.name@,
        kind: p.kind,
        difficulty: p.difficulty,
        fen: p.fen@,
        theme: p.theme@,
        hint: p.hint@,
        solution: p.solution@.map_values(|m: &str| m@),
    }
}

/// The puzzle collection.
pub open spec fn puzzle_table() -> Seq<PuzzleData> {
    seq![
        PuzzleData {
            id: 1,
            name: "马后炮"@,
            kind: PuzzleKind::Mate { mate_in: 1 },
            difficulty: 1,
            fen: "4k4/9/9/4C1N2/9/9/9/9/9/4K4 r"@,
            theme: "基本杀法"@,
            hint: "马跳到炮的正后方一格，用马作炮架，炮借马力将军。"@,
            solution: seq!["g6e7"@],
        },
        PuzzleData {
            id: 2,
            name: "双车错"@,
            kind: PuzzleKind::Mate { mate_in: 1 },
            difficulty: 1,
            fen: "4k4/R8/9/9/9/4P2R1/9/9/9/4K4 r"@,
            theme: "基本杀法"@,
            hint: "沉底车在底线横向将军，另一只车已经封住将的全部退路。"@,
            solution: seq!["h4h9"@],
        },
        PuzzleData {
            id: 3,
            name: "重炮杀"@,
            kind: PuzzleKind::Mate { mate_in: 1 },
            difficulty: 2,
            fen: "4k4/9/2NP1PN2/C8/9/9/4C4/9/9/4K4 r"@,
            theme: "基本杀法"@,
            hint: "把炮调到中路，与另一门炮形成前后双重炮架。"@,
            solution: seq!["a6e6"@],
        },
        PuzzleData {
            id: 4,
            name: "卧槽马"@,
            kind: PuzzleKind::Mate { mate_in: 1 },
            difficulty: 2,
            fen: "3k5/4R4/3AP4/9/3N5/9/9/9/9/4K4 r"@,
            theme: "基本杀法"@,
            hint: "马跳卧槽将军，车已经控制将的上下逃路。"@,
            solution: seq!["d5c7"@],
        },
        PuzzleData {
            id: 5,
            name: "钓鱼马"@,
            kind: PuzzleKind::Mate { mate_in: 1 },
            difficulty: 2,
            fen: "3aka3/R8/9/9/2N6/4P4/9/9/9/4K4 r"@,
            theme: "基本杀法"@,
            hint: "马跳到钓鱼位将军，车封住第二条横线，双士自堵将路。"@,
            solution: seq!["c5d7"@],
        },
        PuzzleData {
            id: 6,
            name: "中线闷杀"@,
            kind: PuzzleKind::Mate { mate_in: 1 },
            difficulty: 3,
            fen: "4k4/9/2NPPPN2/C8/9/9/9/1n7/9/4K4 r"@,
            theme: "中局杀法"@,
            hint: "炮调到中路，借中兵作炮架将军，马兵已封死将的逃路。"@,
            solution: seq!["a6e6"@],
        },
        PuzzleData {
            id: 7,
            name: "单车胜单士"@,
            kind: PuzzleKind::Practice,
            difficulty: 2,
            fen: "4k4/4a4/9/3R5/9/9/9/9/9/3AK4 r"@,
            theme: "残局定式"@,
            hint: "用车控制中路，以帅助攻，捉士技巧：先控将门再捉士。"@,
            solution: seq![],
        },
        PuzzleData {
            id: 8,
            name: "单车胜单象"@,
            kind: PuzzleKind::Practice,
            difficulty: 2,
            fen: "4k4/9/2b6/9/9/3R5/9/9/4A4/3K5 r"@,
            theme: "残局定式"@,
            hint: "把将逼到与象同侧，车抢象眼。"@,
            solution: seq![],
        },
        PuzzleData {
            id: 9,
            name: "单车难胜士象全"@,
            kind: PuzzleKind::Practice,
            difficulty: 3,
            fen: "3aka3/9/2b3b2/9/9/2R6/9/9/4A4/3K5 b"@,
            theme: "残局防守"@,
            hint: "士象归位、将坐宫心，守住中路即是和棋。你执黑守和。"@,
            solution: seq![],
        },
        PuzzleData {
            id: 10,
            name: "马擒单士"@,
            kind: PuzzleKind::Practice,
            difficulty: 4,
            fen: "3k5/4a4/9/9/9/9/9/4N4/9/4K4 r"@,
            theme: "残局定式"@,
            hint: "马擒单士要诀：先捉士后取胜，用帅控制将门。"@,
            solution: seq![],
        },
        PuzzleData {
            id: 11,
            name: "炮仕胜单士"@,
            kind: PuzzleKind::Practice,
            difficulty: 3,
            fen: "3k5/4a4/9/9/9/9/9/4C4/4A4/4K4 r"@,
            theme: "残局定式"@,
            hint: "炮需仕作架，用帅与仕配合逐步捉士。"@,
            solution: seq![],
        },
        PuzzleData {
            id: 12,
            name: "双兵胜单士"@,
            kind: PuzzleKind::Practice,
            difficulty: 3,
            fen: "4k4/4a4/9/9/9/9/4P4/9/4P4/4K4 r"@,
            theme: "残局定式"@,
            hint: "双兵联手：一兵控将，一兵推进，稳步逼近九宫。"@,
            solution: seq![],
        },
    ]
}

/// All puzzles, in order.
pub fn puzzles() -> (r: Vec<Puzzle>)
    ensures
        r@.map_values(|p: Puzzle| puzzle_view(p)) == puzzle_table(),
{
    let r = vec![
        Puzzle {
            id: 1,
            name: "马后炮",
            kind: PuzzleKind::Mate { mate_in: 1 },
            difficulty: 1,
            fen: "4k4/9/9/4C1N2/9/9/9/9/9/4K4 r",
            theme: "基本杀法",
            hint: "马跳到炮的正后方一格，用马作炮架，炮借马力将军。",
            solution: vec!["g6e7"],
        },
        Puzzle {
            id: 2,
            name: "双车错",
            kind: PuzzleKind::Mate { mate_in: 1 },
            difficulty: 1,
            fen: "4k4/R8/9/9/9/4P2R1/9/9/9/4K4 r",
            theme: "基本杀法",
            hint: "沉底车在底线横向将军，另一只车已经封住将的全部退路。",
            solution: vec!["h4h9"],
        },
        Puzzle {
            id: 3,
            name: "重炮杀",
            kind: PuzzleKind::Mate { mate_in: 1 },
            difficulty: 2,
            fen: "4k4/9/2NP1PN2/C8/9/9/4C4/9/9/4K4 r",
            theme: "基本杀法",
            hint: "把炮调到中路，与另一门炮形成前后双重炮架。",
            solution: vec!["a6e6"],
        },
        Puzzle {
            id: 4,
            name: "卧槽马",
            kind: PuzzleKind::Mate { mate_in: 1 },
            difficulty: 2,
            fen: "3k5/4R4/3AP4/9/3N5/9/9/9/9/4K4 r",
            theme: "基本杀法",
            hint: "马跳卧槽将军，车已经控制将的上下逃路。",
            solution: vec!["d5c7"],
        },
        Puzzle {
            id: 5,
            name: "钓鱼马",
            kind: PuzzleKind::Mate { mate_in: 1 },
            difficulty: 2,
            fen: "3aka3/R8/9/9/2N6/4P4/9/9/9/4K4 r",
            theme: "基本杀法",
            hint: "马跳到钓鱼位将军，车封住第二条横线，双士自堵将路。",
            solution: vec!["c5d7"],
        },
        Puzzle {
            id: 6,
            name: "中线闷杀",
            kind: PuzzleKind::Mate { mate_in: 1 },
            difficulty: 3,
            fen: "4k4/9/2NPPPN2/C8/9/9/9/1n7/9/4K4 r",
            theme: "中局杀法",
            hint: "炮调到中路，借中兵作炮架将军，马兵已封死将的逃路。",
            solution: vec!["a6e6"],
        },
        Puzzle {
            id: 7,
            name: "单车胜单士",
            kind: PuzzleKind::Practice,
            difficulty: 2,
            fen: "4k4/4a4/9/3R5/9/9/9/9/9/3AK4 r",
            theme: "残局定式",
            hint: "用车控制中路，以帅助攻，捉士技巧：先控将门再捉士。",
            solution: vec![],
        },
        Puzzle {
            id: 8,
            name: "单车胜单象",
            kind: PuzzleKind::Practice,
            difficulty: 2,
            fen: "4k4/9/2b6/9/9/3R5/9/9/4A4/3K5 r",
            theme: "残局定式",
            hint: "把将逼到与象同侧，车抢象眼。",
            solution: vec![],
        },
        Puzzle {
            id: 9,
            name: "单车难胜士象全",
            kind: PuzzleKind::Practice,
            difficulty: 3,
            fen: "3aka3/9/2b3b2/9/9/2R6/9/9/4A4/3K5 b",
            theme: "残局防守",
            hint: "士象归位、将坐宫心，守住中路即是和棋。你执黑守和。",
            solution: vec![],
        },
        Puzzle {
            id: 10,
            name: "马擒单士",
            kind: PuzzleKind::Practice,
            difficulty: 4,
            fen: "3k5/4a4/9/9/9/9/9/4N4/9/4K4 r",
            theme: "残局定式",
            hint: "马擒单士要诀：先捉士后取胜，用帅控制将门。",
            solution: vec![],
        },
        Puzzle {
            id: 11,
            name: "炮仕胜单士",
            kind: PuzzleKind::Practice,
            difficulty: 3,
            fen: "3k5/4a4/9/9/9/9/9/4C4/4A4/4K4 r",
            theme: "残局定式",
            hint: "炮需仕作架，用帅与仕配合逐步捉士。",
            solution: vec![],
        },
        Puzzle {
            id: 12,
            name: "双兵胜单士",
            kind: PuzzleKind::Practice,
            difficulty: 3,
            fen: "4k4/4a4/9/9/9/9/4P4/9/4P4/4K4 r",
            theme: "残局定式",
            hint: "双兵联手：一兵控将，一兵推进，稳步逼近九宫。",
            solution: vec![],
        },
    ];
    assert forall|i: int| 0 <= i < r@.len() implies #[trigger] puzzle_view(r@[i]) == puzzle_table()[i] by {
        assert(r@[i].solution@.map_values(|m: &str| m@) =~= puzzle_table()[i].solution);
    }
    assert(r@.map_values(|p: Puzzle| puzzle_view(p)) =~= puzzle_table());
    r
}

/// Index of the first puzzle among the first `n` with id `id`, if any.
pub open spec fn first_with_id(t: Seq<PuzzleData>, id: u32, n: nat) -> Option<int>
    decreases n,
{
    if n == 0 {
        None
    } else {
        match first_with_id(t, id, (n - 1) as nat) {
            Some(i) => Some(i),
            None => if t[n - 1].id == id {
                Some(n - 1)
            } else {
                None
            },
        }
    }
}

/// The puzzle with id `id`.
pub fn puzzle_by_id(id: u32) -> (r: Option<Puzzle>)
    ensures
        match first_with_id(puzzle_table(), id, puzzle_table().len()) {
            Some(i) => r matches Some(p) && puzzle_view(p) == puzzle_table()[i],
            None => r is None,
        },
{
    let mut all = puzzles();
    let ghost t = puzzle_table();
    let mut i: usize = 0;
    while i < all.len()
        invariant
            0 <= i <= all@.len(),
            all@.map_values(|p: Puzzle| puzzle_view(p)) == t,
            t == puzzle_table(),
            first_with_id(t, id, i as nat) is None,
        decreases all@.len() - i,
    {
        assert(puzzle_view(all@[i as int]) == t[i as int]);
        if all[i].id == id {
            assert(first_with_id(t, id, (i + 1) as nat) == Some(i as int));
            proof {
                lemma_first_with_id_stays(t, id, (i + 1) as nat, t.len());
            }
            return Some(all.swap_remove(i));
        }
        i += 1;
    }
    None
}

proof fn lemma_first_with_id_stays(t: Seq<PuzzleData>, id: u32, n: nat, m: nat)
    requires
        n <= m,
        first_with_id(t, id, n) is Some,
    ensures
        first_with_id(t, id, m) == first_with_id(t, id, n),
    decreases m - n,
{
    if n < m {
        lemma_first_with_id_stays(t, id, n, (m - 1) as nat);
    }
}

} // verus!
