//! Static evaluation: material plus piece-square tables (from Red's point of view,
//! mirrored for Black) plus a small advisor/bishop pair bonus.
//! The result is from Red's point of view, in centipawns.
use vstd::prelude::*;

use crate::board::{
    is_red, kind_of, piece_kind, red_piece, Board, ADVISOR, BISHOP, CANNON, EMPTY, KING, KNIGHT,
    PAWN, ROOK,
};

verus! {

pub const VAL_KING: i32 = 100_000;
pub const VAL_ROOK: i32 = 1_000;
pub const VAL_CANNON: i32 = 470;
pub const VAL_KNIGHT: i32 = 460;
pub const VAL_PAWN: i32 = 100;
pub const VAL_ADVISOR: i32 = 120;
pub const VAL_BISHOP: i32 = 120;

/// Material value of a piece kind.
pub open spec fn kind_value_spec(kind: u8) -> i32 {
    if kind == KING {
        VAL_KING
    } else if kind == ROOK {
        VAL_ROOK
    } else if kind == CANNON {
        VAL_CANNON
    } else if kind == KNIGHT {
        VAL_KNIGHT
    } else if kind == PAWN {
        VAL_PAWN
    } else if kind == ADVISOR {
        VAL_ADVISOR
    } else if kind == BISHOP {
        VAL_BISHOP
    } else {
        0
    }
}

#[inline]
pub fn kind_value(kind: u8) -> (r: i32)
    ensures
        r == kind_value_spec(kind),
{
    match kind {
        KING => VAL_KING,
        ROOK => VAL_ROOK,
        CANNON => VAL_CANNON,
        KNIGHT => VAL_KNIGHT,
        PAWN => VAL_PAWN,
        ADVISOR => VAL_ADVISOR,
        BISHOP => VAL_BISHOP,
        _ => 0,
    }
}

/// The material value of each piece kind, in centipawns: king 100 000, rook 1000,
/// cannon 470, knight 460, pawn 100, advisor and bishop 120; nothing else is worth
/// anything.
pub proof fn lemma_piece_values(kind: u8)
    ensures
        kind_value_spec(KING) == 100_000,
        kind_value_spec(ADVISOR) == 120,
        kind_value_spec(BISHOP) == 120,
        kind_value_spec(KNIGHT) == 460,
        kind_value_spec(ROOK) == 1_000,
        kind_value_spec(CANNON) == 470,
        kind_value_spec(PAWN) == 100,
        kind == 0 || kind > 7 ==> kind_value_spec(kind) == 0,
{
}

/// Pawns (Red's view; row 0 is the enemy back rank).
pub const PST_PAWN: [i32; 90] = [
    10, 15, 20, 30, 35, 30, 20, 15, 10,
    15, 20, 30, 45, 55, 45, 30, 20, 15,
    20, 30, 40, 55, 65, 55, 40, 30, 20,
    20, 30, 40, 50, 60, 50, 40, 30, 20,
    15, 25, 35, 45, 50, 45, 35, 25, 15,
    10, 15, 20, 25, 30, 25, 20, 15, 10,
    4, 0, 4, 0, 6, 0, 4, 0, 4,
    0, 0, 0, 0, 0, 0, 0, 0, 0,
    0, 0, 0, 0, 0, 0, 0, 0, 0,
    0, 0, 0, 0, 0, 0, 0, 0, 0,
];

pub const PST_KNIGHT: [i32; 90] = [
    0, 10, 14, 18, 22, 18, 14, 10, 0,
    8, 16, 24, 28, 30, 28, 24, 16, 8,
    10, 20, 28, 34, 36, 34, 28, 20, 10,
    10, 20, 30, 36, 40, 36, 30, 20, 10,
    10, 20, 30, 38, 42, 38, 30, 20, 10,
    6, 16, 24, 32, 34, 32, 24, 16, 6,
    4, 12, 18, 24, 28, 24, 18, 12, 4,
    0, 8, 12, 16, 18, 16, 12, 8, 0,
    -4, 0, 6, 8, 10, 8, 6, 0, -4,
    -8, -4, 0, 2, 4, 2, 0, -4, -8,
];

pub const PST_ROOK: [i32; 90] = [
    20, 24, 26, 30, 34, 30, 26, 24, 20,
    18, 22, 26, 30, 32, 30, 26, 22, 18,
    14, 20, 24, 28, 28, 28, 24, 20, 14,
    12, 18, 22, 24, 26, 24, 22, 18, 12,
    10, 16, 20, 24, 24, 24, 20, 16, 10,
    8, 14, 16, 20, 20, 20, 16, 14, 8,
    6, 12, 14, 18, 18, 18, 14, 12, 6,
    4, 10, 12, 14, 16, 14, 12, 10, 4,
    2, 8, 10, 12, 12, 12, 10, 8, 2,
    0, 4, 6, 8, 10, 8, 6, 4, 0,
];

pub const PST_CANNON: [i32; 90] = [
    10, 12, 12, 16, 18, 16, 12, 12, 10,
    10, 14, 14, 18, 20, 18, 14, 14, 10,
    10, 14, 16, 20, 22, 20, 16, 14, 10,
    8, 12, 14, 18, 20, 18, 14, 12, 8,
    8, 12, 14, 18, 20, 18, 14, 12, 8,
    6, 10, 12, 14, 16, 14, 12, 10, 6,
    4, 8, 10, 12, 12, 12, 10, 8, 4,
    2, 6, 8, 10, 10, 10, 8, 6, 2,
    0, 4, 6, 8, 8, 8, 6, 4, 0,
    0, 2, 4, 6, 6, 6, 4, 2, 0,
];

/// Placement bonus of advisors, bishops and the king (Red's view).
pub open spec fn pst_defense_spec(kind: u8, sq: int) -> i32 {
    let r = sq / 9;
    let c = sq % 9;
    if kind == ADVISOR {
        if r == 9 && (c == 3 || c == 5) {
            5
        } else if r == 8 && c == 4 {
            12
        } else if r == 7 && (c == 3 || c == 5) {
            10
        } else {
            0
        }
    } else if kind == BISHOP {
        if r == 9 && (c == 2 || c == 6) {
            5
        } else if r == 7 && (c == 0 || c == 8) {
            8
        } else if r == 7 && c == 4 {
            12
        } else if r == 5 && (c == 2 || c == 6) {
            10
        } else {
            0
        }
    } else if kind == KING {
        if r == 9 && c == 4 {
            0
        } else if r == 9 && (c == 3 || c == 5) {
            -6i32
        } else if r == 8 && c == 4 {
            -12i32
        } else {
            -20i32
        }
    } else {
        0
    }
}

#[inline]
fn pst_defense(kind: u8, sq: u8) -> (v: i32)
    ensures
        v == pst_defense_spec(kind, sq as int),
{
    let r = sq / 9;
    let c = sq % 9;
    match kind {
        ADVISOR => match (r, c) {
            (9, 3) | (9, 5) => 5,
            (8, 4) => 12,
            (7, 3) | (7, 5) => 10,
            _ => 0,
        },
        BISHOP => match (r, c) {
            (9, 2) | (9, 6) => 5,
            (7, 0) | (7, 8) => 8,
            (7, 4) => 12,
            (5, 2) | (5, 6) => 10,
            _ => 0,
        },
        KING => match (r, c) {
            (9, 4) => 0,
            (9, 3) | (9, 5) => -6,
            (8, 4) => -12,
            _ => -20,
        },
        _ => 0,
    }
}

/// The square mirrored across the river (same file, rank counted from the other side).
pub open spec fn flip_spec(sq: int) -> int {
    (9 - sq / 9) * 9 + sq % 9
}

#[inline]
fn flip(sq: u8) -> (r: u8)
    requires
        sq < 90,
    ensures
        r as int == flip_spec(sq as int),
{
    (9 - sq / 9) * 9 + sq % 9
}

/// Value of piece `p` on `sq`: material plus its table bonus, tables read from the
/// owner's point of view.
pub open spec fn piece_score(p: u8, sq: int) -> int {
    let kind = kind_of(p);
    let idx = if red_piece(p) { sq } else { flip_spec(sq) };
    let pst = if kind == PAWN {
        PST_PAWN[idx]
    } else if kind == KNIGHT {
        PST_KNIGHT[idx]
    } else if kind == ROOK {
        PST_ROOK[idx]
    } else if kind == CANNON {
        PST_CANNON[idx]
    } else {
        pst_defense_spec(kind, idx)
    };
    kind_value_spec(kind) + pst
}

/// Red's piece scores minus Black's, over the first `n` squares.
pub open spec fn material(s: Seq<u8>, n: nat) -> int
    decreases n,
{
    if n == 0 {
        0
    } else {
        let p = s[n - 1];
        material(s, (n - 1) as nat) + if p == EMPTY {
            0
        } else if red_piece(p) {
            piece_score(p, n - 1)
        } else {
            -piece_score(p, n - 1)
        }
    }
}

/// Number of pieces of kind `kind` on the first `n` squares belonging to Red
/// (`red`) or to Black (`!red`).
pub open spec fn count_kind(s: Seq<u8>, n: nat, red: bool, kind: u8) -> int
    decreases n,
{
    if n == 0 {
        0
    } else {
        let p = s[n - 1];
        count_kind(s, (n - 1) as nat, red, kind) + if p != EMPTY && red_piece(p) == red && kind_of(
            p,
        ) == kind {
            1int
        } else {
            0int
        }
    }
}

/// Bonus of 8 for a complete pair.
pub open spec fn pair_bonus(count: int) -> int {
    if count == 2 { 8 } else { 0 }
}

/// Red's view of the position: material and tables, plus 8 for each complete
/// advisor pair and bishop pair of Red, minus the same for Black.
pub open spec fn evaluate_spec(s: Seq<u8>) -> int {
    material(s, 90) + pair_bonus(count_kind(s, 90, true, ADVISOR)) + pair_bonus(
        count_kind(s, 90, true, BISHOP),
    ) - pair_bonus(count_kind(s, 90, false, ADVISOR)) - pair_bonus(
        count_kind(s, 90, false, BISHOP),
    )
}

proof fn lemma_piece_score_bounds(p: u8, sq: int)
    requires
        0 <= sq < 90,
    ensures
        -100 <= piece_score(p, sq) <= 100_100,
{
    let idx = if red_piece(p) { sq } else { flip_spec(sq) };
    assert(0 <= idx < 90);
    assert(forall|i: int| 0 <= i < 90 ==> -10 <= #[trigger] PST_PAWN[i] <= 100);
    assert(forall|i: int| 0 <= i < 90 ==> -10 <= #[trigger] PST_KNIGHT[i] <= 100);
    assert(forall|i: int| 0 <= i < 90 ==> -10 <= #[trigger] PST_ROOK[i] <= 100);
    assert(forall|i: int| 0 <= i < 90 ==> -10 <= #[trigger] PST_CANNON[i] <= 100);
}

/// Red's view evaluation.
pub fn evaluate(b: &Board) -> (score: i32)
    ensures
        score == evaluate_spec(b.squares@),
{
    let ghost s = b.squares@;
    let mut score: i32 = 0;
    let mut advisors = [0i32; 2];
    let mut bishops = [0i32; 2];
    let mut sq: u8 = 0;
    while sq < 90
        invariant
            0 <= sq <= 90,
            s == b.squares@,
            score == material(s, sq as nat),
            -100_100 * sq <= score <= 100_100 * sq,
            advisors[0] == count_kind(s, sq as nat, true, ADVISOR),
            advisors[1] == count_kind(s, sq as nat, false, ADVISOR),
            bishops[0] == count_kind(s, sq as nat, true, BISHOP),
            bishops[1] == count_kind(s, sq as nat, false, BISHOP),
            0 <= advisors[0] <= sq,
            0 <= advisors[1] <= sq,
            0 <= bishops[0] <= sq,
            0 <= bishops[1] <= sq,
        decreases 90 - sq,
    {
        let p = b.piece_at(sq);
        if p == EMPTY {
            sq += 1;
            continue;
        }
        let kind = piece_kind(p);
        let red = is_red(p);
        // tables are from Red's view; Black reads them mirrored
        let idx = if red {
            sq
        } else {
            flip(sq)
        };
        let pst = match kind {
            PAWN => PST_PAWN[idx as usize],
            KNIGHT => PST_KNIGHT[idx as usize],
            ROOK => PST_ROOK[idx as usize],
            CANNON => PST_CANNON[idx as usize],
            _ => pst_defense(kind, idx),
        };
        proof {
            lemma_piece_score_bounds(p, sq as int);
        }
        let v = kind_value(kind) + pst;
        assert(v == piece_score(p, sq as int));
        if red {
            score += v;
            if kind == ADVISOR {
                advisors[0] += 1;
            }
            if kind == BISHOP {
                bishops[0] += 1;
            }
        } else {
            score -= v;
            if kind == ADVISOR {
                advisors[1] += 1;
            }
            if kind == BISHOP {
                bishops[1] += 1;
            }
        }
        sq += 1;
    }
    // small bonus for complete advisor / bishop pairs
    if advisors[0] == 2 {
        score += 8;
    }
    if bishops[0] == 2 {
        score += 8;
    }
    if advisors[1] == 2 {
        score -= 8;
    }
    if bishops[1] == 2 {
        score -= 8;
    }
    score
}

proof fn lemma_material_bounds(s: Seq<u8>, n: nat)
    requires
        n <= 90,
        s.len() == 90,
    ensures
        -100_100 * n <= material(s, n) <= 100_100 * n,
    decreases n,
{
    if n > 0 {
        lemma_material_bounds(s, (n - 1) as nat);
        lemma_piece_score_bounds(s[n - 1], n - 1);
    }
}

proof fn lemma_count_bounds(s: Seq<u8>, n: nat, red: bool, kind: u8)
    ensures
        0 <= count_kind(s, n, red, kind) <= n,
    decreases n,
{
    if n > 0 {
        lemma_count_bounds(s, (n - 1) as nat, red, kind);
    }
}

/// The evaluation stays within ten million centipawns.
pub proof fn lemma_evaluate_bounds(s: Seq<u8>)
    requires
        s.len() == 90,
    ensures
        -10_000_000 <= evaluate_spec(s) <= 10_000_000,
{
    lemma_material_bounds(s, 90);
}

// ---------------------------------------------------------------------------
// Colour symmetry
// ---------------------------------------------------------------------------

/// The piece of the other colour (empty stays empty).
pub open spec fn other_colour(p: u8) -> u8 {
    if p == EMPTY {
        EMPTY
    } else {
        (p ^ 8) as u8
    }
}

/// The position with the colours swapped: each square takes the piece of the square
/// mirrored across the river, of the other colour.
pub open spec fn colour_mirrored(s: Seq<u8>) -> Seq<u8> {
    Seq::new(90, |sq: int| other_colour(s[flip_spec(sq)]))
}

/// Sum of `f` over `lo..hi`.
pub open spec fn range_total(f: spec_fn(int) -> int, lo: int, hi: int) -> int
    decreases hi - lo,
{
    if hi <= lo {
        0
    } else {
        range_total(f, lo, hi - 1) + f(hi - 1)
    }
}

/// What square `sq` holding `p` adds to the material balance.
pub open spec fn square_term(p: u8, sq: int) -> int {
    if p == EMPTY {
        0
    } else if red_piece(p) {
        piece_score(p, sq)
    } else {
        -piece_score(p, sq)
    }
}

/// Whether `p` is a piece of kind `kind` of Red (`red`) or Black (`!red`), as 1 or 0.
pub open spec fn kind_term(p: u8, red: bool, kind: u8) -> int {
    if p != EMPTY && red_piece(p) == red && kind_of(p) == kind {
        1
    } else {
        0
    }
}

proof fn lemma_material_total(s: Seq<u8>, n: nat)
    ensures
        material(s, n) == range_total(|sq: int| square_term(s[sq], sq), 0, n as int),
    decreases n,
{
    if n > 0 {
        lemma_material_total(s, (n - 1) as nat);
    }
}

proof fn lemma_count_total(s: Seq<u8>, n: nat, red: bool, kind: u8)
    ensures
        count_kind(s, n, red, kind) == range_total(|sq: int| kind_term(s[sq], red, kind), 0, n as int),
    decreases n,
{
    if n > 0 {
        lemma_count_total(s, (n - 1) as nat, red, kind);
    }
}

/// Sums over `a..a+n` and `b..b+n` agree when the terms agree in order.
proof fn lemma_total_shift(f: spec_fn(int) -> int, g: spec_fn(int) -> int, a: int, b: int, n: int)
    requires
        n >= 0,
        forall|c: int| 0 <= c < n ==> #[trigger] f(a + c) == g(b + c),
    ensures
        range_total(f, a, a + n) == range_total(g, b, b + n),
    decreases n,
{
    if n > 0 {
        lemma_total_shift(f, g, a, b, n - 1);
        assert(f(a + (n - 1)) == g(b + (n - 1)));
    }
}

/// A sum splits at any point between its bounds.
proof fn lemma_total_split(f: spec_fn(int) -> int, lo: int, mid: int, hi: int)
    requires
        lo <= mid <= hi,
    ensures
        range_total(f, lo, hi) == range_total(f, lo, mid) + range_total(f, mid, hi),
    decreases hi - mid,
{
    if hi > mid {
        lemma_total_split(f, lo, mid, hi - 1);
    }
}

/// The sum over `lo..hi` of the negated terms is the negated sum.
proof fn lemma_total_neg(f: spec_fn(int) -> int, g: spec_fn(int) -> int, lo: int, hi: int)
    requires
        forall|x: int| lo <= x < hi ==> #[trigger] f(x) == -g(x),
    ensures
        range_total(f, lo, hi) == -range_total(g, lo, hi),
    decreases hi - lo,
{
    if hi > lo {
        lemma_total_neg(f, g, lo, hi - 1);
    }
}

/// Sum of the rank `r` of the board.
spec fn rank_total(f: spec_fn(int) -> int, r: int) -> int {
    range_total(f, 9 * r, 9 * r + 9)
}

/// Summing over the board with the ranks taken in the mirrored order gives the same.
proof fn lemma_total_mirror(f: spec_fn(int) -> int)
    ensures
        range_total(|sq: int| f(flip_spec(sq)), 0, 90) == range_total(f, 0, 90),
{
    let h = |sq: int| f(flip_spec(sq));
    assert forall|r: int| 0 <= r < 10 implies #[trigger] rank_total(h, r) == rank_total(f, 9 - r) by {
        assert forall|c: int| 0 <= c < 9 implies #[trigger] h(9 * r + c) == f(9 * (9 - r) + c) by {
            assert((9 * r + c) / 9 == r);
            assert((9 * r + c) % 9 == c);
        }
        lemma_total_shift(h, f, 9 * r, 9 * (9 - r), 9);
    }
    assert forall|g: spec_fn(int) -> int| #[trigger] range_total(g, 0, 90) == rank_total(g, 0) + rank_total(g, 1)
        + rank_total(g, 2) + rank_total(g, 3) + rank_total(g, 4) + rank_total(g, 5) + rank_total(g, 6)
        + rank_total(g, 7) + rank_total(g, 8) + rank_total(g, 9) by {
        lemma_total_split(g, 0, 9, 90);
        lemma_total_split(g, 9, 18, 90);
        lemma_total_split(g, 18, 27, 90);
        lemma_total_split(g, 27, 36, 90);
        lemma_total_split(g, 36, 45, 90);
        lemma_total_split(g, 45, 54, 90);
        lemma_total_split(g, 54, 63, 90);
        lemma_total_split(g, 63, 72, 90);
        lemma_total_split(g, 72, 81, 90);
    }
    assert(range_total(h, 0, 90) == range_total(f, 0, 90));
}

proof fn lemma_other_colour(p: u8)
    requires
        p != EMPTY,
        p != 8,
    ensures
        other_colour(p) != EMPTY,
        kind_of(other_colour(p)) == kind_of(p),
        red_piece(other_colour(p)) == !red_piece(p),
{
    assert(p != 0 && p != 8 ==> (p ^ 8) != 0) by (bit_vector);
    assert((p ^ 8) % 8 == p % 8) by (bit_vector);
    assert(((p ^ 8) % 16 >= 8) == !(p % 16 >= 8)) by (bit_vector);
}

/// Swapping the colours of a position (and mirroring it across the river) negates its
/// evaluation: the tables of Black are those of Red, mirrored.
pub proof fn lemma_evaluate_colour_mirror(s: Seq<u8>)
    requires
        crate::fen::fen_squares(s),
    ensures
        evaluate_spec(colour_mirrored(s)) == -evaluate_spec(s),
{
    let m = colour_mirrored(s);
    let ts = |sq: int| square_term(s[sq], sq);
    let tm = |sq: int| square_term(m[sq], sq);
    let tf = |sq: int| ts(flip_spec(sq));
    assert forall|sq: int| 0 <= sq < 90 implies #[trigger] tm(sq) == -tf(sq) by {
        let t = flip_spec(sq);
        let q = s[t];
        assert(0 <= t < 90);
        assert(flip_spec(t) == sq);
        if q != EMPTY {
            assert(crate::fen::fen_piece(q));
            lemma_other_colour(q);
        }
    }
    lemma_total_neg(tm, tf, 0, 90);
    lemma_total_mirror(ts);
    lemma_material_total(m, 90);
    lemma_material_total(s, 90);
    assert forall|red: bool, kind: u8| #[trigger] count_kind(m, 90, red, kind) == count_kind(s, 90, !red, kind) by {
        let cs = |sq: int| kind_term(s[sq], !red, kind);
        let cm = |sq: int| kind_term(m[sq], red, kind);
        let cf = |sq: int| cs(flip_spec(sq));
        assert forall|sq: int| 0 <= sq < 90 implies #[trigger] cm(sq) == cf(sq) by {
            let t = flip_spec(sq);
            let q = s[t];
            assert(0 <= t < 90);
            if q != EMPTY {
                assert(crate::fen::fen_piece(q));
                lemma_other_colour(q);
            }
        }
        lemma_total_shift(cm, cf, 0, 0, 90);
        lemma_total_mirror(cs);
        lemma_count_total(m, 90, red, kind);
        lemma_count_total(s, 90, !red, kind);
    }
    assert(count_kind(m, 90, true, ADVISOR) == count_kind(s, 90, false, ADVISOR));
    assert(count_kind(m, 90, false, ADVISOR) == count_kind(s, 90, true, ADVISOR));
    assert(count_kind(m, 90, true, BISHOP) == count_kind(s, 90, false, BISHOP));
    assert(count_kind(m, 90, false, BISHOP) == count_kind(s, 90, true, BISHOP));
}

} // verus!
