//! Chinese file notation, such as 炮二平五 / 马8进7 / 前车退二.
use vstd::prelude::*;

use crate::board::{
    color_of, iccs_text, kind_of, piece_color, piece_kind, Board, Move, ADVISOR, BISHOP, BLACK, EMPTY,
    KNIGHT, RED,
};
use crate::text::{decimal, digit_char, push_char, push_decimal};

verus! {

/// Name of a piece kind (empty for kind 0): Red's names, then Black's.
pub open spec fn piece_name(color: u8, kind: u8) -> Seq<char> {
    if kind == 0 || kind > 7 {
        Seq::empty()
    } else if color == RED {
        seq![seq!['帅', '仕', '相', '马', '车', '炮', '兵'][kind - 1]]
    } else {
        seq![seq!['将', '士', '象', '马', '车', '炮', '卒'][kind - 1]]
    }
}

/// Red's Chinese numerals one to nine.
pub open spec fn red_numeral(i: int) -> char {
    seq!['一', '二', '三', '四', '五', '六', '七', '八', '九'][i]
}

/// Name of file `col` (0..9): Red counts files from its right in Chinese numerals,
/// Black from its right in Arabic digits.
pub open spec fn file_name_spec(color: u8, col: int) -> Seq<char> {
    if color == RED {
        seq![red_numeral(8 - col)]
    } else {
        decimal((col + 1) as nat)
    }
}

/// Number of ranks moved: Red writes one to nine in Chinese numerals.
pub open spec fn step_name_spec(color: u8, n: nat) -> Seq<char> {
    if color == RED && 1 <= n <= 9 {
        seq![red_numeral(n - 1)]
    } else {
        decimal(n)
    }
}

/// Rows below `limit` on file `col` holding the piece kind/colour of `p`, counted
/// from row `lo` on.
pub open spec fn same_count(s: Seq<u8>, col: int, kind: u8, color: u8, lo: int, hi: int) -> nat
    decreases hi - lo,
{
    if lo >= hi {
        0
    } else {
        same_count(s, col, kind, color, lo + 1, hi) + if s[lo * 9 + col] != EMPTY && kind_of(
            s[lo * 9 + col],
        ) == kind && color_of(s[lo * 9 + col]) == color {
            1nat
        } else {
            0nat
        }
    }
}

/// Front / middle / rear tag for the piece that is `idx`-th from the front among `n`
/// like pieces on one file.
pub open spec fn position_tag(n: nat, idx: nat) -> char {
    if n == 2 {
        if idx == 0 { '前' } else { '后' }
    } else if n == 3 {
        if idx == 0 {
            '前'
        } else if idx == 2 {
            '后'
        } else {
            '中'
        }
    } else {
        if idx == 0 {
            '前'
        } else if idx == n - 1 {
            '后'
        } else {
            '中'
        }
    }
}

/// Chinese notation of `mv` on the board `s` before the move: the piece (by name and
/// file, or by front/rear tag when like pieces share its file), the action (平 across,
/// 进 forward, 退 back), then the target file (sideways moves, knights, advisors,
/// bishops) or the number of ranks moved. An empty source square gives the ICCS text.
pub open spec fn move_notation_spec(s: Seq<u8>, mv: Move) -> Seq<char> {
    let p = s[mv.from as int];
    if p == EMPTY {
        iccs_text(mv.from, mv.to)
    } else {
        let color = color_of(p);
        let kind = kind_of(p);
        let from_row = mv.from / 9;
        let from_col = mv.from % 9;
        let to_row = mv.to / 9;
        let to_col = mv.to % 9;
        let n = same_count(s, from_col as int, kind, color, 0, 10);
        let idx = if color == RED {
            same_count(s, from_col as int, kind, color, 0, from_row as int)
        } else {
            same_count(s, from_col as int, kind, color, from_row + 1, 10)
        };
        let prefix = if n >= 2 {
            seq![position_tag(n, idx)] + piece_name(color, kind)
        } else {
            piece_name(color, kind) + file_name_spec(color, from_col as int)
        };
        let action = if to_row == from_row {
            '平'
        } else if (if color == RED { to_row < from_row } else { to_row > from_row }) {
            '进'
        } else {
            '退'
        };
        let tail = if to_row == from_row || kind == KNIGHT || kind == ADVISOR || kind == BISHOP {
            file_name_spec(color, to_col as int)
        } else {
            step_name_spec(
                color,
                (if to_row >= from_row { to_row - from_row } else { from_row - to_row }) as nat,
            )
        };
        prefix.push(action) + tail
    }
}

/// A piece with its colour swapped (an empty square stays empty).
pub open spec fn swap_colour(p: u8) -> u8 {
    if p == EMPTY {
        EMPTY
    } else if p % 16 >= 8 {
        (p - 8) as u8
    } else {
        (p + 8) as u8
    }
}

/// The board turned half round with the colours swapped: square `sq` holds the piece of
/// square 89 - `sq` in the other colour, so Black's pieces become Red's seen from Red's
/// side.
pub open spec fn half_turn(s: Seq<u8>) -> Seq<u8> {
    Seq::new(90, |sq: int| swap_colour(s[89 - sq]))
}

/// Black's writing of a character of Red's notation: Black's piece names for Red's, and
/// Arabic digits for Red's Chinese numerals.
pub open spec fn black_char(c: char) -> char {
    if c == '帅' {
        '将'
    } else if c == '仕' {
        '士'
    } else if c == '相' {
        '象'
    } else if c == '兵' {
        '卒'
    } else if c == '一' {
        '1'
    } else if c == '二' {
        '2'
    } else if c == '三' {
        '3'
    } else if c == '四' {
        '4'
    } else if c == '五' {
        '5'
    } else if c == '六' {
        '6'
    } else if c == '七' {
        '7'
    } else if c == '八' {
        '8'
    } else if c == '九' {
        '9'
    } else {
        c
    }
}

proof fn lemma_same_count_top(s: Seq<u8>, col: int, kind: u8, color: u8, lo: int, hi: int)
    requires
        lo <= hi,
    ensures
        same_count(s, col, kind, color, lo, hi + 1) == same_count(s, col, kind, color, lo, hi) + if s[hi * 9
            + col] != EMPTY && kind_of(s[hi * 9 + col]) == kind && color_of(s[hi * 9 + col]) == color {
            1nat
        } else {
            0nat
        },
    decreases hi - lo,
{
    if lo < hi {
        lemma_same_count_top(s, col, kind, color, lo + 1, hi);
    } else {
        assert(same_count(s, col, kind, color, hi + 1, hi + 1) == 0);
    }
}

proof fn lemma_swap_piece(q: u8, kind: u8)
    requires
        1 <= kind <= 7,
    ensures
        (swap_colour(q) != EMPTY && kind_of(swap_colour(q)) == kind && color_of(swap_colour(q)) == RED) == (q
            != EMPTY && kind_of(q) == kind && color_of(q) == BLACK),
        (swap_colour(q) != EMPTY && kind_of(swap_colour(q)) == kind && color_of(swap_colour(q)) == BLACK) == (q
            != EMPTY && kind_of(q) == kind && color_of(q) == RED),
{
}

/// Counting like pieces on a file of the half-turned board counts the other colour's
/// pieces on the mirrored file over the mirrored rows.
proof fn lemma_same_count_half_turn(s: Seq<u8>, col: int, kind: u8, lo: int, hi: int)
    requires
        s.len() == 90,
        0 <= col < 9,
        0 <= lo <= hi <= 10,
        1 <= kind <= 7,
    ensures
        same_count(half_turn(s), 8 - col, kind, RED, lo, hi) == same_count(s, col, kind, BLACK, 10 - hi, 10 - lo),
    decreases hi - lo,
{
    if lo < hi {
        lemma_same_count_half_turn(s, col, kind, lo + 1, hi);
        lemma_same_count_top(s, col, kind, BLACK, 10 - hi, 9 - lo);
        let t = half_turn(s);
        assert(t[lo * 9 + 8 - col] == swap_colour(s[(9 - lo) * 9 + col]));
        lemma_swap_piece(s[(9 - lo) * 9 + col], kind);
    }
}

/// Black's notation is Red's seen from the other side: the notation of a move of a Black
/// piece is that of the same move on the board turned half round with the colours
/// swapped, written with Black's piece names and Arabic digits. In particular Black's
/// front piece among like pieces on a file is the one nearest Red's side.
pub proof fn lemma_black_notation_mirrors_red(s: Seq<u8>, mv: Move)
    requires
        s.len() == 90,
        mv.from < 90,
        mv.to < 90,
        s[mv.from as int] != EMPTY,
        color_of(s[mv.from as int]) == BLACK,
        1 <= kind_of(s[mv.from as int]) <= 7,
    ensures
        move_notation_spec(s, mv) == move_notation_spec(
            half_turn(s),
            Move { from: (89 - mv.from) as u8, to: (89 - mv.to) as u8, captured: mv.captured },
        ).map_values(|c: char| black_char(c)),
{
    let t = half_turn(s);
    let rm = Move { from: (89 - mv.from) as u8, to: (89 - mv.to) as u8, captured: mv.captured };
    let p = s[mv.from as int];
    let kind = kind_of(p);
    let from_row = mv.from / 9;
    let from_col = mv.from % 9;
    let to_row = mv.to / 9;
    let to_col = mv.to % 9;
    assert(rm.from / 9 == 9 - from_row && rm.from % 9 == 8 - from_col);
    assert(rm.to / 9 == 9 - to_row && rm.to % 9 == 8 - to_col);
    assert(t[rm.from as int] == swap_colour(p));
    lemma_swap_piece(p, kind);
    assert(kind_of(swap_colour(p)) == kind && color_of(swap_colour(p)) == RED);
    lemma_same_count_half_turn(s, from_col as int, kind, 0, 10);
    lemma_same_count_half_turn(s, from_col as int, kind, 0, 9 - from_row);
    let n = same_count(s, from_col as int, kind, BLACK, 0, 10);
    let idx = same_count(s, from_col as int, kind, BLACK, from_row + 1, 10);
    let f = |c: char| black_char(c);
    let rn = move_notation_spec(t, rm);
    // the three parts of the red notation, each mapped
    let rprefix = if n >= 2 {
        seq![position_tag(n, idx)] + piece_name(RED, kind)
    } else {
        piece_name(RED, kind) + file_name_spec(RED, 8 - from_col)
    };
    let bprefix = if n >= 2 {
        seq![position_tag(n, idx)] + piece_name(BLACK, kind)
    } else {
        piece_name(BLACK, kind) + file_name_spec(BLACK, from_col as int)
    };
    assert(rprefix.map_values(f) =~= bprefix) by {
        assert(piece_name(RED, kind).map_values(f) =~= piece_name(BLACK, kind));
        assert(decimal((from_col + 1) as nat) == seq![digit_char((from_col + 1) as nat)]);
    }
    let action = if to_row == from_row {
        '平'
    } else if to_row > from_row {
        '进'
    } else {
        '退'
    };
    let dist = (if to_row >= from_row { to_row - from_row } else { from_row - to_row }) as nat;
    let rtail = if to_row == from_row || kind == KNIGHT || kind == ADVISOR || kind == BISHOP {
        file_name_spec(RED, 8 - to_col)
    } else {
        step_name_spec(RED, dist)
    };
    let btail = if to_row == from_row || kind == KNIGHT || kind == ADVISOR || kind == BISHOP {
        file_name_spec(BLACK, to_col as int)
    } else {
        step_name_spec(BLACK, dist)
    };
    assert(rtail.map_values(f) =~= btail) by {
        assert(decimal((to_col + 1) as nat) == seq![digit_char((to_col + 1) as nat)]);
        if dist <= 9 {
            assert(decimal(dist) == seq![digit_char(dist)]);
        }
    }
    assert(rn == rprefix.push(action) + rtail);
    assert(move_notation_spec(s, mv) == bprefix.push(action) + btail);
    assert((rprefix.push(action) + rtail).map_values(f) =~= bprefix.push(action) + btail) by {
        assert(rprefix.push(action).map_values(f) =~= bprefix.push(action));
    }
}

proof fn lemma_same_count_split(s: Seq<u8>, col: int, kind: u8, color: u8, lo: int, mid: int, hi: int)
    requires
        lo <= mid <= hi,
    ensures
        same_count(s, col, kind, color, lo, hi) == same_count(s, col, kind, color, lo, mid) + same_count(
            s,
            col,
            kind,
            color,
            mid,
            hi,
        ),
    decreases mid - lo,
{
    if lo < mid {
        lemma_same_count_split(s, col, kind, color, lo + 1, mid, hi);
    }
}

proof fn lemma_same_count_zero(s: Seq<u8>, col: int, kind: u8, color: u8, lo: int, hi: int)
    ensures
        same_count(s, col, kind, color, lo, hi) == 0 <==> forall|r: int|
            lo <= r < hi ==> !(s[#[trigger] (r * 9 + col)] != EMPTY && kind_of(s[r * 9 + col]) == kind && color_of(
                s[r * 9 + col],
            ) == color),
    decreases hi - lo,
{
    if lo < hi {
        lemma_same_count_zero(s, col, kind, color, lo + 1, hi);
        assert(s[lo * 9 + col] == s[lo * 9 + col]);
    }
}

/// Among two or more like Red pieces on a file, the notation tags the moving one 前
/// exactly when no like piece stands ahead of it (on a smaller row, nearer Black), and
/// 后 exactly when none stands behind it.
pub proof fn lemma_red_front_rear(s: Seq<u8>, mv: Move)
    requires
        s.len() == 90,
        mv.from < 90,
        s[mv.from as int] != EMPTY,
        color_of(s[mv.from as int]) == RED,
        same_count(s, mv.from as int % 9, kind_of(s[mv.from as int]), RED, 0, 10) >= 2,
    ensures
        move_notation_spec(s, mv)[0] == '前' <==> forall|r: int|
            0 <= r < mv.from / 9 ==> !(s[#[trigger] (r * 9 + mv.from % 9)] != EMPTY && kind_of(s[r * 9 + mv.from % 9])
                == kind_of(s[mv.from as int]) && color_of(s[r * 9 + mv.from % 9]) == RED),
        move_notation_spec(s, mv)[0] == '后' <==> forall|r: int|
            mv.from / 9 < r < 10 ==> !(s[#[trigger] (r * 9 + mv.from % 9)] != EMPTY && kind_of(s[r * 9 + mv.from % 9])
                == kind_of(s[mv.from as int]) && color_of(s[r * 9 + mv.from % 9]) == RED),
{
    let kind = kind_of(s[mv.from as int]);
    let row = mv.from / 9;
    let col = mv.from % 9;
    assert(row * 9 + col == mv.from);
    lemma_same_count_split(s, col as int, kind, RED, 0, row as int, 10);
    lemma_same_count_split(s, col as int, kind, RED, row as int, row + 1, 10);
    assert(same_count(s, col as int, kind, RED, row as int, row + 1) == 1);
    lemma_same_count_zero(s, col as int, kind, RED, 0, row as int);
    lemma_same_count_zero(s, col as int, kind, RED, row + 1, 10);
    let n = same_count(s, col as int, kind, RED, 0, 10);
    let idx = same_count(s, col as int, kind, RED, 0, row as int);
    assert(move_notation_spec(s, mv)[0] == position_tag(n, idx));
}

fn red_numeral_char(i: u8) -> (ch: char)
    requires
        i < 9,
    ensures
        ch == red_numeral(i as int),
{
    match i {
        0 => '一',
        1 => '二',
        2 => '三',
        3 => '四',
        4 => '五',
        5 => '六',
        6 => '七',
        7 => '八',
        _ => '九',
    }
}

fn push_name(out: &mut String, color: u8, kind: u8)
    ensures
        final(out)@ == old(out)@ + piece_name(color, kind),
{
    if kind == 0 || kind > 7 {
        assert(old(out)@ + Seq::<char>::empty() =~= old(out)@);
        return;
    }
    let ch = if color == RED {
        match kind {
            1 => '帅',
            2 => '仕',
            3 => '相',
            4 => '马',
            5 => '车',
            6 => '炮',
            _ => '兵',
        }
    } else {
        match kind {
            1 => '将',
            2 => '士',
            3 => '象',
            4 => '马',
            5 => '车',
            6 => '炮',
            _ => '卒',
        }
    };
    push_char(out, ch);
    assert(final(out)@ =~= old(out)@ + piece_name(color, kind));
}

fn file_name(out: &mut String, color: u8, col: u8)
    requires
        col < 9,
    ensures
        final(out)@ == old(out)@ + file_name_spec(color, col as int),
{
    if color == RED {
        push_char(out, red_numeral_char(8 - col));
        assert(final(out)@ =~= old(out)@ + file_name_spec(color, col as int));
    } else {
        push_decimal(out, (col + 1) as u128);
    }
}

fn step_name(out: &mut String, color: u8, n: u8)
    ensures
        final(out)@ == old(out)@ + step_name_spec(color, n as nat),
{
    if color == RED {
        // Red uses Chinese numerals
        if n >= 1 && n <= 9 {
            push_char(out, red_numeral_char(n - 1));
            assert(final(out)@ =~= old(out)@ + step_name_spec(color, n as nat));
            return;
        }
    }
    push_decimal(out, n as u128);
}

/// Chinese notation of a move; `b` is the board before the move.
pub fn move_notation(b: &Board, mv: Move) -> (r: String)
    requires
        mv.from < 90,
        b.squares@[mv.from as int] == EMPTY ==> mv.to < 90,
    ensures
        r@ == move_notation_spec(b.squares@, mv),
{
    let p = b.piece_at(mv.from);
    if p == EMPTY {
        return mv.iccs();
    }
    let color = piece_color(p);
    let kind = piece_kind(p);
    let from_row = mv.from / 9;
    let from_col = mv.from % 9;
    let to_row = mv.to / 9;
    let to_col = mv.to % 9;
    let ghost s = b.squares@;
    // like pieces on the same file (front / rear disambiguation); "front" is the
    // direction the side advances in
    let mut n: u8 = 0;
    let mut ahead: u8 = 0;
    let mut r: u8 = 10;
    while r > 0
        invariant
            0 <= r <= 10,
            s == b.squares@,
            from_col < 9,
            from_row < 10,
            n == same_count(s, from_col as int, kind, color, r as int, 10),
            n <= 10 - r,
            ahead <= n,
            color != RED ==> ahead == same_count(
                s,
                from_col as int,
                kind,
                color,
                if r > from_row + 1 { r as int } else { from_row + 1 },
                10,
            ),
            color == RED ==> ahead == (if r >= from_row {
                0
            } else {
                same_count(s, from_col as int, kind, color, r as int, from_row as int)
            }),
        decreases r,
    {
        r -= 1;
        let q = b.piece_at(r * 9 + from_col);
        if q != EMPTY && piece_kind(q) == kind && piece_color(q) == color {
            n += 1;
            if (color == RED && r < from_row) || (color != RED && r > from_row) {
                ahead += 1;
            }
        }
    }
    let mut out = String::new();
    if n >= 2 {
        let tag = if n == 2 {
            if ahead == 0 {
                '前'
            } else {
                '后'
            }
        } else if n == 3 {
            if ahead == 0 {
                '前'
            } else if ahead == 2 {
                '后'
            } else {
                '中'
            }
        } else {
            if ahead == 0 {
                '前'
            } else if ahead == n - 1 {
                '后'
            } else {
                '中'
            }
        };
        push_char(&mut out, tag);
        push_name(&mut out, color, kind);
    } else {
        push_name(&mut out, color, kind);
        file_name(&mut out, color, from_col);
    }
    let forward = if color == RED {
        to_row < from_row
    } else {
        to_row > from_row
    };
    let action = if to_row == from_row {
        '平'
    } else if forward {
        '进'
    } else {
        '退'
    };
    push_char(&mut out, action);
    if to_row == from_row || kind == KNIGHT || kind == ADVISOR || kind == BISHOP {
        file_name(&mut out, color, to_col);
    } else {
        let d = if to_row >= from_row {
            to_row - from_row
        } else {
            from_row - to_row
        };
        step_name(&mut out, color, d);
    }
    proof {
        assert(out@ =~= move_notation_spec(b.squares@, mv));
    }
    out
}

} // verus!
