//! Reading and writing positions in FEN.
use vstd::prelude::*;

use crate::board::{
    color_index, color_of, kind_of, last_king, lemma_piece_bits, make_piece, position_hash, red_piece, Board,
    BoardView, ADVISOR, BISHOP, BLACK, CANNON, EMPTY, KING, KNIGHT, PAWN, RED, ROOK,
};
use crate::text::{chars_of, decimal, digit_char, push_char, push_decimal, push_str, str_lowercase, to_lowercase};

verus! {

/// Unicode white space, as `char::is_whitespace` defines it.
pub open spec fn is_ws(ch: char) -> bool {
    let u = ch as u32;
    (9 <= u <= 13) || u == 32 || u == 0x85 || u == 0xA0 || u == 0x1680 || (0x2000 <= u <= 0x200A)
        || u == 0x2028 || u == 0x2029 || u == 0x202F || u == 0x205F || u == 0x3000
}

/// First index at or after `i` that is not white space (or the length).
pub open spec fn skip_ws(cs: Seq<char>, i: int) -> int
    decreases cs.len() - i,
{
    if i >= cs.len() || i < 0 {
        cs.len() as int
    } else if is_ws(cs[i]) {
        skip_ws(cs, i + 1)
    } else {
        i
    }
}

/// First index at or after `i` that is white space (or the length).
pub open spec fn word_end(cs: Seq<char>, i: int) -> int
    decreases cs.len() - i,
{
    if i >= cs.len() || i < 0 {
        cs.len() as int
    } else if !is_ws(cs[i]) {
        word_end(cs, i + 1)
    } else {
        i
    }
}

/// Why a FEN text was refused.
pub enum FenError {
    /// No field at all.
    Empty,
    /// The board field does not have ten rows (the count found).
    RowCount(nat),
    /// A character that is neither a digit nor a piece letter.
    BadChar(char),
    /// A piece beyond the ninth file.
    RowTooLong,
    /// A row that does not describe exactly nine files (the row's index).
    RowLength(nat),
    /// A side field other than r, w or b (its lower-case form).
    BadSide(Seq<char>),
}

/// Text of a FEN error.
pub open spec fn fen_error_message(e: FenError) -> Seq<char> {
    match e {
        FenError::Empty => "FEN 为空"@,
        FenError::RowCount(n) => "FEN 应有 10 行，实际 "@ + decimal(n),
        FenError::BadChar(ch) => "非法 FEN 字符: "@.push(ch),
        FenError::RowTooLong => "FEN 行超长"@,
        FenError::RowLength(r) => "FEN 第 "@ + decimal(r) + " 行长度错误"@,
        FenError::BadSide(o) => "非法行棋方: "@ + o,
    }
}

/// Piece code of a FEN piece letter (upper case Red, lower case Black).
pub open spec fn piece_of_char(ch: char) -> Option<u8> {
    if ch == 'K' {
        Some((RED + KING) as u8)
    } else if ch == 'A' {
        Some((RED + ADVISOR) as u8)
    } else if ch == 'B' {
        Some((RED + BISHOP) as u8)
    } else if ch == 'N' {
        Some((RED + KNIGHT) as u8)
    } else if ch == 'R' {
        Some((RED + ROOK) as u8)
    } else if ch == 'C' {
        Some((RED + CANNON) as u8)
    } else if ch == 'P' {
        Some((RED + PAWN) as u8)
    } else if ch == 'k' {
        Some((BLACK + KING) as u8)
    } else if ch == 'a' {
        Some((BLACK + ADVISOR) as u8)
    } else if ch == 'b' {
        Some((BLACK + BISHOP) as u8)
    } else if ch == 'n' {
        Some((BLACK + KNIGHT) as u8)
    } else if ch == 'r' {
        Some((BLACK + ROOK) as u8)
    } else if ch == 'c' {
        Some((BLACK + CANNON) as u8)
    } else if ch == 'p' {
        Some((BLACK + PAWN) as u8)
    } else {
        None
    }
}

/// An ASCII decimal digit.
pub open spec fn is_digit(ch: char) -> bool {
    '0' <= ch <= '9'
}

/// Number of '/' among the first `n` characters.
pub open spec fn slash_count(t: Seq<char>, n: int) -> nat
    decreases n,
{
    if n <= 0 {
        0
    } else {
        slash_count(t, n - 1) + if t[n - 1] == '/' {
            1nat
        } else {
            0nat
        }
    }
}

/// Reads the board field from index `i` on, in row `r` at file `c`, with the squares
/// filled so far: digits skip files, letters place pieces, '/' ends a row.
pub open spec fn parse_rows(t: Seq<char>, i: int, r: nat, c: nat, sq: Seq<u8>) -> Result<
    Seq<u8>,
    FenError,
>
    decreases t.len() - i,
{
    if i >= t.len() || i < 0 {
        if c != 9 {
            Err(FenError::RowLength(r))
        } else {
            Ok(sq)
        }
    } else {
        let ch = t[i];
        if ch == '/' {
            if c != 9 {
                Err(FenError::RowLength(r))
            } else {
                parse_rows(t, i + 1, r + 1, 0, sq)
            }
        } else if is_digit(ch) {
            parse_rows(t, i + 1, r, c + (ch as u32 - 48) as nat, sq)
        } else if piece_of_char(ch) is None {
            Err(FenError::BadChar(ch))
        } else if c > 8 {
            Err(FenError::RowTooLong)
        } else {
            parse_rows(t, i + 1, r, c + 1, sq.update((r * 9 + c) as int, piece_of_char(ch).unwrap()))
        }
    }
}

/// The side to move named by the optional second field.
pub open spec fn parse_side(field: Option<Seq<char>>) -> Result<u8, FenError> {
    match field {
        None => Ok(RED),
        Some(f) => {
            // the lower-case letters need no conversion
            let l = if f == "r"@ || f == "w"@ || f == "b"@ {
                f
            } else {
                str_lowercase(f)
            };
            if l == "r"@ || l == "w"@ {
                Ok(RED)
            } else if l == "b"@ {
                Ok(BLACK)
            } else {
                Err(FenError::BadSide(l))
            }
        },
    }
}

/// The squares and side described by a FEN text: the first white-space separated
/// field is the board (ten rows separated by '/'), the optional second the side to move;
/// further fields are ignored.
pub open spec fn parse_fen(cs: Seq<char>) -> Result<(Seq<u8>, u8), FenError> {
    let a0 = skip_ws(cs, 0);
    if a0 >= cs.len() {
        Err(FenError::Empty)
    } else {
        let e0 = word_end(cs, a0);
        let board = cs.subrange(a0, e0);
        let a1 = skip_ws(cs, e0);
        let side_field = if a1 >= cs.len() {
            None
        } else {
            Some(cs.subrange(a1, word_end(cs, a1)))
        };
        if slash_count(board, board.len() as int) != 9 {
            Err(FenError::RowCount(slash_count(board, board.len() as int) + 1))
        } else {
            match parse_rows(board, 0, 0, 0, Seq::new(90, |i: int| EMPTY)) {
                Err(e) => Err(e),
                Ok(sq) => match parse_side(side_field) {
                    Err(e) => Err(e),
                    Ok(side) => Ok((sq, side)),
                },
            }
        }
    }
}

/// A board freshly set up with `squares` and `side`: hash and king slots computed,
/// no moves made, the history holding the current hash only.
pub open spec fn fresh_board(squares: Seq<u8>, side: u8) -> BoardView {
    BoardView {
        squares,
        side,
        hash: position_hash(squares, side),
        king_sq: seq![last_king(squares, RED, 90), last_king(squares, BLACK, 90)],
        undo: Seq::empty(),
        history: seq![position_hash(squares, side)],
    }
}

/// FEN letter of a piece: upper case for Red.
pub open spec fn piece_char(p: u8) -> char {
    let k = kind_of(p);
    let ch = if k == KING {
        'k'
    } else if k == ADVISOR {
        'a'
    } else if k == BISHOP {
        'b'
    } else if k == KNIGHT {
        'n'
    } else if k == ROOK {
        'r'
    } else if k == CANNON {
        'c'
    } else {
        'p'
    };
    if red_piece(p) {
        ((ch as u32) - 32) as char
    } else {
        ch
    }
}

/// FEN text of row `r` from file `c` on, after `empty` empty squares not yet written.
pub open spec fn row_fen(s: Seq<u8>, r: int, c: int, empty: nat) -> Seq<char>
    decreases 9 - c,
{
    if c >= 9 {
        if empty > 0 {
            seq![digit_char(empty)]
        } else {
            Seq::empty()
        }
    } else if s[r * 9 + c] == EMPTY {
        row_fen(s, r, c + 1, empty + 1)
    } else {
        (if empty > 0 {
            seq![digit_char(empty)]
        } else {
            Seq::empty()
        }) + seq![piece_char(s[r * 9 + c])] + row_fen(s, r, c + 1, 0)
    }
}

/// FEN text of the first `n` rows, separated by '/'.
pub open spec fn rows_fen(s: Seq<u8>, n: int) -> Seq<char>
    decreases n,
{
    if n <= 0 {
        Seq::empty()
    } else if n == 1 {
        row_fen(s, 0, 0, 0)
    } else {
        rows_fen(s, n - 1).push('/') + row_fen(s, n - 1, 0, 0)
    }
}

/// FEN text of a position: the ten rows, a space, and `r` or `b` for the side to move.
pub open spec fn to_fen_spec(s: Seq<u8>, side: u8) -> Seq<char> {
    rows_fen(s, 10) + seq![' ', if side == RED { 'r' } else { 'b' }]
}

fn is_whitespace(ch: char) -> (r: bool)
    ensures
        r == is_ws(ch),
{
    let u = ch as u32;
    (9 <= u && u <= 13) || u == 32 || u == 0x85 || u == 0xA0 || u == 0x1680 || (0x2000 <= u && u
        <= 0x200A) || u == 0x2028 || u == 0x2029 || u == 0x202F || u == 0x205F || u == 0x3000
}

fn skip_whitespace(cs: &Vec<char>, i: usize) -> (r: usize)
    requires
        i <= cs@.len(),
    ensures
        r == skip_ws(cs@, i as int),
        i <= r <= cs@.len(),
    decreases cs@.len() - i,
{
    if i >= cs.len() {
        i
    } else if is_whitespace(cs[i]) {
        skip_whitespace(cs, i + 1)
    } else {
        i
    }
}

fn find_word_end(cs: &Vec<char>, i: usize) -> (r: usize)
    requires
        i <= cs@.len(),
    ensures
        r == word_end(cs@, i as int),
        i <= r <= cs@.len(),
    decreases cs@.len() - i,
{
    if i >= cs.len() {
        i
    } else if !is_whitespace(cs[i]) {
        find_word_end(cs, i + 1)
    } else {
        i
    }
}

fn piece_code(ch: char) -> (r: Option<u8>)
    ensures
        r == piece_of_char(ch),
{
    let (color, kind) = match ch {
        'K' => (RED, KING),
        'A' => (RED, ADVISOR),
        'B' => (RED, BISHOP),
        'N' => (RED, KNIGHT),
        'R' => (RED, ROOK),
        'C' => (RED, CANNON),
        'P' => (RED, PAWN),
        'k' => (BLACK, KING),
        'a' => (BLACK, ADVISOR),
        'b' => (BLACK, BISHOP),
        'n' => (BLACK, KNIGHT),
        'r' => (BLACK, ROOK),
        'c' => (BLACK, CANNON),
        'p' => (BLACK, PAWN),
        _ => return None,
    };
    Some(make_piece(color, kind))
}

/// The text of a FEN error.
fn error_text(e: Ghost<FenError>, kind: u8, n: u128, ch: char, other: &str) -> (r: String)
    requires
        kind < 6,
        kind == 0 ==> e@ == FenError::Empty,
        kind == 1 ==> e@ == FenError::RowCount(n as nat),
        kind == 2 ==> e@ == FenError::BadChar(ch),
        kind == 3 ==> e@ == FenError::RowTooLong,
        kind == 4 ==> e@ == FenError::RowLength(n as nat),
        kind == 5 ==> e@ == FenError::BadSide(other@),
    ensures
        r@ == fen_error_message(e@),
{
    if kind == 0 {
        String::from_str("FEN 为空")
    } else if kind == 1 {
        let mut s = String::from_str("FEN 应有 10 行，实际 ");
        push_decimal(&mut s, n);
        s
    } else if kind == 2 {
        let mut s = String::from_str("非法 FEN 字符: ");
        push_char(&mut s, ch);
        s
    } else if kind == 3 {
        String::from_str("FEN 行超长")
    } else if kind == 4 {
        let mut s = String::from_str("FEN 第 ");
        push_decimal(&mut s, n);
        push_str(&mut s, " 行长度错误");
        s
    } else {
        let mut s = String::from_str("非法行棋方: ");
        push_str(&mut s, other);
        s
    }
}

proof fn lemma_slash_count_mono(t: Seq<char>, a: int, b: int)
    requires
        a <= b,
    ensures
        slash_count(t, a) <= slash_count(t, b),
    decreases b - a,
{
    if a < b {
        lemma_slash_count_mono(t, a, b - 1);
    }
}

/// Reads the board field, returning the squares or the error (as the error's kind code,
/// number and character).
fn read_rows(t: &Vec<char>) -> (r: Result<[u8; 90], (u8, usize, char)>)
    requires
        slash_count(t@, t@.len() as int) == 9,
    ensures
        match parse_rows(t@, 0, 0, 0, Seq::new(90, |i: int| EMPTY)) {
            Ok(sq) => r matches Ok(a) && a@ == sq,
            Err(FenError::BadChar(ch)) => r == Err::<[u8; 90], (u8, usize, char)>((2u8, 0usize, ch)),
            Err(FenError::RowTooLong) => r matches Err(x) && x.0 == 3,
            Err(FenError::RowLength(n)) => r matches Err(x) && x.0 == 4 && x.1 == n,
            Err(_) => false,
        },
{
    let mut squares = [EMPTY; 90];
    let mut i: usize = 0;
    let mut r: usize = 0;
    let mut c: usize = 0;
    let ghost mut cs: nat = 0;
    proof {
        assert(squares@ =~= Seq::new(90, |i: int| EMPTY));
    }
    while i < t.len()
        invariant
            0 <= i <= t@.len(),
            slash_count(t@, t@.len() as int) == 9,
            r == slash_count(t@, i as int),
            c <= 10,
            c == (if cs >= 10 { 10 } else { cs }),
            parse_rows(t@, i as int, r as nat, cs, squares@) == parse_rows(
                t@,
                0,
                0,
                0,
                Seq::new(90, |i: int| EMPTY),
            ),
        decreases t@.len() - i,
    {
        proof {
            lemma_slash_count_mono(t@, i + 1, t@.len() as int);
        }
        let ch = t[i];
        if ch == '/' {
            if c != 9 {
                return Err((4, r, ch));
            }
            r += 1;
            c = 0;
            proof {
                cs = 0;
            }
        } else if '0' <= ch && ch <= '9' {
            let d = (ch as u32 - 48) as usize;
            c = if c + d > 10 {
                10
            } else {
                c + d
            };
            proof {
                cs = cs + d as nat;
            }
        } else {
            let p = match piece_code(ch) {
                Some(p) => p,
                None => return Err((2, 0, ch)),
            };
            if c > 8 {
                return Err((3, 0, ch));
            }
            squares[r * 9 + c] = p;
            c += 1;
            proof {
                cs = cs + 1;
            }
        }
        i += 1;
    }
    if c != 9 {
        return Err((4, r, ' '));
    }
    Ok(squares)
}

impl Board {
    /// A board set up with `squares` and `side` (hash, king slots and history computed).
    fn fresh(squares: [u8; 90], side: u8) -> (b: Board)
        ensures
            b@ == fresh_board(squares@, side),
    {
        let mut b = Board {
            squares,
            side,
            hash: 0,
            king_sq: [255; 2],
            undo_stack: Vec::new(),
            history_hashes: Vec::new(),
        };
        b.recompute_derived();
        proof {
            assert(b@.undo =~= Seq::<crate::board::Undo>::empty());
        }
        b
    }

    /// Reads a position from FEN.
    pub fn from_fen(fen: &str) -> (r: Result<Board, String>)
        ensures
            match parse_fen(fen@) {
                Ok((sq, side)) => r matches Ok(b) && b@ == fresh_board(sq, side),
                Err(e) => r matches Err(m) && m@ == fen_error_message(e),
            },
    {
        let cs = chars_of(fen);
        let a0 = skip_whitespace(&cs, 0);
        if a0 >= cs.len() {
            return Err(error_text(Ghost(FenError::Empty), 0, 0, ' ', ""));
        }
        let e0 = find_word_end(&cs, a0);
        let mut board_field: Vec<char> = Vec::new();
        let mut slashes: usize = 0;
        let mut i = a0;
        while i < e0
            invariant
                a0 <= i <= e0 <= cs@.len(),
                board_field@ == cs@.subrange(a0 as int, i as int),
                slashes == slash_count(board_field@, board_field@.len() as int),
                slashes <= i - a0,
            decreases e0 - i,
        {
            let ghost before = board_field@;
            board_field.push(cs[i]);
            proof {
                assert(board_field@.take(before.len() as int) =~= before);
                assert forall|n: int| n <= before.len() implies slash_count(board_field@, n)
                    == slash_count(before, n) by {
                    lemma_slash_prefix(board_field@, before, n);
                }
            }
            if cs[i] == '/' {
                slashes += 1;
            }
            i += 1;
        }
        let a1 = skip_whitespace(&cs, e0);
        if slashes != 9 {
            return Err(error_text(Ghost(FenError::RowCount((slashes + 1) as nat)), 1, slashes as u128 + 1, ' ', ""));
        }
        let squares = match read_rows(&board_field) {
            Ok(sq) => sq,
            Err((kind, n, ch)) => {
                let ghost e = parse_rows(
                    board_field@,
                    0,
                    0,
                    0,
                    Seq::new(90, |i: int| EMPTY),
                )->Err_0;
                return Err(error_text(Ghost(e), kind, n as u128, ch, ""));
            },
        };
        let side = if a1 >= cs.len() {
            RED
        } else {
            let e1 = find_word_end(&cs, a1);
            let mut field = String::new();
            let mut j = a1;
            while j < e1
                invariant
                    a1 <= j <= e1 <= cs@.len(),
                    field@ == cs@.subrange(a1 as int, j as int),
                decreases e1 - j,
            {
                push_char(&mut field, cs[j]);
                proof {
                    assert(field@ =~= cs@.subrange(a1 as int, j + 1));
                }
                j += 1;
            }
            let lower = if field == String::from_str("r") || field == String::from_str("w") || field
                == String::from_str("b") {
                field
            } else {
                to_lowercase(field.as_str())
            };
            if lower == String::from_str("r") || lower == String::from_str("w") {
                RED
            } else if lower == String::from_str("b") {
                BLACK
            } else {
                return Err(
                    error_text(Ghost(FenError::BadSide(lower@)), 5, 0, ' ', lower.as_str()),
                );
            }
        };
        Ok(Board::fresh(squares, side))
    }

    /// The standard starting position, Red to move.
    pub fn initial() -> (b: Board)
        ensures
            b@ == fresh_board(initial_squares(), RED),
    {
        let squares: [u8; 90] = [
            13, 12, 11, 10, 9, 10, 11, 12, 13,
            0, 0, 0, 0, 0, 0, 0, 0, 0,
            0, 14, 0, 0, 0, 0, 0, 14, 0,
            15, 0, 15, 0, 15, 0, 15, 0, 15,
            0, 0, 0, 0, 0, 0, 0, 0, 0,
            0, 0, 0, 0, 0, 0, 0, 0, 0,
            7, 0, 7, 0, 7, 0, 7, 0, 7,
            0, 6, 0, 0, 0, 0, 0, 6, 0,
            0, 0, 0, 0, 0, 0, 0, 0, 0,
            5, 4, 3, 2, 1, 2, 3, 4, 5,
        ];
        assert(squares@ =~= initial_squares());
        Board::fresh(squares, RED)
    }

    /// The position in FEN.
    pub fn to_fen(&self) -> (r: String)
        ensures
            r@ == to_fen_spec(self.squares@, self.side),
    {
        let mut out = String::new();
        let mut r: usize = 0;
        while r < 10
            invariant
                0 <= r <= 10,
                out@ == rows_fen(self.squares@, r as int),
            decreases 10 - r,
        {
            if r > 0 {
                push_char(&mut out, '/');
            }
            let ghost before = out@;
            let mut empty: usize = 0;
            let mut c: usize = 0;
            while c < 9
                invariant
                    0 <= c <= 9,
                    r < 10,
                    empty <= c,
                    out@ + row_fen(self.squares@, r as int, c as int, empty as nat) == (if r > 0 {
                        before
                    } else {
                        before
                    }) + row_fen(self.squares@, r as int, 0, 0),
                decreases 9 - c,
            {
                let p = self.squares[r * 9 + c];
                if p == EMPTY {
                    empty += 1;
                } else {
                    let ghost mid = out@;
                    let ghost e0 = empty;
                    if empty > 0 {
                        push_decimal(&mut out, empty as u128);
                        empty = 0;
                    }
                    push_char(&mut out, fen_char(p));
                    proof {
                        let tail = row_fen(self.squares@, r as int, c + 1, 0);
                        assert(decimal(1) =~= seq![digit_char(1)]);
                        lemma_single_digit(e0 as nat);
                        assert(out@ + tail =~= mid + row_fen(self.squares@, r as int, c as int, e0 as nat));
                    }
                }
                c += 1;
            }
            if empty > 0 {
                push_decimal(&mut out, empty as u128);
            }
            proof {
                lemma_single_digit(empty as nat);
                assert(out@ =~= before + row_fen(self.squares@, r as int, 0, 0));
                if r > 0 {
                    assert(out@ =~= rows_fen(self.squares@, r as int).push('/') + row_fen(
                        self.squares@,
                        r as int,
                        0,
                        0,
                    ));
                }
            }
            r += 1;
        }
        push_char(&mut out, ' ');
        push_char(
            &mut out,
            if self.side == RED {
                'r'
            } else {
                'b'
            },
        );
        assert(out@ =~= to_fen_spec(self.squares@, self.side));
        out
    }
}

/// Decimal text of a number below ten is its digit.
proof fn lemma_single_digit(n: nat)
    requires
        n < 10,
    ensures
        decimal(n) == seq![digit_char(n)],
{
}

/// The FEN letter of a piece.
fn fen_char(p: u8) -> (ch: char)
    ensures
        ch == piece_char(p),
{
    let ch = match p & 7 {
        1 => 'k',
        2 => 'a',
        3 => 'b',
        4 => 'n',
        5 => 'r',
        6 => 'c',
        _ => 'p',
    };
    proof {
        lemma_piece_bits(p);
    }
    if p != EMPTY && (p & 8) == 0 {
        ((ch as u8) - 32) as char
    } else {
        ch
    }
}

/// Slash counts of a prefix agree with those of the longer sequence.
proof fn lemma_slash_prefix(t: Seq<char>, u: Seq<char>, n: int)
    requires
        u.len() <= t.len(),
        t.take(u.len() as int) == u,
        n <= u.len(),
    ensures
        slash_count(t, n) == slash_count(u, n),
    decreases n,
{
    if n > 0 {
        assert(t[n - 1] == t.take(u.len() as int)[n - 1]);
        lemma_slash_prefix(t, u, n - 1);
    }
}

/// The squares of the standard starting position.
pub open spec fn initial_squares() -> Seq<u8> {
    seq![
        13u8, 12, 11, 10, 9, 10, 11, 12, 13,
        0, 0, 0, 0, 0, 0, 0, 0, 0,
        0, 14, 0, 0, 0, 0, 0, 14, 0,
        15, 0, 15, 0, 15, 0, 15, 0, 15,
        0, 0, 0, 0, 0, 0, 0, 0, 0,
        0, 0, 0, 0, 0, 0, 0, 0, 0,
        7, 0, 7, 0, 7, 0, 7, 0, 7,
        0, 6, 0, 0, 0, 0, 0, 6, 0,
        0, 0, 0, 0, 0, 0, 0, 0, 0,
        5, 4, 3, 2, 1, 2, 3, 4, 5,
    ]
}

proof fn lemma_parse_rows_len(t: Seq<char>, i: int, r: nat, c: nat, sq: Seq<u8>)
    requires
        0 <= i <= t.len(),
        sq.len() == 90,
        r + (slash_count(t, t.len() as int) - slash_count(t, i)) <= 9,
        parse_rows(t, i, r, c, sq) is Ok,
    ensures
        parse_rows(t, i, r, c, sq)->Ok_0.len() == 90,
    decreases t.len() - i,
{
    if i < t.len() {
        let ch = t[i];
        lemma_slash_count_mono(t, i + 1, t.len() as int);
        assert(slash_count(t, i + 1) == slash_count(t, i) + if t[i] == '/' { 1nat } else { 0nat });
        if ch == '/' {
            lemma_parse_rows_len(t, i + 1, r + 1, 0, sq);
        } else if is_digit(ch) {
            lemma_parse_rows_len(t, i + 1, r, c + (ch as u32 - 48) as nat, sq);
        } else if piece_of_char(ch) is Some && c <= 8 {
            lemma_parse_rows_len(t, i + 1, r, c + 1, sq.update((r * 9 + c) as int, piece_of_char(ch).unwrap()));
        }
    }
}

proof fn lemma_last_king_range(s: Seq<u8>, color: u8, n: nat)
    requires
        n <= 90,
    ensures
        last_king(s, color, n) < 90 || last_king(s, color, n) == 255,
    decreases n,
{
    if n > 0 {
        lemma_last_king_range(s, color, (n - 1) as nat);
    }
}

/// A position read from FEN is well formed, with Red or Black to move.
pub proof fn lemma_parsed_board_wf(cs: Seq<char>)
    requires
        parse_fen(cs) is Ok,
    ensures
        fresh_board(parse_fen(cs)->Ok_0.0, parse_fen(cs)->Ok_0.1).wf(),
        parse_fen(cs)->Ok_0.1 == RED || parse_fen(cs)->Ok_0.1 == BLACK,
{
    let a0 = skip_ws(cs, 0);
    let e0 = word_end(cs, a0);
    let board = cs.subrange(a0, e0);
    assert(slash_count(board, 0) == 0);
    lemma_parse_rows_len(board, 0, 0, 0, Seq::new(90, |i: int| EMPTY));
    let (sq, side) = parse_fen(cs)->Ok_0;
    lemma_fresh_board_wf(sq, side);
}

/// A board freshly set up on a full set of squares is well formed.
pub proof fn lemma_fresh_board_wf(squares: Seq<u8>, side: u8)
    requires
        squares.len() == 90,
    ensures
        fresh_board(squares, side).wf(),
{
    lemma_last_king_range(squares, RED, 90);
    lemma_last_king_range(squares, BLACK, 90);
    let v = fresh_board(squares, side);
    assert(v.king_sq[0] == last_king(squares, RED, 90));
    assert(v.king_sq[1] == last_king(squares, BLACK, 90));
}

// ---------------------------------------------------------------------------
// Writing a position and reading it back
// ---------------------------------------------------------------------------

/// A square's content that FEN can write: empty, or a Red or Black piece of one of the
/// seven kinds.
pub open spec fn fen_piece(p: u8) -> bool {
    p == EMPTY || (1 <= p <= 7) || (9 <= p <= 15)
}

/// Every square of `s` holds something FEN can write.
pub open spec fn fen_squares(s: Seq<u8>) -> bool {
    s.len() == 90 && forall|i: int| 0 <= i < 90 ==> fen_piece(#[trigger] s[i])
}

/// The letter of a piece reads back as the piece, and is neither white space, a digit
/// nor a slash.
proof fn lemma_piece_char(p: u8)
    requires
        fen_piece(p),
        p != EMPTY,
    ensures
        piece_of_char(piece_char(p)) == Some(p),
        !is_ws(piece_char(p)),
        !is_digit(piece_char(p)),
        piece_char(p) != '/',
{
    if p == 1 {
    } else if p == 2 {
    } else if p == 3 {
    } else if p == 4 {
    } else if p == 5 {
    } else if p == 6 {
    } else if p == 7 {
    } else if p == 9 {
    } else if p == 10 {
    } else if p == 11 {
    } else if p == 12 {
    } else if p == 13 {
    } else if p == 14 {
    } else {
        assert(p == 15);
    }
}

/// Reading from index `i` depends only on the text from `k` on.
proof fn lemma_parse_rows_shift(t: Seq<char>, i: int, k: int, r: nat, c: nat, sq: Seq<u8>)
    requires
        0 <= k <= i <= t.len(),
    ensures
        parse_rows(t, i, r, c, sq) == parse_rows(t.skip(k), i - k, r, c, sq),
    decreases t.len() - i,
{
    if i < t.len() {
        let ch = t[i];
        assert(t.skip(k)[i - k] == ch);
        if ch == '/' {
            lemma_parse_rows_shift(t, i + 1, k, r + 1, 0, sq);
        } else if is_digit(ch) {
            lemma_parse_rows_shift(t, i + 1, k, r, c + (ch as u32 - 48) as nat, sq);
        } else if piece_of_char(ch) is Some && c <= 8 {
            lemma_parse_rows_shift(t, i + 1, k, r, c + 1, sq.update((r * 9 + c) as int, piece_of_char(ch).unwrap()));
        }
    }
}

/// The squares of `s` below `n`, the others empty.
pub open spec fn filled(s: Seq<u8>, n: int) -> Seq<u8> {
    Seq::new(90, |k: int| if k < n { s[k] } else { EMPTY })
}

/// Reading the rest of row `r` as written from file `c` with `e` empty squares pending,
/// then `rest`, from file `c - e` with the squares before file `c` filled in: the row
/// ends at file 9 with all its squares filled, and `rest` is read from there.
proof fn lemma_row_read(s: Seq<u8>, r: int, c: int, e: nat, rest: Seq<char>)
    requires
        fen_squares(s),
        0 <= r <= 9,
        0 <= e <= c <= 9,
        forall|k: int| c - e <= k < c ==> s[#[trigger] (r * 9 + k)] == EMPTY,
    ensures
        parse_rows(row_fen(s, r, c, e) + rest, 0, r as nat, (c - e) as nat, filled(s, r * 9 + c))
            == parse_rows(rest, 0, r as nat, 9, filled(s, r * 9 + 9)),
    decreases 9 - c,
{
    let sq = filled(s, r * 9 + c);
    if c >= 9 {
        if e > 0 {
            let t = row_fen(s, r, c, e) + rest;
            assert(t[0] == digit_char(e));
            lemma_parse_rows_shift(t, 1, 1, r as nat, 9, sq);
            assert(t.skip(1) =~= rest);
        } else {
            assert(row_fen(s, r, c, e) + rest =~= rest);
        }
    } else if s[r * 9 + c] == EMPTY {
        assert(filled(s, r * 9 + c + 1) =~= sq);
        lemma_row_read(s, r, c + 1, e + 1, rest);
    } else {
        let p = s[r * 9 + c];
        lemma_piece_char(p);
        let head: Seq<char> = if e > 0 {
            seq![digit_char(e)]
        } else {
            Seq::empty()
        };
        let tail = row_fen(s, r, c + 1, 0) + rest;
        let t = row_fen(s, r, c, e) + rest;
        assert(t =~= head + (seq![piece_char(p)] + tail));
        let u = seq![piece_char(p)] + tail;
        // the pending empties, then the piece
        assert(parse_rows(u, 0, r as nat, c as nat, sq) == parse_rows(tail, 0, r as nat, (c + 1) as nat, filled(s, r * 9 + c + 1))) by {
            assert(sq.update(r * 9 + c, p) =~= filled(s, r * 9 + c + 1));
            lemma_parse_rows_shift(u, 1, 1, r as nat, (c + 1) as nat, sq.update(r * 9 + c, p));
            assert(u.skip(1) =~= tail);
        }
        if e > 0 {
            assert(t[0] == digit_char(e));
            lemma_parse_rows_shift(t, 1, 1, r as nat, c as nat, sq);
            assert(t.skip(1) =~= u);
        } else {
            assert(t =~= u);
        }
        lemma_row_read(s, r, c + 1, 0, rest);
    }
}

/// The text of rows `r` to 9, each after a '/'.
pub open spec fn rows_after(s: Seq<u8>, r: int) -> Seq<char>
    decreases 10 - r,
{
    if r >= 10 || r < 0 {
        Seq::empty()
    } else {
        seq!['/'] + row_fen(s, r, 0, 0) + rows_after(s, r + 1)
    }
}

proof fn lemma_rows_split(s: Seq<u8>, n: int)
    requires
        1 <= n <= 10,
    ensures
        rows_fen(s, n) + rows_after(s, n) == row_fen(s, 0, 0, 0) + rows_after(s, 1),
    decreases n,
{
    if n > 1 {
        lemma_rows_split(s, n - 1);
        assert(rows_fen(s, n) + rows_after(s, n) =~= rows_fen(s, n - 1) + rows_after(s, n - 1));
    }
}

proof fn lemma_rows_read(s: Seq<u8>, r: int)
    requires
        fen_squares(s),
        0 <= r <= 9,
    ensures
        parse_rows(row_fen(s, r, 0, 0) + rows_after(s, r + 1), 0, r as nat, 0, filled(s, r * 9)) == Ok::<
            Seq<u8>,
            FenError,
        >(s),
    decreases 9 - r,
{
    let rest = rows_after(s, r + 1);
    lemma_row_read(s, r, 0, 0, rest);
    assert(filled(s, r * 9 + 0) == filled(s, r * 9));
    if r == 9 {
        assert(filled(s, 90) =~= s);
    } else {
        let next = row_fen(s, r + 1, 0, 0) + rows_after(s, r + 2);
        assert(rest =~= seq!['/'] + next);
        assert(rest[0] == '/');
        lemma_parse_rows_shift(rest, 1, 1, (r + 1) as nat, 0, filled(s, r * 9 + 9));
        assert(rest.skip(1) =~= next);
        lemma_rows_read(s, r + 1);
        assert(filled(s, (r + 1) * 9) == filled(s, r * 9 + 9));
    }
}

/// No character of `t` is white space.
pub open spec fn no_ws(t: Seq<char>) -> bool {
    forall|i: int| 0 <= i < t.len() ==> !is_ws(#[trigger] t[i])
}

/// No character of `t` is a slash.
pub open spec fn no_slash(t: Seq<char>) -> bool {
    forall|i: int| 0 <= i < t.len() ==> #[trigger] t[i] != '/'
}

proof fn lemma_row_chars(s: Seq<u8>, r: int, c: int, e: nat)
    requires
        fen_squares(s),
        0 <= r <= 9,
        0 <= e <= c <= 9,
    ensures
        no_ws(row_fen(s, r, c, e)),
        no_slash(row_fen(s, r, c, e)),
        (c < 9 || e > 0) ==> row_fen(s, r, c, e).len() > 0,
    decreases 9 - c,
{
    if c < 9 {
        if s[r * 9 + c] == EMPTY {
            lemma_row_chars(s, r, c + 1, e + 1);
        } else {
            lemma_row_chars(s, r, c + 1, 0);
            lemma_piece_char(s[r * 9 + c]);
            let head: Seq<char> = if e > 0 {
                seq![digit_char(e)]
            } else {
                Seq::empty()
            };
            let t = head + seq![piece_char(s[r * 9 + c])] + row_fen(s, r, c + 1, 0);
            assert forall|i: int| 0 <= i < t.len() implies !is_ws(#[trigger] t[i]) && t[i] != '/' by {
                if i >= head.len() + 1 {
                    assert(t[i] == row_fen(s, r, c + 1, 0)[i - head.len() - 1]);
                }
            }
        }
    }
}

proof fn lemma_slash_count_concat(a: Seq<char>, b: Seq<char>, k: int)
    requires
        0 <= k <= b.len(),
    ensures
        slash_count(a + b, a.len() + k) == slash_count(a, a.len() as int) + slash_count(b, k),
    decreases k,
{
    if k == 0 {
        lemma_slash_count_prefix(a, b, a.len() as int);
    } else {
        lemma_slash_count_concat(a, b, k - 1);
        assert((a + b)[a.len() + k - 1] == b[k - 1]);
    }
}

proof fn lemma_slash_count_prefix(a: Seq<char>, b: Seq<char>, n: int)
    requires
        0 <= n <= a.len(),
    ensures
        slash_count(a + b, n) == slash_count(a, n),
    decreases n,
{
    if n > 0 {
        lemma_slash_count_prefix(a, b, n - 1);
        assert((a + b)[n - 1] == a[n - 1]);
    }
}

proof fn lemma_no_slash_count(t: Seq<char>, n: int)
    requires
        no_slash(t),
        n <= t.len(),
    ensures
        slash_count(t, n) == 0,
    decreases n,
{
    if n > 0 {
        lemma_no_slash_count(t, n - 1);
    }
}

/// The board field of `n` rows has no white space and `n - 1` slashes.
proof fn lemma_rows_text(s: Seq<u8>, n: int)
    requires
        fen_squares(s),
        1 <= n <= 10,
    ensures
        no_ws(rows_fen(s, n)),
        rows_fen(s, n).len() > 0,
        slash_count(rows_fen(s, n), rows_fen(s, n).len() as int) == n - 1,
    decreases n,
{
    lemma_row_chars(s, n - 1, 0, 0);
    let row = row_fen(s, n - 1, 0, 0);
    lemma_no_slash_count(row, row.len() as int);
    if n > 1 {
        lemma_rows_text(s, n - 1);
        let a = rows_fen(s, n - 1).push('/');
        let t = rows_fen(s, n);
        assert(t == a + row);
        assert forall|i: int| 0 <= i < t.len() implies !is_ws(#[trigger] t[i]) by {
            if i < a.len() - 1 {
                assert(t[i] == rows_fen(s, n - 1)[i]);
            } else if i >= a.len() {
                assert(t[i] == row[i - a.len()]);
            }
        }
        lemma_slash_count_concat(a, row, row.len() as int);
        assert(slash_count(a, a.len() as int) == slash_count(rows_fen(s, n - 1), rows_fen(s, n - 1).len() as int) + 1) by {
            assert(a[a.len() - 1] == '/');
            lemma_slash_count_prefix(rows_fen(s, n - 1), seq!['/'], rows_fen(s, n - 1).len() as int);
            assert(a =~= rows_fen(s, n - 1) + seq!['/']);
        }
    }
}

proof fn lemma_word_end(cs: Seq<char>, i: int, l: int)
    requires
        0 <= i <= l < cs.len(),
        is_ws(cs[l]),
        forall|k: int| i <= k < l ==> !is_ws(#[trigger] cs[k]),
    ensures
        word_end(cs, i) == l,
    decreases l - i,
{
    if i < l {
        lemma_word_end(cs, i + 1, l);
    }
}

/// Writing a position in FEN and reading it back gives the position: its squares (each
/// empty or a piece) and the side to move.
pub proof fn lemma_fen_roundtrip(s: Seq<u8>, side: u8)
    requires
        fen_squares(s),
        side == RED || side == BLACK,
    ensures
        parse_fen(to_fen_spec(s, side)) == Ok::<(Seq<u8>, u8), FenError>((s, side)),
{
    let rows = rows_fen(s, 10);
    let sc = if side == RED { 'r' } else { 'b' };
    let cs = to_fen_spec(s, side);
    let l = rows.len() as int;
    lemma_rows_text(s, 10);
    assert(cs =~= rows + seq![' ', sc]);
    assert(cs[0] == rows[0]);
    assert(skip_ws(cs, 0) == 0);
    assert forall|k: int| 0 <= k < l implies !is_ws(#[trigger] cs[k]) by {
        assert(cs[k] == rows[k]);
    }
    assert(cs[l] == ' ');
    lemma_word_end(cs, 0, l);
    assert(cs.subrange(0, l) =~= rows);
    assert(cs[l + 1] == sc);
    assert(skip_ws(cs, l + 1) == l + 1);
    assert(skip_ws(cs, l) == l + 1);
    assert(word_end(cs, l + 2) == l + 2);
    assert(word_end(cs, l + 1) == l + 2);
    assert(cs.subrange(l + 1, l + 2) =~= seq![sc]);
    lemma_rows_split(s, 10);
    assert(rows_after(s, 10) =~= Seq::<char>::empty());
    assert(rows =~= row_fen(s, 0, 0, 0) + rows_after(s, 1));
    lemma_rows_read(s, 0);
    assert(filled(s, 0) =~= Seq::new(90, |i: int| EMPTY));
    reveal_strlit("r");
    reveal_strlit("w");
    reveal_strlit("b");
    if side == RED {
        assert(seq![sc] =~= "r"@);
    } else {
        assert(seq![sc] =~= "b"@);
        assert("r"@[0] == 'r' && "w"@[0] == 'w');
        assert(seq![sc][0] == 'b');
        assert(seq![sc] != "r"@);
        assert(seq![sc] != "w"@);
    }
}

/// Each side has at most one king on `s`.
pub open spec fn single_kings(s: Seq<u8>) -> bool {
    forall|a: int, b: int|
        0 <= a < 90 && 0 <= b < 90 && #[trigger] s[a] != EMPTY && #[trigger] s[b] != EMPTY && kind_of(s[a])
            == KING && kind_of(s[b]) == KING && color_of(s[a]) == color_of(s[b]) ==> a == b
}

proof fn lemma_last_king_finds(s: Seq<u8>, color: u8, sq: int, n: nat)
    requires
        s.len() == 90,
        single_kings(s),
        0 <= sq < n <= 90,
        s[sq] != EMPTY,
        kind_of(s[sq]) == KING,
        color_of(s[sq]) == color,
    ensures
        last_king(s, color, n) == sq,
    decreases n,
{
    if n - 1 != sq {
        lemma_last_king_finds(s, color, sq, (n - 1) as nat);
    }
}

/// A board set up with at most one king per side has king slots that hold its kings.
pub proof fn lemma_fresh_board_kings(squares: Seq<u8>, side: u8)
    requires
        squares.len() == 90,
        single_kings(squares),
    ensures
        fresh_board(squares, side).kings_consistent(),
{
    let v = fresh_board(squares, side);
    assert forall|sq: int|
        0 <= sq < 90 && #[trigger] v.squares[sq] != EMPTY && kind_of(v.squares[sq]) == KING implies v.king_sq[color_index(
        color_of(v.squares[sq]),
    )] == sq by {
        let c = color_of(squares[sq]);
        lemma_last_king_finds(squares, c, sq, 90);
    }
}

impl Default for Board {
    /// The standard starting position.
    fn default() -> (b: Board)
        ensures
            b@ == fresh_board(initial_squares(), RED),
    {
        Board::initial()
    }
}

} // verus!
