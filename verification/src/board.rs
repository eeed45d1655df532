//! Board representation, Zobrist hashing, making and unmaking moves, and attack detection.
//! The board has 9 files and 10 ranks; `sq = row * 9 + col`. Row 0 is Black's back rank
//! (top), row 9 is Red's back rank (bottom).
use vstd::prelude::*;

use crate::search::{splitmix, splitmix_spec};
use vstd::string::StringSliceAdditionalSpecFns;
use crate::text::push_char;

verus! {

pub const EMPTY: u8 = 0;
pub const KING: u8 = 1;
pub const ADVISOR: u8 = 2;
pub const BISHOP: u8 = 3;
pub const KNIGHT: u8 = 4;
pub const ROOK: u8 = 5;
pub const CANNON: u8 = 6;
pub const PAWN: u8 = 7;

/// Colour bit of Red.
pub const RED: u8 = 0;
/// Colour bit of Black.
pub const BLACK: u8 = 8;


/// Colour of a piece code (bit 3).
pub open spec fn color_of(p: u8) -> u8 {
    if p % 16 >= 8 { BLACK } else { RED }
}

/// Kind of a piece code (bits 0..3).
pub open spec fn kind_of(p: u8) -> u8 {
    p % 8
}

/// A non-empty piece whose colour bit is Red.
pub open spec fn red_piece(p: u8) -> bool {
    p != EMPTY && color_of(p) == RED
}

/// Index (0 for Red, 1 for Black) of the king slot for colour `color`.
pub open spec fn color_index(color: u8) -> int {
    color as int / 8
}

pub proof fn lemma_piece_bits(p: u8)
    by (bit_vector)
    ensures
        p & 8 == (if p % 16 >= 8 { 8u8 } else { 0u8 }),
        p & 7 == p % 8,
        (p & 8) >> 3 == (if p % 16 >= 8 { 1u8 } else { 0u8 }),
        p >> 3 == p / 8,
        p ^ 8 == (if p % 16 >= 8 { (p - 8) as u8 } else { (p + 8) as u8 }),
{
}

pub proof fn lemma_xor(a: u64, b: u64, c: u64)
    by (bit_vector)
    ensures
        a ^ 0 == a,
        a ^ a == 0,
        (a ^ b) ^ c == a ^ (b ^ c),
        a ^ b == b ^ a,
{
}

#[inline(always)]
pub fn piece_color(p: u8) -> (r: u8)
    ensures
        r == color_of(p),
{
    proof {
        lemma_piece_bits(p);
    }
    p & 8
}

#[inline(always)]
pub fn piece_kind(p: u8) -> (r: u8)
    ensures
        r == kind_of(p),
{
    proof {
        lemma_piece_bits(p);
    }
    p & 7
}

#[inline(always)]
pub fn make_piece(color: u8, kind: u8) -> (r: u8)
    ensures
        r == color | kind,
        (color == RED || color == BLACK) && kind < 8 ==> r == color + kind && kind_of(r) == kind
            && color_of(r) == color,
{
    assert((color == 0 || color == 8) && kind < 8 ==> (color | kind) == color + kind) by (bit_vector);
    color | kind
}

#[inline(always)]
pub fn is_red(p: u8) -> (r: bool)
    ensures
        r == red_piece(p),
{
    proof {
        lemma_piece_bits(p);
    }
    p != EMPTY && (p & 8) == 0
}

/// A move. `captured` is the piece that stood on the target square before the move.
#[derive(Clone, Copy, PartialEq, Eq, Debug, Structural)]
pub struct Move {
    pub from: u8,
    pub to: u8,
    pub captured: u8,
}

/// ICCS file letter of a square (`a`..`i`).
pub open spec fn file_char(sq: u8) -> char {
    (97 + sq % 9) as char
}

/// ICCS rank digit of a square (`0` at Red's back rank up to `9` at Black's).
pub open spec fn rank_char(sq: u8) -> char {
    (48 + 9 - sq / 9) as char
}

/// ICCS text of a move, such as `h2e2`.
pub open spec fn iccs_text(from: u8, to: u8) -> Seq<char> {
    seq![file_char(from), rank_char(from), file_char(to), rank_char(to)]
}

/// A byte that names a file in ICCS (either case).
pub open spec fn iccs_file_byte(b: u8) -> bool {
    (97 <= b <= 105) || (65 <= b <= 73)
}

/// File (0..9) named by an ICCS file byte.
pub open spec fn iccs_file_of(b: u8) -> int {
    if 65 <= b <= 90 { b - 65 } else { b - 97 }
}

/// An ASCII decimal digit byte.
pub open spec fn digit_byte(b: u8) -> bool {
    48 <= b <= 57
}

/// The move parsed from the bytes of an ICCS text, if they form one.
pub open spec fn iccs_parse(b: Seq<u8>) -> Option<Move> {
    if b.len() == 4 && iccs_file_byte(b[0]) && iccs_file_byte(b[2]) && digit_byte(b[1])
        && digit_byte(b[3]) {
        Some(
            Move {
                from: ((9 - (b[1] - 48)) * 9 + iccs_file_of(b[0])) as u8,
                to: ((9 - (b[3] - 48)) * 9 + iccs_file_of(b[2])) as u8,
                captured: EMPTY,
            },
        )
    } else {
        None
    }
}

impl Move {
    pub fn null() -> (r: Move)
        ensures
            r == (Move { from: 0, to: 0, captured: 0 }),
    {
        Move { from: 0, to: 0, captured: 0 }
    }

    pub fn new(from: u8, to: u8, captured: u8) -> (r: Move)
        ensures
            r == (Move { from, to, captured }),
    {
        Move { from, to, captured }
    }

    pub fn is_null(&self) -> (r: bool)
        ensures
            r == (self.from == 0 && self.to == 0),
    {
        self.from == 0 && self.to == 0
    }

    /// ICCS text, such as "h2e2".
    pub fn iccs(&self) -> (r: String)
        requires
            self.from < 90,
            self.to < 90,
        ensures
            r@ == iccs_text(self.from, self.to),
    {
        let mut s = String::new();
        let f: u8 = 97u8 + self.from % 9;
        let fr: u8 = 48u8 + (9 - self.from / 9);
        let t: u8 = 97u8 + self.to % 9;
        let tr: u8 = 48u8 + (9 - self.to / 9);
        push_char(&mut s, f as char);
        push_char(&mut s, fr as char);
        push_char(&mut s, t as char);
        push_char(&mut s, tr as char);
        s
    }

    pub fn from_iccs(s: &str) -> (r: Option<Move>)
        ensures
            r == iccs_parse(s.spec_bytes()),
    {
        let b = s.as_bytes();
        if b.len() != 4 {
            return None;
        }
        let fc = ascii_lower(b[0]);
        let tc = ascii_lower(b[2]);
        if !(97 <= fc && fc <= 105) || !(97 <= tc && tc <= 105) {
            return None;
        }
        let (fr, tr) = match (digit_value(b[1]), digit_value(b[3])) {
            (Some(a), Some(c)) => (a, c),
            _ => return None,
        };
        let from = ((9 - fr) * 9 + (fc - 97) as u32) as u8;
        let to = ((9 - tr) * 9 + (tc - 97) as u32) as u8;
        if from > 89 || to > 89 {
            return None;
        }
        Some(Move { from, to, captured: EMPTY })
    }
}

/// ASCII lower-casing of a byte.
fn ascii_lower(b: u8) -> (r: u8)
    ensures
        r == ascii_lower_spec(b),
{
    if 65 <= b && b <= 90 {
        b + 32
    } else {
        b
    }
}

/// Value of an ASCII decimal digit.
fn digit_value(b: u8) -> (r: Option<u32>)
    ensures
        r == (if digit_byte(b) { Some((b - 48) as u32) } else { None::<u32> }),
{
    if 48 <= b && b <= 57 {
        Some((b - 48) as u32)
    } else {
        None
    }
}

/// Parsing the ICCS text of a move gives the move back (with nothing captured).
pub proof fn lemma_iccs_roundtrip(from: u8, to: u8)
    requires
        from < 90,
        to < 90,
    ensures
        iccs_parse(iccs_text(from, to).map_values(|c: char| c as u8)) == Some(
            Move { from, to, captured: EMPTY },
        ),
{
    let b = iccs_text(from, to).map_values(|c: char| c as u8);
    assert(b[0] == 97 + from % 9);
    assert(b[1] == 48 + 9 - from / 9);
    assert(b[2] == 97 + to % 9);
    assert(b[3] == 48 + 9 - to / 9);
}

/// ASCII lower-casing of a byte.
pub open spec fn ascii_lower_spec(b: u8) -> u8 {
    if 65 <= b <= 90 {
        (b + 32) as u8
    } else {
        b
    }
}

/// Writing back the move parsed from an ICCS text gives that text lower-cased.
pub proof fn lemma_iccs_parse_text(b: Seq<u8>)
    requires
        iccs_parse(b) is Some,
    ensures
        iccs_text(iccs_parse(b)->Some_0.from, iccs_parse(b)->Some_0.to) == b.map_values(
            |x: u8| ascii_lower_spec(x) as char,
        ),
{
    let m = iccs_parse(b)->Some_0;
    let ff = iccs_file_of(b[0]);
    let tf = iccs_file_of(b[2]);
    let fr = 9 - (b[1] - 48);
    let tr = 9 - (b[3] - 48);
    assert(m.from == fr * 9 + ff);
    assert(m.to == tr * 9 + tf);
    assert(m.from % 9 == ff && m.from / 9 == fr);
    assert(m.to % 9 == tf && m.to / 9 == tr);
    assert(iccs_text(m.from, m.to) =~= b.map_values(|x: u8| ascii_lower_spec(x) as char));
}

// ---------------------------------------------------------------------------
// Zobrist keys
// ---------------------------------------------------------------------------

/// The `n`-th key of the Zobrist table: the SplitMix64 stream seeded with the golden ratio.
pub open spec fn zobrist_entry(n: int) -> u64 {
    splitmix_spec(crate::search::SPLITMIX_GAMMA.wrapping_mul((n + 1) as u64))
}

/// Table index of the key for piece `p` on `sq`.
pub open spec fn zobrist_index(p: u8, sq: int) -> int {
    (color_index(color_of(p)) * 8 + kind_of(p)) * 90 + sq
}

/// Zobrist key of piece `p` standing on `sq`.
pub open spec fn zp(p: u8, sq: int) -> u64 {
    zobrist_entry(zobrist_index(p, sq))
}

/// Zobrist key of "Black to move".
pub open spec fn zside() -> u64 {
    zobrist_entry(1440)
}

/// The `n`-th Zobrist key (n < 1441: 2 colours x 8 kinds x 90 squares, then the side key).
fn zobrist(n: u64) -> (r: u64)
    requires
        n < 1441,
    ensures
        r == zobrist_entry(n as int),
{
    splitmix(crate::search::SPLITMIX_GAMMA.wrapping_mul(n + 1))
}

#[inline]
fn z_piece(p: u8, sq: u8) -> (r: u64)
    requires
        sq < 90,
    ensures
        r == zp(p, sq as int),
{
    let c = (piece_color(p) >> 3) as u64;
    proof {
        lemma_piece_bits(p);
    }
    zobrist((c * 8 + piece_kind(p) as u64) * 90 + sq as u64)
}

#[inline]
fn z_side() -> (r: u64)
    ensures
        r == zside(),
{
    zobrist(1440)
}

/// Hash contribution of square `sq` holding `p` (empty squares contribute nothing).
pub open spec fn square_key(p: u8, sq: int) -> u64 {
    if p == EMPTY { 0 } else { zp(p, sq) }
}

/// XOR of the keys of the first `n` squares.
pub open spec fn squares_hash(s: Seq<u8>, n: nat) -> u64
    decreases n,
{
    if n == 0 {
        0
    } else {
        squares_hash(s, (n - 1) as nat) ^ square_key(s[n - 1], n - 1)
    }
}

/// Zobrist hash of a position: all pieces, plus the side key when Black is to move.
pub open spec fn position_hash(s: Seq<u8>, side: u8) -> u64 {
    squares_hash(s, 90) ^ (if side == BLACK { zside() } else { 0 })
}

// ---------------------------------------------------------------------------
// The board
// ---------------------------------------------------------------------------

/// One entry of the undo stack.
#[derive(Clone, Copy, Debug)]
pub struct Undo {
    pub mv: Move,
    pub prev_hash: u64,
    pub null_move: bool,
}

#[derive(Clone, Debug)]
pub struct Board {
    pub squares: [u8; 90],
    /// Side to move: RED or BLACK.
    pub side: u8,
    pub hash: u64,
    /// Cached king squares, Red then Black (255 when unknown).
    pub king_sq: [u8; 2],
    pub undo_stack: Vec<Undo>,
    /// Hashes of every position so far, the starting one included (null moves too);
    /// used for repetition detection.
    pub history_hashes: Vec<u64>,
}

/// The mathematical state of a board.
pub struct BoardView {
    pub squares: Seq<u8>,
    pub side: u8,
    pub hash: u64,
    pub king_sq: Seq<u8>,
    pub undo: Seq<Undo>,
    pub history: Seq<u64>,
}

impl View for Board {
    type V = BoardView;

    open spec fn view(&self) -> BoardView {
        BoardView {
            squares: self.squares@,
            side: self.side,
            hash: self.hash,
            king_sq: self.king_sq@,
            undo: self.undo_stack@,
            history: self.history_hashes@,
        }
    }
}

impl BoardView {
    /// The structural conditions every operation relies on: a full board, two king
    /// slots each holding a square or 255, and undo entries that name squares.
    pub open spec fn wf(self) -> bool {
        &&& self.squares.len() == 90
        &&& self.king_sq.len() == 2
        &&& forall|i: int| 0 <= i < 2 ==> #[trigger] self.king_sq[i] < 90 || self.king_sq[i] == 255
        &&& forall|i: int|
            0 <= i < self.undo.len() ==> !(#[trigger] self.undo[i]).null_move ==> self.undo[i].mv.from
                < 90 && self.undo[i].mv.to < 90
    }

    /// Every king on the board stands on the square cached for its colour
    /// (so each side has at most one king, and the cache points at it).
    pub open spec fn kings_consistent(self) -> bool {
        forall|sq: int|
            0 <= sq < 90 && #[trigger] self.squares[sq] != EMPTY && kind_of(self.squares[sq])
                == KING ==> self.king_sq[color_index(color_of(self.squares[sq]))] == sq
    }

    /// The stored hash is the hash of the pieces and the side to move.
    pub open spec fn hash_consistent(self) -> bool {
        self.hash == position_hash(self.squares, self.side)
    }
}

/// Squares after moving the piece on `from` to `to`.
pub open spec fn squares_after(s: Seq<u8>, from: int, to: int) -> Seq<u8> {
    s.update(from, EMPTY).update(to, s[from])
}

/// King slots after moving the piece on `from` to `to`.
pub open spec fn kings_after(s: Seq<u8>, k: Seq<u8>, from: int, to: int) -> Seq<u8> {
    if kind_of(s[from]) == KING {
        k.update(color_index(color_of(s[from])), to as u8)
    } else {
        k
    }
}

/// Hash after moving the piece on `from` to `to`, updated incrementally.
pub open spec fn hash_after_move(v: BoardView, from: int, to: int) -> u64 {
    let piece = v.squares[from];
    let captured = v.squares[to];
    let h = (v.hash ^ zside()) ^ (zp(piece, from) ^ zp(piece, to));
    if captured != EMPTY {
        h ^ zp(captured, to)
    } else {
        h
    }
}

/// The state after `make_move` from `from` to `to`.
pub open spec fn spec_make(v: BoardView, from: int, to: int) -> BoardView {
    let h = hash_after_move(v, from, to);
    BoardView {
        squares: squares_after(v.squares, from, to),
        side: v.side ^ 8,
        hash: h,
        king_sq: kings_after(v.squares, v.king_sq, from, to),
        undo: v.undo.push(
            Undo {
                mv: Move { from: from as u8, to: to as u8, captured: v.squares[to] },
                prev_hash: v.hash,
                null_move: false,
            },
        ),
        history: v.history.push(h),
    }
}

/// The state after `make_null`.
pub open spec fn spec_null(v: BoardView) -> BoardView {
    let h = v.hash ^ zside();
    BoardView {
        squares: v.squares,
        side: v.side ^ 8,
        hash: h,
        king_sq: v.king_sq,
        undo: v.undo.push(
            Undo { mv: Move { from: 0, to: 0, captured: 0 }, prev_hash: v.hash, null_move: true },
        ),
        history: v.history.push(h),
    }
}

/// A sequence without its last element (unchanged when empty).
pub open spec fn pop_seq<T>(s: Seq<T>) -> Seq<T> {
    if s.len() > 0 {
        s.drop_last()
    } else {
        s
    }
}

/// The state after `unmake_move` (taking back the last entry of the undo stack).
pub open spec fn spec_unmake(v: BoardView) -> BoardView
    recommends
        v.undo.len() > 0,
{
    let u = v.undo.last();
    if u.null_move {
        BoardView {
            squares: v.squares,
            side: v.side ^ 8,
            hash: u.prev_hash,
            king_sq: v.king_sq,
            undo: v.undo.drop_last(),
            history: pop_seq(v.history),
        }
    } else {
        let piece = v.squares[u.mv.to as int];
        BoardView {
            squares: v.squares.update(u.mv.from as int, piece).update(u.mv.to as int, u.mv.captured),
            side: v.side ^ 8,
            hash: u.prev_hash,
            king_sq: if kind_of(piece) == KING {
                v.king_sq.update(color_index(color_of(piece)), u.mv.from)
            } else {
                v.king_sq
            },
            undo: v.undo.drop_last(),
            history: pop_seq(v.history),
        }
    }
}

/// The state after taking moves back until the undo stack holds `n` entries.
pub open spec fn spec_undo_to(v: BoardView, n: nat) -> BoardView
    decreases v.undo.len(),
{
    if v.undo.len() <= n {
        v
    } else {
        spec_undo_to(spec_unmake(v), n)
    }
}

/// Number of entries of `h` equal to `x`.
pub open spec fn count_of(h: Seq<u64>, x: u64) -> nat {
    h.filter(|y: u64| y == x).len()
}

pub proof fn lemma_make_wf(v: BoardView, from: int, to: int)
    requires
        v.wf(),
        0 <= from < 90,
        0 <= to < 90,
    ensures
        spec_make(v, from, to).wf(),
{
    let w = spec_make(v, from, to);
    assert forall|i: int| 0 <= i < w.undo.len() && !(#[trigger] w.undo[i]).null_move implies w.undo[i].mv.from
        < 90 && w.undo[i].mv.to < 90 by {
        if i < v.undo.len() {
            assert(w.undo[i] == v.undo[i]);
        }
    }
    assert forall|i: int| 0 <= i < 2 implies #[trigger] w.king_sq[i] < 90 || w.king_sq[i] == 255 by {
        lemma_piece_bits(v.squares[from]);
    }
}

pub proof fn lemma_unmake_wf(v: BoardView)
    requires
        v.wf(),
        v.undo.len() > 0,
    ensures
        spec_unmake(v).wf(),
{
    let w = spec_unmake(v);
    assert forall|i: int| 0 <= i < w.undo.len() && !(#[trigger] w.undo[i]).null_move implies w.undo[i].mv.from
        < 90 && w.undo[i].mv.to < 90 by {
        assert(w.undo[i] == v.undo[i]);
    }
    assert(v.undo.last() == v.undo[v.undo.len() - 1]);
    assert forall|i: int| 0 <= i < 2 implies #[trigger] w.king_sq[i] < 90 || w.king_sq[i] == 255 by {
        lemma_piece_bits(v.squares[v.undo.last().mv.to as int]);
    }
}

impl Board {
    /// Recomputes the hash and king slots from the squares and restarts the history.
    pub(crate) fn recompute_derived(&mut self)
        ensures
            final(self).squares@ == old(self).squares@,
            final(self).side == old(self).side,
            final(self).undo_stack@ == old(self).undo_stack@,
            final(self).hash == position_hash(old(self).squares@, old(self).side),
            final(self).king_sq@ == seq![
                last_king(old(self).squares@, RED, 90),
                last_king(old(self).squares@, BLACK, 90),
            ],
            final(self).history_hashes@ == seq![final(self).hash],
    {
        let mut h: u64 = 0;
        self.king_sq = [255; 2];
        let mut sq: u8 = 0;
        while sq < 90
            invariant
                0 <= sq <= 90,
                self.squares@ == old(self).squares@,
                self.side == old(self).side,
                self.undo_stack@ == old(self).undo_stack@,
                self.history_hashes@ == old(self).history_hashes@,
                h == squares_hash(self.squares@, sq as nat),
                self.king_sq@ == seq![
                    last_king(self.squares@, RED, sq as nat),
                    last_king(self.squares@, BLACK, sq as nat),
                ],
            decreases 90 - sq,
        {
            let p = self.squares[sq as usize];
            proof {
                lemma_piece_bits(p);
            }
            if p == EMPTY {
                proof {
                    lemma_xor(h, 0, 0);
                }
                sq += 1;
                continue;
            }
            h ^= z_piece(p, sq);
            if piece_kind(p) == KING {
                self.king_sq[(piece_color(p) >> 3) as usize] = sq;
            }
            proof {
                assert(self.king_sq@ =~= seq![
                    last_king(self.squares@, RED, (sq + 1) as nat),
                    last_king(self.squares@, BLACK, (sq + 1) as nat),
                ]);
            }
            sq += 1;
        }
        proof {
            lemma_xor(h, 0, 0);
        }
        if self.side == BLACK {
            h ^= z_side();
        }
        self.hash = h;
        self.history_hashes.clear();
        self.history_hashes.push(h);
        assert(self.history_hashes@ =~= seq![h]);
    }

    #[inline(always)]
    pub fn piece_at(&self, sq: u8) -> (r: u8)
        requires
            sq < 90,
        ensures
            r == self.squares@[sq as int],
    {
        self.squares[sq as usize]
    }

    #[inline(always)]
    pub fn hash(&self) -> (r: u64)
        ensures
            r == self.hash,
    {
        self.hash
    }

    /// The cached king square of `color`, if any.
    #[inline(always)]
    pub fn king_square(&self, color: u8) -> (r: Option<u8>)
        requires
            color < 16,
        ensures
            r == (if self.king_sq@[color_index(color)] == 255 {
                None
            } else {
                Some(self.king_sq@[color_index(color)])
            }),
    {
        proof {
            lemma_piece_bits(color);
        }
        let s = self.king_sq[(color >> 3) as usize];
        if s == 255 {
            None
        } else {
            Some(s)
        }
    }

    pub fn make_move(&mut self, mv: Move)
        requires
            old(self)@.wf(),
            mv.from < 90,
            mv.to < 90,
        ensures
            final(self)@ == spec_make(old(self)@, mv.from as int, mv.to as int),
            final(self)@.wf(),
    {
        let piece = self.squares[mv.from as usize];
        let captured = self.squares[mv.to as usize];
        let mut h = self.hash ^ z_side();
        h ^= z_piece(piece, mv.from) ^ z_piece(piece, mv.to);
        if captured != EMPTY {
            h ^= z_piece(captured, mv.to);
        }
        self.squares[mv.from as usize] = EMPTY;
        self.squares[mv.to as usize] = piece;
        proof {
            lemma_piece_bits(piece);
        }
        if piece_kind(piece) == KING {
            self.king_sq[(piece_color(piece) >> 3) as usize] = mv.to;
        }
        let prev = self.hash;
        self.hash = h;
        self.undo_stack.push(
            Undo { mv: Move::new(mv.from, mv.to, captured), prev_hash: prev, null_move: false },
        );
        self.history_hashes.push(h);
        self.side ^= 8;
        proof {
            lemma_make_wf(old(self)@, mv.from as int, mv.to as int);
            assert(self.squares@ =~= squares_after(old(self).squares@, mv.from as int, mv.to as int));
            assert(self.king_sq@ =~= kings_after(
                old(self).squares@,
                old(self).king_sq@,
                mv.from as int,
                mv.to as int,
            ));
        }
    }

    pub fn unmake_move(&mut self)
        requires
            old(self)@.wf(),
            old(self).undo_stack@.len() > 0,
        ensures
            final(self)@ == spec_unmake(old(self)@),
            final(self)@.wf(),
    {
        proof {
            lemma_unmake_wf(old(self)@);
        }
        let undo = self.undo_stack.pop().unwrap();
        if undo.null_move {
            self.hash = undo.prev_hash;
            self.history_hashes.pop();
            self.side ^= 8;
            return;
        }
        let piece = self.squares[undo.mv.to as usize];
        self.squares[undo.mv.from as usize] = piece;
        self.squares[undo.mv.to as usize] = undo.mv.captured;
        proof {
            lemma_piece_bits(piece);
        }
        if piece_kind(piece) == KING {
            self.king_sq[(piece_color(piece) >> 3) as usize] = undo.mv.from;
        }
        self.hash = undo.prev_hash;
        self.history_hashes.pop();
        self.side ^= 8;
        proof {
            let v = old(self)@;
            assert(self.squares@ =~= v.squares.update(undo.mv.from as int, piece).update(
                undo.mv.to as int,
                undo.mv.captured,
            ));
        }
    }

    /// Null move (used only for null-move pruning in the search).
    pub fn make_null(&mut self)
        requires
            old(self)@.wf(),
        ensures
            final(self)@ == spec_null(old(self)@),
            final(self)@.wf(),
    {
        let prev = self.hash;
        self.hash ^= z_side();
        self.undo_stack.push(Undo { mv: Move::null(), prev_hash: prev, null_move: true });
        self.history_hashes.push(self.hash);
        self.side ^= 8;
        proof {
            let w = self@;
            let v = old(self)@;
            assert forall|i: int| 0 <= i < w.undo.len() && !(#[trigger] w.undo[i]).null_move implies w.undo[i].mv.from
                < 90 && w.undo[i].mv.to < 90 by {
                if i < v.undo.len() {
                    assert(w.undo[i] == v.undo[i]);
                }
            }
        }
    }

    pub fn unmake_null(&mut self)
        requires
            old(self)@.wf(),
            old(self).undo_stack@.len() > 0,
        ensures
            final(self)@ == spec_unmake(old(self)@),
            final(self)@.wf(),
    {
        self.unmake_move();
    }

    /// Takes moves back until the undo stack holds `n` entries.
    pub fn undo_to(&mut self, n: usize)
        requires
            old(self)@.wf(),
        ensures
            final(self)@ == spec_undo_to(old(self)@, n as nat),
            final(self)@.wf(),
    {
        while self.undo_stack.len() > n
            invariant
                self@.wf(),
                spec_undo_to(self@, n as nat) == spec_undo_to(old(self)@, n as nat),
            decreases self.undo_stack@.len(),
        {
            let was_null = self.undo_stack[self.undo_stack.len() - 1].null_move;
            if was_null {
                self.unmake_null();
            } else {
                self.unmake_move();
            }
        }
    }

    pub fn undo_len(&self) -> (r: usize)
        ensures
            r == self.undo_stack@.len(),
    {
        self.undo_stack.len()
    }

    /// How many times the current hash occurs in the history.
    pub fn repetition_count(&self) -> (r: usize)
        ensures
            r == count_of(self.history_hashes@, self.hash),
    {
        let h = self.hash;
        let mut n: usize = 0;
        let mut i: usize = 0;
        while i < self.history_hashes.len()
            invariant
                0 <= i <= self.history_hashes@.len(),
                h == self.hash,
                n == count_of(self.history_hashes@.take(i as int), h),
                n <= i,
            decreases self.history_hashes@.len() - i,
        {
            proof {
                let s = self.history_hashes@;
                assert(s.take(i + 1).drop_last() =~= s.take(i as int));
                reveal(Seq::filter);
            }
            if self.history_hashes[i] == h {
                n += 1;
            }
            i += 1;
        }
        proof {
            assert(self.history_hashes@.take(i as int) =~= self.history_hashes@);
        }
        n
    }
}


// ---------------------------------------------------------------------------
// Laws of making and unmaking moves
// ---------------------------------------------------------------------------

/// King slots after making and taking back a move from `from`: a king that moved
/// leaves its slot on `from`; otherwise the slots are untouched.
pub open spec fn kings_round_trip(s: Seq<u8>, kings: Seq<u8>, from: int) -> Seq<u8> {
    if kind_of(s[from]) == KING {
        kings.update(color_index(color_of(s[from])), from as u8)
    } else {
        kings
    }
}

/// Making a move and taking it back restores everything but, for a king move, the
/// king slot, which is left on the square the king came from.
pub proof fn lemma_make_unmake_general(v: BoardView, from: int, to: int)
    requires
        v.wf(),
        0 <= from < 90,
        0 <= to < 90,
        v.squares[from] != EMPTY,
    ensures
        spec_unmake(spec_make(v, from, to)) == (BoardView {
            king_sq: kings_round_trip(v.squares, v.king_sq, from),
            ..v
        }),
{
    let w = spec_make(v, from, to);
    let u = spec_unmake(w);
    lemma_side_flip(v.side);
    assert(w.undo.last() == w.undo[w.undo.len() - 1]);
    assert(w.squares[to] == v.squares[from]);
    assert(u.squares =~= v.squares);
    assert(u.undo =~= v.undo);
    assert(u.history =~= v.history);
    assert(u.king_sq =~= kings_round_trip(v.squares, v.king_sq, from));
}

/// Taking back a move after the king slots were changed to `kings` (by work done in the
/// position after the move) restores everything but the king slots.
pub proof fn lemma_make_unmake_kings(v: BoardView, from: int, to: int, kings: Seq<u8>)
    requires
        v.wf(),
        0 <= from < 90,
        0 <= to < 90,
        v.squares[from] != EMPTY,
        kings.len() == 2,
        forall|i: int| 0 <= i < 2 ==> #[trigger] kings[i] < 90 || kings[i] == 255,
    ensures
        spec_unmake(BoardView { king_sq: kings, ..spec_make(v, from, to) }) == (BoardView {
            king_sq: kings_round_trip(v.squares, kings, from),
            ..v
        }),
        (BoardView { king_sq: kings, ..spec_make(v, from, to) }).wf(),
        (BoardView { king_sq: kings_round_trip(v.squares, kings, from), ..v }).wf(),
{
    let w0 = spec_make(v, from, to);
    let w = BoardView { king_sq: kings, ..w0 };
    let u = spec_unmake(w);
    lemma_make_wf(v, from, to);
    lemma_side_flip(v.side);
    lemma_piece_bits(v.squares[from]);
    assert(w.undo.last() == w.undo[w.undo.len() - 1]);
    assert(w.squares[to] == v.squares[from]);
    assert(u.squares =~= v.squares);
    assert(u.undo =~= v.undo);
    assert(u.history =~= v.history);
    assert(u.king_sq =~= kings_round_trip(v.squares, kings, from));
}

/// Taking back a null move after the king slots were changed to `kings` restores
/// everything but the king slots.
pub proof fn lemma_null_unmake_kings(v: BoardView, kings: Seq<u8>)
    requires
        v.wf(),
        kings.len() == 2,
        forall|i: int| 0 <= i < 2 ==> #[trigger] kings[i] < 90 || kings[i] == 255,
    ensures
        spec_unmake(BoardView { king_sq: kings, ..spec_null(v) }) == (BoardView { king_sq: kings, ..v }),
        (BoardView { king_sq: kings, ..spec_null(v) }).wf(),
        (BoardView { king_sq: kings, ..v }).wf(),
{
    let w0 = spec_null(v);
    let w = BoardView { king_sq: kings, ..w0 };
    let u = spec_unmake(w);
    lemma_side_flip(v.side);
    assert(w.undo.last() == w.undo[w.undo.len() - 1]);
    assert(u.undo =~= v.undo);
    assert(u.history =~= v.history);
    assert forall|i: int| 0 <= i < w.undo.len() && !(#[trigger] w.undo[i]).null_move implies w.undo[i].mv.from
        < 90 && w.undo[i].mv.to < 90 by {
        if i < v.undo.len() {
            assert(w.undo[i] == v.undo[i]);
        }
    }
}

/// A move of a piece onto a square without a piece of the same side keeps the king
/// slots consistent with the board.
pub proof fn lemma_make_kings_consistent(v: BoardView, from: int, to: int)
    requires
        v.wf(),
        v.kings_consistent(),
        0 <= from < 90,
        0 <= to < 90,
        v.squares[from] != EMPTY,
    ensures
        spec_make(v, from, to).kings_consistent(),
        kings_round_trip(v.squares, kings_after(v.squares, v.king_sq, from, to), from) == v.king_sq,
{
    let w = spec_make(v, from, to);
    let p = v.squares[from];
    lemma_piece_bits(p);
    assert forall|sq: int|
        0 <= sq < 90 && #[trigger] w.squares[sq] != EMPTY && kind_of(w.squares[sq]) == KING implies w.king_sq[color_index(
        color_of(w.squares[sq]),
    )] == sq by {
        if sq != to {
            assert(w.squares[sq] == v.squares[sq]);
            lemma_piece_bits(v.squares[sq]);
        }
    }
    if kind_of(p) == KING {
        assert(v.king_sq[color_index(color_of(p))] == from);
        assert(kings_round_trip(v.squares, kings_after(v.squares, v.king_sq, from, to), from) =~= v.king_sq);
    }
}

/// Making a move and taking it back restores the board exactly, provided the moving
/// piece is not a king standing off its cached square.
pub proof fn lemma_make_unmake_restores(v: BoardView, from: int, to: int)
    requires
        v.wf(),
        0 <= from < 90,
        0 <= to < 90,
        v.squares[from] != EMPTY,
        kind_of(v.squares[from]) == KING ==> v.king_sq[color_index(color_of(v.squares[from]))]
            == from,
    ensures
        spec_unmake(spec_make(v, from, to)) == v,
{
    let w = spec_make(v, from, to);
    let u = spec_unmake(w);
    lemma_side_flip(v.side);
    assert(w.undo.last() == w.undo[w.undo.len() - 1]);
    assert(w.squares[to] == v.squares[from]);
    assert(u.squares =~= v.squares);
    assert(u.undo =~= v.undo);
    assert(u.history =~= v.history);
    assert(u.king_sq =~= v.king_sq);
}

/// Flipping the side twice gives it back.
pub proof fn lemma_side_flip(x: u8)
    by (bit_vector)
    ensures
        (x ^ 8) ^ 8 == x,
        x == 0 ==> x ^ 8 == 8,
        x == 8 ==> x ^ 8 == 0,
{
}

/// A null move followed by taking it back restores the board exactly.
pub proof fn lemma_null_unmake_restores(v: BoardView)
    requires
        v.wf(),
    ensures
        spec_unmake(spec_null(v)) == v,
{
    let w = spec_null(v);
    let u = spec_unmake(w);
    lemma_side_flip(v.side);
    assert(w.undo.last() == w.undo[w.undo.len() - 1]);
    assert(u.undo =~= v.undo);
    assert(u.history =~= v.history);
}

/// Changing one square changes the running hash by the old and new keys of that square.
pub proof fn lemma_squares_hash_update(s: Seq<u8>, i: int, x: u8, n: nat)
    requires
        0 <= i < s.len(),
        n <= s.len(),
    ensures
        squares_hash(s.update(i, x), n) == (if i < n {
            squares_hash(s, n) ^ square_key(s[i], i) ^ square_key(x, i)
        } else {
            squares_hash(s, n)
        }),
    decreases n,
{
    if n > 0 {
        lemma_squares_hash_update(s, i, x, (n - 1) as nat);
        let a = squares_hash(s, (n - 1) as nat);
        let b = square_key(s[i], i);
        let c = square_key(x, i);
        let d = square_key(s[n - 1], n - 1);
        if i == n - 1 {
            assert(a ^ c == ((a ^ b) ^ c) ^ b) by (bit_vector);
            assert(((a ^ b) ^ c) ^ b == ((a ^ b) ^ b) ^ c) by (bit_vector);
            assert(a ^ c == ((a ^ b) ^ b) ^ c) by (bit_vector);
            assert(((a ^ b) ^ b) == a) by (bit_vector);
            assert(squares_hash(s, n) == a ^ b);
        } else if i < n - 1 {
            assert(((a ^ b) ^ c) ^ d == ((a ^ d) ^ b) ^ c) by (bit_vector);
        }
    }
}

/// The incremental hash of `make_move` equals the hash recomputed from scratch.
pub proof fn lemma_make_hash_consistent(v: BoardView, from: int, to: int)
    requires
        v.wf(),
        v.hash_consistent(),
        v.side == RED || v.side == BLACK,
        0 <= from < 90,
        0 <= to < 90,
        from != to,
        v.squares[from] != EMPTY,
    ensures
        spec_make(v, from, to).hash_consistent(),
        spec_make(v, from, to).side == RED || spec_make(v, from, to).side == BLACK,
{
    let s = v.squares;
    let p = s[from];
    let cap = s[to];
    let s1 = s.update(from, EMPTY);
    lemma_squares_hash_update(s, from, EMPTY, 90);
    lemma_squares_hash_update(s1, to, p, 90);
    lemma_piece_bits(v.side);
    let hh = squares_hash(s, 90);
    let zs = zside();
    let zf = zp(p, from);
    let zt = zp(p, to);
    let zc = square_key(cap, to);
    let sk: u64 = if v.side == BLACK { zs } else { 0 };
    let nsk: u64 = if v.side == BLACK { 0 } else { zs };
    assert(squares_hash(s1, 90) == hh ^ zf ^ 0);
    assert(s1[to] == cap);
    assert(squares_after(s, from, to) == s1.update(to, p));
    assert(((hh ^ zf ^ 0) ^ zc ^ zt) ^ nsk == (((hh ^ sk) ^ zs) ^ (zf ^ zt)) ^ zc) by (bit_vector)
        requires
            (sk == 0 && nsk == zs) || (sk == zs && nsk == 0),
    ;
    if cap == EMPTY {
        assert(zc == 0);
        assert((((hh ^ sk) ^ zs) ^ (zf ^ zt)) ^ zc == ((hh ^ sk) ^ zs) ^ (zf ^ zt)) by (bit_vector)
            requires
                zc == 0,
        ;
    }
}

/// The hash after a null move equals the hash recomputed from scratch.
pub proof fn lemma_null_hash_consistent(v: BoardView)
    requires
        v.hash_consistent(),
        v.side == RED || v.side == BLACK,
    ensures
        spec_null(v).hash_consistent(),
        spec_null(v).side == RED || spec_null(v).side == BLACK,
{
    lemma_piece_bits(v.side);
    let hh = squares_hash(v.squares, 90);
    let zs = zside();
    let sk: u64 = if v.side == BLACK { zs } else { 0 };
    let nsk: u64 = if v.side == BLACK { 0 } else { zs };
    assert((hh ^ sk) ^ zs == hh ^ nsk) by (bit_vector)
        requires
            (sk == 0 && nsk == zs) || (sk == zs && nsk == 0),
    ;
}


// ---------------------------------------------------------------------------
// Attack detection
// ---------------------------------------------------------------------------

pub const ORTHO: [(i16, i16); 4] = [(-1, 0), (1, 0), (0, -1), (0, 1)];

pub const DIAG: [(i16, i16); 4] = [(-1, -1), (-1, 1), (1, -1), (1, 1)];

/// (knight offset from the target, leg offset from the target)
pub const KNIGHT_ATTACK: [(i16, i16, i16, i16); 8] = [
    (-2, -1, -1, -1),
    (-2, 1, -1, 1),
    (2, -1, 1, -1),
    (2, 1, 1, 1),
    (-1, -2, -1, -1),
    (-1, 2, -1, 1),
    (1, -2, 1, -1),
    (1, 2, 1, 1),
];

/// Row and column inside the 10 x 9 board.
pub open spec fn on_board(r: int, c: int) -> bool {
    0 <= r < 10 && 0 <= c < 9
}

/// Row and column on the board or on the row just past it on Black's side (where the
/// attack test still looks at the board).
pub open spec fn near_board(r: int, c: int) -> bool {
    0 <= r <= 10 && 0 <= c < 9
}

/// `k` steps in direction `d` (one of -1, 0, 1).
pub open spec fn step(k: int, d: int) -> int {
    if d > 0 {
        k
    } else if d < 0 {
        -k
    } else {
        0
    }
}

/// A unit orthogonal direction.
pub open spec fn unit_ortho(dr: int, dc: int) -> bool {
    (dr == 0 && (dc == 1 || dc == -1)) || (dc == 0 && (dr == 1 || dr == -1))
}

/// Square index of the `k`-th square along a ray from (r, c).
pub open spec fn ray_sq(r: int, c: int, dr: int, dc: int, k: int) -> int {
    (r + step(k, dr)) * 9 + (c + step(k, dc))
}

/// The `k`-th square along the ray lies on the board.
pub open spec fn ray_on_board(r: int, c: int, dr: int, dc: int, k: int) -> bool {
    on_board(r + step(k, dr), c + step(k, dc))
}

/// Squares `lo..hi` along the ray are all empty.
pub open spec fn ray_clear(s: Seq<u8>, r: int, c: int, dr: int, dc: int, lo: int, hi: int) -> bool {
    forall|j: int| lo <= j < hi ==> s[#[trigger] ray_sq(r, c, dr, dc, j)] == EMPTY
}

/// `p` is a piece of colour `color` and kind `kind`.
pub open spec fn owned_by(p: u8, color: u8, kind: u8) -> bool {
    p != EMPTY && color_of(p) == color && kind_of(p) == kind
}

/// A pawn of `by` on (pr, pc) attacks (r, c): Red pawns attack the square above them,
/// and sideways once they have crossed the river; Black pawns the square below.
pub open spec fn pawn_hits(r: int, c: int, pr: int, pc: int, by: u8) -> bool {
    if by == RED {
        (pr == r + 1 && pc == c) || (pr == r && (pc == c - 1 || pc == c + 1) && pr <= 4)
    } else {
        (pr == r - 1 && pc == c) || (pr == r && (pc == c - 1 || pc == c + 1) && pr >= 5)
    }
}

/// The first piece met along a line, `k` steps away on (pr, pc), attacks (r, c):
/// a rook at any distance, or an adjacent king, or a pawn as `pawn_hits` says.
pub open spec fn first_piece_attacks(p: u8, k: int, r: int, c: int, pr: int, pc: int, by: u8) -> bool {
    owned_by(p, by, ROOK) || (owned_by(p, by, KING) && k == 1) || (owned_by(p, by, PAWN)
        && pawn_hits(r, c, pr, pc, by))
}

/// Along direction (dr, dc) from (r, c), the first piece attacks the target,
/// or the second piece is a cannon of `by` (using the first as its screen).
pub open spec fn line_attacked(s: Seq<u8>, r: int, c: int, dr: int, dc: int, by: u8) -> bool {
    ||| exists|k: int|
        #![trigger ray_sq(r, c, dr, dc, k)]
        1 <= k && ray_on_board(r, c, dr, dc, k) && ray_clear(s, r, c, dr, dc, 1, k) && s[ray_sq(
            r,
            c,
            dr,
            dc,
            k,
        )] != EMPTY && first_piece_attacks(
            s[ray_sq(r, c, dr, dc, k)],
            k,
            r,
            c,
            r + step(k, dr),
            c + step(k, dc),
            by,
        )
    ||| exists|k1: int, k2: int|
        #![trigger ray_sq(r, c, dr, dc, k1), ray_sq(r, c, dr, dc, k2)]
        1 <= k1 < k2 && ray_on_board(r, c, dr, dc, k2) && ray_clear(s, r, c, dr, dc, 1, k1) && s[ray_sq(
            r,
            c,
            dr,
            dc,
            k1,
        )] != EMPTY && ray_clear(s, r, c, dr, dc, k1 + 1, k2) && owned_by(
            s[ray_sq(r, c, dr, dc, k2)],
            by,
            CANNON,
        )
}

/// A knight of `by` stands at the offset (dr, dc) from (r, c) with its leg square
/// (lr, lc) free.
pub open spec fn knight_hit(s: Seq<u8>, r: int, c: int, by: u8, o: (i16, i16, i16, i16)) -> bool {
    on_board(r + o.0, c + o.1) && owned_by(s[(r + o.0) * 9 + c + o.1], by, KNIGHT) && s[(r + o.2)
        * 9 + c + o.3] == EMPTY
}

/// An advisor of `by` stands diagonally next to (r, c) at offset o.
pub open spec fn advisor_hit(s: Seq<u8>, r: int, c: int, by: u8, o: (i16, i16)) -> bool {
    on_board(r + o.0, c + o.1) && owned_by(s[(r + o.0) * 9 + c + o.1], by, ADVISOR)
}

/// Square `target` is attacked by colour `by` (bishops are not considered:
/// they can never reach a king inside its palace).
pub open spec fn attacked(s: Seq<u8>, target: int, by: u8) -> bool {
    let r = target / 9;
    let c = target % 9;
    ||| exists|d: int| 0 <= d < 4 && line_attacked(s, r, c, ORTHO[d].0 as int, ORTHO[d].1 as int, by)
    ||| exists|i: int| 0 <= i < 8 && knight_hit(s, r, c, by, KNIGHT_ATTACK[i])
    ||| exists|i: int| 0 <= i < 4 && advisor_hit(s, r, c, by, DIAG[i])
}

/// Once a ray leaves the board it stays off it.
pub proof fn lemma_ray_leaves(r: int, c: int, dr: int, dc: int, k: int, k2: int)
    requires
        near_board(r, c),
        unit_ortho(dr, dc),
        1 <= k <= k2,
        !ray_on_board(r, c, dr, dc, k),
    ensures
        !ray_on_board(r, c, dr, dc, k2),
{
}

/// The cached king square of `color` is attacked by the other colour.
pub open spec fn king_attacked_spec(s: Seq<u8>, kings: Seq<u8>, color: u8) -> bool {
    let k = kings[color_index(color)];
    k != 255 && attacked(s, k as int, color ^ 8)
}

/// `color` is in check: its king is attacked, or the two kings face each other.
pub open spec fn in_check_spec(s: Seq<u8>, kings: Seq<u8>, color: u8) -> bool {
    king_attacked_spec(s, kings, color) || kings_facing_spec(s, kings)
}

/// Both kings are cached, on the same file, with nothing between them.
pub open spec fn kings_facing_spec(s: Seq<u8>, kings: Seq<u8>) -> bool {
    let rk = kings[0] as int;
    let bk = kings[1] as int;
    &&& rk != 255
    &&& bk != 255
    &&& rk % 9 == bk % 9
    &&& forall|r: int|
        #![trigger s[r * 9 + rk % 9]]
        (if rk / 9 < bk / 9 { rk / 9 } else { bk / 9 }) < r < (if rk / 9 < bk / 9 {
            bk / 9
        } else {
            rk / 9
        }) ==> s[r * 9 + rk % 9] == EMPTY
}

impl Board {
    /// Whether the line from (r, c) in direction (dr, dc) delivers an attack by `by`.
    fn line_attacks(&self, r: i16, c: i16, dr: i16, dc: i16, by: u8) -> (res: bool)
        requires
            near_board(r as int, c as int),
            unit_ortho(dr as int, dc as int),
        ensures
            res == line_attacked(self.squares@, r as int, c as int, dr as int, dc as int, by),
    {
        let ghost s = self.squares@;
        let ghost (ri, ci, dri, dci) = (r as int, c as int, dr as int, dc as int);
        let mut rr = r + dr;
        let mut cc = c + dc;
        let mut screen = false;
        let ghost mut k: int = 1;
        let ghost mut k1: int = 0;
        loop
            invariant
                1 <= k <= 11,
                rr as int == ri + step(k, dri),
                cc as int == ci + step(k, dci),
                forall|j: int| 1 <= j < k ==> ray_on_board(ri, ci, dri, dci, j),
                !screen ==> ray_clear(s, ri, ci, dri, dci, 1, k),
                screen ==> 1 <= k1 < k && ray_clear(s, ri, ci, dri, dci, 1, k1) && s[ray_sq(
                    ri,
                    ci,
                    dri,
                    dci,
                    k1,
                )] != EMPTY && ray_clear(s, ri, ci, dri, dci, k1 + 1, k) && !first_piece_attacks(
                    s[ray_sq(ri, ci, dri, dci, k1)],
                    k1,
                    ri,
                    ci,
                    ri + step(k1, dri),
                    ci + step(k1, dci),
                    by,
                ),
                s == self.squares@,
                near_board(ri, ci),
                unit_ortho(dri, dci),
                ri == r as int,
                ci == c as int,
                dri == dr as int,
                dci == dc as int,
            ensures
                !line_attacked(s, ri, ci, dri, dci, by),
            decreases 11 - k,
        {
            if !(0 <= rr && rr < 10 && 0 <= cc && cc < 9) {
                proof {
                    lemma_line_off_board(s, ri, ci, dri, dci, by, k, screen, k1);
                }
                break;
            }
            let p = self.squares[(rr as usize) * 9 + cc as usize];
            assert(p == s[ray_sq(ri, ci, dri, dci, k)]);
            if p != EMPTY {
                let friendly = piece_color(p) == by;
                let kind = piece_kind(p);
                if !screen {
                    if friendly {
                        if kind == ROOK {
                            return true;
                        }
                        if kind == KING && abs16(rr - r) + abs16(cc - c) == 1 {
                            return true;
                        }
                        if kind == PAWN {
                            if by == RED {
                                if rr == r + 1 && cc == c {
                                    return true;
                                }
                                if rr == r && (cc == c - 1 || cc == c + 1) && rr <= 4 {
                                    return true;
                                }
                            } else {
                                if rr == r - 1 && cc == c {
                                    return true;
                                }
                                if rr == r && (cc == c - 1 || cc == c + 1) && rr >= 5 {
                                    return true;
                                }
                            }
                        }
                    }
                    screen = true;
                    proof {
                        k1 = k;
                    }
                } else {
                    if friendly && kind == CANNON {
                        return true;
                    }
                    proof {
                        lemma_line_blocked(s, ri, ci, dri, dci, by, k1, k);
                    }
                    break;
                }
            }
            rr += dr;
            cc += dc;
            proof {
                k = k + 1;
            }
        }
        false
    }
}

impl Board {
    /// Whether square `target` is attacked by colour `by` (used for king safety only;
    /// bishops are left out since they can never reach a king inside its palace).
    pub fn is_attacked(&self, target: u8, by: u8) -> (res: bool)
        requires
            target < 99,
        ensures
            res == attacked(self.squares@, target as int, by),
    {
        let r = (target / 9) as i16;
        let c = (target % 9) as i16;
        let ghost s = self.squares@;
        let mut d: usize = 0;
        while d < 4
            invariant
                0 <= d <= 4,
                target < 99,
                r as int == target as int / 9,
                c as int == target as int % 9,
                s == self.squares@,
                forall|e: int|
                    0 <= e < d ==> !line_attacked(s, r as int, c as int, ORTHO[e].0 as int, ORTHO[e].1 as int, by),
            decreases 4 - d,
        {
            let (dr, dc) = ORTHO[d];
            if self.line_attacks(r, c, dr, dc, by) {
                return true;
            }
            d += 1;
        }
        let mut i: usize = 0;
        while i < 8
            invariant
                0 <= i <= 8,
                target < 99,
                r as int == target as int / 9,
                c as int == target as int % 9,
                s == self.squares@,
                forall|e: int| 0 <= e < i ==> !knight_hit(s, r as int, c as int, by, KNIGHT_ATTACK[e]),
            decreases 8 - i,
        {
            let (dr, dc, lr, lc) = KNIGHT_ATTACK[i];
            proof {
                lemma_knight_table(i as int);
            }
            let kr = r + dr;
            let kc = c + dc;
            if !(0 <= kr && kr < 10) || !(0 <= kc && kc < 9) {
                i += 1;
                continue;
            }
            let p = self.squares[kr as usize * 9 + kc as usize];
            assert(dr == KNIGHT_ATTACK[i as int].0 && dc == KNIGHT_ATTACK[i as int].1);
            assert(lr == KNIGHT_ATTACK[i as int].2 && lc == KNIGHT_ATTACK[i as int].3);
            assert(p == s[(r + dr) * 9 + c + dc]);
            if p != EMPTY && piece_color(p) == by && piece_kind(p) == KNIGHT {
                let ley = r + lr;
                let lex = c + lc;
                if self.squares[ley as usize * 9 + lex as usize] == EMPTY {
                    assert(knight_hit(s, r as int, c as int, by, KNIGHT_ATTACK[i as int]));
                    return true;
                }
            }
            assert(!knight_hit(s, r as int, c as int, by, KNIGHT_ATTACK[i as int]));
            i += 1;
        }
        let mut i: usize = 0;
        while i < 4
            invariant
                0 <= i <= 4,
                target < 99,
                r as int == target as int / 9,
                c as int == target as int % 9,
                s == self.squares@,
                forall|e: int| 0 <= e < 8 ==> !knight_hit(s, r as int, c as int, by, KNIGHT_ATTACK[e]),
                forall|e: int| 0 <= e < i ==> !advisor_hit(s, r as int, c as int, by, DIAG[e]),
            decreases 4 - i,
        {
            let (dr, dc) = DIAG[i];
            let ar = r + dr;
            let ac = c + dc;
            if !(0 <= ar && ar < 10) || !(0 <= ac && ac < 9) {
                i += 1;
                continue;
            }
            let p = self.squares[ar as usize * 9 + ac as usize];
            if p != EMPTY && piece_color(p) == by && piece_kind(p) == ADVISOR {
                assert(advisor_hit(s, r as int, c as int, by, DIAG[i as int]));
                return true;
            }
            assert(!advisor_hit(s, r as int, c as int, by, DIAG[i as int]));
            i += 1;
        }
        false
    }

    /// Whether `color` is in check; two kings facing each other count as check.
    pub fn in_check(&self, color: u8) -> (res: bool)
        requires
            self@.wf(),
            color < 16,
        ensures
            res == in_check_spec(self.squares@, self.king_sq@, color),
    {
        let attacked = match self.king_square(color) {
            Some(k) => self.is_attacked(k, color ^ 8),
            None => false,
        };
        attacked || self.kings_facing()
    }

    /// Whether the two kings face each other directly on one file.
    pub fn kings_facing(&self) -> (res: bool)
        requires
            self@.wf(),
        ensures
            res == kings_facing_spec(self.squares@, self.king_sq@),
    {
        match self.king_square(RED) {
            Some(rk) => match self.king_square(BLACK) {
                Some(bk) => {
                    let (rr, rc) = (rk / 9, rk % 9);
                    let (br, bc) = (bk / 9, bk % 9);
                    if rc != bc {
                        return false;
                    }
                    let (lo, hi) = if rr < br {
                        (rr, br)
                    } else {
                        (br, rr)
                    };
                    let mut r = lo + 1;
                    while r < hi
                        invariant
                            lo < r <= hi || (r == lo + 1 && hi <= lo + 1),
                            hi <= 9,
                            rc < 9,
                            rk as int == self.king_sq@[0],
                            bk as int == self.king_sq@[1],
                            rc as int == rk as int % 9,
                            lo as int == (if rk / 9 < bk / 9 { rk / 9 } else { bk / 9 }),
                            hi as int == (if rk / 9 < bk / 9 { bk / 9 } else { rk / 9 }),
                            forall|x: int| #![trigger self.squares@[x * 9 + rc]] lo < x < r ==> self.squares@[x * 9 + rc] == EMPTY,
                        decreases hi - r,
                    {
                        if self.squares[r as usize * 9 + rc as usize] != EMPTY {
                            return false;
                        }
                        r += 1;
                    }
                    true
                },
                None => false,
            },
            None => false,
        }
    }
}

/// Each knight leg lies between the target and the knight.
proof fn lemma_knight_table(i: int)
    requires
        0 <= i < 8,
    ensures
        ({
            let o = KNIGHT_ATTACK[i];
            &&& (if o.0 < 0 { o.0 <= o.2 <= 0 } else { 0 <= o.2 <= o.0 })
            &&& (if o.1 < 0 { o.1 <= o.3 <= 0 } else { 0 <= o.3 <= o.1 })
            &&& o.2 == (if o.0 < 0 { -1int } else { 1int })
            &&& o.3 == (if o.1 < 0 { -1int } else { 1int })
        }),
{
    assert(i == 0 || i == 1 || i == 2 || i == 3 || i == 4 || i == 5 || i == 6 || i == 7);
}

/// A line is not attacking when its first piece does not attack and the second piece,
/// `k` steps away, is not a cannon of `by`.
proof fn lemma_line_blocked(s: Seq<u8>, r: int, c: int, dr: int, dc: int, by: u8, k1: int, k: int)
    requires
        near_board(r, c),
        unit_ortho(dr, dc),
        s.len() == 90,
        1 <= k1 < k,
        forall|j: int| 1 <= j <= k ==> ray_on_board(r, c, dr, dc, j),
        ray_clear(s, r, c, dr, dc, 1, k1),
        s[ray_sq(r, c, dr, dc, k1)] != EMPTY,
        ray_clear(s, r, c, dr, dc, k1 + 1, k),
        !first_piece_attacks(
            s[ray_sq(r, c, dr, dc, k1)],
            k1,
            r,
            c,
            r + step(k1, dr),
            c + step(k1, dc),
            by,
        ),
        s[ray_sq(r, c, dr, dc, k)] != EMPTY,
        !owned_by(s[ray_sq(r, c, dr, dc, k)], by, CANNON),
    ensures
        !line_attacked(s, r, c, dr, dc, by),
{
    assert forall|kk: int|
        1 <= kk && ray_on_board(r, c, dr, dc, kk) && ray_clear(s, r, c, dr, dc, 1, kk) implies !(s[ray_sq(
        r,
        c,
        dr,
        dc,
        kk,
    )] != EMPTY && first_piece_attacks(
        s[ray_sq(r, c, dr, dc, kk)],
        kk,
        r,
        c,
        r + step(kk, dr),
        c + step(kk, dc),
        by,
    )) by {
        if kk > k1 {
            assert(s[ray_sq(r, c, dr, dc, k1)] == EMPTY);
        }
    }
    assert forall|a: int, b: int|
        1 <= a < b && ray_on_board(r, c, dr, dc, b) && ray_clear(s, r, c, dr, dc, 1, a) && s[ray_sq(
            r,
            c,
            dr,
            dc,
            a,
        )] != EMPTY && ray_clear(s, r, c, dr, dc, a + 1, b) implies !owned_by(
        s[ray_sq(r, c, dr, dc, b)],
        by,
        CANNON,
    ) by {
        if a > k1 {
            assert(s[ray_sq(r, c, dr, dc, k1)] == EMPTY);
        } else if a == k1 && b > k {
            assert(s[ray_sq(r, c, dr, dc, k)] == EMPTY);
        }
    }
}

/// A line whose scan ran off the board without finding an attack is not attacking.
proof fn lemma_line_off_board(
    s: Seq<u8>,
    r: int,
    c: int,
    dr: int,
    dc: int,
    by: u8,
    k: int,
    screen: bool,
    k1: int,
)
    requires
        near_board(r, c),
        unit_ortho(dr, dc),
        s.len() == 90,
        1 <= k,
        !ray_on_board(r, c, dr, dc, k),
        forall|j: int| 1 <= j < k ==> ray_on_board(r, c, dr, dc, j),
        !screen ==> ray_clear(s, r, c, dr, dc, 1, k),
        screen ==> 1 <= k1 < k && ray_clear(s, r, c, dr, dc, 1, k1) && s[ray_sq(r, c, dr, dc, k1)]
            != EMPTY && ray_clear(s, r, c, dr, dc, k1 + 1, k) && !first_piece_attacks(
            s[ray_sq(r, c, dr, dc, k1)],
            k1,
            r,
            c,
            r + step(k1, dr),
            c + step(k1, dc),
            by,
        ),
    ensures
        !line_attacked(s, r, c, dr, dc, by),
{
    assert forall|kk: int|
        1 <= kk && ray_on_board(r, c, dr, dc, kk) && ray_clear(s, r, c, dr, dc, 1, kk) implies !(s[ray_sq(
        r,
        c,
        dr,
        dc,
        kk,
    )] != EMPTY && first_piece_attacks(
        s[ray_sq(r, c, dr, dc, kk)],
        kk,
        r,
        c,
        r + step(kk, dr),
        c + step(kk, dc),
        by,
    )) by {
        if kk >= k {
            lemma_ray_leaves(r, c, dr, dc, k, kk);
        } else if screen && kk > k1 {
            assert(s[ray_sq(r, c, dr, dc, k1)] == EMPTY);
        }
    }
    assert forall|a: int, b: int|
        1 <= a < b && ray_on_board(r, c, dr, dc, b) && ray_clear(s, r, c, dr, dc, 1, a) && s[ray_sq(
            r,
            c,
            dr,
            dc,
            a,
        )] != EMPTY && ray_clear(s, r, c, dr, dc, a + 1, b) implies !owned_by(
        s[ray_sq(r, c, dr, dc, b)],
        by,
        CANNON,
    ) by {
        if b >= k {
            lemma_ray_leaves(r, c, dr, dc, k, b);
        } else if !screen {
            assert(s[ray_sq(r, c, dr, dc, a)] == EMPTY);
        } else if a > k1 {
            assert(s[ray_sq(r, c, dr, dc, k1)] == EMPTY);
        } else if a < k1 {
            assert(s[ray_sq(r, c, dr, dc, a)] == EMPTY);
        } else {
            assert(s[ray_sq(r, c, dr, dc, b)] == EMPTY);
        }
    }
}

fn abs16(x: i16) -> (r: i16)
    requires
        x > i16::MIN,
    ensures
        r == (if x < 0 { -x } else { x as int }),
{
    if x < 0 {
        -x
    } else {
        x
    }
}

/// The last (highest) square below `n` holding a king of `color`, or 255 if none.
pub open spec fn last_king(s: Seq<u8>, color: u8, n: nat) -> u8
    decreases n,
{
    if n == 0 {
        255
    } else if s[n - 1] != EMPTY && kind_of(s[n - 1]) == KING && color_of(s[n - 1]) == color {
        (n - 1) as u8
    } else {
        last_king(s, color, (n - 1) as nat)
    }
}

/// A copy of a vector of plain values.
pub fn copy_vec<T: Copy>(v: &Vec<T>) -> (r: Vec<T>)
    ensures
        r@ == v@,
{
    let mut r: Vec<T> = Vec::new();
    let mut i: usize = 0;
    while i < v.len()
        invariant
            0 <= i <= v@.len(),
            r@ == v@.take(i as int),
        decreases v@.len() - i,
    {
        r.push(v[i]);
        proof {
            assert(v@.take(i as int + 1) =~= v@.take(i as int).push(v@[i as int]));
        }
        i += 1;
    }
    proof {
        assert(v@.take(v@.len() as int) =~= v@);
    }
    r
}

impl Board {
    /// An independent board in the same state (pieces, side, hash, king slots, undo
    /// stack and history).
    pub fn duplicate(&self) -> (r: Board)
        ensures
            r@ == self@,
    {
        Board {
            squares: self.squares,
            side: self.side,
            hash: self.hash,
            king_sq: self.king_sq,
            undo_stack: copy_vec(&self.undo_stack),
            history_hashes: copy_vec(&self.history_hashes),
        }
    }
}

/// A kind that can deliver mate: rook, cannon, knight or pawn.
pub open spec fn attacking_kind(kind: u8) -> bool {
    kind == ROOK || kind == CANNON || kind == KNIGHT || kind == PAWN
}

/// Neither side has a piece that can deliver mate (only kings, advisors and bishops).
pub open spec fn insufficient_material_spec(s: Seq<u8>) -> bool {
    forall|sq: int| 0 <= sq < 90 && #[trigger] s[sq] != EMPTY ==> !attacking_kind(kind_of(s[sq]))
}

impl Board {
    /// Whether both sides are left without material that can mate (a reference for an
    /// automatic draw).
    pub fn insufficient_material(&self) -> (r: bool)
        ensures
            r == insufficient_material_spec(self.squares@),
    {
        let mut heavy: [bool; 2] = [false, false];
        let mut sq: u8 = 0;
        while sq < 90
            invariant
                0 <= sq <= 90,
                (heavy[0] || heavy[1]) == exists|x: int|
                    0 <= x < sq && #[trigger] self.squares@[x] != EMPTY && attacking_kind(kind_of(self.squares@[x])),
            decreases 90 - sq,
        {
            let p = self.piece_at(sq);
            if p != EMPTY {
                proof {
                    lemma_piece_bits(p);
                }
                let k = piece_kind(p);
                if k == ROOK || k == CANNON || k == KNIGHT || k == PAWN {
                    heavy[(piece_color(p) >> 3) as usize] = true;
                }
            }
            proof {
                if self.squares@[sq as int] != EMPTY && attacking_kind(kind_of(self.squares@[sq as int])) {
                    assert(exists|x: int|
                        0 <= x < sq + 1 && #[trigger] self.squares@[x] != EMPTY && attacking_kind(kind_of(self.squares@[x])));
                }
            }
            sq += 1;
        }
        !heavy[0] && !heavy[1]
    }
}

/// The position after playing the moves `ms` in turn from `v`.
pub open spec fn play_line(v: BoardView, ms: Seq<Move>) -> BoardView
    decreases ms.len(),
{
    if ms.len() == 0 {
        v
    } else {
        let w = play_line(v, ms.drop_last());
        spec_make(w, ms.last().from as int, ms.last().to as int)
    }
}

/// A parsed ICCS move names two squares of the board.
pub proof fn lemma_iccs_parse_squares(b: Seq<u8>)
    requires
        iccs_parse(b) is Some,
    ensures
        iccs_parse(b)->Some_0.from < 90,
        iccs_parse(b)->Some_0.to < 90,
{
}

/// One step of play: a move, or a null move (`None`).
pub open spec fn play_step(v: BoardView, step: Option<Move>) -> BoardView {
    match step {
        Some(m) => spec_make(v, m.from as int, m.to as int),
        None => spec_null(v),
    }
}

/// The position after the steps `steps` in turn from `v`.
pub open spec fn play_steps(v: BoardView, steps: Seq<Option<Move>>) -> BoardView
    decreases steps.len(),
{
    if steps.len() == 0 {
        v
    } else {
        play_step(play_steps(v, steps.drop_last()), steps.last())
    }
}

/// Each move of `steps` goes between two squares of the board, from an occupied square
/// of the position it is played in.
pub open spec fn steps_playable(v: BoardView, steps: Seq<Option<Move>>) -> bool
    decreases steps.len(),
{
    steps.len() == 0 || (steps_playable(v, steps.drop_last()) && (steps.last() matches Some(m) ==> (m.from
        < 90 && m.to < 90 && play_steps(v, steps.drop_last()).squares[m.from as int] != EMPTY)))
}

/// After any playable sequence of moves and null moves, taking back until the undo
/// stack is as deep as before restores the board exactly (its king slots holding its
/// kings to start with).
pub proof fn lemma_undo_to_restores(v: BoardView, steps: Seq<Option<Move>>)
    requires
        v.wf(),
        v.kings_consistent(),
        steps_playable(v, steps),
    ensures
        play_steps(v, steps).wf(),
        play_steps(v, steps).kings_consistent(),
        play_steps(v, steps).undo.len() == v.undo.len() + steps.len(),
        spec_undo_to(play_steps(v, steps), v.undo.len()) == v,
    decreases steps.len(),
{
    if steps.len() > 0 {
        let pre = steps.drop_last();
        lemma_undo_to_restores(v, pre);
        let w = play_steps(v, pre);
        match steps.last() {
            Some(m) => {
                lemma_make_wf(w, m.from as int, m.to as int);
                lemma_make_kings_consistent(w, m.from as int, m.to as int);
                let p = w.squares[m.from as int];
                lemma_piece_bits(p);
                lemma_make_unmake_restores(w, m.from as int, m.to as int);
            },
            None => {
                let x = spec_null(w);
                assert forall|i: int| 0 <= i < x.undo.len() && !(#[trigger] x.undo[i]).null_move implies x.undo[i].mv.from
                    < 90 && x.undo[i].mv.to < 90 by {
                    assert(x.undo[i] == w.undo[i]);
                }
                lemma_null_unmake_restores(w);
            },
        }
    }
}

/// Taking back to a depth the undo stack does not exceed changes nothing.
pub proof fn lemma_undo_to_idle(v: BoardView, n: nat)
    requires
        v.undo.len() <= n,
    ensures
        spec_undo_to(v, n) == v,
{
}

/// Taking moves back keeps the side to move Red or Black.
pub proof fn lemma_undo_to_side(v: BoardView, n: nat)
    requires
        v.side == RED || v.side == BLACK,
    ensures
        spec_undo_to(v, n).side == RED || spec_undo_to(v, n).side == BLACK,
    decreases v.undo.len(),
{
    if v.undo.len() > n {
        lemma_side_flip(v.side);
        lemma_undo_to_side(spec_unmake(v), n);
    }
}

} // verus!
