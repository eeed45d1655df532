//! Pseudo-legal move generation (legality filtering is done in `Board::legal_moves`)
//! and perft node counting.
use vstd::prelude::*;

use crate::board::{
    color_index, in_check_spec, king_attacked_spec, kings_after, kings_facing_spec, kings_round_trip, lemma_make_unmake_general,
    lemma_piece_bits, squares_after, lemma_make_unmake_kings, lemma_make_wf, lemma_make_kings_consistent, spec_make, BoardView, color_of, kind_of, on_board, step, piece_color, piece_kind, unit_ortho, Board, Move, ADVISOR, BISHOP,
    pawn_hits, attacked, line_attacked, knight_hit, advisor_hit, first_piece_attacks, owned_by, ray_clear, ray_sq,
    ray_on_board, KNIGHT_ATTACK, BLACK, CANNON, DIAG, EMPTY, KING, KNIGHT, ORTHO, PAWN, RED, ROOK,
};

verus! {

pub const KNIGHT_MOVES: [(i16, i16); 8] = [
    (-2, -1),
    (-2, 1),
    (2, -1),
    (2, 1),
    (-1, -2),
    (-1, 2),
    (1, -2),
    (1, 2),
];

pub const BISHOP_MOVES: [(i16, i16); 4] = [(-2, -2), (-2, 2), (2, -2), (2, 2)];

/// (r, c) lies inside the palace of `color`.
pub open spec fn palace(r: int, c: int, color: u8) -> bool {
    3 <= c <= 5 && (if color == RED { 7 <= r <= 9 } else { 0 <= r <= 2 })
}

/// Row `r` lies on `color`'s own side of the river.
pub open spec fn own_side(r: int, color: u8) -> bool {
    if color == RED { r >= 5 } else { r <= 4 }
}

/// The move of the piece on `sq` to (rr, cc): none if that is off the board or holds a
/// piece of `side`, otherwise one move recording what stands there.
pub open spec fn step_move(s: Seq<u8>, side: u8, sq: int, rr: int, cc: int) -> Seq<Move> {
    if on_board(rr, cc) && !(s[rr * 9 + cc] != EMPTY && color_of(s[rr * 9 + cc]) == side) {
        seq![Move { from: sq as u8, to: (rr * 9 + cc) as u8, captured: s[rr * 9 + cc] }]
    } else {
        Seq::empty()
    }
}

/// Steps left before a ray in direction (dr, dc) leaves the board from (rr, cc).
pub open spec fn edge_distance(rr: int, cc: int, dr: int, dc: int) -> int {
    if dr > 0 {
        10 - rr
    } else if dr < 0 {
        rr + 1
    } else if dc > 0 {
        9 - cc
    } else {
        cc + 1
    }
}

/// Rook moves along a ray starting at (rr, cc): every empty square, then the first
/// piece if it is an enemy.
pub open spec fn rook_ray(s: Seq<u8>, side: u8, sq: int, rr: int, cc: int, dr: int, dc: int) -> Seq<
    Move,
>
    decreases edge_distance(rr, cc, dr, dc),
{
    if !on_board(rr, cc) || !unit_ortho(dr, dc) {
        Seq::empty()
    } else if s[rr * 9 + cc] == EMPTY {
        seq![Move { from: sq as u8, to: (rr * 9 + cc) as u8, captured: EMPTY }] + rook_ray(
            s,
            side,
            sq,
            rr + dr,
            cc + dc,
            dr,
            dc,
        )
    } else if color_of(s[rr * 9 + cc]) != side {
        seq![Move { from: sq as u8, to: (rr * 9 + cc) as u8, captured: s[rr * 9 + cc] }]
    } else {
        Seq::empty()
    }
}

/// Cannon captures beyond a screen: the first piece met from (rr, cc) on, if an enemy.
pub open spec fn cannon_jump(s: Seq<u8>, side: u8, sq: int, rr: int, cc: int, dr: int, dc: int) -> Seq<
    Move,
>
    decreases edge_distance(rr, cc, dr, dc),
{
    if !on_board(rr, cc) || !unit_ortho(dr, dc) {
        Seq::empty()
    } else if s[rr * 9 + cc] == EMPTY {
        cannon_jump(s, side, sq, rr + dr, cc + dc, dr, dc)
    } else if color_of(s[rr * 9 + cc]) != side {
        seq![Move { from: sq as u8, to: (rr * 9 + cc) as u8, captured: s[rr * 9 + cc] }]
    } else {
        Seq::empty()
    }
}

/// Cannon moves along a ray starting at (rr, cc): every empty square up to the first
/// piece (the screen), then a capture of the first piece beyond it if it is an enemy.
pub open spec fn cannon_ray(s: Seq<u8>, side: u8, sq: int, rr: int, cc: int, dr: int, dc: int) -> Seq<
    Move,
>
    decreases edge_distance(rr, cc, dr, dc),
{
    if !on_board(rr, cc) || !unit_ortho(dr, dc) {
        Seq::empty()
    } else if s[rr * 9 + cc] == EMPTY {
        seq![Move { from: sq as u8, to: (rr * 9 + cc) as u8, captured: EMPTY }] + cannon_ray(
            s,
            side,
            sq,
            rr + dr,
            cc + dc,
            dr,
            dc,
        )
    } else {
        cannon_jump(s, side, sq, rr + dr, cc + dc, dr, dc)
    }
}

/// Moves of a piece of kind `kind` of `side` on `sq` in its `i`-th direction.
pub open spec fn direction_moves(s: Seq<u8>, side: u8, sq: int, kind: u8, i: int) -> Seq<Move> {
    let r = sq / 9;
    let c = sq % 9;
    if kind == KING {
        let (rr, cc) = (r + ORTHO[i].0, c + ORTHO[i].1);
        if on_board(rr, cc) && palace(rr, cc, side) {
            step_move(s, side, sq, rr, cc)
        } else {
            Seq::empty()
        }
    } else if kind == ADVISOR {
        let (rr, cc) = (r + DIAG[i].0, c + DIAG[i].1);
        if on_board(rr, cc) && palace(rr, cc, side) {
            step_move(s, side, sq, rr, cc)
        } else {
            Seq::empty()
        }
    } else if kind == BISHOP {
        let (dr, dc) = (BISHOP_MOVES[i].0 as int, BISHOP_MOVES[i].1 as int);
        let (rr, cc) = (r + dr, c + dc);
        if on_board(rr, cc) && own_side(rr, side) && s[(r + dr / 2) * 9 + c + dc / 2] == EMPTY {
            step_move(s, side, sq, rr, cc)
        } else {
            Seq::empty()
        }
    } else if kind == KNIGHT {
        let (dr, dc) = (KNIGHT_MOVES[i].0 as int, KNIGHT_MOVES[i].1 as int);
        let (rr, cc) = (r + dr, c + dc);
        let (lr, lc) = if dr == 2 || dr == -2 {
            (r + dr / 2, c)
        } else {
            (r, c + dc / 2)
        };
        if on_board(rr, cc) && s[lr * 9 + lc] == EMPTY {
            step_move(s, side, sq, rr, cc)
        } else {
            Seq::empty()
        }
    } else if kind == ROOK {
        rook_ray(s, side, sq, r + ORTHO[i].0, c + ORTHO[i].1, ORTHO[i].0 as int, ORTHO[i].1 as int)
    } else {
        cannon_ray(s, side, sq, r + ORTHO[i].0, c + ORTHO[i].1, ORTHO[i].0 as int, ORTHO[i].1 as int)
    }
}

/// Moves in the first `n` directions, in order.
pub open spec fn directions_moves(s: Seq<u8>, side: u8, sq: int, kind: u8, n: nat) -> Seq<Move>
    decreases n,
{
    if n == 0 {
        Seq::empty()
    } else {
        directions_moves(s, side, sq, kind, (n - 1) as nat) + direction_moves(
            s,
            side,
            sq,
            kind,
            n - 1,
        )
    }
}

/// Number of directions a piece kind moves in.
pub open spec fn direction_count(kind: u8) -> nat {
    if kind == KNIGHT { 8 } else { 4 }
}

/// Pawn moves: one step forward, and sideways once across the river.
pub open spec fn pawn_moves(s: Seq<u8>, side: u8, sq: int) -> Seq<Move> {
    let r = sq / 9;
    let c = sq % 9;
    let fwd = if side == RED { -1int } else { 1int };
    let crossed = if side == RED { r <= 4 } else { r >= 5 };
    step_move(s, side, sq, r + fwd, c) + if crossed {
        step_move(s, side, sq, r, c - 1) + step_move(s, side, sq, r, c + 1)
    } else {
        Seq::empty()
    }
}

/// Pseudo-legal moves of the piece on `sq` when `side` is to move.
pub open spec fn piece_moves(s: Seq<u8>, side: u8, sq: int) -> Seq<Move> {
    let p = s[sq];
    let kind = kind_of(p);
    if p == EMPTY || color_of(p) != side {
        Seq::empty()
    } else if kind == PAWN {
        pawn_moves(s, side, sq)
    } else if kind == KING || kind == ADVISOR || kind == BISHOP || kind == KNIGHT || kind == ROOK
        || kind == CANNON {
        directions_moves(s, side, sq, kind, direction_count(kind))
    } else {
        Seq::empty()
    }
}

/// Pseudo-legal moves of the pieces on the first `n` squares, square by square.
pub open spec fn pseudo_moves_upto(s: Seq<u8>, side: u8, n: nat) -> Seq<Move>
    decreases n,
{
    if n == 0 {
        Seq::empty()
    } else {
        pseudo_moves_upto(s, side, (n - 1) as nat) + piece_moves(s, side, n - 1)
    }
}

/// All pseudo-legal moves of `side` (own king safety not checked).
pub open spec fn pseudo_moves_spec(s: Seq<u8>, side: u8) -> Seq<Move> {
    pseudo_moves_upto(s, side, 90)
}

#[inline(always)]
fn in_board(r: i16, c: i16) -> (res: bool)
    ensures
        res == on_board(r as int, c as int),
{
    0 <= r && r < 10 && 0 <= c && c < 9
}

#[inline(always)]
fn in_palace(r: i16, c: i16, color: u8) -> (res: bool)
    ensures
        res == palace(r as int, c as int, color),
{
    if !(3 <= c && c <= 5) {
        return false;
    }
    if color == RED {
        7 <= r && r <= 9
    } else {
        0 <= r && r <= 2
    }
}

#[inline(always)]
fn own_half(r: i16, color: u8) -> (res: bool)
    ensures
        res == own_side(r as int, color),
{
    if color == RED {
        r >= 5
    } else {
        r <= 4
    }
}

/// Half of an even step of two.
fn half(x: i16) -> (r: i16)
    requires
        x == 2 || x == -2,
    ensures
        r as int == x as int / 2,
{
    if x > 0 {
        1
    } else {
        -1
    }
}

/// Appends the move of the piece on `sq` to (rr, cc) unless that is off the board or
/// holds a piece of `side`.
fn push_step(moves: &mut Vec<Move>, sqs: &[u8; 90], side: u8, sq: u8, rr: i16, cc: i16)
    requires
        sq < 90,
    ensures
        final(moves)@ == old(moves)@ + step_move(sqs@, side, sq as int, rr as int, cc as int),
{
    if !in_board(rr, cc) {
        assert(old(moves)@ + Seq::<Move>::empty() =~= old(moves)@);
        return;
    }
    let t = sqs[rr as usize * 9 + cc as usize];
    if t != EMPTY && piece_color(t) == side {
        assert(old(moves)@ + Seq::<Move>::empty() =~= old(moves)@);
        return;
    }
    moves.push(Move::new(sq, (rr * 9 + cc) as u8, t));
    assert(final(moves)@ =~= old(moves)@ + step_move(sqs@, side, sq as int, rr as int, cc as int));
}

/// Rook moves along one ray.
fn push_rook_ray(moves: &mut Vec<Move>, sqs: &[u8; 90], side: u8, sq: u8, r: i16, c: i16, dr: i16, dc: i16)
    requires
        sq < 90,
        on_board(r as int, c as int),
        unit_ortho(dr as int, dc as int),
    ensures
        final(moves)@ == old(moves)@ + rook_ray(
            sqs@,
            side,
            sq as int,
            r + dr,
            c + dc,
            dr as int,
            dc as int,
        ),
{
    let ghost s = sqs@;
    let mut rr = r + dr;
    let mut cc = c + dc;
    loop
        invariant_except_break
            old(moves)@ + rook_ray(s, side, sq as int, r + dr, c + dc, dr as int, dc as int)
                == moves@ + rook_ray(s, side, sq as int, rr as int, cc as int, dr as int, dc as int),
        invariant
            sq < 90,
            unit_ortho(dr as int, dc as int),
            -1 <= rr <= 10,
            -1 <= cc <= 9,
            s == sqs@,
        ensures
            moves@ == old(moves)@ + rook_ray(
                s,
                side,
                sq as int,
                r + dr,
                c + dc,
                dr as int,
                dc as int,
            ),
        decreases edge_distance(rr as int, cc as int, dr as int, dc as int),
    {
        if !in_board(rr, cc) {
            assert(moves@ + Seq::<Move>::empty() =~= moves@);
            break;
        }
        let ghost before = moves@;
        let t = sqs[rr as usize * 9 + cc as usize];
        if t == EMPTY {
            moves.push(Move::new(sq, (rr * 9 + cc) as u8, EMPTY));
            assert(before + rook_ray(s, side, sq as int, rr as int, cc as int, dr as int, dc as int)
                =~= moves@ + rook_ray(
                s,
                side,
                sq as int,
                (rr + dr) as int,
                (cc + dc) as int,
                dr as int,
                dc as int,
            ));
        } else {
            if piece_color(t) != side {
                moves.push(Move::new(sq, (rr * 9 + cc) as u8, t));
            }
            assert(before + rook_ray(s, side, sq as int, rr as int, cc as int, dr as int, dc as int)
                =~= moves@);
            break;
        }
        rr += dr;
        cc += dc;
    }
}

/// Cannon captures beyond the screen, searching from (rr, cc) on.
fn push_cannon_jump(
    moves: &mut Vec<Move>,
    sqs: &[u8; 90],
    side: u8,
    sq: u8,
    r0: i16,
    c0: i16,
    dr: i16,
    dc: i16,
)
    requires
        sq < 90,
        -1 <= r0 <= 10,
        -1 <= c0 <= 9,
        unit_ortho(dr as int, dc as int),
    ensures
        final(moves)@ == old(moves)@ + cannon_jump(
            sqs@,
            side,
            sq as int,
            r0 as int,
            c0 as int,
            dr as int,
            dc as int,
        ),
{
    let ghost s = sqs@;
    let mut rr = r0;
    let mut cc = c0;
    loop
        invariant_except_break
            old(moves)@ + cannon_jump(s, side, sq as int, r0 as int, c0 as int, dr as int, dc as int)
                == moves@ + cannon_jump(s, side, sq as int, rr as int, cc as int, dr as int, dc as int),
        invariant
            sq < 90,
            unit_ortho(dr as int, dc as int),
            -1 <= rr <= 10,
            -1 <= cc <= 9,
            s == sqs@,
        ensures
            moves@ == old(moves)@ + cannon_jump(
                s,
                side,
                sq as int,
                r0 as int,
                c0 as int,
                dr as int,
                dc as int,
            ),
        decreases edge_distance(rr as int, cc as int, dr as int, dc as int),
    {
        if !in_board(rr, cc) {
            assert(moves@ + Seq::<Move>::empty() =~= moves@);
            break;
        }
        let ghost before = moves@;
        let t = sqs[rr as usize * 9 + cc as usize];
        if t != EMPTY {
            if piece_color(t) != side {
                moves.push(Move::new(sq, (rr * 9 + cc) as u8, t));
            }
            assert(before + cannon_jump(s, side, sq as int, rr as int, cc as int, dr as int, dc as int)
                =~= moves@);
            break;
        }
        rr += dr;
        cc += dc;
    }
}

/// Cannon moves along one ray.
fn push_cannon_ray(
    moves: &mut Vec<Move>,
    sqs: &[u8; 90],
    side: u8,
    sq: u8,
    r: i16,
    c: i16,
    dr: i16,
    dc: i16,
)
    requires
        sq < 90,
        on_board(r as int, c as int),
        unit_ortho(dr as int, dc as int),
    ensures
        final(moves)@ == old(moves)@ + cannon_ray(
            sqs@,
            side,
            sq as int,
            r + dr,
            c + dc,
            dr as int,
            dc as int,
        ),
{
    let ghost s = sqs@;
    let mut rr = r + dr;
    let mut cc = c + dc;
    // Phase one: quiet moves over empty squares.
    while in_board(rr, cc) && sqs[rr as usize * 9 + cc as usize] == EMPTY
        invariant
            sq < 90,
            unit_ortho(dr as int, dc as int),
            -1 <= rr <= 10,
            -1 <= cc <= 9,
            old(moves)@ + cannon_ray(s, side, sq as int, r + dr, c + dc, dr as int, dc as int)
                == moves@ + cannon_ray(s, side, sq as int, rr as int, cc as int, dr as int, dc as int),
            s == sqs@,
        decreases edge_distance(rr as int, cc as int, dr as int, dc as int),
    {
        let ghost before = moves@;
        moves.push(Move::new(sq, (rr * 9 + cc) as u8, EMPTY));
        assert(before + cannon_ray(s, side, sq as int, rr as int, cc as int, dr as int, dc as int)
            =~= moves@ + cannon_ray(
            s,
            side,
            sq as int,
            (rr + dr) as int,
            (cc + dc) as int,
            dr as int,
            dc as int,
        ));
        rr += dr;
        cc += dc;
    }
    // Phase two: capture over the screen.
    if in_board(rr, cc) {
        rr += dr;
        cc += dc;
        push_cannon_jump(moves, sqs, side, sq, rr, cc, dr, dc);
    } else {
        assert(moves@ + Seq::<Move>::empty() =~= moves@);
    }
}

/// Moves of a piece of kind `kind` on `sq` in its `i`-th direction.
fn push_direction(moves: &mut Vec<Move>, sqs: &[u8; 90], side: u8, sq: u8, kind: u8, i: usize)
    requires
        sq < 90,
        i < direction_count(kind),
        kind == KING || kind == ADVISOR || kind == BISHOP || kind == KNIGHT || kind == ROOK || kind
            == CANNON,
    ensures
        final(moves)@ == old(moves)@ + direction_moves(sqs@, side, sq as int, kind, i as int),
{
    let r = (sq / 9) as i16;
    let c = (sq % 9) as i16;
    if kind == KING {
        let (dr, dc) = ORTHO[i];
        let (rr, cc) = (r + dr, c + dc);
        if in_board(rr, cc) && in_palace(rr, cc, side) {
            push_step(moves, sqs, side, sq, rr, cc);
        } else {
            assert(old(moves)@ + Seq::<Move>::empty() =~= old(moves)@);
        }
    } else if kind == ADVISOR {
        let (dr, dc) = DIAG[i];
        let (rr, cc) = (r + dr, c + dc);
        if in_board(rr, cc) && in_palace(rr, cc, side) {
            push_step(moves, sqs, side, sq, rr, cc);
        } else {
            assert(old(moves)@ + Seq::<Move>::empty() =~= old(moves)@);
        }
    } else if kind == BISHOP {
        let (dr, dc) = BISHOP_MOVES[i];
        let (rr, cc) = (r + dr, c + dc);
        if in_board(rr, cc) && own_half(rr, side) {
            // the bishop's eye must be empty
            if sqs[(r + half(dr)) as usize * 9 + (c + half(dc)) as usize] != EMPTY {
                assert(old(moves)@ + Seq::<Move>::empty() =~= old(moves)@);
                return;
            }
            push_step(moves, sqs, side, sq, rr, cc);
        } else {
            assert(old(moves)@ + Seq::<Move>::empty() =~= old(moves)@);
        }
    } else if kind == KNIGHT {
        let (dr, dc) = KNIGHT_MOVES[i];
        let (rr, cc) = (r + dr, c + dc);
        if !in_board(rr, cc) {
            assert(old(moves)@ + Seq::<Move>::empty() =~= old(moves)@);
            return;
        }
        // the knight's leg: next to it in the direction of its two-step
        let (lr, lc) = if dr == 2 || dr == -2 {
            (r + half(dr), c)
        } else {
            (r, c + half(dc))
        };
        if sqs[lr as usize * 9 + lc as usize] != EMPTY {
            assert(old(moves)@ + Seq::<Move>::empty() =~= old(moves)@);
            return;
        }
        push_step(moves, sqs, side, sq, rr, cc);
    } else if kind == ROOK {
        let (dr, dc) = ORTHO[i];
        push_rook_ray(moves, sqs, side, sq, r, c, dr, dc);
    } else {
        let (dr, dc) = ORTHO[i];
        push_cannon_ray(moves, sqs, side, sq, r, c, dr, dc);
    }
}

/// Pawn moves: one step forward, and sideways once across the river.
fn push_pawn(moves: &mut Vec<Move>, sqs: &[u8; 90], side: u8, sq: u8)
    requires
        sq < 90,
    ensures
        final(moves)@ == old(moves)@ + pawn_moves(sqs@, side, sq as int),
{
    let r = (sq / 9) as i16;
    let c = (sq % 9) as i16;
    let fwd: i16 = if side == RED {
        -1
    } else {
        1
    };
    let (rr, cc) = (r + fwd, c);
    if in_board(rr, cc) {
        push_step(moves, sqs, side, sq, rr, cc);
    } else {
        assert(step_move(sqs@, side, sq as int, rr as int, cc as int) =~= Seq::<Move>::empty());
        assert(old(moves)@ + Seq::<Move>::empty() =~= old(moves)@);
    }
    let ghost mid = moves@;
    let crossed = if side == RED {
        r <= 4
    } else {
        r >= 5
    };
    if crossed {
        push_step(moves, sqs, side, sq, r, c - 1);
        push_step(moves, sqs, side, sq, r, c + 1);
        assert(moves@ =~= old(moves)@ + pawn_moves(sqs@, side, sq as int));
    } else {
        assert(moves@ =~= old(moves)@ + pawn_moves(sqs@, side, sq as int));
    }
}

/// Generates the pseudo-legal moves of `b.side`: every move the pieces of the side to
/// move can make by their own rules, without checking the safety of the own king.
pub fn pseudo_moves(b: &Board) -> (moves: Vec<Move>)
    ensures
        moves@ == pseudo_moves_spec(b.squares@, b.side),
{
    let mut moves: Vec<Move> = Vec::with_capacity(48);
    let side = b.side;
    let sqs = &b.squares;
    let mut sq: u8 = 0;
    while sq < 90
        invariant
            0 <= sq <= 90,
            side == b.side,
            sqs@ == b.squares@,
            moves@ == pseudo_moves_upto(b.squares@, side, sq as nat),
        decreases 90 - sq,
    {
        let ghost before = moves@;
        let p = sqs[sq as usize];
        if p == EMPTY || piece_color(p) != side {
            assert(moves@ =~= pseudo_moves_upto(b.squares@, side, (sq + 1) as nat));
            sq += 1;
            continue;
        }
        let kind = piece_kind(p);
        if kind == PAWN {
            push_pawn(&mut moves, sqs, side, sq);
        } else if kind == KING || kind == ADVISOR || kind == BISHOP || kind == KNIGHT || kind
            == ROOK || kind == CANNON {
            let n: usize = if kind == KNIGHT {
                8
            } else {
                4
            };
            let mut i: usize = 0;
            while i < n
                invariant
                    0 <= i <= n,
                    n == direction_count(kind),
                    sq < 90,
                    sqs@ == b.squares@,
                    kind == KING || kind == ADVISOR || kind == BISHOP || kind == KNIGHT || kind
                        == ROOK || kind == CANNON,
                    moves@ == before + directions_moves(b.squares@, side, sq as int, kind, i as nat),
                decreases n - i,
            {
                push_direction(&mut moves, sqs, side, sq, kind, i);
                proof {
                    assert(moves@ =~= before + directions_moves(
                        b.squares@,
                        side,
                        sq as int,
                        kind,
                        (i + 1) as nat,
                    ));
                }
                i += 1;
            }
        }
        assert(moves@ =~= pseudo_moves_upto(b.squares@, side, (sq + 1) as nat));
        sq += 1;
    }
    moves
}

/// Captures only (used by the quiescence search).
/// The captures among `ms`, in order.
pub open spec fn captures_of(ms: Seq<Move>) -> Seq<Move> {
    ms.filter(|m: Move| m.captured != EMPTY)
}

pub fn capture_moves(b: &Board) -> (moves: Vec<Move>)
    ensures
        moves@ == captures_of(pseudo_moves_spec(b.squares@, b.side)),
{
    let all = pseudo_moves(b);
    let mut moves: Vec<Move> = Vec::new();
    let mut i: usize = 0;
    while i < all.len()
        invariant
            0 <= i <= all@.len(),
            all@ == pseudo_moves_spec(b.squares@, b.side),
            moves@ == all@.take(i as int).filter(|m: Move| m.captured != EMPTY),
        decreases all@.len() - i,
    {
        proof {
            assert(all@.take(i + 1).drop_last() =~= all@.take(i as int));
            reveal(Seq::filter);
        }
        if all[i].captured != EMPTY {
            moves.push(all[i]);
        }
        i += 1;
    }
    proof {
        assert(all@.take(i as int) =~= all@);
    }
    moves
}

// ---------------------------------------------------------------------------
// What every pseudo-legal move looks like
// ---------------------------------------------------------------------------

/// A pseudo-legal move of `side`: between two different squares, moving a piece of
/// `side`, recording what stood on the target, which is never a piece of `side`.
pub open spec fn pseudo_ok(s: Seq<u8>, side: u8, m: Move) -> bool {
    &&& m.from < 90
    &&& m.to < 90
    &&& m.from != m.to
    &&& s[m.from as int] != EMPTY
    &&& color_of(s[m.from as int]) == side
    &&& m.captured == s[m.to as int]
    &&& !(s[m.to as int] != EMPTY && color_of(s[m.to as int]) == side)
}

/// Every move of `ms` is a pseudo-legal move of `side`.
pub open spec fn all_pseudo_ok(s: Seq<u8>, side: u8, ms: Seq<Move>) -> bool {
    forall|j: int| 0 <= j < ms.len() ==> pseudo_ok(s, side, #[trigger] ms[j])
}

proof fn lemma_all_ok_concat(s: Seq<u8>, side: u8, a: Seq<Move>, b: Seq<Move>)
    requires
        all_pseudo_ok(s, side, a),
        all_pseudo_ok(s, side, b),
    ensures
        all_pseudo_ok(s, side, a + b),
{
    assert forall|j: int| 0 <= j < (a + b).len() implies pseudo_ok(s, side, #[trigger] (a + b)[j]) by {
        if j < a.len() {
            assert((a + b)[j] == a[j]);
        } else {
            assert((a + b)[j] == b[j - a.len()]);
        }
    }
}

/// The piece on `sq` belongs to `side`.
pub open spec fn mover_ok(s: Seq<u8>, side: u8, sq: int) -> bool {
    s.len() == 90 && 0 <= sq < 90 && s[sq] != EMPTY && color_of(s[sq]) == side
}

proof fn lemma_step_ok(s: Seq<u8>, side: u8, sq: int, rr: int, cc: int)
    requires
        mover_ok(s, side, sq),
        !(rr == sq / 9 && cc == sq % 9),
    ensures
        all_pseudo_ok(s, side, step_move(s, side, sq, rr, cc)),
{
}

proof fn lemma_rook_ray_ok(s: Seq<u8>, side: u8, sq: int, dr: int, dc: int, k: int)
    requires
        mover_ok(s, side, sq),
        unit_ortho(dr, dc),
        k >= 1,
    ensures
        all_pseudo_ok(
            s,
            side,
            rook_ray(s, side, sq, sq / 9 + step(k, dr), sq % 9 + step(k, dc), dr, dc),
        ),
    decreases edge_distance(sq / 9 + step(k, dr), sq % 9 + step(k, dc), dr, dc),
{
    let rr = sq / 9 + step(k, dr);
    let cc = sq % 9 + step(k, dc);
    if on_board(rr, cc) && s[rr * 9 + cc] == EMPTY {
        assert(rr + dr == sq / 9 + step(k + 1, dr));
        assert(cc + dc == sq % 9 + step(k + 1, dc));
        lemma_rook_ray_ok(s, side, sq, dr, dc, k + 1);
        let head = seq![Move { from: sq as u8, to: (rr * 9 + cc) as u8, captured: EMPTY }];
        lemma_all_ok_concat(s, side, head, rook_ray(s, side, sq, rr + dr, cc + dc, dr, dc));
    }
}

proof fn lemma_cannon_jump_ok(s: Seq<u8>, side: u8, sq: int, dr: int, dc: int, k: int)
    requires
        mover_ok(s, side, sq),
        unit_ortho(dr, dc),
        k >= 1,
    ensures
        all_pseudo_ok(
            s,
            side,
            cannon_jump(s, side, sq, sq / 9 + step(k, dr), sq % 9 + step(k, dc), dr, dc),
        ),
    decreases edge_distance(sq / 9 + step(k, dr), sq % 9 + step(k, dc), dr, dc),
{
    let rr = sq / 9 + step(k, dr);
    let cc = sq % 9 + step(k, dc);
    if on_board(rr, cc) && s[rr * 9 + cc] == EMPTY {
        assert(rr + dr == sq / 9 + step(k + 1, dr));
        assert(cc + dc == sq % 9 + step(k + 1, dc));
        lemma_cannon_jump_ok(s, side, sq, dr, dc, k + 1);
    }
}

proof fn lemma_cannon_ray_ok(s: Seq<u8>, side: u8, sq: int, dr: int, dc: int, k: int)
    requires
        mover_ok(s, side, sq),
        unit_ortho(dr, dc),
        k >= 1,
    ensures
        all_pseudo_ok(
            s,
            side,
            cannon_ray(s, side, sq, sq / 9 + step(k, dr), sq % 9 + step(k, dc), dr, dc),
        ),
    decreases edge_distance(sq / 9 + step(k, dr), sq % 9 + step(k, dc), dr, dc),
{
    let rr = sq / 9 + step(k, dr);
    let cc = sq % 9 + step(k, dc);
    if on_board(rr, cc) {
        assert(rr + dr == sq / 9 + step(k + 1, dr));
        assert(cc + dc == sq % 9 + step(k + 1, dc));
        if s[rr * 9 + cc] == EMPTY {
            lemma_cannon_ray_ok(s, side, sq, dr, dc, k + 1);
            let head = seq![Move { from: sq as u8, to: (rr * 9 + cc) as u8, captured: EMPTY }];
            lemma_all_ok_concat(s, side, head, cannon_ray(s, side, sq, rr + dr, cc + dc, dr, dc));
        } else {
            lemma_cannon_jump_ok(s, side, sq, dr, dc, k + 1);
        }
    }
}

proof fn lemma_direction_ok(s: Seq<u8>, side: u8, sq: int, kind: u8, i: int)
    requires
        mover_ok(s, side, sq),
        0 <= i < direction_count(kind),
    ensures
        all_pseudo_ok(s, side, direction_moves(s, side, sq, kind, i)),
{
    let r = sq / 9;
    let c = sq % 9;
    if kind == ADVISOR {
        assert(i == 0 || i == 1 || i == 2 || i == 3);
        lemma_step_ok(s, side, sq, r + DIAG[i].0, c + DIAG[i].1);
    } else if kind == BISHOP {
        assert(i == 0 || i == 1 || i == 2 || i == 3);
        lemma_step_ok(s, side, sq, r + BISHOP_MOVES[i].0, c + BISHOP_MOVES[i].1);
    } else if kind == KNIGHT {
        assert(i == 0 || i == 1 || i == 2 || i == 3 || i == 4 || i == 5 || i == 6 || i == 7);
        lemma_step_ok(s, side, sq, r + KNIGHT_MOVES[i].0, c + KNIGHT_MOVES[i].1);
    } else {
        assert(i == 0 || i == 1 || i == 2 || i == 3);
        let (dr, dc) = (ORTHO[i].0 as int, ORTHO[i].1 as int);
        assert(unit_ortho(dr, dc));
        assert(r + dr == r + step(1, dr) && c + dc == c + step(1, dc));
        if kind == KING {
            lemma_step_ok(s, side, sq, r + dr, c + dc);
        } else if kind == ROOK {
            lemma_rook_ray_ok(s, side, sq, dr, dc, 1);
        } else {
            lemma_cannon_ray_ok(s, side, sq, dr, dc, 1);
        }
    }
}

proof fn lemma_directions_ok(s: Seq<u8>, side: u8, sq: int, kind: u8, n: nat)
    requires
        mover_ok(s, side, sq),
        n <= direction_count(kind),
    ensures
        all_pseudo_ok(s, side, directions_moves(s, side, sq, kind, n)),
    decreases n,
{
    if n > 0 {
        lemma_directions_ok(s, side, sq, kind, (n - 1) as nat);
        lemma_direction_ok(s, side, sq, kind, n - 1);
        lemma_all_ok_concat(
            s,
            side,
            directions_moves(s, side, sq, kind, (n - 1) as nat),
            direction_moves(s, side, sq, kind, n - 1),
        );
    }
}

proof fn lemma_piece_moves_ok(s: Seq<u8>, side: u8, sq: int)
    requires
        s.len() == 90,
        0 <= sq < 90,
    ensures
        all_pseudo_ok(s, side, piece_moves(s, side, sq)),
{
    let p = s[sq];
    let kind = kind_of(p);
    if p != EMPTY && color_of(p) == side {
        if kind == PAWN {
            let r = sq / 9;
            let c = sq % 9;
            let fwd = if side == RED { -1int } else { 1int };
            lemma_step_ok(s, side, sq, r + fwd, c);
            lemma_step_ok(s, side, sq, r, c - 1);
            lemma_step_ok(s, side, sq, r, c + 1);
            lemma_all_ok_concat(s, side, step_move(s, side, sq, r, c - 1), step_move(s, side, sq, r, c + 1));
            lemma_all_ok_concat(
                s,
                side,
                step_move(s, side, sq, r + fwd, c),
                step_move(s, side, sq, r, c - 1) + step_move(s, side, sq, r, c + 1),
            );
            lemma_all_ok_concat(s, side, step_move(s, side, sq, r + fwd, c), Seq::empty());
        } else if kind == KING || kind == ADVISOR || kind == BISHOP || kind == KNIGHT || kind == ROOK
            || kind == CANNON {
            lemma_directions_ok(s, side, sq, kind, direction_count(kind));
        }
    }
}

/// Every generated move is a pseudo-legal move of the side to move.
pub proof fn lemma_pseudo_moves_ok(s: Seq<u8>, side: u8, n: nat)
    requires
        s.len() == 90,
        n <= 90,
    ensures
        all_pseudo_ok(s, side, pseudo_moves_upto(s, side, n)),
    decreases n,
{
    if n > 0 {
        lemma_pseudo_moves_ok(s, side, (n - 1) as nat);
        lemma_piece_moves_ok(s, side, n - 1);
        lemma_all_ok_concat(
            s,
            side,
            pseudo_moves_upto(s, side, (n - 1) as nat),
            piece_moves(s, side, n - 1),
        );
    }
}

// ---------------------------------------------------------------------------
// Legal moves and perft
// ---------------------------------------------------------------------------

/// After `m`, the side that moved is not in check and the kings do not face each other.
pub open spec fn leaves_king_safe(s: Seq<u8>, kings: Seq<u8>, side: u8, m: Move) -> bool {
    let s2 = squares_after(s, m.from as int, m.to as int);
    let k2 = kings_after(s, kings, m.from as int, m.to as int);
    !in_check_spec(s2, k2, side) && !kings_facing_spec(s2, k2)
}

/// The moves of `ms` that leave the king safe, tested one after the other on a board
/// whose king slots follow each make/unmake pair (see `kings_round_trip`).
pub open spec fn legal_filter(s: Seq<u8>, side: u8, kings: Seq<u8>, ms: Seq<Move>) -> Seq<Move>
    decreases ms.len(),
{
    if ms.len() == 0 {
        Seq::empty()
    } else {
        let m = ms[0];
        (if leaves_king_safe(s, kings, side, m) {
            seq![m]
        } else {
            Seq::empty()
        }) + legal_filter(s, side, kings_round_trip(s, kings, m.from as int), ms.drop_first())
    }
}

/// The legal moves of a position: the pseudo-legal moves that leave the king safe.
pub open spec fn legal_moves_spec(v: BoardView) -> Seq<Move> {
    legal_filter(v.squares, v.side, v.king_sq, pseudo_moves_spec(v.squares, v.side))
}

impl Board {
    /// Generates the pseudo-legal moves and keeps those after which the own king is not
    /// in check and the kings do not face each other.
    pub fn legal_moves(&self) -> (legal: Vec<Move>)
        requires
            self@.wf(),
        ensures
            legal@ == legal_moves_spec(self@),
    {
        let mut legal: Vec<Move> = Vec::new();
        let side = self.side;
        let mut b = Board {
            squares: self.squares,
            side: self.side,
            hash: self.hash,
            king_sq: self.king_sq,
            undo_stack: Vec::new(),
            history_hashes: Vec::new(),
        };
        let moves = pseudo_moves(&b);
        proof {
            lemma_pseudo_moves_ok(self.squares@, side, 90);
            assert(moves@.skip(0) =~= moves@);
        }
        let ghost s = self.squares@;
        let mut i: usize = 0;
        while i < moves.len()
            invariant
                0 <= i <= moves@.len(),
                s == self.squares@,
                b.squares@ == s,
                b.side == side,
                side == self.side,
                b@.wf(),
                b.undo_stack@.len() == 0,
                moves@ == pseudo_moves_spec(s, side),
                all_pseudo_ok(s, side, moves@),
                legal@ + legal_filter(s, side, b.king_sq@, moves@.skip(i as int)) == legal_filter(
                    s,
                    side,
                    self.king_sq@,
                    moves@,
                ),
            decreases moves@.len() - i,
        {
            let mv = moves[i];
            let ghost before = b@;
            let ghost k0 = b.king_sq@;
            let ghost prev = legal@;
            assert(pseudo_ok(s, side, mv));
            proof {
                lemma_piece_bits(side);
            }
            b.make_move(mv);
            let safe = !b.in_check(side) && !b.kings_facing();
            if safe {
                legal.push(mv);
            }
            b.unmake_move();
            proof {
                lemma_make_unmake_general(before, mv.from as int, mv.to as int);
                let rest = moves@.skip(i as int);
                assert(rest[0] == mv);
                assert(rest.drop_first() =~= moves@.skip(i + 1));
                assert(safe == leaves_king_safe(s, k0, side, mv));
                if safe {
                    assert(legal@ =~= prev + seq![mv]);
                } else {
                    assert(legal@ =~= prev + Seq::<Move>::empty());
                }
                assert(prev + legal_filter(s, side, k0, rest) =~= legal@ + legal_filter(
                    s,
                    side,
                    b.king_sq@,
                    moves@.skip(i + 1),
                ));
            }
            i += 1;
        }
        proof {
            assert(moves@.skip(i as int) =~= Seq::<Move>::empty());
            assert(legal@ + Seq::<Move>::empty() =~= legal@);
        }
        legal
    }

    /// The side to move has no legal move (checkmated or stalemated; both lose in Xiangqi).
    pub fn no_moves(&self) -> (r: bool)
        requires
            self@.wf(),
        ensures
            r == (legal_moves_spec(self@).len() == 0),
    {
        self.legal_moves().len() == 0
    }
}

/// Perft: the number of legal move sequences of length `depth`, together with the king
/// slots the board is left with (a king move taken back leaves its slot on the square
/// it came from).
pub open spec fn perft_rec(s: Seq<u8>, side: u8, kings: Seq<u8>, depth: nat) -> (nat, Seq<u8>)
    decreases depth, 1nat, 0nat,
{
    if depth == 0 {
        (1, kings)
    } else {
        perft_loop(s, side, kings, pseudo_moves_spec(s, side), depth)
    }
}

/// Perft summed over the moves of `ms`, tried one after the other.
pub open spec fn perft_loop(s: Seq<u8>, side: u8, kings: Seq<u8>, ms: Seq<Move>, depth: nat) -> (
    nat,
    Seq<u8>,
)
    decreases depth, 0nat, ms.len(),
{
    if ms.len() == 0 || depth == 0 {
        (0, kings)
    } else {
        let m = ms[0];
        let s2 = squares_after(s, m.from as int, m.to as int);
        let k2 = kings_after(s, kings, m.from as int, m.to as int);
        let (cnt, k3) = if leaves_king_safe(s, kings, side, m) {
            if depth == 1 {
                (1nat, k2)
            } else {
                perft_rec(s2, side ^ 8, k2, (depth - 1) as nat)
            }
        } else {
            (0nat, k2)
        };
        let (rest, k5) = perft_loop(
            s,
            side,
            kings_round_trip(s, k3, m.from as int),
            ms.drop_first(),
            depth,
        );
        (cnt + rest, k5)
    }
}

/// Perft node count: the number of legal move sequences of length `depth`.
/// The board is given back as it was, except that king slots follow the king moves
/// taken back (which changes nothing when each side has one king and its slot points
/// at it).
pub fn perft(b: &mut Board, depth: u32) -> (nodes: u64)
    requires
        old(b)@.wf(),
        perft_rec(old(b).squares@, old(b).side, old(b).king_sq@, depth as nat).0 <= u64::MAX,
    ensures
        nodes == perft_rec(old(b).squares@, old(b).side, old(b).king_sq@, depth as nat).0,
        final(b)@ == (BoardView {
            king_sq: perft_rec(old(b).squares@, old(b).side, old(b).king_sq@, depth as nat).1,
            ..old(b)@
        }),
        final(b)@.wf(),
    decreases depth,
{
    if depth == 0 {
        proof {
            assert(b@ == BoardView { king_sq: b.king_sq@, ..b@ });
        }
        return 1;
    }
    let ghost v0 = b@;
    let ghost s = b.squares@;
    let ghost total = perft_rec(s, b.side, b.king_sq@, depth as nat);
    let side = b.side;
    let mut nodes: u64 = 0;
    let moves = pseudo_moves(b);
    proof {
        lemma_pseudo_moves_ok(s, side, 90);
        assert(moves@.skip(0) =~= moves@);
    }
    let mut i: usize = 0;
    while i < moves.len()
        invariant
            0 <= i <= moves@.len(),
            depth > 0,
            side == v0.side,
            s == v0.squares,
            v0.wf(),
            b@ == (BoardView { king_sq: b.king_sq@, ..v0 }),
            b@.wf(),
            moves@ == pseudo_moves_spec(s, side),
            all_pseudo_ok(s, side, moves@),
            total == perft_rec(s, side, v0.king_sq, depth as nat),
            total.0 <= u64::MAX,
            nodes + perft_loop(s, side, b.king_sq@, moves@.skip(i as int), depth as nat).0 == total.0,
            perft_loop(s, side, b.king_sq@, moves@.skip(i as int), depth as nat).1 == total.1,
        decreases moves@.len() - i,
    {
        let mv = moves[i];
        let ghost before = b@;
        let ghost k0 = b.king_sq@;
        let ghost rest = moves@.skip(i as int);
        assert(pseudo_ok(s, side, mv));
        assert(rest[0] == mv);
        assert(rest.drop_first() =~= moves@.skip(i + 1));
        proof {
            lemma_piece_bits(side);
            lemma_make_wf(before, mv.from as int, mv.to as int);
        }
        b.make_move(mv);
        let ghost child = b@;
        let ghost k2 = b.king_sq@;
        let safe = !b.in_check(side) && !b.kings_facing();
        assert(safe == leaves_king_safe(s, k0, side, mv));
        if safe {
            let add = if depth == 1 {
                1
            } else {
                perft(b, depth - 1)
            };
            nodes += add;
        }
        let ghost k3 = b.king_sq@;
        proof {
            lemma_make_unmake_kings(before, mv.from as int, mv.to as int, k3);
        }
        b.unmake_move();
        i += 1;
    }
    proof {
        assert(moves@.skip(i as int) =~= Seq::<Move>::empty());
    }
    nodes
}

// ---------------------------------------------------------------------------
// Sizes
// ---------------------------------------------------------------------------

proof fn lemma_rook_ray_len(s: Seq<u8>, side: u8, sq: int, rr: int, cc: int, dr: int, dc: int)
    ensures
        rook_ray(s, side, sq, rr, cc, dr, dc).len() <= 10,
        rook_ray(s, side, sq, rr, cc, dr, dc).len() <= if on_board(rr, cc) && unit_ortho(dr, dc) {
            edge_distance(rr, cc, dr, dc)
        } else {
            0
        },
    decreases edge_distance(rr, cc, dr, dc),
{
    if on_board(rr, cc) && unit_ortho(dr, dc) && s[rr * 9 + cc] == EMPTY {
        lemma_rook_ray_len(s, side, sq, rr + dr, cc + dc, dr, dc);
    }
}

proof fn lemma_cannon_jump_len(s: Seq<u8>, side: u8, sq: int, rr: int, cc: int, dr: int, dc: int)
    ensures
        cannon_jump(s, side, sq, rr, cc, dr, dc).len() <= 1,
    decreases edge_distance(rr, cc, dr, dc),
{
    if on_board(rr, cc) && unit_ortho(dr, dc) && s[rr * 9 + cc] == EMPTY {
        lemma_cannon_jump_len(s, side, sq, rr + dr, cc + dc, dr, dc);
    }
}

proof fn lemma_cannon_ray_len(s: Seq<u8>, side: u8, sq: int, rr: int, cc: int, dr: int, dc: int)
    ensures
        cannon_ray(s, side, sq, rr, cc, dr, dc).len() <= if on_board(rr, cc) && unit_ortho(dr, dc) {
            edge_distance(rr, cc, dr, dc)
        } else {
            0
        },
    decreases edge_distance(rr, cc, dr, dc),
{
    if on_board(rr, cc) && unit_ortho(dr, dc) {
        if s[rr * 9 + cc] == EMPTY {
            lemma_cannon_ray_len(s, side, sq, rr + dr, cc + dc, dr, dc);
        } else {
            lemma_cannon_jump_len(s, side, sq, rr + dr, cc + dc, dr, dc);
        }
    }
}

proof fn lemma_directions_len(s: Seq<u8>, side: u8, sq: int, kind: u8, n: nat)
    requires
        n <= 8,
    ensures
        directions_moves(s, side, sq, kind, n).len() <= 10 * n,
    decreases n,
{
    if n > 0 {
        lemma_directions_len(s, side, sq, kind, (n - 1) as nat);
        let i = n - 1;
        let r = sq / 9;
        let c = sq % 9;
        if kind != KING && kind != ADVISOR && kind != BISHOP && kind != KNIGHT {
            if kind == ROOK {
                lemma_rook_ray_len(s, side, sq, r + ORTHO[i].0, c + ORTHO[i].1, ORTHO[i].0 as int, ORTHO[i].1 as int);
            } else {
                lemma_cannon_ray_len(s, side, sq, r + ORTHO[i].0, c + ORTHO[i].1, ORTHO[i].0 as int, ORTHO[i].1 as int);
            }
        }
    }
}

/// There are at most 80 pseudo-legal moves per square, 7200 in all.
pub proof fn lemma_pseudo_moves_len(s: Seq<u8>, side: u8, n: nat)
    requires
        n <= 90,
    ensures
        pseudo_moves_upto(s, side, n).len() <= 80 * n,
    decreases n,
{
    if n > 0 {
        lemma_pseudo_moves_len(s, side, (n - 1) as nat);
        let sq = n - 1;
        let p = s[sq];
        let kind = kind_of(p);
        if p != EMPTY && color_of(p) == side && kind != PAWN {
            lemma_directions_len(s, side, sq, kind, direction_count(kind));
        }
    }
}

/// The legal moves are among the moves they were filtered from.
pub proof fn lemma_legal_filter_subset(s: Seq<u8>, side: u8, kings: Seq<u8>, ms: Seq<Move>)
    ensures
        legal_filter(s, side, kings, ms).len() <= ms.len(),
        forall|i: int|
            0 <= i < legal_filter(s, side, kings, ms).len() ==> ms.contains(
                #[trigger] legal_filter(s, side, kings, ms)[i],
            ),
    decreases ms.len(),
{
    if ms.len() > 0 {
        let m = ms[0];
        let k2 = kings_round_trip(s, kings, m.from as int);
        lemma_legal_filter_subset(s, side, k2, ms.drop_first());
        let rest = legal_filter(s, side, k2, ms.drop_first());
        let head: Seq<Move> = if leaves_king_safe(s, kings, side, m) {
            seq![m]
        } else {
            Seq::empty()
        };
        assert forall|i: int|
            0 <= i < legal_filter(s, side, kings, ms).len() implies ms.contains(
            #[trigger] legal_filter(s, side, kings, ms)[i],
        ) by {
            if i < head.len() {
                assert(ms[0] == m);
            } else {
                let x = rest[i - head.len()];
                assert(legal_filter(s, side, kings, ms)[i] == x);
                assert(ms.drop_first().contains(x));
                let j = choose|j: int| 0 <= j < ms.drop_first().len() && ms.drop_first()[j] == x;
                assert(ms[j + 1] == x);
            }
        }
    }
}

/// Every legal move is a pseudo-legal move of the side to move, and there are at most
/// 7200 of them.
pub proof fn lemma_legal_moves_ok(v: BoardView)
    requires
        v.squares.len() == 90,
    ensures
        legal_moves_spec(v).len() <= 7200,
        forall|i: int|
            0 <= i < legal_moves_spec(v).len() ==> pseudo_ok(v.squares, v.side, #[trigger] legal_moves_spec(v)[i]),
{
    let pm = pseudo_moves_spec(v.squares, v.side);
    lemma_pseudo_moves_len(v.squares, v.side, 90);
    lemma_pseudo_moves_ok(v.squares, v.side, 90);
    lemma_legal_filter_subset(v.squares, v.side, v.king_sq, pm);
    assert forall|i: int|
        0 <= i < legal_moves_spec(v).len() implies pseudo_ok(v.squares, v.side, #[trigger] legal_moves_spec(v)[i]) by {
        let x = legal_moves_spec(v)[i];
        assert(pm.contains(x));
        let j = choose|j: int| 0 <= j < pm.len() && pm[j] == x;
        assert(pseudo_ok(v.squares, v.side, pm[j]));
    }
}

/// The moves of `ms` after which the mover's king is safe, by a plain filter.
pub open spec fn safe_moves(s: Seq<u8>, side: u8, kings: Seq<u8>, ms: Seq<Move>) -> Seq<Move> {
    ms.filter(|m: Move| leaves_king_safe(s, kings, side, m))
}

proof fn lemma_legal_filter_plain(v: BoardView, ms: Seq<Move>)
    requires
        v.wf(),
        v.kings_consistent(),
        forall|i: int| 0 <= i < ms.len() ==> (#[trigger] ms[i]).from < 90,
    ensures
        legal_filter(v.squares, v.side, v.king_sq, ms) == safe_moves(v.squares, v.side, v.king_sq, ms),
    decreases ms.len(),
{
    if ms.len() > 0 {
        let m = ms[0];
        let s = v.squares;
        let k2 = kings_round_trip(s, v.king_sq, m.from as int);
        assert(k2 =~= v.king_sq) by {
            let p = s[m.from as int];
            if kind_of(p) == KING {
                lemma_piece_bits(p);
                assert(p != EMPTY);
                assert(v.king_sq[color_index(color_of(p))] == m.from);
            }
        }
        let rest = ms.drop_first();
        assert forall|i: int| 0 <= i < rest.len() implies (#[trigger] rest[i]).from < 90 by {
            assert(rest[i] == ms[i + 1]);
        }
        lemma_legal_filter_plain(v, rest);
        let f = |x: Move| leaves_king_safe(s, v.king_sq, v.side, x);
        rest.lemma_filter_prepend(m, f);
        assert(ms =~= seq![m] + rest);
    }
}

/// On a board whose king slots hold its kings, the legal moves are exactly the
/// pseudo-legal moves after which the mover is not in check and the kings do not face
/// each other.
pub proof fn lemma_legal_moves_safe(v: BoardView)
    requires
        v.wf(),
        v.kings_consistent(),
    ensures
        legal_moves_spec(v) == safe_moves(v.squares, v.side, v.king_sq, pseudo_moves_spec(v.squares, v.side)),
{
    let pm = pseudo_moves_spec(v.squares, v.side);
    lemma_pseudo_moves_ok(v.squares, v.side, 90);
    assert forall|i: int| 0 <= i < pm.len() implies (#[trigger] pm[i]).from < 90 by {
        assert(pseudo_ok(v.squares, v.side, pm[i]));
    }
    lemma_legal_filter_plain(v, pm);
}

/// With the king slots holding the kings and no legal move, every pseudo-legal move
/// leaves the mover's king in check or the kings facing.
pub proof fn lemma_no_legal_all_unsafe(v: BoardView, m: Move)
    requires
        v.wf(),
        v.kings_consistent(),
        legal_moves_spec(v).len() == 0,
        pseudo_moves_spec(v.squares, v.side).contains(m),
    ensures
        !leaves_king_safe(v.squares, v.king_sq, v.side, m),
{
    let pm = pseudo_moves_spec(v.squares, v.side);
    lemma_legal_moves_safe(v);
    let i = choose|i: int| 0 <= i < pm.len() && pm[i] == m;
    let f = |x: Move| leaves_king_safe(v.squares, v.king_sq, v.side, x);
    if leaves_king_safe(v.squares, v.king_sq, v.side, m) {
        pm.lemma_filter_contains(f, i);
        assert(safe_moves(v.squares, v.side, v.king_sq, pm).contains(m));
    }
}

proof fn lemma_perft_loop_one(s: Seq<u8>, side: u8, kings: Seq<u8>, ms: Seq<Move>)
    requires
        kings.len() == 2,
    ensures
        perft_loop(s, side, kings, ms, 1).0 == legal_filter(s, side, kings, ms).len(),
    decreases ms.len(),
{
    if ms.len() > 0 {
        let m = ms[0];
        let p = s[m.from as int];
        let k2 = kings_after(s, kings, m.from as int, m.to as int);
        lemma_piece_bits(p);
        assert(kings_round_trip(s, k2, m.from as int) =~= kings_round_trip(s, kings, m.from as int));
        lemma_perft_loop_one(s, side, kings_round_trip(s, kings, m.from as int), ms.drop_first());
    }
}

proof fn lemma_upto_contains(s: Seq<u8>, side: u8, n: nat, sq: int, m: Move)
    requires
        0 <= sq < n,
        piece_moves(s, side, sq).contains(m),
    ensures
        pseudo_moves_upto(s, side, n).contains(m),
    decreases n,
{
    let prev = pseudo_moves_upto(s, side, (n - 1) as nat);
    let last = piece_moves(s, side, n - 1);
    if sq == n - 1 {
        let j = choose|j: int| 0 <= j < last.len() && last[j] == m;
        assert((prev + last)[prev.len() + j] == m);
    } else {
        lemma_upto_contains(s, side, (n - 1) as nat, sq, m);
        let j = choose|j: int| 0 <= j < prev.len() && prev[j] == m;
        assert((prev + last)[j] == m);
    }
}

proof fn lemma_directions_contains(s: Seq<u8>, side: u8, sq: int, kind: u8, n: nat, i: int, m: Move)
    requires
        0 <= i < n,
        direction_moves(s, side, sq, kind, i).contains(m),
    ensures
        directions_moves(s, side, sq, kind, n).contains(m),
    decreases n,
{
    let prev = directions_moves(s, side, sq, kind, (n - 1) as nat);
    let last = direction_moves(s, side, sq, kind, n - 1);
    if i == n - 1 {
        let j = choose|j: int| 0 <= j < last.len() && last[j] == m;
        assert((prev + last)[prev.len() + j] == m);
    } else {
        lemma_directions_contains(s, side, sq, kind, (n - 1) as nat, i, m);
        let j = choose|j: int| 0 <= j < prev.len() && prev[j] == m;
        assert((prev + last)[j] == m);
    }
}

/// Along a rook ray from (rr, cc): when the first `m` squares are empty, the square after
/// them, on the board and not held by the mover's side, is reached.
proof fn lemma_rook_ray_reaches(s: Seq<u8>, side: u8, from: int, rr: int, cc: int, dr: int, dc: int, m: nat)
    requires
        unit_ortho(dr, dc),
        forall|j: int| 0 <= j < m ==> on_board(rr + step(j, dr), cc + step(j, dc)) && s[(rr + step(j, dr)) * 9 + cc + step(j, dc)] == EMPTY,
        on_board(rr + step(m as int, dr), cc + step(m as int, dc)),
        !(s[(rr + step(m as int, dr)) * 9 + cc + step(m as int, dc)] != EMPTY && color_of(
            s[(rr + step(m as int, dr)) * 9 + cc + step(m as int, dc)],
        ) == side),
    ensures
        rook_ray(s, side, from, rr, cc, dr, dc).contains(
            Move {
                from: from as u8,
                to: ((rr + step(m as int, dr)) * 9 + cc + step(m as int, dc)) as u8,
                captured: s[(rr + step(m as int, dr)) * 9 + cc + step(m as int, dc)],
            },
        ),
    decreases m,
{
    let ray = rook_ray(s, side, from, rr, cc, dr, dc);
    if m == 0 {
        assert(ray[0] == Move { from: from as u8, to: (rr * 9 + cc) as u8, captured: s[rr * 9 + cc] });
    } else {
        assert(on_board(rr + step(0, dr), cc + step(0, dc)) && s[(rr + step(0, dr)) * 9 + cc + step(0, dc)] == EMPTY);
        assert forall|j: int| 0 <= j < m - 1 implies on_board(rr + dr + step(j, dr), cc + dc + step(j, dc)) && s[(rr + dr
            + step(j, dr)) * 9 + cc + dc + step(j, dc)] == EMPTY by {
            assert(rr + dr + step(j, dr) == rr + step(j + 1, dr) && cc + dc + step(j, dc) == cc + step(j + 1, dc));
        }
        assert(rr + dr + step((m - 1) as int, dr) == rr + step(m as int, dr) && cc + dc + step((m - 1) as int, dc) == cc
            + step(m as int, dc));
        lemma_rook_ray_reaches(s, side, from, rr + dr, cc + dc, dr, dc, (m - 1) as nat);
        let rest = rook_ray(s, side, from, rr + dr, cc + dc, dr, dc);
        assert(ray == seq![Move { from: from as u8, to: (rr * 9 + cc) as u8, captured: EMPTY }] + rest);
        let k = choose|k: int| 0 <= k < rest.len() && rest[k] == Move {
            from: from as u8,
            to: ((rr + step(m as int, dr)) * 9 + cc + step(m as int, dc)) as u8,
            captured: s[(rr + step(m as int, dr)) * 9 + cc + step(m as int, dc)],
        };
        assert(ray[k + 1] == rest[k]);
    }
}

/// Along a cannon's jump from (rr, cc): when the first `m` squares are empty, an enemy
/// piece on the square after them is captured.
proof fn lemma_cannon_jump_reaches(s: Seq<u8>, side: u8, from: int, rr: int, cc: int, dr: int, dc: int, m: nat)
    requires
        unit_ortho(dr, dc),
        forall|j: int| 0 <= j < m ==> on_board(rr + step(j, dr), cc + step(j, dc)) && s[(rr + step(j, dr)) * 9 + cc + step(j, dc)] == EMPTY,
        on_board(rr + step(m as int, dr), cc + step(m as int, dc)),
        s[(rr + step(m as int, dr)) * 9 + cc + step(m as int, dc)] != EMPTY,
        color_of(s[(rr + step(m as int, dr)) * 9 + cc + step(m as int, dc)]) != side,
    ensures
        cannon_jump(s, side, from, rr, cc, dr, dc).contains(
            Move {
                from: from as u8,
                to: ((rr + step(m as int, dr)) * 9 + cc + step(m as int, dc)) as u8,
                captured: s[(rr + step(m as int, dr)) * 9 + cc + step(m as int, dc)],
            },
        ),
    decreases m,
{
    let ray = cannon_jump(s, side, from, rr, cc, dr, dc);
    if m == 0 {
        assert(ray[0] == Move { from: from as u8, to: (rr * 9 + cc) as u8, captured: s[rr * 9 + cc] });
    } else {
        assert(on_board(rr + step(0, dr), cc + step(0, dc)) && s[(rr + step(0, dr)) * 9 + cc + step(0, dc)] == EMPTY);
        assert forall|j: int| 0 <= j < m - 1 implies on_board(rr + dr + step(j, dr), cc + dc + step(j, dc)) && s[(rr + dr
            + step(j, dr)) * 9 + cc + dc + step(j, dc)] == EMPTY by {
            assert(rr + dr + step(j, dr) == rr + step(j + 1, dr) && cc + dc + step(j, dc) == cc + step(j + 1, dc));
        }
        assert(rr + dr + step((m - 1) as int, dr) == rr + step(m as int, dr) && cc + dc + step((m - 1) as int, dc) == cc
            + step(m as int, dc));
        lemma_cannon_jump_reaches(s, side, from, rr + dr, cc + dc, dr, dc, (m - 1) as nat);
    }
}

/// Along a cannon ray from (rr, cc): empty squares up to a screen `a` squares on, then
/// empty squares up to an enemy piece `b` squares on: that piece is captured.
proof fn lemma_cannon_ray_reaches(s: Seq<u8>, side: u8, from: int, rr: int, cc: int, dr: int, dc: int, a: nat, b: nat)
    requires
        unit_ortho(dr, dc),
        a < b,
        forall|j: int| 0 <= j < b ==> on_board(rr + step(j, dr), cc + step(j, dc)),
        forall|j: int| 0 <= j < b && j != a ==> s[(rr + step(j, dr)) * 9 + cc + step(j, dc)] == EMPTY,
        s[(rr + step(a as int, dr)) * 9 + cc + step(a as int, dc)] != EMPTY,
        on_board(rr + step(b as int, dr), cc + step(b as int, dc)),
        s[(rr + step(b as int, dr)) * 9 + cc + step(b as int, dc)] != EMPTY,
        color_of(s[(rr + step(b as int, dr)) * 9 + cc + step(b as int, dc)]) != side,
    ensures
        cannon_ray(s, side, from, rr, cc, dr, dc).contains(
            Move {
                from: from as u8,
                to: ((rr + step(b as int, dr)) * 9 + cc + step(b as int, dc)) as u8,
                captured: s[(rr + step(b as int, dr)) * 9 + cc + step(b as int, dc)],
            },
        ),
    decreases a,
{
    let target = Move {
        from: from as u8,
        to: ((rr + step(b as int, dr)) * 9 + cc + step(b as int, dc)) as u8,
        captured: s[(rr + step(b as int, dr)) * 9 + cc + step(b as int, dc)],
    };
    assert(on_board(rr + step(0, dr), cc + step(0, dc)));
    assert forall|j: int| 0 <= j < b - 1 implies on_board(rr + dr + step(j, dr), cc + dc + step(j, dc)) by {
        assert(rr + dr + step(j, dr) == rr + step(j + 1, dr) && cc + dc + step(j, dc) == cc + step(j + 1, dc));
    }
    assert(rr + dr + step((b - 1) as int, dr) == rr + step(b as int, dr) && cc + dc + step((b - 1) as int, dc) == cc
        + step(b as int, dc));
    if a == 0 {
        assert forall|j: int| 0 <= j < b - 1 implies on_board(rr + dr + step(j, dr), cc + dc + step(j, dc)) && s[(rr + dr
            + step(j, dr)) * 9 + cc + dc + step(j, dc)] == EMPTY by {
            assert(rr + dr + step(j, dr) == rr + step(j + 1, dr) && cc + dc + step(j, dc) == cc + step(j + 1, dc));
        }
        lemma_cannon_jump_reaches(s, side, from, rr + dr, cc + dc, dr, dc, (b - 1) as nat);
    } else {
        assert(s[(rr + step(0, dr)) * 9 + cc + step(0, dc)] == EMPTY);
        assert forall|j: int| 0 <= j < b - 1 && j != a - 1 implies s[(rr + dr + step(j, dr)) * 9 + cc + dc + step(j, dc)] == EMPTY by {
            assert(rr + dr + step(j, dr) == rr + step(j + 1, dr) && cc + dc + step(j, dc) == cc + step(j + 1, dc));
        }
        assert(rr + dr + step((a - 1) as int, dr) == rr + step(a as int, dr) && cc + dc + step((a - 1) as int, dc) == cc
            + step(a as int, dc));
        lemma_cannon_ray_reaches(s, side, from, rr + dr, cc + dc, dr, dc, (a - 1) as nat, (b - 1) as nat);
        let ray = cannon_ray(s, side, from, rr, cc, dr, dc);
        let rest = cannon_ray(s, side, from, rr + dr, cc + dc, dr, dc);
        assert(ray == seq![Move { from: from as u8, to: (rr * 9 + cc) as u8, captured: EMPTY }] + rest);
        let k = choose|k: int| 0 <= k < rest.len() && rest[k] == target;
        assert(ray[k + 1] == rest[k]);
    }
}

proof fn lemma_ortho_reverse(d: int)
    requires
        0 <= d < 4,
    ensures
        ({
            let e = if d % 2 == 0 { d + 1 } else { d - 1 };
            &&& 0 <= e < 4
            &&& ORTHO[e].0 == -ORTHO[d].0
            &&& ORTHO[e].1 == -ORTHO[d].1
            &&& unit_ortho(ORTHO[d].0 as int, ORTHO[d].1 as int)
        }),
{
    assert(d == 0 || d == 1 || d == 2 || d == 3);
}

/// A rook of `by` that is the first piece `k` squares from (r, c) in direction `d`
/// captures an enemy piece on (r, c).
proof fn lemma_rook_attack_capture(s: Seq<u8>, by: u8, r: int, c: int, d: int, k: int)
    requires
        s.len() == 90,
        on_board(r, c),
        0 <= d < 4,
        1 <= k,
        ray_on_board(r, c, ORTHO[d].0 as int, ORTHO[d].1 as int, k),
        ray_clear(s, r, c, ORTHO[d].0 as int, ORTHO[d].1 as int, 1, k),
        owned_by(s[ray_sq(r, c, ORTHO[d].0 as int, ORTHO[d].1 as int, k)], by, ROOK),
        s[r * 9 + c] != EMPTY,
        color_of(s[r * 9 + c]) != by,
    ensures
        pseudo_moves_spec(s, by).contains(
            Move { from: ray_sq(r, c, ORTHO[d].0 as int, ORTHO[d].1 as int, k) as u8, to: (r * 9 + c) as u8, captured: s[r * 9 + c] },
        ),
{
    let dr = ORTHO[d].0 as int;
    let dc = ORTHO[d].1 as int;
    let ndr = -dr;
    let ndc = -dc;
    lemma_ortho_reverse(d);
    let e = if d % 2 == 0 { d + 1 } else { d - 1 };
    let pr = r + step(k, dr);
    let pc = c + step(k, dc);
    let psq = pr * 9 + pc;
    assert(psq / 9 == pr && psq % 9 == pc);
    let m = Move { from: psq as u8, to: (r * 9 + c) as u8, captured: s[r * 9 + c] };
    assert forall|j: int| 0 <= j < k - 1 implies on_board(pr - dr + step(j, ndr), pc - dc + step(j, ndc)) && s[(pr - dr
        + step(j, ndr)) * 9 + pc - dc + step(j, ndc)] == EMPTY by {
        assert(pr - dr + step(j, ndr) == r + step(k - 1 - j, dr) && pc - dc + step(j, ndc) == c + step(k - 1 - j, dc));
        assert(s[ray_sq(r, c, dr, dc, k - 1 - j)] == EMPTY);
    }
    assert(pr - dr + step(k - 1, ndr) == r && pc - dc + step(k - 1, ndc) == c);
    lemma_rook_ray_reaches(s, by, psq, pr - dr, pc - dc, ndr, ndc, (k - 1) as nat);
    assert(direction_moves(s, by, psq, ROOK, e) == rook_ray(s, by, psq, pr - dr, pc - dc, ndr, ndc));
    lemma_directions_contains(s, by, psq, ROOK, 4, e, m);
    assert(piece_moves(s, by, psq) == directions_moves(s, by, psq, ROOK, 4));
    lemma_upto_contains(s, by, 90, psq, m);
}

/// A cannon of `by` `k2` squares from (r, c) in direction `d`, with exactly one piece
/// (its screen, `k1` squares on) between, captures an enemy piece on (r, c).
proof fn lemma_cannon_attack_capture(s: Seq<u8>, by: u8, r: int, c: int, d: int, k1: int, k2: int)
    requires
        s.len() == 90,
        on_board(r, c),
        0 <= d < 4,
        1 <= k1 < k2,
        ray_on_board(r, c, ORTHO[d].0 as int, ORTHO[d].1 as int, k2),
        ray_clear(s, r, c, ORTHO[d].0 as int, ORTHO[d].1 as int, 1, k1),
        s[ray_sq(r, c, ORTHO[d].0 as int, ORTHO[d].1 as int, k1)] != EMPTY,
        ray_clear(s, r, c, ORTHO[d].0 as int, ORTHO[d].1 as int, k1 + 1, k2),
        owned_by(s[ray_sq(r, c, ORTHO[d].0 as int, ORTHO[d].1 as int, k2)], by, CANNON),
        s[r * 9 + c] != EMPTY,
        color_of(s[r * 9 + c]) != by,
    ensures
        pseudo_moves_spec(s, by).contains(
            Move { from: ray_sq(r, c, ORTHO[d].0 as int, ORTHO[d].1 as int, k2) as u8, to: (r * 9 + c) as u8, captured: s[r * 9 + c] },
        ),
{
    let dr = ORTHO[d].0 as int;
    let dc = ORTHO[d].1 as int;
    let ndr = -dr;
    let ndc = -dc;
    lemma_ortho_reverse(d);
    let e = if d % 2 == 0 { d + 1 } else { d - 1 };
    let pr = r + step(k2, dr);
    let pc = c + step(k2, dc);
    let psq = pr * 9 + pc;
    assert(psq / 9 == pr && psq % 9 == pc);
    let m = Move { from: psq as u8, to: (r * 9 + c) as u8, captured: s[r * 9 + c] };
    let a = k2 - 1 - k1;
    let b = k2 - 1;
    assert forall|j: int| 0 <= j < b implies on_board(pr - dr + step(j, ndr), pc - dc + step(j, ndc)) by {
        assert(pr - dr + step(j, ndr) == r + step(k2 - 1 - j, dr) && pc - dc + step(j, ndc) == c + step(k2 - 1 - j, dc));
    }
    assert forall|j: int| 0 <= j < b && j != a implies s[(pr - dr + step(j, ndr)) * 9 + pc - dc + step(j, ndc)] == EMPTY by {
        assert(pr - dr + step(j, ndr) == r + step(k2 - 1 - j, dr) && pc - dc + step(j, ndc) == c + step(k2 - 1 - j, dc));
        assert(s[ray_sq(r, c, dr, dc, k2 - 1 - j)] == EMPTY);
    }
    assert(pr - dr + step(a, ndr) == r + step(k1, dr) && pc - dc + step(a, ndc) == c + step(k1, dc));
    assert(pr - dr + step(b, ndr) == r && pc - dc + step(b, ndc) == c);
    lemma_cannon_ray_reaches(s, by, psq, pr - dr, pc - dc, ndr, ndc, a as nat, b as nat);
    assert(direction_moves(s, by, psq, CANNON, e) == cannon_ray(s, by, psq, pr - dr, pc - dc, ndr, ndc));
    lemma_directions_contains(s, by, psq, CANNON, 4, e, m);
    assert(piece_moves(s, by, psq) == directions_moves(s, by, psq, CANNON, 4));
    lemma_upto_contains(s, by, 90, psq, m);
}

/// A knight of `by` at attack offset `i` from (r, c) with its leg free captures an enemy
/// piece on (r, c).
proof fn lemma_knight_attack_capture(s: Seq<u8>, by: u8, r: int, c: int, i: int)
    requires
        s.len() == 90,
        on_board(r, c),
        0 <= i < 8,
        knight_hit(s, r, c, by, KNIGHT_ATTACK[i]),
        s[r * 9 + c] != EMPTY,
        color_of(s[r * 9 + c]) != by,
    ensures
        pseudo_moves_spec(s, by).contains(
            Move {
                from: ((r + KNIGHT_ATTACK[i].0) * 9 + c + KNIGHT_ATTACK[i].1) as u8,
                to: (r * 9 + c) as u8,
                captured: s[r * 9 + c],
            },
        ),
{
    let o = KNIGHT_ATTACK[i];
    let kr = r + o.0;
    let kc = c + o.1;
    let ksq = kr * 9 + kc;
    assert(ksq / 9 == kr && ksq % 9 == kc);
    let m = Move { from: ksq as u8, to: (r * 9 + c) as u8, captured: s[r * 9 + c] };
    let j = if i < 4 { 3 - i } else { 11 - i };
    assert(i == 0 || i == 1 || i == 2 || i == 3 || i == 4 || i == 5 || i == 6 || i == 7);
    assert(KNIGHT_MOVES[j].0 == -o.0 && KNIGHT_MOVES[j].1 == -o.1);
    assert(step_move(s, by, ksq, r, c) == seq![m]);
    assert(direction_moves(s, by, ksq, KNIGHT, j) == step_move(s, by, ksq, r, c));
    assert(direction_moves(s, by, ksq, KNIGHT, j)[0] == m);
    lemma_directions_contains(s, by, ksq, KNIGHT, 8, j, m);
    assert(piece_moves(s, by, ksq) == directions_moves(s, by, ksq, KNIGHT, 8));
    lemma_upto_contains(s, by, 90, ksq, m);
}

/// A pawn moves to every square it attacks (see `pawn_hits`: one step forward, and once
/// across the river one step to either side) that lies on the board and holds no piece
/// of its own side.
pub proof fn lemma_pawn_moves_reach_attacks(s: Seq<u8>, side: u8, pr: int, pc: int, r: int, c: int)
    requires
        s.len() == 90,
        side == RED || side == BLACK,
        on_board(pr, pc),
        on_board(r, c),
        s[pr * 9 + pc] != EMPTY,
        color_of(s[pr * 9 + pc]) == side,
        kind_of(s[pr * 9 + pc]) == PAWN,
        pawn_hits(r, c, pr, pc, side),
        !(s[r * 9 + c] != EMPTY && color_of(s[r * 9 + c]) == side),
    ensures
        pseudo_moves_spec(s, side).contains(Move { from: (pr * 9 + pc) as u8, to: (r * 9 + c) as u8, captured: s[r * 9 + c] }),
{
    let sq = pr * 9 + pc;
    let m = Move { from: sq as u8, to: (r * 9 + c) as u8, captured: s[r * 9 + c] };
    assert(sq / 9 == pr && sq % 9 == pc);
    let fwd = if side == RED { -1int } else { 1int };
    let crossed = if side == RED { pr <= 4 } else { pr >= 5 };
    let a = step_move(s, side, sq, pr + fwd, pc);
    let b1 = step_move(s, side, sq, pr, pc - 1);
    let b2 = step_move(s, side, sq, pr, pc + 1);
    let pm = pawn_moves(s, side, sq);
    if r == pr + fwd && c == pc {
        assert(a == seq![m]);
        assert(pm[0] == m);
    } else {
        assert(crossed && r == pr);
        assert(pm == a + (b1 + b2));
        if c == pc - 1 {
            assert(b1 == seq![m]);
            assert(pm[a.len() as int] == m);
        } else {
            assert(b2 == seq![m]);
            assert(pm[(a.len() + b1.len()) as int] == m);
        }
    }
    assert(piece_moves(s, side, sq) == pm);
    lemma_upto_contains(s, side, 90, sq, m);
}

/// Every move of a pawn goes to a square it attacks (see `pawn_hits`) on the board,
/// taking what stands there, and never onto a piece of its own side.
pub proof fn lemma_pawn_moves_are_attacks(s: Seq<u8>, side: u8, sq: int, m: Move)
    requires
        s.len() == 90,
        side == RED || side == BLACK,
        0 <= sq < 90,
        s[sq] != EMPTY,
        color_of(s[sq]) == side,
        kind_of(s[sq]) == PAWN,
        piece_moves(s, side, sq).contains(m),
    ensures
        m.from == sq,
        on_board(m.to as int / 9, m.to as int % 9),
        pawn_hits(m.to as int / 9, m.to as int % 9, sq / 9, sq % 9, side),
        m.captured == s[m.to as int],
        !(s[m.to as int] != EMPTY && color_of(s[m.to as int]) == side),
{
    let pr = sq / 9;
    let pc = sq % 9;
    let fwd = if side == RED { -1int } else { 1int };
    let crossed = if side == RED { pr <= 4 } else { pr >= 5 };
    let a = step_move(s, side, sq, pr + fwd, pc);
    let b1 = step_move(s, side, sq, pr, pc - 1);
    let b2 = step_move(s, side, sq, pr, pc + 1);
    let pm = pawn_moves(s, side, sq);
    assert(piece_moves(s, side, sq) == pm);
    let j = choose|j: int| 0 <= j < pm.len() && pm[j] == m;
    if crossed {
        assert(pm == a + (b1 + b2));
        if j < a.len() {
            assert(m == a[j]);
        } else if j < a.len() + b1.len() {
            assert(m == b1[j - a.len()]);
        } else {
            assert(m == b2[j - a.len() - b1.len()]);
        }
    } else {
        assert(pm == a + Seq::<Move>::empty());
        assert(m == a[j]);
    }
}

/// A square that `by` attacks (see `attacked`) can be taken by a move of `by`: when an
/// enemy piece stands on it inside the enemy palace, and the kings and advisors of `by`
/// keep to their own palace, some pseudo-legal move of `by` goes there.
pub proof fn lemma_attacked_square_capturable(s: Seq<u8>, t: int, by: u8)
    requires
        s.len() == 90,
        0 <= t < 90,
        by == RED || by == BLACK,
        s[t] != EMPTY,
        color_of(s[t]) != by,
        palace(t / 9, t % 9, if by == RED { BLACK } else { RED }),
        forall|sq: int| 0 <= sq < 90 && #[trigger] owned_by(s[sq], by, KING) ==> palace(sq / 9, sq % 9, by),
        forall|sq: int| 0 <= sq < 90 && #[trigger] owned_by(s[sq], by, ADVISOR) ==> palace(sq / 9, sq % 9, by),
        attacked(s, t, by),
    ensures
        exists|m: Move| #[trigger] pseudo_moves_spec(s, by).contains(m) && m.to == t,
{
    let r = t / 9;
    let c = t % 9;
    assert(r * 9 + c == t);
    assert(on_board(r, c));
    if exists|d: int| 0 <= d < 4 && line_attacked(s, r, c, ORTHO[d].0 as int, ORTHO[d].1 as int, by) {
        let d = choose|d: int| 0 <= d < 4 && line_attacked(s, r, c, ORTHO[d].0 as int, ORTHO[d].1 as int, by);
        let dr = ORTHO[d].0 as int;
        let dc = ORTHO[d].1 as int;
        lemma_ortho_reverse(d);
        if exists|k: int|
            #![trigger ray_sq(r, c, dr, dc, k)]
            1 <= k && ray_on_board(r, c, dr, dc, k) && ray_clear(s, r, c, dr, dc, 1, k) && s[ray_sq(r, c, dr, dc, k)]
                != EMPTY && first_piece_attacks(s[ray_sq(r, c, dr, dc, k)], k, r, c, r + step(k, dr), c + step(k, dc), by) {
            let k = choose|k: int|
                #![trigger ray_sq(r, c, dr, dc, k)]
                1 <= k && ray_on_board(r, c, dr, dc, k) && ray_clear(s, r, c, dr, dc, 1, k) && s[ray_sq(r, c, dr, dc, k)]
                    != EMPTY && first_piece_attacks(s[ray_sq(r, c, dr, dc, k)], k, r, c, r + step(k, dr), c + step(k, dc), by);
            let pr = r + step(k, dr);
            let pc = c + step(k, dc);
            let psq = ray_sq(r, c, dr, dc, k);
            let p = s[psq];
            assert(psq == pr * 9 + pc && 0 <= psq < 90);
            assert(psq / 9 == pr && psq % 9 == pc);
            if owned_by(p, by, ROOK) {
                lemma_rook_attack_capture(s, by, r, c, d, k);
                let m = Move { from: psq as u8, to: (r * 9 + c) as u8, captured: s[r * 9 + c] };
                assert(pseudo_moves_spec(s, by).contains(m) && m.to == t);
            } else if owned_by(p, by, KING) && k == 1 {
                assert(palace(pr, pc, by));
                assert(false);
            } else {
                assert(owned_by(p, by, PAWN) && pawn_hits(r, c, pr, pc, by));
                lemma_pawn_moves_reach_attacks(s, by, pr, pc, r, c);
                let m = Move { from: (pr * 9 + pc) as u8, to: (r * 9 + c) as u8, captured: s[r * 9 + c] };
                assert(pseudo_moves_spec(s, by).contains(m) && m.to == t);
            }
        } else {
            let (k1, k2) = choose|k1: int, k2: int|
                #![trigger ray_sq(r, c, dr, dc, k1), ray_sq(r, c, dr, dc, k2)]
                1 <= k1 < k2 && ray_on_board(r, c, dr, dc, k2) && ray_clear(s, r, c, dr, dc, 1, k1) && s[ray_sq(r, c, dr, dc, k1)]
                    != EMPTY && ray_clear(s, r, c, dr, dc, k1 + 1, k2) && owned_by(s[ray_sq(r, c, dr, dc, k2)], by, CANNON);
            lemma_cannon_attack_capture(s, by, r, c, d, k1, k2);
            let m = Move { from: ray_sq(r, c, dr, dc, k2) as u8, to: (r * 9 + c) as u8, captured: s[r * 9 + c] };
            assert(pseudo_moves_spec(s, by).contains(m) && m.to == t);
        }
    } else if exists|i: int| 0 <= i < 8 && knight_hit(s, r, c, by, KNIGHT_ATTACK[i]) {
        let i = choose|i: int| 0 <= i < 8 && knight_hit(s, r, c, by, KNIGHT_ATTACK[i]);
        lemma_knight_attack_capture(s, by, r, c, i);
        let m = Move {
            from: ((r + KNIGHT_ATTACK[i].0) * 9 + c + KNIGHT_ATTACK[i].1) as u8,
            to: (r * 9 + c) as u8,
            captured: s[r * 9 + c],
        };
        assert(pseudo_moves_spec(s, by).contains(m) && m.to == t);
    } else {
        let i = choose|i: int| 0 <= i < 4 && advisor_hit(s, r, c, by, DIAG[i]);
        let o = DIAG[i];
        let asq = (r + o.0) * 9 + c + o.1;
        assert(i == 0 || i == 1 || i == 2 || i == 3);
        assert(0 <= asq < 90 && asq / 9 == r + o.0 && asq % 9 == c + o.1);
        assert(owned_by(s[asq], by, ADVISOR));
        assert(palace(r + o.0, c + o.1, by));
        assert(false);
    }
}

/// The Xiangqi rule for a king, advisor, bishop or knight of `side` going from (fr, fc)
/// to (tr, tc): a king one step along a line and an advisor one step diagonally, both
/// staying in the 3 x 3 palace (columns 3 to 5; rows 7 to 9 for Red, 0 to 2 for Black);
/// a bishop two steps diagonally, not across the river (Red keeps to rows 5 to 9, Black
/// to rows 0 to 4) and with the square between empty; a knight one step along a line
/// and one diagonally outward, with the square next to it in the long direction empty.
pub open spec fn follows_step_rule(s: Seq<u8>, side: u8, kind: u8, fr: int, fc: int, tr: int, tc: int) -> bool {
    let dr = tr - fr;
    let dc = tc - fc;
    let in_palace = 3 <= tc <= 5 && (if side == RED { 7 <= tr <= 9 } else { 0 <= tr <= 2 });
    &&& 0 <= tr < 10
    &&& 0 <= tc < 9
    &&& kind == KING ==> in_palace && ((dr == 0 && (dc == 1 || dc == -1)) || (dc == 0 && (dr == 1 || dr == -1)))
    &&& kind == ADVISOR ==> in_palace && (dr == 1 || dr == -1) && (dc == 1 || dc == -1)
    &&& kind == BISHOP ==> (dr == 2 || dr == -2) && (dc == 2 || dc == -2) && (if side == RED {
        tr >= 5
    } else {
        tr <= 4
    }) && s[(fr + tr) / 2 * 9 + (fc + tc) / 2] == EMPTY
    &&& kind == KNIGHT ==> ((dr == 2 || dr == -2) && (dc == 1 || dc == -1) && s[(fr + tr) / 2 * 9 + fc] == EMPTY) || ((
    dr == 1 || dr == -1) && (dc == 2 || dc == -2) && s[fr * 9 + (fc + tc) / 2] == EMPTY)
}

proof fn lemma_directions_member(s: Seq<u8>, side: u8, sq: int, kind: u8, n: nat, m: Move)
    requires
        directions_moves(s, side, sq, kind, n).contains(m),
    ensures
        exists|i: int| 0 <= i < n && #[trigger] direction_moves(s, side, sq, kind, i).contains(m),
    decreases n,
{
    let prev = directions_moves(s, side, sq, kind, (n - 1) as nat);
    let last = direction_moves(s, side, sq, kind, n - 1);
    let all = prev + last;
    let j = choose|j: int| 0 <= j < all.len() && all[j] == m;
    if j < prev.len() {
        assert(prev[j] == m);
        lemma_directions_member(s, side, sq, kind, (n - 1) as nat, m);
    } else {
        assert(last[j - prev.len()] == m);
        assert(direction_moves(s, side, sq, kind, n - 1).contains(m));
    }
}

proof fn lemma_step_direction_rule(s: Seq<u8>, side: u8, sq: int, kind: u8, i: int, m: Move)
    requires
        s.len() == 90,
        side == RED || side == BLACK,
        0 <= sq < 90,
        kind == KING || kind == ADVISOR || kind == BISHOP || kind == KNIGHT,
        0 <= i < direction_count(kind),
        direction_moves(s, side, sq, kind, i).contains(m),
    ensures
        m.from == sq,
        m.to < 90,
        m.captured == s[m.to as int],
        !(s[m.to as int] != EMPTY && color_of(s[m.to as int]) == side),
        follows_step_rule(s, side, kind, sq / 9, sq % 9, m.to as int / 9, m.to as int % 9),
{
    let r = sq / 9;
    let c = sq % 9;
    let dm = direction_moves(s, side, sq, kind, i);
    let j = choose|j: int| 0 <= j < dm.len() && dm[j] == m;
    if kind == KNIGHT {
        assert(i == 0 || i == 1 || i == 2 || i == 3 || i == 4 || i == 5 || i == 6 || i == 7);
    } else {
        assert(i == 0 || i == 1 || i == 2 || i == 3);
    }
    let (rr, cc) = if kind == KING {
        (r + ORTHO[i].0, c + ORTHO[i].1)
    } else if kind == ADVISOR {
        (r + DIAG[i].0, c + DIAG[i].1)
    } else if kind == BISHOP {
        (r + BISHOP_MOVES[i].0, c + BISHOP_MOVES[i].1)
    } else {
        (r + KNIGHT_MOVES[i].0, c + KNIGHT_MOVES[i].1)
    };
    assert(dm == step_move(s, side, sq, rr, cc));
    assert(m == Move { from: sq as u8, to: (rr * 9 + cc) as u8, captured: s[rr * 9 + cc] });
    assert((rr * 9 + cc) / 9 == rr && (rr * 9 + cc) % 9 == cc);
}

/// The moves of a king, advisor, bishop or knight are exactly those its rule allows
/// (see `follows_step_rule`) onto squares not held by its own side, each taking what
/// stands there.
pub proof fn lemma_step_piece_moves_follow_rule(s: Seq<u8>, side: u8, sq: int, m: Move)
    requires
        s.len() == 90,
        side == RED || side == BLACK,
        0 <= sq < 90,
        s[sq] != EMPTY,
        color_of(s[sq]) == side,
        kind_of(s[sq]) == KING || kind_of(s[sq]) == ADVISOR || kind_of(s[sq]) == BISHOP || kind_of(s[sq]) == KNIGHT,
    ensures
        piece_moves(s, side, sq).contains(m) <==> ({
            &&& m.from == sq
            &&& m.to < 90
            &&& m.captured == s[m.to as int]
            &&& !(s[m.to as int] != EMPTY && color_of(s[m.to as int]) == side)
            &&& follows_step_rule(s, side, kind_of(s[sq]), sq / 9, sq % 9, m.to as int / 9, m.to as int % 9)
        }),
{
    let kind = kind_of(s[sq]);
    let n = direction_count(kind);
    assert(piece_moves(s, side, sq) == directions_moves(s, side, sq, kind, n));
    if piece_moves(s, side, sq).contains(m) {
        lemma_directions_member(s, side, sq, kind, n, m);
        let i = choose|i: int| 0 <= i < n && #[trigger] direction_moves(s, side, sq, kind, i).contains(m);
        lemma_step_direction_rule(s, side, sq, kind, i, m);
    }
    if m.from == sq && m.to < 90 && m.captured == s[m.to as int] && !(s[m.to as int] != EMPTY && color_of(
        s[m.to as int],
    ) == side) && follows_step_rule(s, side, kind, sq / 9, sq % 9, m.to as int / 9, m.to as int % 9) {
        lemma_step_rule_generated(s, side, sq, kind, m);
    }
}

proof fn lemma_step_rule_generated(s: Seq<u8>, side: u8, sq: int, kind: u8, m: Move)
    requires
        s.len() == 90,
        side == RED || side == BLACK,
        0 <= sq < 90,
        kind == KING || kind == ADVISOR || kind == BISHOP || kind == KNIGHT,
        m.from == sq,
        m.to < 90,
        m.captured == s[m.to as int],
        !(s[m.to as int] != EMPTY && color_of(s[m.to as int]) == side),
        follows_step_rule(s, side, kind, sq / 9, sq % 9, m.to as int / 9, m.to as int % 9),
    ensures
        directions_moves(s, side, sq, kind, direction_count(kind)).contains(m),
{
    let n = direction_count(kind);
    let r = sq / 9;
    let c = sq % 9;
    let tr = m.to as int / 9;
    let tc = m.to as int % 9;
    let dr = tr - r;
    let dc = tc - c;
    assert(tr * 9 + tc == m.to);
    let i: int = if kind == KING {
        if dr == -1 { 0 } else if dr == 1 { 1 } else if dc == -1 { 2 } else { 3 }
    } else if kind == ADVISOR || kind == BISHOP {
        if dr < 0 && dc < 0 { 0 } else if dr < 0 { 1 } else if dc < 0 { 2 } else { 3 }
    } else {
        if dr == -2 && dc == -1 { 0 } else if dr == -2 && dc == 1 { 1 } else if dr == 2 && dc == -1 { 2 }
        else if dr == 2 && dc == 1 { 3 } else if dr == -1 && dc == -2 { 4 } else if dr == -1 && dc == 2 { 5 }
        else if dr == 1 && dc == -2 { 6 } else { 7 }
    };
    let dm = direction_moves(s, side, sq, kind, i);
    assert(dm == step_move(s, side, sq, tr, tc));
    assert(dm[0] == m);
    lemma_directions_contains(s, side, sq, kind, n, i, m);
}

/// The Xiangqi rule for a rook or cannon on (fr, fc) going to square `to`: along a rank
/// or file, `k` squares away on the board, with every square between empty; except that
/// a cannon taking a piece jumps exactly one piece (its screen) on the way.
pub open spec fn follows_line_rule(s: Seq<u8>, kind: u8, fr: int, fc: int, to: int) -> bool {
    exists|d: int, k: int|
        #![trigger ray_sq(fr, fc, ORTHO[d].0 as int, ORTHO[d].1 as int, k)]
        0 <= d < 4 && 1 <= k && to == ray_sq(fr, fc, ORTHO[d].0 as int, ORTHO[d].1 as int, k) && ray_on_board(
            fr,
            fc,
            ORTHO[d].0 as int,
            ORTHO[d].1 as int,
            k,
        ) && line_path_ok(s, kind, fr, fc, ORTHO[d].0 as int, ORTHO[d].1 as int, k)
}

/// The squares before the `k`-th along the ray are all empty, or, for a cannon taking the
/// piece on the `k`-th, all but exactly one.
pub open spec fn line_path_ok(s: Seq<u8>, kind: u8, fr: int, fc: int, dr: int, dc: int, k: int) -> bool {
    if kind == CANNON && s[ray_sq(fr, fc, dr, dc, k)] != EMPTY {
        exists|k1: int|
            #![trigger ray_sq(fr, fc, dr, dc, k1)]
            1 <= k1 < k && ray_clear(s, fr, fc, dr, dc, 1, k1) && s[ray_sq(fr, fc, dr, dc, k1)] != EMPTY && ray_clear(
                s,
                fr,
                fc,
                dr,
                dc,
                k1 + 1,
                k,
            )
    } else {
        ray_clear(s, fr, fc, dr, dc, 1, k)
    }
}

/// Every move along a rook ray that started next to (fr, fc) and has met only empty
/// squares before its `j`-th goes `k` squares out, past empty squares only.
proof fn lemma_rook_ray_rule(s: Seq<u8>, side: u8, sq: int, fr: int, fc: int, dr: int, dc: int, j: int, m: Move)
    requires
        s.len() == 90,
        unit_ortho(dr, dc),
        1 <= j,
        ray_clear(s, fr, fc, dr, dc, 1, j),
        rook_ray(s, side, sq, fr + step(j, dr), fc + step(j, dc), dr, dc).contains(m),
    ensures
        m.from == sq as u8,
        m.captured == s[m.to as int],
        !(s[m.to as int] != EMPTY && color_of(s[m.to as int]) == side),
        exists|k: int|
            #![trigger ray_sq(fr, fc, dr, dc, k)]
            1 <= k && m.to == ray_sq(fr, fc, dr, dc, k) && ray_on_board(fr, fc, dr, dc, k) && ray_clear(s, fr, fc, dr, dc, 1, k),
    decreases edge_distance(fr + step(j, dr), fc + step(j, dc), dr, dc),
{
    let rr = fr + step(j, dr);
    let cc = fc + step(j, dc);
    let ray = rook_ray(s, side, sq, rr, cc, dr, dc);
    let head = Move { from: sq as u8, to: (rr * 9 + cc) as u8, captured: s[rr * 9 + cc] };
    assert(on_board(rr, cc));
    assert(ray_sq(fr, fc, dr, dc, j) == rr * 9 + cc);
    if s[rr * 9 + cc] == EMPTY {
        let rest = rook_ray(s, side, sq, rr + dr, cc + dc, dr, dc);
        assert(ray == seq![head] + rest);
        let x = choose|x: int| 0 <= x < ray.len() && ray[x] == m;
        if x == 0 {
            assert(m == head);
        } else {
            assert(rest[x - 1] == m);
            assert(rr + dr == fr + step(j + 1, dr) && cc + dc == fc + step(j + 1, dc));
            assert(ray_clear(s, fr, fc, dr, dc, 1, j + 1));
            lemma_rook_ray_rule(s, side, sq, fr, fc, dr, dc, j + 1, m);
        }
    } else {
        assert(ray == seq![head]);
        assert(ray[0] == m);
    }
}

/// Every capture along a cannon's jump, past a screen `k1` squares from (fr, fc) with
/// empty squares around it, goes to the first piece met, `k` squares out.
proof fn lemma_cannon_jump_rule(
    s: Seq<u8>,
    side: u8,
    sq: int,
    fr: int,
    fc: int,
    dr: int,
    dc: int,
    k1: int,
    j: int,
    m: Move,
)
    requires
        s.len() == 90,
        unit_ortho(dr, dc),
        1 <= k1 < j,
        ray_clear(s, fr, fc, dr, dc, 1, k1),
        s[ray_sq(fr, fc, dr, dc, k1)] != EMPTY,
        ray_clear(s, fr, fc, dr, dc, k1 + 1, j),
        cannon_jump(s, side, sq, fr + step(j, dr), fc + step(j, dc), dr, dc).contains(m),
    ensures
        m.from == sq as u8,
        m.captured == s[m.to as int],
        s[m.to as int] != EMPTY,
        color_of(s[m.to as int]) != side,
        exists|k: int|
            #![trigger ray_sq(fr, fc, dr, dc, k)]
            k1 < k && m.to == ray_sq(fr, fc, dr, dc, k) && ray_on_board(fr, fc, dr, dc, k) && ray_clear(s, fr, fc, dr, dc, k1 + 1, k),
    decreases edge_distance(fr + step(j, dr), fc + step(j, dc), dr, dc),
{
    let rr = fr + step(j, dr);
    let cc = fc + step(j, dc);
    let ray = cannon_jump(s, side, sq, rr, cc, dr, dc);
    assert(on_board(rr, cc));
    assert(ray_sq(fr, fc, dr, dc, j) == rr * 9 + cc);
    if s[rr * 9 + cc] == EMPTY {
        assert(rr + dr == fr + step(j + 1, dr) && cc + dc == fc + step(j + 1, dc));
        assert(ray_clear(s, fr, fc, dr, dc, k1 + 1, j + 1));
        lemma_cannon_jump_rule(s, side, sq, fr, fc, dr, dc, k1, j + 1, m);
    } else {
        assert(ray[0] == m);
    }
}

/// Every move along a cannon ray that started next to (fr, fc) and has met only empty
/// squares before its `j`-th: a quiet move past empty squares, or a capture past exactly
/// one piece.
proof fn lemma_cannon_ray_rule(s: Seq<u8>, side: u8, sq: int, fr: int, fc: int, dr: int, dc: int, j: int, m: Move)
    requires
        s.len() == 90,
        unit_ortho(dr, dc),
        1 <= j,
        ray_clear(s, fr, fc, dr, dc, 1, j),
        cannon_ray(s, side, sq, fr + step(j, dr), fc + step(j, dc), dr, dc).contains(m),
    ensures
        m.from == sq as u8,
        m.captured == s[m.to as int],
        !(s[m.to as int] != EMPTY && color_of(s[m.to as int]) == side),
        exists|k: int|
            #![trigger ray_sq(fr, fc, dr, dc, k)]
            1 <= k && m.to == ray_sq(fr, fc, dr, dc, k) && ray_on_board(fr, fc, dr, dc, k) && line_path_ok(s, CANNON, fr, fc, dr, dc, k),
    decreases edge_distance(fr + step(j, dr), fc + step(j, dc), dr, dc),
{
    let rr = fr + step(j, dr);
    let cc = fc + step(j, dc);
    let ray = cannon_ray(s, side, sq, rr, cc, dr, dc);
    let head = Move { from: sq as u8, to: (rr * 9 + cc) as u8, captured: EMPTY };
    assert(on_board(rr, cc));
    assert(ray_sq(fr, fc, dr, dc, j) == rr * 9 + cc);
    assert(rr + dr == fr + step(j + 1, dr) && cc + dc == fc + step(j + 1, dc));
    if s[rr * 9 + cc] == EMPTY {
        let rest = cannon_ray(s, side, sq, rr + dr, cc + dc, dr, dc);
        assert(ray == seq![head] + rest);
        let x = choose|x: int| 0 <= x < ray.len() && ray[x] == m;
        if x == 0 {
            assert(m == head);
            assert(line_path_ok(s, CANNON, fr, fc, dr, dc, j));
        } else {
            assert(rest[x - 1] == m);
            assert(ray_clear(s, fr, fc, dr, dc, 1, j + 1));
            lemma_cannon_ray_rule(s, side, sq, fr, fc, dr, dc, j + 1, m);
        }
    } else {
        assert(ray_clear(s, fr, fc, dr, dc, j + 1, j + 1));
        lemma_cannon_jump_rule(s, side, sq, fr, fc, dr, dc, j, j + 1, m);
        let k = choose|k: int|
            #![trigger ray_sq(fr, fc, dr, dc, k)]
            j < k && m.to == ray_sq(fr, fc, dr, dc, k) && ray_on_board(fr, fc, dr, dc, k) && ray_clear(s, fr, fc, dr, dc, j + 1, k);
        assert(s[ray_sq(fr, fc, dr, dc, j)] != EMPTY);
        assert(line_path_ok(s, CANNON, fr, fc, dr, dc, k));
    }
}

/// Along a cannon ray from (rr, cc): when the first `m` squares and the one after them
/// are empty, the cannon can move onto that one.
proof fn lemma_cannon_quiet_reaches(s: Seq<u8>, side: u8, from: int, rr: int, cc: int, dr: int, dc: int, m: nat)
    requires
        unit_ortho(dr, dc),
        forall|j: int| 0 <= j <= m ==> on_board(rr + step(j, dr), cc + step(j, dc)) && s[(rr + step(j, dr)) * 9 + cc + step(j, dc)] == EMPTY,
    ensures
        cannon_ray(s, side, from, rr, cc, dr, dc).contains(
            Move { from: from as u8, to: ((rr + step(m as int, dr)) * 9 + cc + step(m as int, dc)) as u8, captured: EMPTY },
        ),
    decreases m,
{
    let ray = cannon_ray(s, side, from, rr, cc, dr, dc);
    assert(on_board(rr + step(0, dr), cc + step(0, dc)) && s[(rr + step(0, dr)) * 9 + cc + step(0, dc)] == EMPTY);
    if m == 0 {
        assert(ray[0] == Move { from: from as u8, to: (rr * 9 + cc) as u8, captured: EMPTY });
    } else {
        assert forall|j: int| 0 <= j <= m - 1 implies on_board(rr + dr + step(j, dr), cc + dc + step(j, dc)) && s[(rr + dr
            + step(j, dr)) * 9 + cc + dc + step(j, dc)] == EMPTY by {
            assert(rr + dr + step(j, dr) == rr + step(j + 1, dr) && cc + dc + step(j, dc) == cc + step(j + 1, dc));
        }
        assert(rr + dr + step((m - 1) as int, dr) == rr + step(m as int, dr) && cc + dc + step((m - 1) as int, dc) == cc
            + step(m as int, dc));
        lemma_cannon_quiet_reaches(s, side, from, rr + dr, cc + dc, dr, dc, (m - 1) as nat);
        let rest = cannon_ray(s, side, from, rr + dr, cc + dc, dr, dc);
        assert(ray == seq![Move { from: from as u8, to: (rr * 9 + cc) as u8, captured: EMPTY }] + rest);
        let target = Move {
            from: from as u8,
            to: ((rr + step(m as int, dr)) * 9 + cc + step(m as int, dc)) as u8,
            captured: EMPTY,
        };
        let k = choose|k: int| 0 <= k < rest.len() && rest[k] == target;
        assert(ray[k + 1] == rest[k]);
    }
}

/// The moves of a rook or cannon are exactly those its rule allows (see
/// `follows_line_rule`) onto squares not held by its own side, each taking what stands
/// there.
pub proof fn lemma_line_piece_moves_follow_rule(s: Seq<u8>, side: u8, sq: int, m: Move)
    requires
        s.len() == 90,
        side == RED || side == BLACK,
        0 <= sq < 90,
        s[sq] != EMPTY,
        color_of(s[sq]) == side,
        kind_of(s[sq]) == ROOK || kind_of(s[sq]) == CANNON,
    ensures
        piece_moves(s, side, sq).contains(m) <==> ({
            &&& m.from == sq
            &&& m.to < 90
            &&& m.captured == s[m.to as int]
            &&& !(s[m.to as int] != EMPTY && color_of(s[m.to as int]) == side)
            &&& follows_line_rule(s, kind_of(s[sq]), sq / 9, sq % 9, m.to as int)
        }),
{
    let kind = kind_of(s[sq]);
    let r = sq / 9;
    let c = sq % 9;
    assert(piece_moves(s, side, sq) == directions_moves(s, side, sq, kind, 4));
    if piece_moves(s, side, sq).contains(m) {
        lemma_directions_member(s, side, sq, kind, 4, m);
        let d = choose|d: int| 0 <= d < 4 && #[trigger] direction_moves(s, side, sq, kind, d).contains(m);
        lemma_ortho_reverse(d);
        let dr = ORTHO[d].0 as int;
        let dc = ORTHO[d].1 as int;
        assert(r + dr == r + step(1, dr) && c + dc == c + step(1, dc));
        assert(ray_clear(s, r, c, dr, dc, 1, 1));
        if kind == ROOK {
            lemma_rook_ray_rule(s, side, sq, r, c, dr, dc, 1, m);
            let k = choose|k: int|
                #![trigger ray_sq(r, c, dr, dc, k)]
                1 <= k && m.to == ray_sq(r, c, dr, dc, k) && ray_on_board(r, c, dr, dc, k) && ray_clear(s, r, c, dr, dc, 1, k);
            assert(line_path_ok(s, kind, r, c, dr, dc, k));
        } else {
            lemma_cannon_ray_rule(s, side, sq, r, c, dr, dc, 1, m);
            let k = choose|k: int|
                #![trigger ray_sq(r, c, dr, dc, k)]
                1 <= k && m.to == ray_sq(r, c, dr, dc, k) && ray_on_board(r, c, dr, dc, k) && line_path_ok(s, CANNON, r, c, dr, dc, k);
            assert(line_path_ok(s, kind, r, c, dr, dc, k));
        }
    }
    if m.from == sq && m.to < 90 && m.captured == s[m.to as int] && !(s[m.to as int] != EMPTY && color_of(
        s[m.to as int],
    ) == side) && follows_line_rule(s, kind, r, c, m.to as int) {
        lemma_line_rule_generated(s, side, sq, kind, m);
    }
}

proof fn lemma_line_rule_generated(s: Seq<u8>, side: u8, sq: int, kind: u8, m: Move)
    requires
        s.len() == 90,
        side == RED || side == BLACK,
        0 <= sq < 90,
        kind == ROOK || kind == CANNON,
        m.from == sq,
        m.to < 90,
        m.captured == s[m.to as int],
        !(s[m.to as int] != EMPTY && color_of(s[m.to as int]) == side),
        follows_line_rule(s, kind, sq / 9, sq % 9, m.to as int),
    ensures
        directions_moves(s, side, sq, kind, 4).contains(m),
{
    let r = sq / 9;
    let c = sq % 9;
    let (d, k) = choose|d: int, k: int|
        #![trigger ray_sq(r, c, ORTHO[d].0 as int, ORTHO[d].1 as int, k)]
        0 <= d < 4 && 1 <= k && m.to == ray_sq(r, c, ORTHO[d].0 as int, ORTHO[d].1 as int, k) && ray_on_board(
            r,
            c,
            ORTHO[d].0 as int,
            ORTHO[d].1 as int,
            k,
        ) && line_path_ok(s, kind, r, c, ORTHO[d].0 as int, ORTHO[d].1 as int, k);
    lemma_ortho_reverse(d);
    let dr = ORTHO[d].0 as int;
    let dc = ORTHO[d].1 as int;
    let rr = r + dr;
    let cc = c + dc;
    assert(rr + step(k - 1, dr) == r + step(k, dr) && cc + step(k - 1, dc) == c + step(k, dc));
    assert forall|jj: int| 0 <= jj < k implies on_board(rr + step(jj, dr), cc + step(jj, dc)) && (rr + step(jj, dr)) * 9
        + cc + step(jj, dc) == ray_sq(r, c, dr, dc, jj + 1) by {
        assert(rr + step(jj, dr) == r + step(jj + 1, dr) && cc + step(jj, dc) == c + step(jj + 1, dc));
    }
    assert(direction_moves(s, side, sq, kind, d) == if kind == ROOK {
        rook_ray(s, side, sq, rr, cc, dr, dc)
    } else {
        cannon_ray(s, side, sq, rr, cc, dr, dc)
    });
    if kind == ROOK || s[m.to as int] == EMPTY {
        assert(ray_clear(s, r, c, dr, dc, 1, k));
        assert forall|jj: int| 0 <= jj < k - 1 implies on_board(rr + step(jj, dr), cc + step(jj, dc)) && s[(rr + step(jj, dr))
            * 9 + cc + step(jj, dc)] == EMPTY by {
            assert(s[ray_sq(r, c, dr, dc, jj + 1)] == EMPTY);
        }
        if kind == ROOK {
            lemma_rook_ray_reaches(s, side, sq, rr, cc, dr, dc, (k - 1) as nat);
        } else {
            lemma_cannon_quiet_reaches(s, side, sq, rr, cc, dr, dc, (k - 1) as nat);
        }
    } else {
        let k1 = choose|k1: int|
            #![trigger ray_sq(r, c, dr, dc, k1)]
            1 <= k1 < k && ray_clear(s, r, c, dr, dc, 1, k1) && s[ray_sq(r, c, dr, dc, k1)] != EMPTY && ray_clear(
                s,
                r,
                c,
                dr,
                dc,
                k1 + 1,
                k,
            );
        assert forall|jj: int| 0 <= jj < k - 1 && jj != k1 - 1 implies s[(rr + step(jj, dr)) * 9 + cc + step(jj, dc)]
            == EMPTY by {
            assert(s[ray_sq(r, c, dr, dc, jj + 1)] == EMPTY);
        }
        assert((rr + step(k1 - 1, dr)) * 9 + cc + step(k1 - 1, dc) == ray_sq(r, c, dr, dc, k1));
        lemma_cannon_ray_reaches(s, side, sq, rr, cc, dr, dc, (k1 - 1) as nat, (k - 1) as nat);
    }
    lemma_directions_contains(s, side, sq, kind, 4, d, m);
}

proof fn lemma_upto_member(s: Seq<u8>, side: u8, n: nat, m: Move)
    requires
        pseudo_moves_upto(s, side, n).contains(m),
    ensures
        exists|sq: int| 0 <= sq < n && #[trigger] piece_moves(s, side, sq).contains(m),
    decreases n,
{
    let prev = pseudo_moves_upto(s, side, (n - 1) as nat);
    let last = piece_moves(s, side, n - 1);
    let all = prev + last;
    let j = choose|j: int| 0 <= j < all.len() && all[j] == m;
    if j < prev.len() {
        assert(prev[j] == m);
        lemma_upto_member(s, side, (n - 1) as nat, m);
    } else {
        assert(last[j - prev.len()] == m);
        assert(piece_moves(s, side, n - 1).contains(m));
    }
}

/// The ray from (r, c) in direction `d`, read back from its `k`-th square: the same
/// squares, counted the other way.
proof fn lemma_ray_reverse(r: int, c: int, d: int, k: int)
    requires
        0 <= d < 4,
        1 <= k,
    ensures
        ({
            let e = if d % 2 == 0 { d + 1 } else { d - 1 };
            let dr = ORTHO[d].0 as int;
            let dc = ORTHO[d].1 as int;
            let tr = r + step(k, dr);
            let tc = c + step(k, dc);
            &&& 0 <= e < 4
            &&& forall|j: int| #![trigger ray_sq(tr, tc, ORTHO[e].0 as int, ORTHO[e].1 as int, j)]
                ray_sq(tr, tc, ORTHO[e].0 as int, ORTHO[e].1 as int, j) == ray_sq(r, c, dr, dc, k - j)
            &&& tr + step(k, ORTHO[e].0 as int) == r
            &&& tc + step(k, ORTHO[e].1 as int) == c
        }),
{
    assert(d == 0 || d == 1 || d == 2 || d == 3);
}

/// A square that some pseudo-legal move of `by` takes, holding an enemy piece inside the
/// enemy palace, is attacked by `by` (see `attacked`).
pub proof fn lemma_capturable_square_attacked(s: Seq<u8>, t: int, by: u8, m: Move)
    requires
        s.len() == 90,
        0 <= t < 90,
        by == RED || by == BLACK,
        s[t] != EMPTY,
        color_of(s[t]) != by,
        palace(t / 9, t % 9, if by == RED { BLACK } else { RED }),
        pseudo_moves_spec(s, by).contains(m),
        m.to == t,
    ensures
        attacked(s, t, by),
{
    lemma_upto_member(s, by, 90, m);
    let sq = choose|sq: int| 0 <= sq < 90 && #[trigger] piece_moves(s, by, sq).contains(m);
    let kind = kind_of(s[sq]);
    if kind == PAWN {
        lemma_pawn_capture_attacks(s, t, by, sq, m);
    } else if kind == KING || kind == ADVISOR || kind == BISHOP || kind == KNIGHT {
        lemma_step_capture_attacks(s, t, by, sq, m);
    } else {
        lemma_line_capture_attacks(s, t, by, sq, m);
    }
}

proof fn lemma_pawn_capture_attacks(s: Seq<u8>, t: int, by: u8, sq: int, m: Move)
    requires
        s.len() == 90,
        0 <= t < 90,
        by == RED || by == BLACK,
        0 <= sq < 90,
        piece_moves(s, by, sq).contains(m),
        kind_of(s[sq]) == PAWN,
        m.to == t,
    ensures
        exists|d: int| 0 <= d < 4 && line_attacked(s, t / 9, t % 9, ORTHO[d].0 as int, ORTHO[d].1 as int, by),
{
    let tr = t / 9;
    let tc = t % 9;
    let fr = sq / 9;
    let fc = sq % 9;
    assert(s[sq] != EMPTY && color_of(s[sq]) == by);
    lemma_pawn_moves_are_attacks(s, by, sq, m);
    assert(pawn_hits(tr, tc, fr, fc, by));
    let d: int = if fr == tr + 1 { 1 } else if fr == tr - 1 { 0 } else if fc == tc - 1 { 2 } else { 3 };
    let dr = ORTHO[d].0 as int;
    let dc = ORTHO[d].1 as int;
    assert(ray_sq(tr, tc, dr, dc, 1) == sq);
    assert(ray_clear(s, tr, tc, dr, dc, 1, 1));
    assert(first_piece_attacks(s[ray_sq(tr, tc, dr, dc, 1)], 1, tr, tc, tr + step(1, dr), tc + step(1, dc), by));
    assert(line_attacked(s, tr, tc, dr, dc, by));
}

proof fn lemma_step_capture_attacks(s: Seq<u8>, t: int, by: u8, sq: int, m: Move)
    requires
        s.len() == 90,
        0 <= t < 90,
        by == RED || by == BLACK,
        palace(t / 9, t % 9, if by == RED { BLACK } else { RED }),
        0 <= sq < 90,
        piece_moves(s, by, sq).contains(m),
        kind_of(s[sq]) == KING || kind_of(s[sq]) == ADVISOR || kind_of(s[sq]) == BISHOP || kind_of(s[sq]) == KNIGHT,
        m.to == t,
    ensures
        exists|i: int| 0 <= i < 8 && knight_hit(s, t / 9, t % 9, by, KNIGHT_ATTACK[i]),
{
    let tr = t / 9;
    let tc = t % 9;
    let fr = sq / 9;
    let fc = sq % 9;
    let kind = kind_of(s[sq]);
    assert(s[sq] != EMPTY && color_of(s[sq]) == by);
    lemma_step_piece_moves_follow_rule(s, by, sq, m);
    assert(follows_step_rule(s, by, kind, fr, fc, tr, tc));
    assert(kind == KNIGHT);
    let dr = tr - fr;
    let dc = tc - fc;
    let i: int = if dr == 2 && dc == 1 { 0 } else if dr == 2 && dc == -1 { 1 } else if dr == -2 && dc == 1 { 2 }
    else if dr == -2 && dc == -1 { 3 } else if dr == 1 && dc == 2 { 4 } else if dr == 1 && dc == -2 { 5 }
    else if dr == -1 && dc == 2 { 6 } else { 7 };
    let o = KNIGHT_ATTACK[i];
    assert(tr + o.0 == fr && tc + o.1 == fc);
    assert(knight_hit(s, tr, tc, by, KNIGHT_ATTACK[i]));
}

#[verifier::rlimit(30)]
proof fn lemma_line_capture_attacks(s: Seq<u8>, t: int, by: u8, sq: int, m: Move)
    requires
        s.len() == 90,
        0 <= t < 90,
        by == RED || by == BLACK,
        s[t] != EMPTY,
        0 <= sq < 90,
        piece_moves(s, by, sq).contains(m),
        kind_of(s[sq]) == ROOK || kind_of(s[sq]) == CANNON,
        m.to == t,
    ensures
        exists|d: int| 0 <= d < 4 && line_attacked(s, t / 9, t % 9, ORTHO[d].0 as int, ORTHO[d].1 as int, by),
{
    let tr = t / 9;
    let tc = t % 9;
    let fr = sq / 9;
    let fc = sq % 9;
    let kind = kind_of(s[sq]);
    assert(s[sq] != EMPTY && color_of(s[sq]) == by);
    lemma_line_piece_moves_follow_rule(s, by, sq, m);
    let (d, k) = choose|d: int, k: int|
        #![trigger ray_sq(fr, fc, ORTHO[d].0 as int, ORTHO[d].1 as int, k)]
        0 <= d < 4 && 1 <= k && t == ray_sq(fr, fc, ORTHO[d].0 as int, ORTHO[d].1 as int, k) && ray_on_board(
            fr,
            fc,
            ORTHO[d].0 as int,
            ORTHO[d].1 as int,
            k,
        ) && line_path_ok(s, kind, fr, fc, ORTHO[d].0 as int, ORTHO[d].1 as int, k);
    let dr = ORTHO[d].0 as int;
    let dc = ORTHO[d].1 as int;
    lemma_ray_reverse(fr, fc, d, k);
    let e = if d % 2 == 0 { d + 1 } else { d - 1 };
    let er = ORTHO[e].0 as int;
    let ec = ORTHO[e].1 as int;
    assert(fr + step(k, dr) == tr && fc + step(k, dc) == tc);
    assert(ray_sq(tr, tc, er, ec, k) == sq);
    assert(ray_on_board(tr, tc, er, ec, k));
    if kind == ROOK {
        assert(ray_clear(s, tr, tc, er, ec, 1, k)) by {
            assert forall|j: int| 1 <= j < k implies s[#[trigger] ray_sq(tr, tc, er, ec, j)] == EMPTY by {
                assert(s[ray_sq(fr, fc, dr, dc, k - j)] == EMPTY);
            }
        }
        assert(first_piece_attacks(s[ray_sq(tr, tc, er, ec, k)], k, tr, tc, tr + step(k, er), tc + step(k, ec), by));
        assert(line_attacked(s, tr, tc, er, ec, by));
    } else {
        let k1 = choose|k1: int|
            #![trigger ray_sq(fr, fc, dr, dc, k1)]
            1 <= k1 < k && ray_clear(s, fr, fc, dr, dc, 1, k1) && s[ray_sq(fr, fc, dr, dc, k1)] != EMPTY && ray_clear(
                s,
                fr,
                fc,
                dr,
                dc,
                k1 + 1,
                k,
            );
        let q = k - k1;
        assert(ray_sq(tr, tc, er, ec, q) == ray_sq(fr, fc, dr, dc, k1));
        assert(ray_clear(s, tr, tc, er, ec, 1, q)) by {
            assert forall|j: int| 1 <= j < q implies s[#[trigger] ray_sq(tr, tc, er, ec, j)] == EMPTY by {
                assert(s[ray_sq(fr, fc, dr, dc, k - j)] == EMPTY);
            }
        }
        assert(ray_clear(s, tr, tc, er, ec, q + 1, k)) by {
            assert forall|j: int| q + 1 <= j < k implies s[#[trigger] ray_sq(tr, tc, er, ec, j)] == EMPTY by {
                assert(s[ray_sq(fr, fc, dr, dc, k - j)] == EMPTY);
            }
        }
        assert(owned_by(s[ray_sq(tr, tc, er, ec, k)], by, CANNON));
        assert(line_attacked(s, tr, tc, er, ec, by));
    }
}

/// A king is attacked exactly when the other side has a pseudo-legal move that takes it,
/// for a king standing in its palace while the other side's kings and advisors keep to
/// their own.
pub proof fn lemma_king_attacked_iff_capturable(s: Seq<u8>, kings: Seq<u8>, color: u8)
    requires
        s.len() == 90,
        kings.len() == 2,
        color == RED || color == BLACK,
        kings[color_index(color)] < 90,
        owned_by(s[kings[color_index(color)] as int], color, KING),
        palace(kings[color_index(color)] as int / 9, kings[color_index(color)] as int % 9, color),
        forall|sq: int| 0 <= sq < 90 && #[trigger] owned_by(s[sq], color ^ 8, KING) ==> palace(sq / 9, sq % 9, color ^ 8),
        forall|sq: int| 0 <= sq < 90 && #[trigger] owned_by(s[sq], color ^ 8, ADVISOR) ==> palace(sq / 9, sq % 9, color ^ 8),
    ensures
        king_attacked_spec(s, kings, color) <==> exists|m: Move|
            #[trigger] pseudo_moves_spec(s, color ^ 8).contains(m) && m.to == kings[color_index(color)],
{
    let k = kings[color_index(color)] as int;
    let by = color ^ 8;
    assert(color == 0 ==> color ^ 8 == 8) by (bit_vector);
    assert(color == 8 ==> color ^ 8 == 0) by (bit_vector);
    assert(color == (if by == RED { BLACK } else { RED }));
    if king_attacked_spec(s, kings, color) {
        lemma_attacked_square_capturable(s, k, by);
    }
    if exists|m: Move| #[trigger] pseudo_moves_spec(s, by).contains(m) && m.to == k {
        let m = choose|m: Move| #[trigger] pseudo_moves_spec(s, by).contains(m) && m.to == k;
        lemma_capturable_square_attacked(s, k, by, m);
    }
}

/// Perft to `depth` summed over the positions after each move of `ms`.
pub open spec fn perft_children(v: BoardView, ms: Seq<Move>, depth: nat) -> nat
    decreases ms.len(),
{
    if ms.len() == 0 {
        0
    } else {
        let w = spec_make(v, ms[0].from as int, ms[0].to as int);
        perft_rec(w.squares, w.side, w.king_sq, depth).0 + perft_children(v, ms.drop_first(), depth)
    }
}

proof fn lemma_perft_rec_kings(v: BoardView, depth: nat)
    requires
        v.wf(),
        v.kings_consistent(),
    ensures
        perft_rec(v.squares, v.side, v.king_sq, depth).1 == v.king_sq,
    decreases depth, 1nat, 0nat,
{
    if depth > 0 {
        lemma_pseudo_moves_ok(v.squares, v.side, 90);
        lemma_perft_loop_safe(v, pseudo_moves_spec(v.squares, v.side), depth);
    }
}

#[verifier::rlimit(40)]
proof fn lemma_perft_loop_safe(v: BoardView, ms: Seq<Move>, depth: nat)
    requires
        v.wf(),
        v.kings_consistent(),
        depth >= 1,
        all_pseudo_ok(v.squares, v.side, ms),
    ensures
        perft_loop(v.squares, v.side, v.king_sq, ms, depth).1 == v.king_sq,
        perft_loop(v.squares, v.side, v.king_sq, ms, depth).0 == perft_children(
            v,
            safe_moves(v.squares, v.side, v.king_sq, ms),
            (depth - 1) as nat,
        ),
    decreases depth, 0nat, ms.len(),
{
    let f = |x: Move| leaves_king_safe(v.squares, v.king_sq, v.side, x);
    if ms.len() == 0 {
        assert(ms.filter(f) =~= Seq::<Move>::empty()) by {
            reveal(Seq::filter);
        }
    } else {
        let m = ms[0];
        assert(pseudo_ok(v.squares, v.side, ms[0]));
        let w = spec_make(v, m.from as int, m.to as int);
        lemma_make_wf(v, m.from as int, m.to as int);
        lemma_make_kings_consistent(v, m.from as int, m.to as int);
        if leaves_king_safe(v.squares, v.king_sq, v.side, m) && depth > 1 {
            lemma_perft_rec_kings(w, (depth - 1) as nat);
        }
        let rest = ms.drop_first();
        assert forall|j: int| 0 <= j < rest.len() implies pseudo_ok(v.squares, v.side, #[trigger] rest[j]) by {
            assert(rest[j] == ms[j + 1]);
        }
        lemma_perft_loop_safe(v, rest, depth);
        rest.lemma_filter_prepend(m, f);
        assert(ms =~= seq![m] + rest);
        if f(m) {
            assert((seq![m] + rest.filter(f)).drop_first() =~= rest.filter(f));
        } else {
            assert(Seq::<Move>::empty() + rest.filter(f) =~= rest.filter(f));
        }
    }
}

/// Perft to depth d + 1 is the sum, over the legal moves, of perft to depth d from the
/// position after each, and perft gives the king slots back as they were (on a board
/// whose king slots hold its kings).
pub proof fn lemma_perft_split(v: BoardView, depth: nat)
    requires
        v.wf(),
        v.kings_consistent(),
    ensures
        perft_rec(v.squares, v.side, v.king_sq, depth + 1).0 == perft_children(v, legal_moves_spec(v), depth),
        perft_rec(v.squares, v.side, v.king_sq, depth).1 == v.king_sq,
{
    lemma_pseudo_moves_ok(v.squares, v.side, 90);
    lemma_perft_loop_safe(v, pseudo_moves_spec(v.squares, v.side), depth + 1);
    lemma_legal_moves_safe(v);
    lemma_perft_rec_kings(v, depth);
}

/// Perft to depth 1 counts the legal moves.
pub proof fn lemma_perft_one(v: BoardView)
    requires
        v.king_sq.len() == 2,
    ensures
        perft_rec(v.squares, v.side, v.king_sq, 1).0 == legal_moves_spec(v).len(),
{
    lemma_perft_loop_one(v.squares, v.side, v.king_sq, pseudo_moves_spec(v.squares, v.side));
}

} // verus!
