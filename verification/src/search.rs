//! Alpha-beta search with iterative deepening, transposition table,
//! killer/history move ordering, null-move pruning and quiescence search.
use vstd::prelude::*;

use std::time::{Duration, Instant, SystemTime};

use crate::board::{
    copy_vec, color_of, in_check_spec, kind_of, piece_color, piece_kind, spec_make, spec_null, Board, BoardView, Move, BLACK, EMPTY,
    KING, RED,
};
use crate::eval::{evaluate, evaluate_spec, kind_value, kind_value_spec};
use crate::movegen::{
    capture_moves, captures_of, leaves_king_safe, lemma_legal_moves_ok, lemma_pseudo_moves_ok, legal_moves_spec, pseudo_moves,
    pseudo_moves_spec, pseudo_ok, all_pseudo_ok,
};

verus! {

/// Additive constant of the SplitMix64 generator (the 64-bit golden ratio).
pub const SPLITMIX_GAMMA: u64 = 0x9E3779B97F4A7C15;

/// The SplitMix64 output function applied to `z + gamma`.
pub open spec fn splitmix_spec(z: u64) -> u64 {
    let a = z.wrapping_add(SPLITMIX_GAMMA);
    let b = (a ^ (a >> 30u64)).wrapping_mul(0xBF58476D1CE4E5B9u64);
    let c = (b ^ (b >> 27u64)).wrapping_mul(0x94D049BB133111EBu64);
    c ^ (c >> 31u64)
}

/// One SplitMix64 step: a well-mixed 64-bit value derived from `z`.
pub fn splitmix(z: u64) -> (r: u64)
    ensures
        r == splitmix_spec(z),
{
    let mut z = z.wrapping_add(SPLITMIX_GAMMA);
    z = (z ^ (z >> 30u64)).wrapping_mul(0xBF58476D1CE4E5B9u64);
    z = (z ^ (z >> 27u64)).wrapping_mul(0x94D049BB133111EBu64);
    z ^ (z >> 31u64)
}

/// The entries of `s` whose score is `k`, in order.
pub open spec fn with_score(s: Seq<(Move, i32)>, k: i32) -> Seq<(Move, i32)> {
    s.filter(|e: (Move, i32)| e.1 == k)
}

/// Scores never increase along `s`.
pub open spec fn sorted_desc(s: Seq<(Move, i32)>) -> bool {
    forall|i: int, j: int| 0 <= i < j < s.len() ==> s[i].1 >= s[j].1
}

/// `out` is `inp` sorted by descending score, entries with equal scores keeping their
/// order (a stable sort).
pub open spec fn stable_sorted(out: Seq<(Move, i32)>, inp: Seq<(Move, i32)>) -> bool {
    &&& out.len() == inp.len()
    &&& sorted_desc(out)
    &&& forall|k: i32| #[trigger] with_score(out, k) == with_score(inp, k)
}

proof fn lemma_filter_all_below(s: Seq<(Move, i32)>, k: i32)
    requires
        forall|i: int| 0 <= i < s.len() ==> s[i].1 < k,
    ensures
        with_score(s, k) == Seq::<(Move, i32)>::empty(),
    decreases s.len(),
{
    reveal(Seq::filter);
    if s.len() > 0 {
        lemma_filter_all_below(s.drop_last(), k);
    }
}

/// A member of a stable sort is a member of the input.
pub proof fn lemma_stable_sorted_member(out: Seq<(Move, i32)>, inp: Seq<(Move, i32)>, i: int)
    requires
        stable_sorted(out, inp),
        0 <= i < out.len(),
    ensures
        inp.contains(out[i]),
{
    let x = out[i];
    let f = |e: (Move, i32)| e.1 == x.1;
    assert(with_score(out, x.1) == with_score(inp, x.1));
    out.lemma_filter_contains(f, i);
    assert(inp.filter(f).contains(x));
    inp.lemma_filter_contains_rev(f, x);
}

/// A member of the input of a stable sort is a member of its output.
pub proof fn lemma_stable_sorted_member_rev(out: Seq<(Move, i32)>, inp: Seq<(Move, i32)>, i: int)
    requires
        stable_sorted(out, inp),
        0 <= i < inp.len(),
    ensures
        out.contains(inp[i]),
{
    let x = inp[i];
    let f = |e: (Move, i32)| e.1 == x.1;
    assert(with_score(out, x.1) == with_score(inp, x.1));
    inp.lemma_filter_contains(f, i);
    assert(out.filter(f).contains(x));
    out.lemma_filter_contains_rev(f, x);
}

/// Some entry of `roots` carries move `m`.
pub open spec fn has_root(roots: Seq<(Move, i32)>, m: Move) -> bool {
    exists|j: int| 0 <= j < roots.len() && (#[trigger] roots[j]).0 == m
}

/// `roots` has one entry per move of `legal`, and every move of `legal` appears in it.
pub open spec fn covers_legal(roots: Seq<(Move, i32)>, legal: Seq<Move>) -> bool {
    &&& roots.len() == legal.len()
    &&& forall|i: int| 0 <= i < legal.len() ==> #[trigger] has_root(roots, legal[i])
}

proof fn lemma_covers_sorted(out: Seq<(Move, i32)>, inp: Seq<(Move, i32)>, legal: Seq<Move>)
    requires
        stable_sorted(out, inp),
        covers_legal(inp, legal),
    ensures
        covers_legal(out, legal),
{
    assert forall|i: int| 0 <= i < legal.len() implies #[trigger] has_root(out, legal[i]) by {
        assert(has_root(inp, legal[i]));
        let j = choose|j: int| 0 <= j < inp.len() && (#[trigger] inp[j]).0 == legal[i];
        lemma_stable_sorted_member_rev(out, inp, j);
        let k = choose|k: int| 0 <= k < out.len() && out[k] == inp[j];
        assert(out[k].0 == legal[i]);
    }
}

proof fn lemma_covers_same_moves(a: Seq<(Move, i32)>, b: Seq<(Move, i32)>, legal: Seq<Move>)
    requires
        a.len() == b.len(),
        forall|k: int| 0 <= k < a.len() ==> (#[trigger] a[k]).0 == b[k].0,
        covers_legal(b, legal),
    ensures
        covers_legal(a, legal),
{
    assert forall|i: int| 0 <= i < legal.len() implies #[trigger] has_root(a, legal[i]) by {
        assert(has_root(b, legal[i]));
        let j = choose|j: int| 0 <= j < b.len() && (#[trigger] b[j]).0 == legal[i];
        assert(a[j].0 == b[j].0);
    }
}

/// `s` with `x` inserted after every entry scoring at least as much as `x`.
pub open spec fn insert_desc(s: Seq<(Move, i32)>, x: (Move, i32)) -> Seq<(Move, i32)>
    decreases s.len(),
{
    if s.len() == 0 {
        seq![x]
    } else if s[0].1 >= x.1 {
        seq![s[0]] + insert_desc(s.drop_first(), x)
    } else {
        seq![x] + s
    }
}

/// Insertion sort by descending score: each entry in turn inserted after those scoring
/// at least as much.
pub open spec fn sort_desc(s: Seq<(Move, i32)>) -> Seq<(Move, i32)>
    decreases s.len(),
{
    if s.len() == 0 {
        s
    } else {
        insert_desc(sort_desc(s.drop_last()), s.last())
    }
}

proof fn lemma_insert_desc_at(s: Seq<(Move, i32)>, x: (Move, i32), p: int)
    requires
        0 <= p <= s.len(),
        forall|j: int| 0 <= j < p ==> s[j].1 >= x.1,
        p < s.len() ==> s[p].1 < x.1,
    ensures
        insert_desc(s, x) == s.subrange(0, p) + seq![x] + s.subrange(p, s.len() as int),
    decreases p,
{
    if p == 0 {
        assert(s.subrange(0, 0) + seq![x] + s.subrange(0, s.len() as int) =~= seq![x] + s);
    } else {
        let t = s.drop_first();
        assert forall|j: int| 0 <= j < p - 1 implies t[j].1 >= x.1 by {
            assert(t[j] == s[j + 1]);
        }
        lemma_insert_desc_at(t, x, p - 1);
        assert(seq![s[0]] + (t.subrange(0, p - 1) + seq![x] + t.subrange(p - 1, t.len() as int))
            =~= s.subrange(0, p) + seq![x] + s.subrange(p, s.len() as int));
    }
}

/// Sorts by descending score; entries with equal scores keep their order.
pub fn sort_by_score_desc(v: Vec<(Move, i32)>) -> (out: Vec<(Move, i32)>)
    ensures
        stable_sorted(out@, v@),
        out@ == sort_desc(v@),
{
    let mut out: Vec<(Move, i32)> = Vec::new();
    let mut i: usize = 0;
    while i < v.len()
        invariant
            0 <= i <= v@.len(),
            out@.len() == i,
            sorted_desc(out@),
            forall|k: i32| #[trigger] with_score(out@, k) == with_score(v@.take(i as int), k),
            out@ == sort_desc(v@.take(i as int)),
        decreases v@.len() - i,
    {
        let x = v[i];
        let mut p: usize = 0;
        while p < out.len() && out[p].1 >= x.1
            invariant
                0 <= p <= out@.len(),
                forall|j: int| 0 <= j < p ==> out@[j].1 >= x.1,
            decreases out@.len() - p,
        {
            p += 1;
        }
        let ghost old_out = out@;
        out.insert(p, x);
        proof {
            lemma_insert_desc_at(old_out, x, p as int);
            assert(v@.take(i + 1).drop_last() =~= v@.take(i as int));
            assert(out@ =~= old_out.subrange(0, p as int) + seq![x] + old_out.subrange(p as int, old_out.len() as int));
            let a = old_out.subrange(0, p as int);
            let b = old_out.subrange(p as int, old_out.len() as int);
            assert(out@ =~= a + seq![x] + b);
            assert forall|j: int| 0 <= j < b.len() implies b[j].1 < x.1 by {
                if p < old_out.len() {
                    assert(old_out[p as int].1 < x.1);
                    if j > 0 {
                        assert(old_out[p as int].1 >= old_out[p + j].1);
                    }
                }
            }
            assert(old_out =~= a + b);
            assert(v@.take(i + 1) =~= v@.take(i as int).push(x));
            assert(v@.take(i as int).push(x) =~= v@.take(i as int) + seq![x]);
            assert forall|k: i32| #[trigger] with_score(out@, k) == with_score(v@.take(i + 1), k) by {
                let f = |e: (Move, i32)| e.1 == k;
                Seq::filter_distributes_over_add(a + seq![x], b, f);
                Seq::filter_distributes_over_add(a, seq![x], f);
                Seq::filter_distributes_over_add(a, b, f);
                Seq::filter_distributes_over_add(v@.take(i as int), seq![x], f);
                let sx = seq![x].filter(f);
                assert(sx == (if k == x.1 { seq![x] } else { Seq::<(Move, i32)>::empty() })) by {
                    reveal(Seq::filter);
                    assert(seq![x].drop_last() =~= Seq::<(Move, i32)>::empty());
                    assert(Seq::<(Move, i32)>::empty().filter(f) =~= Seq::<(Move, i32)>::empty());
                }
                assert(with_score(old_out, k) == with_score(v@.take(i as int), k));
                if k == x.1 {
                    lemma_filter_all_below(b, k);
                    assert(with_score(old_out, k) == with_score(a, k) + with_score(b, k));
                    assert(with_score(a, k) + Seq::<(Move, i32)>::empty() =~= with_score(a, k));
                    assert(with_score(out@, k) =~= with_score(a, k) + seq![x]);
                } else {
                    assert(with_score(a, k) + Seq::<(Move, i32)>::empty() =~= with_score(a, k));
                    assert(with_score(v@.take(i as int), k) + Seq::<(Move, i32)>::empty() =~= with_score(v@.take(i as int), k));
                }
            }
            assert forall|j1: int, j2: int| 0 <= j1 < j2 < out@.len() implies out@[j1].1 >= out@[j2].1 by {
                if j2 < p {
                } else if j2 == p {
                } else if j1 < p {
                    assert(out@[j2] == old_out[j2 - 1]);
                } else if j1 == p {
                    assert(out@[j2] == b[j2 - p - 1]);
                } else {
                    assert(out@[j2] == old_out[j2 - 1]);
                    assert(out@[j1] == old_out[j1 - 1]);
                }
            }
        }
        i += 1;
    }
    proof {
        assert(v@.take(i as int) =~= v@);
    }
    out
}

// ---------------------------------------------------------------------------
// Clock
// ---------------------------------------------------------------------------

/// `std::time::Instant`, carried as an opaque value (the search deadline).
#[verifier::external_type_specification]
#[verifier::external_body]
pub struct ExInstant(Instant);

/// `std::time::SystemTime`, carried as an opaque value (the clock read for a random pick).
#[verifier::external_type_specification]
#[verifier::external_body]
pub struct ExSystemTime(SystemTime);

/// The current instant (`Instant::now`). Nothing is stated of it: it is the clock's reading.
#[verifier::external_body]
fn instant_now() -> Instant {
    Instant::now()
}

/// A duration of `ms` milliseconds (`Duration::from_millis`). Nothing is stated of it:
/// durations are opaque to the library, which only hands this one to `instant_checked_add`.
#[verifier::external_body]
fn duration_from_millis(ms: u64) -> Duration {
    Duration::from_millis(ms)
}

/// `t + d`, or none when that cannot be represented (`Instant::checked_add`). Nothing is
/// stated of it: instants are opaque to the library.
#[verifier::external_body]
fn instant_checked_add(t: &Instant, d: &Duration) -> Option<Instant> {
    t.checked_add(*d)
}

/// Whether `a` is at or after `b` (`Instant >=`). Nothing is stated of it: it compares
/// clock readings.
#[verifier::external_body]
fn instant_at_or_after(a: &Instant, b: &Instant) -> bool {
    *a >= *b
}

/// The current wall-clock time (`SystemTime::now`). Nothing is stated of it: it is the
/// clock's reading.
#[verifier::external_body]
fn system_now() -> SystemTime {
    SystemTime::now()
}

/// Time elapsed since the Unix epoch, or none for an earlier time
/// (`SystemTime::duration_since(UNIX_EPOCH)`). Nothing is stated of it: it depends on the
/// clock reading `t`.
#[verifier::external_body]
fn since_unix_epoch(t: &SystemTime) -> Option<Duration> {
    t.duration_since(std::time::UNIX_EPOCH).ok()
}

/// The fractional part of a duration in nanoseconds (`Duration::subsec_nanos`), which
/// the documentation bounds below one second.
#[verifier::external_body]
fn subsec_nanos(d: &Duration) -> (r: u32)
    ensures
        r < 1_000_000_000,
{
    d.subsec_nanos()
}

// ---------------------------------------------------------------------------
// The searcher
// ---------------------------------------------------------------------------

/// Score of a mate right now (mate in n plies scores MATE - n).
pub const MATE: i32 = 30_000;
pub const MATE_IN_MAX_PLY: i32 = MATE - 256;

pub const TT_SIZE: usize = 2097152;
pub const MAX_PLY: usize = 80;
pub const HISTORY_SIZE: usize = 16200;

#[derive(Clone, Copy, Debug)]
pub struct SearchLimits {
    pub max_depth: u8,
    pub max_time_ms: u64,
    /// Candidate pool: above 1, pick at random (weighted) among the best `pool` moves.
    pub pool: usize,
    /// Score window (centipawns) for the candidate pool.
    pub window: i32,
    /// Pure mode: no null-move pruning (for exact proofs such as mate verification).
    pub pure: bool,
}

impl SearchLimits {
    pub fn quick(depth: u8) -> (r: SearchLimits)
        ensures
            r == (SearchLimits { max_depth: depth, max_time_ms: 400, pool: 1, window: 0, pure: false }),
    {
        SearchLimits { max_depth: depth, max_time_ms: 400, pool: 1, window: 0, pure: false }
    }
}

#[derive(Clone, Debug)]
pub struct SearchResult {
    pub best: Option<Move>,
    pub score: i32,
    pub pv: Vec<Move>,
    /// Root moves with their scores (from the last completed iteration).
    pub root_scores: Vec<(Move, i32)>,
    pub depth_reached: u8,
    pub nodes: u64,
}

#[derive(Clone, Copy)]
struct TTEntry {
    key: u64,
    mv: u16,
    score: i16,
    depth: u8,
    bound: u8,  // 0 exact, 1 lower bound, 2 upper bound
}

/// Packed from/to of a move.
pub open spec fn mv_code(mv: Move) -> u16 {
    ((mv.from as u16) | ((mv.to as u16) << 7u16)) as u16
}

/// The move (nothing captured) packed in a code.
pub open spec fn code_mv(v: u16) -> Move {
    Move { from: (v & 0x7f) as u8, to: ((v >> 7u16) & 0x7f) as u8, captured: EMPTY }
}

#[inline]
fn mv_to_u16(mv: Move) -> (r: u16)
    ensures
        r == mv_code(mv),
{
    (mv.from as u16) | ((mv.to as u16) << 7u16)
}

#[inline]
fn u16_to_mv(v: u16) -> (r: Move)
    ensures
        r == code_mv(v),
{
    Move::new((v & 0x7f) as u8, ((v >> 7u16) & 0x7f) as u8, EMPTY)
}

/// Packing keeps the squares of a move.
pub proof fn lemma_code_roundtrip(mv: Move)
    requires
        mv.from < 128,
        mv.to < 128,
    ensures
        code_mv(mv_code(mv)).from == mv.from,
        code_mv(mv_code(mv)).to == mv.to,
        mv_code(mv) == 0 <==> (mv.from == 0 && mv.to == 0),
{
    let f = mv.from as u16;
    let t = mv.to as u16;
    assert(f < 128 && t < 128 ==> ((f | (t << 7u16)) & 0x7f) == f && (((f | (t << 7u16)) >> 7u16)
        & 0x7f) == t && ((f | (t << 7u16)) == 0 <==> (f == 0 && t == 0))) by (bit_vector);
}

pub struct Searcher {
    tt: Vec<TTEntry>,
    killers: [[Move; 2]; 80],
    history: Vec<i32>,
    nodes: u64,
    deadline: Option<Instant>,
    stopped: bool,
    use_null: bool,
    game_hashes: Vec<u64>,
    stored: Ghost<Set<u64>>,
}

/// Index of a hash in the transposition table.
pub open spec fn tt_slot(hash: u64) -> int {
    ((hash as usize) & (TT_SIZE - 1) as usize) as int
}

proof fn lemma_tt_slot(hash: u64)
    ensures
        0 <= tt_slot(hash) < TT_SIZE,
{
    let h = hash as usize;
    assert(h & 2097151usize < 2097152usize) by (bit_vector);
}

/// Index of the history counter of a side's move.
pub open spec fn history_slot(side_idx: int, from: int, to: int) -> int {
    (side_idx * 90 + from) * 90 + to
}

/// The parts of a searcher's state that a search reads and changes: the table entries
/// (key, packed move, score, depth, bound), the two killers of each ply, the history
/// counters, the node count, and whether null-move pruning is on.
pub struct SearchState {
    pub tt: Seq<(u64, u16, i16, u8, u8)>,
    pub killers: Seq<(Move, Move)>,
    pub history: Seq<i32>,
    pub nodes: u64,
    pub use_null: bool,
}

impl Searcher {
    /// The table sizes the searcher works with.
    pub closed spec fn inv(&self) -> bool {
        &&& self.tt@.len() == TT_SIZE
        &&& self.history@.len() == HISTORY_SIZE
        &&& forall|i: int| 0 <= i < self.tt@.len() ==> self.stored@.contains(#[trigger] self.tt@[i].key)
    }

    /// The state a search works on.
    #[verifier::opaque]
    pub closed spec fn state(&self) -> SearchState {
        SearchState {
            tt: self.tt@.map_values(|e: TTEntry| (e.key, e.mv, e.score, e.depth, e.bound)),
            killers: Seq::new(80, |p: int| (self.killers[p][0], self.killers[p][1])),
            history: self.history@,
            nodes: self.nodes,
            use_null: self.use_null,
        }
    }

    /// Every key the transposition table has held since the searcher was made.
    pub closed spec fn stored_keys(&self) -> Set<u64> {
        self.stored@
    }

    /// Whether the current search has been stopped by its deadline.
    pub closed spec fn is_stopped(&self) -> bool {
        self.stopped
    }

    /// Nodes visited by the current search.
    pub closed spec fn node_count(&self) -> u64 {
        self.nodes
    }

    /// Whether null-move pruning is enabled.
    pub closed spec fn null_enabled(&self) -> bool {
        self.use_null
    }

    /// The killer moves of ply `ply`.
    pub closed spec fn killer(&self, ply: int, i: int) -> Move {
        self.killers[ply][i]
    }

    /// History counter of `side_idx`'s move `from` -> `to`.
    pub closed spec fn history_at(&self, side_idx: int, from: int, to: int) -> i32 {
        self.history@[history_slot(side_idx, from, to)]
    }

    /// The transposition table entry at `slot`: (key, packed move, score, depth, bound).
    pub closed spec fn tt_entry(&self, slot: int) -> (u64, u16, i16, u8, u8) {
        let e = self.tt@[slot];
        (e.key, e.mv, e.score, e.depth, e.bound)
    }

    /// A fresh searcher: empty tables, null-move pruning on.
    pub fn new() -> (s: Searcher)
        ensures
            s.inv(),
            s.node_count() == 0,
            !s.is_stopped(),
            s.null_enabled(),
            forall|i: int| 0 <= i < TT_SIZE ==> #[trigger] s.tt_entry(i) == (0u64, 0u16, 0i16, 0u8, 0u8),
            forall|p: int, i: int| 0 <= p < 80 && 0 <= i < 2 ==> #[trigger] s.killer(p, i) == (Move { from: 0, to: 0, captured: 0 }),
            forall|a: int, f: int, t: int|
                0 <= a < 2 && 0 <= f < 90 && 0 <= t < 90 ==> #[trigger] s.history_at(a, f, t) == 0,
    {
        let mut s = Searcher {
            tt: Vec::new(),
            killers: [[Move::null(); 2]; 80],
            history: Vec::new(),
            nodes: 0,
            deadline: None,
            stopped: false,
            use_null: true,
            game_hashes: Vec::new(),
            stored: Ghost(Set::empty()),
        };
        s.clear();
        s
    }

    /// Clears the transposition table, killers, history and node count.
    pub fn clear(&mut self)
        ensures
            final(self).inv(),
            final(self).node_count() == 0,
            final(self).is_stopped() == old(self).is_stopped(),
            final(self).null_enabled() == old(self).null_enabled(),
            old(self).stored_keys().subset_of(final(self).stored_keys()),
            forall|i: int| 0 <= i < TT_SIZE ==> #[trigger] final(self).tt_entry(i) == (0u64, 0u16, 0i16, 0u8, 0u8),
            forall|p: int, i: int| 0 <= p < 80 && 0 <= i < 2 ==> #[trigger] final(self).killer(p, i) == (Move { from: 0, to: 0, captured: 0 }),
            forall|a: int, f: int, t: int|
                0 <= a < 2 && 0 <= f < 90 && 0 <= t < 90 ==> #[trigger] final(self).history_at(a, f, t) == 0,
    {
        let mut tt: Vec<TTEntry> = Vec::new();
        let mut i: usize = 0;
        while i < TT_SIZE
            invariant
                0 <= i <= TT_SIZE,
                tt@.len() == i,
                forall|j: int| 0 <= j < i ==> #[trigger] tt@[j] == (TTEntry { key: 0, mv: 0, score: 0, depth: 0, bound: 0 }),
            decreases TT_SIZE - i,
        {
            tt.push(TTEntry { key: 0, mv: 0, score: 0, depth: 0, bound: 0 });
            i += 1;
        }
        let mut history: Vec<i32> = Vec::new();
        let mut i: usize = 0;
        while i < HISTORY_SIZE
            invariant
                0 <= i <= HISTORY_SIZE,
                history@.len() == i,
                forall|j: int| 0 <= j < i ==> #[trigger] history@[j] == 0,
            decreases HISTORY_SIZE - i,
        {
            history.push(0);
            i += 1;
        }
        self.tt = tt;
        self.stored = Ghost(self.stored@.insert(0));
        self.killers = [[Move::null(); 2]; 80];
        self.history = history;
        self.nodes = 0;
        assert forall|a: int, f: int, t: int|
            0 <= a < 2 && 0 <= f < 90 && 0 <= t < 90 implies #[trigger] self.history_at(a, f, t) == 0 by {
            assert(0 <= history_slot(a, f, t) < HISTORY_SIZE) by (nonlinear_arith)
                requires
                    0 <= a < 2 && 0 <= f < 90 && 0 <= t < 90,
            ;
        }
    }
}

/// Evaluation from the side to move's point of view.
pub open spec fn side_rel_eval_spec(s: Seq<u8>, side: u8) -> int {
    if side == RED {
        evaluate_spec(s)
    } else {
        -evaluate_spec(s)
    }
}

/// The side to move has a piece other than its king.
pub open spec fn non_king_material(s: Seq<u8>, side: u8) -> bool {
    exists|sq: int|
        0 <= sq < 90 && #[trigger] s[sq] != EMPTY && color_of(s[sq]) == side && kind_of(s[sq]) != KING
}

/// Inside the search (not at the root), the current position already occurred earlier.
pub open spec fn repetition_draw(v: BoardView, ply: int) -> bool {
    ply != 0 && v.history.len() >= 2 && exists|i: int|
        0 <= i < v.history.len() - 1 && #[trigger] v.history[i] == v.hash
}

/// Move-ordering score in state `st`: the table move first, then captures by victim
/// value (most valuable victim, least valuable attacker), then the two killers of this
/// ply, then the history counter (capped at 70 000).
pub open spec fn order_score_in(st: SearchState, s: Seq<u8>, side: u8, tt_mv: Option<Move>, ply: int, m: Move) -> i32 {
    if tt_mv is Some && m.from == tt_mv->0.from && m.to == tt_mv->0.to {
        1_000_000
    } else if m.captured != EMPTY {
        (100_000 + kind_value_spec(kind_of(m.captured)) * 16 - kind_value_spec(kind_of(s[m.from as int]))) as i32
    } else if st.killers[ply].0.from == m.from && st.killers[ply].0.to == m.to {
        90_000
    } else if st.killers[ply].1.from == m.from && st.killers[ply].1.to == m.to {
        80_000
    } else {
        let h = st.history[history_slot(side as int / 8, m.from as int, m.to as int)];
        if h < 70_000 {
            h
        } else {
            70_000
        }
    }
}

/// What a transposition-table entry tells a probe: its score and move when the entry is
/// for this hash, deep enough, carries no mate score, and its bound settles the window.
pub open spec fn probe_spec(e: (u64, u16, i16, u8, u8), hash: u64, depth: u8, alpha: i32, beta: i32) -> Option<
    (i32, Option<Move>),
> {
    let (key, mv, score, d, bound) = e;
    let m = if mv == 0 {
        None
    } else {
        Some(code_mv(mv))
    };
    if key != hash || d < depth {
        None
    } else if score > MATE_IN_MAX_PLY || score < -MATE_IN_MAX_PLY {
        None
    } else if bound == 0 {
        Some((score as i32, m))
    } else if bound == 1 && score >= beta {
        Some((score as i32, m))
    } else if bound == 2 && score <= alpha {
        Some((score as i32, m))
    } else {
        None
    }
}

impl Searcher {
    /// A deadline is set for the current search.
    pub closed spec fn has_deadline(&self) -> bool {
        self.deadline is Some
    }

    /// Move-ordering score: the table move first, then captures by victim value (most
    /// valuable victim, least valuable attacker), then the two killers of this ply, then
    /// the history counter (capped at 70 000).
    pub open spec fn order_score(&self, s: Seq<u8>, side: u8, tt_mv: Option<Move>, ply: int, m: Move) -> i32 {
        order_score_in(self.state(), s, side, tt_mv, ply, m)
    }

    /// Stops the search once the deadline has passed (looked at every 2048 nodes).
    fn check_time(&mut self)
        requires
            old(self).inv(),
        ensures
            final(self).inv(),
            final(self).node_count() == old(self).node_count(),
            final(self).null_enabled() == old(self).null_enabled(),
            final(self).has_deadline() == old(self).has_deadline(),
            final(self).stored_keys() == old(self).stored_keys(),
            final(self).state() == old(self).state(),
            old(self).is_stopped() ==> final(self).is_stopped(),
            final(self).is_stopped() ==> old(self).is_stopped() || (old(self).has_deadline()
                && old(self).node_count() % 2048 == 0),
            forall|p: int, i: int| #[trigger] final(self).killer(p, i) == old(self).killer(p, i),
            forall|a: int, f: int, t: int| #[trigger] final(self).history_at(a, f, t) == old(self).history_at(a, f, t),
            forall|i: int| #[trigger] final(self).tt_entry(i) == old(self).tt_entry(i),
    {
        proof {
            reveal(Searcher::state);
        }
        let due = match &self.deadline {
            Some(d) => {
                let n = self.nodes;
                assert(n & 2047 == 0 ==> n % 2048 == 0) by (bit_vector);
                if (self.nodes & 2047) == 0 {
                    let now = instant_now();
                    instant_at_or_after(&now, d)
                } else {
                    false
                }
            },
            None => false,
        };
        if due {
            self.stopped = true;
        }
    }

    fn side_rel_eval(b: &Board) -> (r: i32)
        ensures
            r == side_rel_eval_spec(b.squares@, b.side),
            -10_000_000 <= r <= 10_000_000,
    {
        let e = evaluate(b);
        proof {
            crate::eval::lemma_evaluate_bounds(b.squares@);
        }
        if b.side == RED {
            e
        } else {
            -e
        }
    }

    fn order_moves(&self, b: &Board, moves: &mut Vec<(Move, i32)>, tt_mv: Option<Move>, ply: usize)
        requires
            self.inv(),
            ply < MAX_PLY,
            b.side < 16,
            forall|i: int| 0 <= i < old(moves)@.len() ==> (#[trigger] old(moves)@[i]).0.from < 90 && old(moves)@[i].0.to < 90,
        ensures
            stable_sorted(
                final(moves)@,
                old(moves)@.map_values(|e: (Move, i32)| (e.0, self.order_score(b.squares@, b.side, tt_mv, ply as int, e.0))),
            ),
            final(moves)@ == sort_desc(
                old(moves)@.map_values(|e: (Move, i32)| (e.0, self.order_score(b.squares@, b.side, tt_mv, ply as int, e.0))),
            ),
    {
        proof {
            reveal(Searcher::state);
        }
        let side_idx = (b.side >> 3) as usize;
        let ghost scored = old(moves)@.map_values(
            |e: (Move, i32)| (e.0, self.order_score(b.squares@, b.side, tt_mv, ply as int, e.0)),
        );
        proof {
            crate::board::lemma_piece_bits(b.side);
        }
        let mut i: usize = 0;
        while i < moves.len()
            invariant
                0 <= i <= moves@.len(),
                moves@.len() == old(moves)@.len(),
                side_idx == b.side / 8,
                side_idx < 2,
                ply < MAX_PLY,
                self.inv(),
                forall|j: int| 0 <= j < i ==> #[trigger] moves@[j] == scored[j],
                forall|j: int| i <= j < moves@.len() ==> #[trigger] moves@[j] == old(moves)@[j],
                scored == old(moves)@.map_values(
                    |e: (Move, i32)| (e.0, self.order_score(b.squares@, b.side, tt_mv, ply as int, e.0)),
                ),
                forall|j: int| 0 <= j < old(moves)@.len() ==> (#[trigger] old(moves)@[j]).0.from < 90 && old(moves)@[j].0.to < 90,
            decreases moves@.len() - i,
        {
            proof {
                reveal(Searcher::state);
            }
            let mv = moves[i].0;
            let mut sc: i32 = 0;
            let mut done = false;
            if let Some(t) = tt_mv {
                if mv.from == t.from && mv.to == t.to {
                    sc = 1_000_000;
                    done = true;
                }
            }
            if !done {
                if mv.captured != EMPTY {
                    sc = 100_000 + kind_value(piece_kind(mv.captured)) * 16 - kind_value(
                        piece_kind(b.piece_at(mv.from)),
                    );
                } else if self.killers[ply][0].from == mv.from && self.killers[ply][0].to == mv.to {
                    sc = 90_000;
                } else if self.killers[ply][1].from == mv.from && self.killers[ply][1].to == mv.to {
                    sc = 80_000;
                } else {
                    proof {
                        assert(0 <= history_slot(side_idx as int, mv.from as int, mv.to as int) < HISTORY_SIZE) by (nonlinear_arith)
                            requires
                                side_idx < 2 && mv.from < 90 && mv.to < 90,
                        ;
                    }
                    let h = self.history[(side_idx * 90 + mv.from as usize) * 90 + mv.to as usize];
                    sc = if h < 70_000 {
                        h
                    } else {
                        70_000
                    };
                }
            }
            moves.set(i, (mv, sc));
            i += 1;
        }
        assert(moves@ =~= scored);
        let mut v: Vec<(Move, i32)> = Vec::new();
        std::mem::swap(&mut v, moves);
        *moves = sort_by_score_desc(v);
    }

    fn has_non_king_material(b: &Board) -> (r: bool)
        ensures
            r == non_king_material(b.squares@, b.side),
    {
        let mut sq: u8 = 0;
        while sq < 90
            invariant
                0 <= sq <= 90,
                forall|x: int| 0 <= x < sq ==> !(#[trigger] b.squares@[x] != EMPTY && color_of(b.squares@[x]) == b.side && kind_of(b.squares@[x]) != KING),
            decreases 90 - sq,
        {
            let p = b.piece_at(sq);
            if p != EMPTY && piece_color(p) == b.side && piece_kind(p) != KING {
                return true;
            }
            sq += 1;
        }
        false
    }

    fn is_draw_by_repetition(&self, b: &Board, ply: usize) -> (r: bool)
        ensures
            r == repetition_draw(b@, ply as int),
    {
        if ply == 0 {
            return false;
        }
        let h = b.hash();
        // a single repetition inside the search path counts as a draw (avoids perpetual loops)
        let n = b.history_hashes.len();
        if n >= 2 {
            let mut i = n - 1;
            while i > 0
                invariant
                    0 <= i <= n - 1,
                    n >= 2,
                    ply != 0,
                    n == b.history_hashes@.len(),
                    h == b.hash,
                    forall|j: int| i <= j < n - 1 ==> #[trigger] b.history_hashes@[j] != h,
                decreases i,
            {
                i -= 1;
                if b.history_hashes[i] == h {
                    assert(b@.history[i as int] == b@.hash);
                    return true;
                }
            }
        }
        false
    }

    fn tt_probe(&self, hash: u64, depth: u8, alpha: i32, beta: i32, ply: usize) -> (r: Option<(i32, Option<Move>)>)
        requires
            self.inv(),
        ensures
            r == probe_spec(self.tt_entry(tt_slot(hash)), hash, depth, alpha, beta),
    {
        proof {
            lemma_tt_slot(hash);
        }
        let e = self.tt[(#[verifier::truncate] (hash as usize)) & (TT_SIZE - 1)];
        if e.key != hash || e.depth < depth {
            return None;
        }
        let mv = if e.mv == 0 {
            None
        } else {
            Some(u16_to_mv(e.mv))
        };
        let score = e.score as i32;
        if score > MATE_IN_MAX_PLY || score < -MATE_IN_MAX_PLY {
            return None;  // entries with mate scores are never used
        }
        match e.bound {
            0 => Some((score, mv)),
            1 if score >= beta => Some((score, mv)),
            2 if score <= alpha => Some((score, mv)),
            _ => None,
        }
    }

    fn tt_store(&mut self, hash: u64, mv: Move, score: i32, depth: u8, bound: u8)
        requires
            old(self).inv(),
        ensures
            final(self).inv(),
            final(self).node_count() == old(self).node_count(),
            final(self).is_stopped() == old(self).is_stopped(),
            final(self).null_enabled() == old(self).null_enabled(),
            final(self).has_deadline() == old(self).has_deadline(),
            old(self).stored_keys().subset_of(final(self).stored_keys()),
            final(self).state() == tt_put(old(self).state(), hash, mv, score as int, depth, bound),
            forall|p: int, i: int| #[trigger] final(self).killer(p, i) == old(self).killer(p, i),
            forall|a: int, f: int, t: int| #[trigger] final(self).history_at(a, f, t) == old(self).history_at(a, f, t),
            forall|i: int| 0 <= i < TT_SIZE ==> #[trigger] final(self).tt_entry(i) == (if i == tt_slot(hash) && -MATE_IN_MAX_PLY <= score <= MATE_IN_MAX_PLY {
                (hash, mv_code(mv), score as i16, depth, bound)
            } else {
                old(self).tt_entry(i)
            }),
    {
        if score > MATE_IN_MAX_PLY || score < -MATE_IN_MAX_PLY {
            return;
        }
        proof {
            lemma_tt_slot(hash);
        }
        let idx = (#[verifier::truncate] (hash as usize)) & (TT_SIZE - 1);
        proof {
            reveal(Searcher::state);
        }
        self.stored = Ghost(self.stored@.insert(hash));
        let ghost st0 = self.state();
        self.tt.set(idx, TTEntry { key: hash, mv: mv_to_u16(mv), score: score as i16, depth, bound });
        proof {
            assert(self.state().tt =~= st0.tt.update(tt_slot(hash), (hash, mv_code(mv), score as i16, depth, bound)));
            assert(self.state().killers =~= st0.killers);
        }
    }

    /// After a cutoff by a quiet move: the move becomes the first killer of its ply (the
    /// old first one second) unless it is that already, and its history counter grows by
    /// depth squared, saturating at i32::MAX.
    fn record_cutoff(&mut self, side: u8, ply: usize, mv: Move, depth: i32)
        requires
            old(self).inv(),
            ply < MAX_PLY,
            side < 16,
            mv.from < 90,
            mv.to < 90,
            1 <= depth <= 46340,
        ensures
            final(self).inv(),
            final(self).state() == cut_update(old(self).state(), side, ply as int, mv, depth as int),
            final(self).is_stopped() == old(self).is_stopped(),
            final(self).has_deadline() == old(self).has_deadline(),
            final(self).stored_keys() == old(self).stored_keys(),
            forall|i: int| #[trigger] final(self).tt_entry(i) == old(self).tt_entry(i),
    {
        proof {
            reveal(Searcher::state);
        }
        let ghost st0 = self.state();
        if mv.captured == EMPTY {
            let k = self.killers[ply];
            if !(k[0].from == mv.from && k[0].to == mv.to) {
                self.killers[ply] = [mv, k[0]];
            }
            proof {
                crate::board::lemma_piece_bits(side);
            }
            let si = (side >> 3) as usize;
            proof {
                assert(0 <= history_slot(si as int, mv.from as int, mv.to as int) < HISTORY_SIZE) by (nonlinear_arith)
                    requires
                        si < 2 && mv.from < 90 && mv.to < 90,
                ;
                assert(depth * depth <= 2147395600) by (nonlinear_arith)
                    requires
                        1 <= depth <= 46340,
                ;
            }
            let idx = (si * 90 + mv.from as usize) * 90 + mv.to as usize;
            let h = self.history[idx];
            let inc = depth * depth;
            // the counter saturates instead of overflowing
            let nh = if h > i32::MAX - inc {
                i32::MAX
            } else {
                h + inc
            };
            let ghost st1 = self.state();
            self.history.set(idx, nh);
            proof {
                let c = cut_update(st0, side, ply as int, mv, depth as int);
                assert(st1.killers =~= c.killers);
                assert(self.state().history =~= c.history);
                assert(self.state().killers =~= c.killers);
                assert(self.state().tt =~= c.tt);
            }
        }
    }
}

/// Every entry of `v` carries a pseudo-legal move of `side`.
pub open spec fn all_pairs_ok(s: Seq<u8>, side: u8, v: Seq<(Move, i32)>) -> bool {
    forall|i: int| 0 <= i < v.len() ==> pseudo_ok(s, side, (#[trigger] v[i]).0)
}

proof fn lemma_sorted_pairs_ok(s: Seq<u8>, side: u8, out: Seq<(Move, i32)>, inp: Seq<(Move, i32)>)
    requires
        stable_sorted(out, inp),
        all_pairs_ok(s, side, inp),
    ensures
        all_pairs_ok(s, side, out),
{
    assert forall|i: int| 0 <= i < out.len() implies pseudo_ok(s, side, (#[trigger] out[i]).0) by {
        lemma_stable_sorted_member(out, inp, i);
        let j = choose|j: int| 0 <= j < inp.len() && inp[j] == out[i];
        assert(pseudo_ok(s, side, inp[j].0));
    }
}

/// Every entry of `v` carries a move of `ms`.
pub open spec fn pairs_from(v: Seq<(Move, i32)>, ms: Seq<Move>) -> bool {
    forall|i: int| 0 <= i < v.len() ==> ms.contains((#[trigger] v[i]).0)
}

proof fn lemma_sorted_pairs_from(out: Seq<(Move, i32)>, inp: Seq<(Move, i32)>, ms: Seq<Move>)
    requires
        stable_sorted(out, inp),
        pairs_from(inp, ms),
    ensures
        pairs_from(out, ms),
{
    assert forall|i: int| 0 <= i < out.len() implies ms.contains((#[trigger] out[i]).0) by {
        lemma_stable_sorted_member(out, inp, i);
        let j = choose|j: int| 0 <= j < inp.len() && inp[j] == out[i];
        assert(ms.contains(inp[j].0));
    }
}

/// Moves paired with zero scores, rescored by `f`, still carry moves of `ms`.
proof fn lemma_rescored_from(ms: Seq<Move>, unsorted: Seq<(Move, i32)>, f: spec_fn((Move, i32)) -> (Move, i32))
    requires
        unsorted.len() == ms.len(),
        forall|i: int| 0 <= i < ms.len() ==> #[trigger] unsorted[i] == (ms[i], 0i32),
        forall|e: (Move, i32)| #[trigger] f(e).0 == e.0,
    ensures
        pairs_from(unsorted.map_values(f), ms),
{
    let scored = unsorted.map_values(f);
    assert forall|i: int| 0 <= i < scored.len() implies ms.contains((#[trigger] scored[i]).0) by {
        assert(scored[i] == f(unsorted[i]));
        assert(ms[i] == unsorted[i].0);
    }
}

/// Scores of positions, besides the window bounds: evaluations, mate scores and table
/// scores all stay within this.
pub open spec fn score_cap() -> int {
    10_000_000
}

/// Lowest score a search with window (alpha, beta) returns.
pub open spec fn score_low(alpha: i32, beta: i32) -> int {
    let m = if alpha < beta { alpha as int } else { beta as int };
    if m < -score_cap() { m } else { -score_cap() }
}

/// Highest score a search with window (alpha, beta) returns.
pub open spec fn score_high(alpha: i32, beta: i32) -> int {
    let m = if alpha > beta { alpha as int } else { beta as int };
    if m > score_cap() { m } else { score_cap() }
}

/// Move `mv` of position `v` leaves the mover's king safe (see `leaves_king_safe`).
#[verifier::opaque]
pub open spec fn safe_here(v: BoardView, mv: Move) -> bool {
    leaves_king_safe(v.squares, v.king_sq, v.side, mv)
}

/// The side to move in `v` is in check.
#[verifier::opaque]
pub open spec fn checked(v: BoardView) -> bool {
    in_check_spec(v.squares, v.king_sq, v.side)
}

/// The evaluation of `v` for its side to move.
#[verifier::opaque]
pub open spec fn stand_pat(v: BoardView) -> int {
    side_rel_eval_spec(v.squares, v.side)
}

/// Position `v` at `ply` repeats an earlier one (see `repetition_draw`).
#[verifier::opaque]
pub open spec fn repeated(v: BoardView, ply: int) -> bool {
    repetition_draw(v, ply)
}

/// The side to move in `v` has material besides its king.
#[verifier::opaque]
pub open spec fn has_material(v: BoardView) -> bool {
    non_king_material(v.squares, v.side)
}

/// Position `v` after move `mv`.
#[verifier::opaque]
pub open spec fn after_move(v: BoardView, mv: Move) -> BoardView {
    spec_make(v, mv.from as int, mv.to as int)
}

/// The moves of the alpha-beta search of `v` at `ply` in state `st`: every pseudo-legal
/// move, best ordering score first.
#[verifier::opaque]
pub open spec fn node_moves(st: SearchState, v: BoardView, ply: int) -> Seq<(Move, i32)> {
    ordered_moves(st, v, None, ply, pseudo_moves_spec(v.squares, v.side))
}

/// The moves of the quiescence search of `v` at `ply` in state `st`: every pseudo-legal
/// move in check, else the captures, best ordering score first.
#[verifier::opaque]
pub open spec fn q_moves(st: SearchState, v: BoardView, ply: int) -> Seq<(Move, i32)> {
    ordered_moves(
        st,
        v,
        None,
        ply,
        if in_check_spec(v.squares, v.king_sq, v.side) {
            pseudo_moves_spec(v.squares, v.side)
        } else {
            captures_of(pseudo_moves_spec(v.squares, v.side))
        },
    )
}

/// State `st` after one more node.
pub open spec fn bump(st: SearchState) -> SearchState {
    SearchState { nodes: st.nodes.wrapping_add(1), ..st }
}

/// State `st` after storing `score` and `mv` for `hash` at `depth` with `bound` (mate
/// scores are not stored).
pub open spec fn tt_put(st: SearchState, hash: u64, mv: Move, score: int, depth: u8, bound: u8) -> SearchState {
    if score > MATE_IN_MAX_PLY || score < -MATE_IN_MAX_PLY {
        st
    } else {
        SearchState { tt: st.tt.update(tt_slot(hash), (hash, mv_code(mv), score as i16, depth, bound)), ..st }
    }
}

/// State `st` after a cutoff by `mv` of `side` at `ply` and `depth`: a quiet move becomes
/// the first killer (unless it is already) and its history counter grows by depth
/// squared, saturating; a capture changes nothing.
pub open spec fn cut_update(st: SearchState, side: u8, ply: int, mv: Move, depth: int) -> SearchState {
    if mv.captured != EMPTY {
        st
    } else {
        let k = st.killers[ply];
        let killers = if k.0.from == mv.from && k.0.to == mv.to {
            st.killers
        } else {
            st.killers.update(ply, (mv, k.0))
        };
        let idx = history_slot(side as int / 8, mv.from as int, mv.to as int);
        let h = st.history[idx];
        let nh: i32 = if h > i32::MAX - depth * depth {
            i32::MAX
        } else {
            (h + depth * depth) as i32
        };
        SearchState { killers, history: st.history.update(idx, nh), ..st }
    }
}

/// The moves `ms` of position `v`, paired with their ordering scores in state `st` and
/// sorted best first.
#[verifier::opaque]
pub open spec fn ordered_moves(st: SearchState, v: BoardView, tt_mv: Option<Move>, ply: int, ms: Seq<Move>) -> Seq<
    (Move, i32),
> {
    sort_desc(ms.map_values(|m: Move| (m, order_score_in(st, v.squares, v.side, tt_mv, ply, m))))
}

/// The value that the alpha-beta search gives position `v`, searched to `depth` plies with
/// window (alpha, beta) at `ply` from state `st`, and the state it leaves, when the search
/// is not stopped. At the last ply: the evaluation. A repetition: 0. In check, one ply
/// deeper. Out of depth: the quiescence value. Then the table entry when it settles the
/// window; then, without check and with null-move pruning on, at least 3 plies left, beta
/// below a mate and material besides the king, a null move searched 2 plies shallower
/// with window (-beta, -beta + 1) whose score reaches beta gives beta. Otherwise the moves,
/// best ordering score first, each legal one searched in turn (see `ab_loop`); no legal
/// move loses (-MATE + ply); else the best score, stored in the table.
#[verifier::opaque]
pub open spec fn ab_node(st: SearchState, v: BoardView, depth: int, alpha: int, beta: int, ply: int) -> (
    int,
    SearchState,
)
    decreases MAX_PLY - ply, 3int, 0int,
{
    let st1 = bump(st);
    if ply >= MAX_PLY - 1 || ply < 0 {
        (stand_pat(v), st1)
    } else if repeated(v, ply) {
        (0, st1)
    } else {
        let chk = checked(v);
        let d = if chk {
            depth + 1
        } else {
            depth
        };
        if d <= 0 {
            q_node(st1, v, alpha, beta, ply)
        } else {
            match probe_spec(st1.tt[tt_slot(v.hash)], v.hash, d as u8, alpha as i32, beta as i32) {
                Some(hit) => (hit.0 as int, st1),
                None => {
                    let try_null = st1.use_null && !chk && d >= 3 && beta < MATE_IN_MAX_PLY && has_material(v);
                    let nul = ab_node(st1, spec_null(v), d - 3, -beta, -beta + 1, ply + 1);
                    if try_null && -nul.0 >= beta {
                        (beta, nul.1)
                    } else {
                        let st2 = if try_null {
                            nul.1
                        } else {
                            st1
                        };
                        let moves = node_moves(st2, v, ply);
                        let lp = ab_loop(st2, v, moves, 0, d, alpha, beta, ply, -2 * MATE, Move { from: 0, to: 0, captured: 0 }, 0);
                        if lp.2 == 0 {
                            (-MATE + ply, lp.3)
                        } else {
                            let bound: u8 = if lp.0 <= alpha {
                                2
                            } else if lp.0 >= beta {
                                1
                            } else {
                                0
                            };
                            (lp.0, tt_put(lp.3, v.hash, lp.1, lp.0, d as u8, bound))
                        }
                    }
                },
            }
        }
    }
}

/// The move loop of the alpha-beta search from entry `i` of `moves`: a move that leaves
/// the mover's king unsafe is skipped; a legal one is searched one ply shallower with the
/// window (-beta, -alpha), its negated value raising the best score and alpha; once alpha
/// reaches beta the loop ends, recording the cutoff. Gives the best score, its move, the
/// number of legal moves searched and the state left.
#[verifier::opaque]
pub open spec fn ab_loop(
    st: SearchState,
    v: BoardView,
    moves: Seq<(Move, i32)>,
    i: int,
    depth: int,
    alpha: int,
    beta: int,
    ply: int,
    best: int,
    best_mv: Move,
    legal: int,
) -> (int, Move, int, SearchState)
    decreases MAX_PLY - ply, 1int, moves.len() - i,
{
    if i >= moves.len() || i < 0 || ply >= MAX_PLY - 1 || ply < 0 {
        (best, best_mv, legal, st)
    } else {
        let mv = moves[i].0;
        if !safe_here(v, mv) {
            ab_loop(st, v, moves, i + 1, depth, alpha, beta, ply, best, best_mv, legal)
        } else {
            let ch = ab_node(st, after_move(v, mv), depth - 1, -beta, -alpha, ply + 1);
            let score = -ch.0;
            let best2 = if score > best {
                score
            } else {
                best
            };
            let bm2 = if score > best {
                mv
            } else {
                best_mv
            };
            let alpha2 = if score > alpha {
                score
            } else {
                alpha
            };
            if alpha2 >= beta {
                (best2, bm2, legal + 1, cut_update(ch.1, v.side, ply, mv, depth))
            } else {
                ab_loop(ch.1, v, moves, i + 1, depth, alpha2, beta, ply, best2, bm2, legal + 1)
            }
        }
    }
}

/// The value of the quiescence search of `v` with window (alpha, beta) at `ply` from state
/// `st`, and the state it leaves, when it is not stopped. Out of check, the evaluation
/// stands pat: at or above beta it is the value, and it raises alpha. At the last ply: the
/// evaluation. Otherwise the captures (every move when in check), best ordering score
/// first, searched in turn (see `q_loop`); in check with no legal move: -MATE + ply.
#[verifier::opaque]
pub open spec fn q_node(st: SearchState, v: BoardView, alpha: int, beta: int, ply: int) -> (int, SearchState)
    decreases MAX_PLY - ply, 2int, 0int,
{
    let st1 = bump(st);
    let chk = checked(v);
    let stand = stand_pat(v);
    if !chk && stand >= beta {
        (stand, st1)
    } else if ply >= MAX_PLY - 1 || ply < 0 {
        (stand, st1)
    } else {
        let a = if !chk && stand > alpha {
            stand
        } else {
            alpha
        };
        let moves = q_moves(st1, v, ply);
        let lp = q_loop(st1, v, moves, 0, a, beta, ply, if chk { -2 * MATE } else { a }, 0);
        if chk && lp.1 == 0 {
            (-MATE + ply, lp.2)
        } else {
            (lp.0, lp.2)
        }
    }
}

/// The move loop of the quiescence search from entry `i` of `moves`: illegal moves are
/// skipped; each legal one is searched by quiescence with the window (-beta, -alpha), its
/// negated value raising the best score and alpha, until alpha reaches beta. Gives the
/// best score, the number of legal moves searched and the state left.
#[verifier::opaque]
pub open spec fn q_loop(
    st: SearchState,
    v: BoardView,
    moves: Seq<(Move, i32)>,
    i: int,
    alpha: int,
    beta: int,
    ply: int,
    best: int,
    legal: int,
) -> (int, int, SearchState)
    decreases MAX_PLY - ply, 0int, moves.len() - i,
{
    if i >= moves.len() || i < 0 || ply >= MAX_PLY - 1 || ply < 0 {
        (best, legal, st)
    } else {
        let mv = moves[i].0;
        if !safe_here(v, mv) {
            q_loop(st, v, moves, i + 1, alpha, beta, ply, best, legal)
        } else {
            let ch = q_node(st, after_move(v, mv), -beta, -alpha, ply + 1);
            let score = -ch.0;
            let best2 = if score > best {
                score
            } else {
                best
            };
            let alpha2 = if score > alpha {
                score
            } else {
                alpha
            };
            if alpha2 >= beta {
                (best2, legal + 1, ch.1)
            } else {
                q_loop(ch.1, v, moves, i + 1, alpha2, beta, ply, best2, legal + 1)
            }
        }
    }
}

/// The value of the search after move `mv` from `v` (quiescence when `quiet`, else the
/// alpha-beta search to `depth`), with the window (-beta, -alpha) at `ply` + 1.
pub open spec fn child_value(st: SearchState, v: BoardView, mv: Move, depth: int, alpha: int, beta: int, ply: int, quiet: bool) -> (
    int,
    SearchState,
) {
    let w = after_move(v, mv);
    if quiet {
        q_node(st, w, -beta, -alpha, ply + 1)
    } else {
        ab_node(st, w, depth, -beta, -alpha, ply + 1)
    }
}

/// `score` is the negated value of the search after `mv` (see `child_value`) and `after`
/// the state that search leaves.
#[verifier::opaque]
pub open spec fn child_scored(
    st: SearchState,
    v: BoardView,
    mv: Move,
    depth: int,
    alpha: int,
    beta: int,
    ply: int,
    quiet: bool,
    score: int,
    after: SearchState,
) -> bool {
    let cv = child_value(st, v, mv, depth, alpha, beta, ply, quiet);
    score == -cv.0 && after == cv.1
}

proof fn lemma_ab_loop_end(st: SearchState, v: BoardView, moves: Seq<(Move, i32)>, depth: int, alpha: int, beta: int, ply: int, best: int, best_mv: Move, legal: int)
    ensures
        ab_loop(st, v, moves, moves.len() as int, depth, alpha, beta, ply, best, best_mv, legal) == (best, best_mv, legal, st),
{
    reveal_with_fuel(ab_loop, 1);
}

proof fn lemma_ab_loop_skip(st: SearchState, v: BoardView, moves: Seq<(Move, i32)>, i: int, depth: int, alpha: int, beta: int, ply: int, best: int, best_mv: Move, legal: int)
    requires
        0 <= i < moves.len(),
        0 <= ply < MAX_PLY - 1,
        !safe_here(v, moves[i].0),
    ensures
        ab_loop(st, v, moves, i, depth, alpha, beta, ply, best, best_mv, legal) == ab_loop(st, v, moves, i + 1, depth, alpha, beta, ply, best, best_mv, legal),
{
    reveal_with_fuel(ab_loop, 1);
}

proof fn lemma_ab_loop_step(
    st: SearchState,
    v: BoardView,
    moves: Seq<(Move, i32)>,
    i: int,
    depth: int,
    alpha: int,
    beta: int,
    ply: int,
    best: int,
    best_mv: Move,
    legal: int,
    score: int,
    after: SearchState,
)
    requires
        0 <= i < moves.len(),
        0 <= ply < MAX_PLY - 1,
        safe_here(v, moves[i].0),
        child_scored(st, v, moves[i].0, depth - 1, alpha, beta, ply, false, score, after),
    ensures
        ab_loop(st, v, moves, i, depth, alpha, beta, ply, best, best_mv, legal) == ({
            let mv = moves[i].0;
            let best2 = if score > best { score } else { best };
            let bm2 = if score > best { mv } else { best_mv };
            let alpha2 = if score > alpha { score } else { alpha };
            if alpha2 >= beta {
                (best2, bm2, legal + 1, cut_update(after, v.side, ply, mv, depth))
            } else {
                ab_loop(after, v, moves, i + 1, depth, alpha2, beta, ply, best2, bm2, legal + 1)
            }
        }),
{
    reveal_with_fuel(ab_loop, 1);
    reveal_with_fuel(ab_node, 1);
    reveal(child_scored);
}

proof fn lemma_q_loop_end(st: SearchState, v: BoardView, moves: Seq<(Move, i32)>, alpha: int, beta: int, ply: int, best: int, legal: int)
    ensures
        q_loop(st, v, moves, moves.len() as int, alpha, beta, ply, best, legal) == (best, legal, st),
{
    reveal_with_fuel(q_loop, 1);
}

proof fn lemma_q_loop_skip(st: SearchState, v: BoardView, moves: Seq<(Move, i32)>, i: int, alpha: int, beta: int, ply: int, best: int, legal: int)
    requires
        0 <= i < moves.len(),
        0 <= ply < MAX_PLY - 1,
        !safe_here(v, moves[i].0),
    ensures
        q_loop(st, v, moves, i, alpha, beta, ply, best, legal) == q_loop(st, v, moves, i + 1, alpha, beta, ply, best, legal),
{
    reveal_with_fuel(q_loop, 1);
}

proof fn lemma_q_loop_step(
    st: SearchState,
    v: BoardView,
    moves: Seq<(Move, i32)>,
    i: int,
    alpha: int,
    beta: int,
    ply: int,
    best: int,
    legal: int,
    score: int,
    after: SearchState,
)
    requires
        0 <= i < moves.len(),
        0 <= ply < MAX_PLY - 1,
        safe_here(v, moves[i].0),
        child_scored(st, v, moves[i].0, 0, alpha, beta, ply, true, score, after),
    ensures
        q_loop(st, v, moves, i, alpha, beta, ply, best, legal) == ({
            let best2 = if score > best { score } else { best };
            let alpha2 = if score > alpha { score } else { alpha };
            if alpha2 >= beta {
                (best2, legal + 1, after)
            } else {
                q_loop(after, v, moves, i + 1, alpha2, beta, ply, best2, legal + 1)
            }
        }),
{
    reveal_with_fuel(q_loop, 1);
    reveal_with_fuel(q_node, 1);
    reveal(child_scored);
}

/// The alpha-beta value once the table entry does not settle the window: a null-move
/// cutoff, or the move loop's result.
proof fn lemma_ab_node_loop(st: SearchState, v: BoardView, depth: int, alpha: int, beta: int, ply: int)
    requires
        0 <= ply < MAX_PLY - 1,
        !repeated(v, ply),
        (if checked(v) { depth + 1 } else { depth }) > 0,
        probe_spec(
            bump(st).tt[tt_slot(v.hash)],
            v.hash,
            (if checked(v) { depth + 1 } else { depth }) as u8,
            alpha as i32,
            beta as i32,
        ) is None,
    ensures
        ({
            let st1 = bump(st);
            let chk = checked(v);
            let d = if chk { depth + 1 } else { depth };
            let try_null = st1.use_null && !chk && d >= 3 && beta < MATE_IN_MAX_PLY && has_material(v);
            let nul = ab_node(st1, spec_null(v), d - 3, -beta, -beta + 1, ply + 1);
            let st2 = if try_null { nul.1 } else { st1 };
            let lp = ab_loop(st2, v, node_moves(st2, v, ply), 0, d, alpha, beta, ply, -2 * MATE, Move { from: 0, to: 0, captured: 0 }, 0);
            ab_node(st, v, depth, alpha, beta, ply) == if try_null && -nul.0 >= beta {
                (beta, nul.1)
            } else if lp.2 == 0 {
                (-MATE + ply, lp.3)
            } else {
                (lp.0, tt_put(lp.3, v.hash, lp.1, lp.0, d as u8, if lp.0 <= alpha {
                    2u8
                } else if lp.0 >= beta {
                    1u8
                } else {
                    0u8
                }))
            }
        }),
{
    reveal_with_fuel(ab_node, 1);
    reveal_with_fuel(ab_loop, 1);
}

/// The quiescence value below the last ply when the evaluation does not reach beta
/// out of check: the move loop's result.
proof fn lemma_q_node_loop(st: SearchState, v: BoardView, alpha: int, beta: int, ply: int)
    requires
        0 <= ply < MAX_PLY - 1,
        !(!checked(v) && stand_pat(v) >= beta),
    ensures
        ({
            let st1 = bump(st);
            let chk = checked(v);
            let a = if !chk && stand_pat(v) > alpha { stand_pat(v) } else { alpha };
            let lp = q_loop(st1, v, q_moves(st1, v, ply), 0, a, beta, ply, if chk { -2 * MATE } else { a }, 0);
            q_node(st, v, alpha, beta, ply) == if chk && lp.1 == 0 {
                (-MATE + ply, lp.2)
            } else {
                (lp.0, lp.2)
            }
        }),
{
    reveal_with_fuel(q_node, 1);
    reveal_with_fuel(q_loop, 1);
}

/// Pairs each move with a score of zero.
fn zero_scored(ms: Vec<Move>) -> (r: Vec<(Move, i32)>)
    ensures
        r@.len() == ms@.len(),
        forall|i: int| 0 <= i < ms@.len() ==> #[trigger] r@[i] == (ms@[i], 0i32),
{
    let mut r: Vec<(Move, i32)> = Vec::new();
    let mut i: usize = 0;
    while i < ms.len()
        invariant
            0 <= i <= ms@.len(),
            r@.len() == i,
            forall|j: int| 0 <= j < i ==> #[trigger] r@[j] == (ms@[j], 0i32),
        decreases ms@.len() - i,
    {
        r.push((ms[i], 0));
        i += 1;
    }
    r
}

impl Searcher {
    /// Alpha-beta search of `b` to `depth` plies (extended by one in check), from the
    /// side to move's point of view. Returns 0 once the search has been stopped, which
    /// happens only past a deadline. A side without a legal move loses: -MATE + ply, when
    /// the position is searched to full width (in check, or without null-move pruning at
    /// that depth) and the table holds no entry under its hash. The board is given back as
    /// it was (its king slots too when they are consistent).
    #[verifier::rlimit(100)]
    pub fn negamax(&mut self, b: &mut Board, depth: i32, alpha: i32, beta: i32, ply: usize) -> (r: i32)
        requires
            old(self).inv(),
            old(b)@.wf(),
            old(b).side < 16,
            depth <= 46339,
            i32::MIN + 1 <= alpha <= i32::MAX - 1,
            i32::MIN + 2 <= beta,
        ensures
            final(self).inv(),
            score_low(alpha, beta) <= r <= score_high(alpha, beta),
            old(self).is_stopped() ==> final(self).is_stopped(),
            final(self).is_stopped() ==> r == 0,
            final(b)@ == (BoardView { king_sq: final(b).king_sq@, ..old(b)@ }),
            final(b)@.wf(),
            old(b)@.kings_consistent() ==> final(b).king_sq@ == old(b).king_sq@,
            !final(self).is_stopped() && ply >= MAX_PLY - 1 ==> r == side_rel_eval_spec(
                old(b).squares@,
                old(b).side,
            ),
            !final(self).is_stopped() && ply < MAX_PLY - 1 && repetition_draw(old(b)@, ply as int)
                ==> r == 0,
            final(self).has_deadline() == old(self).has_deadline(),
            !old(self).has_deadline() && !old(self).is_stopped() ==> !final(self).is_stopped(),
            old(self).stored_keys().subset_of(final(self).stored_keys()),
            !final(self).is_stopped() && ply < MAX_PLY - 1 && !repetition_draw(old(b)@, ply as int)
                && old(b)@.kings_consistent() && legal_moves_spec(old(b)@).len() == 0
                && old(self).tt_entry(tt_slot(old(b)@.hash)).0 != old(b)@.hash
                && (in_check_spec(old(b).squares@, old(b).king_sq@, old(b).side) || (1 <= depth && (depth < 3
                || !old(self).null_enabled()))) ==> r == -MATE + ply as int,
            old(b)@.kings_consistent() && !final(self).is_stopped() ==> r == ab_node(
                old(self).state(),
                old(b)@,
                depth as int,
                alpha as int,
                beta as int,
                ply as int,
            ).0 && final(self).state() == ab_node(old(self).state(), old(b)@, depth as int, alpha as int, beta as int, ply as int).1,
        decreases MAX_PLY as int - ply as int, 2int,
    {
        let ghost v0 = b@;
        let ghost dl = self.has_deadline();
        let ghost st0 = self.state();
        let ghost d0 = depth as int;
        let ghost nv = ab_node(st0, v0, depth as int, alpha as int, beta as int, ply as int);
        let mut alpha = alpha;
        self.nodes = self.nodes.wrapping_add(1);
        proof {
            assert(self.state() == bump(st0)) by {
                reveal(Searcher::state);
            }
        }
        self.check_time();
        if self.stopped {
            return 0;
        }
        if ply >= MAX_PLY - 1 {
            proof {
                assert(b@ == (BoardView { king_sq: b.king_sq@, ..v0 }));
                assert(nv == (side_rel_eval_spec(v0.squares, v0.side), bump(st0))) by {
                    reveal_with_fuel(ab_node, 1);
                    reveal(stand_pat);
                }
            }
            return Self::side_rel_eval(b);
        }
        if self.is_draw_by_repetition(b, ply) {
            proof {
                assert(b@ == (BoardView { king_sq: b.king_sq@, ..v0 }));
                assert(nv == (0int, bump(st0))) by {
                    reveal_with_fuel(ab_node, 1);
                    reveal(repeated);
                }
            }
            return 0;
        }
        let in_check = b.in_check(b.side);
        proof {
            assert(!repeated(v0, ply as int)) by {
                reveal(repeated);
            }
            assert(checked(v0) == in_check) by {
                reveal(checked);
            }
        }
        let mut depth = depth;
        if in_check {
            depth += 1;  // check extension
        }
        if depth <= 0 {
            proof {
                assert(nv == q_node(bump(st0), v0, alpha as int, beta as int, ply as int)) by {
                    reveal_with_fuel(ab_node, 1);
                }
            }
            return self.quiescence(b, alpha, beta, ply);
        }
        proof {
            crate::board::lemma_piece_bits(b.side);
            lemma_tt_slot(b@.hash);
            assert(bump(st0).tt[tt_slot(b@.hash)] == self.tt_entry(tt_slot(b@.hash))) by {
                reveal(Searcher::state);
            }
            assert(bump(st0).use_null == self.use_null) by {
                reveal(Searcher::state);
            }
        }
        let ghost probe = probe_spec(bump(st0).tt[tt_slot(v0.hash)], v0.hash, depth as u8, alpha, beta);
        if let Some((score, _)) = self.tt_probe(b.hash(), #[verifier::truncate] (depth as u8), alpha, beta, ply) {
            proof {
                assert(b@ == (BoardView { king_sq: b.king_sq@, ..v0 }));
                assert(nv == (score as int, bump(st0))) by {
                    reveal_with_fuel(ab_node, 1);
                }
            }
            return score;
        }
        let ghost try_null = bump(st0).use_null && !in_check && depth >= 3 && beta < MATE_IN_MAX_PLY && non_king_material(
            v0.squares,
            v0.side,
        );
        let ghost nul = ab_node(bump(st0), spec_null(v0), depth - 3, -(beta as int), -(beta as int) + 1, ply + 1);
        proof {
            assert(has_material(v0) == non_king_material(v0.squares, v0.side)) by {
                reveal(has_material);
            }
            assert(probe is None);
            lemma_ab_node_loop(st0, v0, d0, alpha as int, beta as int, ply as int);
        }
        // null-move pruning
        if self.use_null && !in_check && depth >= 3 && beta < MATE_IN_MAX_PLY
            && Self::has_non_king_material(b) {
            proof {
                crate::board::lemma_side_flip(b.side);
            }
            b.make_null();
            let ghost nk = b.king_sq@;
            proof {
                assert(v0.kings_consistent() ==> b@.kings_consistent());
            }
            let child = self.negamax(b, depth - 3, -beta, -beta + 1, ply + 1);
            let score = -child;
            proof {
                crate::board::lemma_null_unmake_kings(v0, b.king_sq@);
            }
            b.unmake_null();
            if self.stopped {
                return 0;
            }
            if score >= beta {
                return beta;
            }
        }
        let ghost st2 = self.state();
        proof {
            assert(v0.kings_consistent() ==> st2 == (if try_null {
                nul.1
            } else {
                bump(st0)
            }));
        }
        let side = b.side;
        let ghost s = b.squares@;
        let pm = pseudo_moves(b);
        proof {
            lemma_pseudo_moves_ok(s, side, 90);
        }
        let ghost pm_all = pm@;
        let mut moves = zero_scored(pm);
        proof {
            assert(all_pairs_ok(s, side, moves@));
        }
        let ghost unsorted = moves@;
        self.order_moves(b, &mut moves, None, ply);
        proof {
            let f = |e: (Move, i32)| (e.0, self.order_score(s, side, None, ply as int, e.0));
            let scored = unsorted.map_values(f);
            lemma_rescored_from(pm_all, unsorted, f);
            lemma_sorted_pairs_from(moves@, scored, pm_all);
            assert(all_pairs_ok(s, side, scored)) by {
                assert forall|i: int| 0 <= i < scored.len() implies pseudo_ok(s, side, (#[trigger] scored[i]).0) by {
                    assert(scored[i].0 == unsorted[i].0);
                }
            }
            lemma_sorted_pairs_ok(s, side, moves@, scored);
            let g = |m: Move| (m, order_score_in(self.state(), s, side, None, ply as int, m));
            assert(scored =~= pm_all.map_values(g));
            assert(moves@ == ordered_moves(self.state(), v0, None, ply as int, pm_all)) by {
                reveal(ordered_moves);
            }
            assert(moves@ == node_moves(self.state(), v0, ply as int)) by {
                reveal(node_moves);
            }
        }
        let mut best_score: i32 = -MATE * 2;
        let mut best_move = Move::null();
        let mut legal_count: usize = 0;
        let orig_alpha = alpha;
        let mut i: usize = 0;
        let ghost total = ab_loop(self.state(), v0, moves@, 0, depth as int, alpha as int, beta as int, ply as int, -2 * MATE, best_move, 0);
        proof {
            assert(best_move == Move { from: 0, to: 0, captured: 0 });
        }
        while i < moves.len()
            invariant_except_break
                legal_count <= i,
                alpha == orig_alpha || alpha < beta,
                v0.kings_consistent() ==> ab_loop(self.state(), v0, moves@, i as int, depth as int, alpha as int, beta as int, ply as int, best_score as int, best_move, legal_count as int) == total,
            invariant
                0 <= i <= moves@.len(),
                self.inv(),
                !self.is_stopped(),
                b@ == (BoardView { king_sq: b.king_sq@, ..v0 }),
                v0 == old(b)@,
                b@.wf(),
                v0.kings_consistent() ==> b.king_sq@ == v0.king_sq,
                s == v0.squares,
                side == v0.side,
                side < 16,
                all_pairs_ok(s, side, moves@),
                1 <= depth <= 46340,
                ply < MAX_PLY - 1,
                orig_alpha <= alpha,
                i32::MIN + 1 <= orig_alpha <= i32::MAX - 1,
                i32::MIN + 2 <= beta,
                score_low(orig_alpha, beta) <= best_score <= score_high(orig_alpha, beta),
                alpha <= score_high(orig_alpha, beta),
                self.has_deadline() == dl,
                dl == old(self).has_deadline(),
                old(self).stored_keys().subset_of(self.stored_keys()),
                pm_all == pseudo_moves_spec(s, side),
                pairs_from(moves@, pm_all),
                v0.kings_consistent() && legal_moves_spec(v0).len() == 0 ==> legal_count == 0,
            ensures
                v0.kings_consistent() && !self.is_stopped() ==> ab_loop(self.state(), v0, moves@, moves@.len() as int, depth as int, alpha as int, beta as int, ply as int, best_score as int, best_move, legal_count as int) == total,
            decreases moves@.len() - i,
        {
            let ghost sti = self.state();
            let ghost (ai, bi, bmi, li) = (alpha as int, best_score as int, best_move, legal_count as int);
            let mv = moves[i].0;
            assert(pseudo_ok(s, side, mv));
            proof {
                if v0.kings_consistent() && legal_moves_spec(v0).len() == 0 {
                    assert(pm_all.contains(moves@[i as int].0));
                    crate::movegen::lemma_no_legal_all_unsafe(v0, mv);
                }
            }
            let score = match self.play_child(b, mv, depth - 1, alpha, beta, ply, false) {
                None => {
                    proof {
                        if v0.kings_consistent() {
                            lemma_ab_loop_skip(sti, v0, moves@, i as int, depth as int, ai, beta as int, ply as int, bi, bmi, li);
                        }
                    }
                    i += 1;
                    continue;
                },
                Some(sc) => sc,
            };
            assert(b@ == (BoardView { king_sq: b.king_sq@, ..v0 }));
            legal_count += 1;
            if self.stopped {
                return 0;
            }
            let ghost sta = self.state();
            if score > best_score {
                best_score = score;
                best_move = mv;
            }
            if score > alpha {
                alpha = score;
            }
            if alpha >= beta {
                self.record_cutoff(side, ply, mv, depth);
                proof {
                    if v0.kings_consistent() {
                        lemma_ab_loop_step(sti, v0, moves@, i as int, depth as int, ai, beta as int, ply as int, bi, bmi, li, score as int, sta);
                        lemma_ab_loop_end(self.state(), v0, moves@, depth as int, alpha as int, beta as int, ply as int, best_score as int, best_move, legal_count as int);
                    }
                }
                break;
            }
            proof {
                if v0.kings_consistent() {
                    lemma_ab_loop_step(sti, v0, moves@, i as int, depth as int, ai, beta as int, ply as int, bi, bmi, li, score as int, sta);
                }
            }
            i += 1;
        }
        proof {
            lemma_ab_loop_end(self.state(), v0, moves@, depth as int, alpha as int, beta as int, ply as int, best_score as int, best_move, legal_count as int);
        }
        if legal_count == 0 {
            // no move at all (mate or stalemate): a loss in Xiangqi
            return -MATE + ply as i32;
        }
        let bound: u8 = if best_score <= orig_alpha {
            2
        } else if best_score >= beta {
            1
        } else {
            0
        };
        self.tt_store(b.hash(), best_move, best_score, #[verifier::truncate] (depth as u8), bound);
        best_score
    }

    /// Plays `mv`, and unless it leaves the own king in check or the kings facing,
    /// searches the reply position (full-width when `!quiet`, captures otherwise) with
    /// the window negated, and takes the move back. Returns the move's score for the
    /// mover, or nothing for an illegal move.
    #[verifier::rlimit(100)]
    fn play_child(
        &mut self,
        b: &mut Board,
        mv: Move,
        depth: i32,
        alpha: i32,
        beta: i32,
        ply: usize,
        quiet: bool,
    ) -> (r: Option<i32>)
        requires
            old(self).inv(),
            old(b)@.wf(),
            old(b).side < 16,
            pseudo_ok(old(b).squares@, old(b).side, mv),
            ply < MAX_PLY - 1,
            depth <= 46339,
            i32::MIN + 1 <= alpha <= i32::MAX - 1,
            i32::MIN + 2 <= beta,
        ensures
            final(self).inv(),
            r matches Some(sc) ==> score_low(alpha, beta) <= sc <= score_high(alpha, beta),
            (r is None) == !leaves_king_safe(old(b).squares@, old(b).king_sq@, old(b).side, mv),
            (r is None) == !safe_here(old(b)@, mv),
            r is None ==> *final(self) == *old(self),
            old(b)@.kings_consistent() && !final(self).is_stopped() ==> (r matches Some(sc) ==> child_scored(
                old(self).state(),
                old(b)@,
                mv,
                depth as int,
                alpha as int,
                beta as int,
                ply as int,
                quiet,
                sc as int,
                final(self).state(),
            )),
            old(self).is_stopped() ==> final(self).is_stopped(),
            final(self).has_deadline() == old(self).has_deadline(),
            !old(self).has_deadline() && !old(self).is_stopped() ==> !final(self).is_stopped(),
            old(self).stored_keys().subset_of(final(self).stored_keys()),
            final(b)@ == (BoardView { king_sq: final(b).king_sq@, ..old(b)@ }),
            final(b)@.wf(),
            old(b)@.kings_consistent() ==> final(b).king_sq@ == old(b).king_sq@,
        decreases MAX_PLY as int - ply as int, 0int,
    {
        let ghost vi = b@;
        let side = b.side;
        proof {
            crate::board::lemma_make_wf(vi, mv.from as int, mv.to as int);
            if vi.kings_consistent() {
                crate::board::lemma_make_kings_consistent(vi, mv.from as int, mv.to as int);
            }
            crate::board::lemma_piece_bits(side);
        }
        b.make_move(mv);
        proof {
            assert(b@ == after_move(vi, mv)) by {
                reveal(after_move);
            }
        }
        if b.in_check(side) || b.kings_facing() {
            proof {
                assert(!safe_here(vi, mv)) by {
                    reveal(safe_here);
                }
                crate::board::lemma_make_unmake_kings(vi, mv.from as int, mv.to as int, b.king_sq@);
            }
            b.unmake_move();
            return None;
        }
        proof {
            assert(safe_here(vi, mv)) by {
                reveal(safe_here);
            }
        }
        let ghost st_in = self.state();
        let child = if quiet {
            self.quiescence(b, -beta, -alpha, ply + 1)
        } else {
            self.negamax(b, depth, -beta, -alpha, ply + 1)
        };
        proof {
            if vi.kings_consistent() && !self.is_stopped() {
                assert(child_scored(st_in, vi, mv, depth as int, alpha as int, beta as int, ply as int, quiet, -child, self.state())) by {
                    reveal(child_scored);
                }
            }
            crate::board::lemma_make_unmake_kings(vi, mv.from as int, mv.to as int, b.king_sq@);
        }
        b.unmake_move();
        Some(-child)
    }

    /// Quiescence search: captures only (all moves when in check), with stand-pat. A side
    /// in check without a legal move scores -MATE + ply.
    #[verifier::rlimit(100)]
    fn quiescence(&mut self, b: &mut Board, alpha: i32, beta: i32, ply: usize) -> (r: i32)
        requires
            old(self).inv(),
            old(b)@.wf(),
            old(b).side < 16,
            i32::MIN + 1 <= alpha <= i32::MAX - 1,
            i32::MIN + 2 <= beta,
        ensures
            final(self).inv(),
            score_low(alpha, beta) <= r <= score_high(alpha, beta),
            old(self).is_stopped() ==> final(self).is_stopped(),
            final(self).is_stopped() ==> r == 0,
            final(b)@ == (BoardView { king_sq: final(b).king_sq@, ..old(b)@ }),
            final(b)@.wf(),
            old(b)@.kings_consistent() ==> final(b).king_sq@ == old(b).king_sq@,
            !final(self).is_stopped() && ply >= MAX_PLY - 1 ==> r == side_rel_eval_spec(
                old(b).squares@,
                old(b).side,
            ),
            !final(self).is_stopped() && !in_check_spec(old(b).squares@, old(b).king_sq@, old(b).side)
                ==> r >= side_rel_eval_spec(old(b).squares@, old(b).side),
            final(self).has_deadline() == old(self).has_deadline(),
            !old(self).has_deadline() && !old(self).is_stopped() ==> !final(self).is_stopped(),
            old(self).stored_keys().subset_of(final(self).stored_keys()),
            !final(self).is_stopped() && ply < MAX_PLY - 1 && old(b)@.kings_consistent() && legal_moves_spec(
                old(b)@,
            ).len() == 0 && in_check_spec(old(b).squares@, old(b).king_sq@, old(b).side) ==> r == -MATE
                + ply as int,
            old(b)@.kings_consistent() && !final(self).is_stopped() ==> r == q_node(
                old(self).state(),
                old(b)@,
                alpha as int,
                beta as int,
                ply as int,
            ).0 && final(self).state() == q_node(old(self).state(), old(b)@, alpha as int, beta as int, ply as int).1,
        decreases MAX_PLY as int - ply as int, 1int,
    {
        let ghost v0 = b@;
        let ghost dl = self.has_deadline();
        let ghost st0 = self.state();
        let ghost a0 = alpha as int;
        let ghost qv = q_node(st0, v0, alpha as int, beta as int, ply as int);
        let mut alpha = alpha;
        self.nodes = self.nodes.wrapping_add(1);
        proof {
            assert(self.state() == bump(st0)) by {
                reveal(Searcher::state);
            }
        }
        self.check_time();
        if self.stopped {
            return 0;
        }
        proof {
            assert(b@ == (BoardView { king_sq: b.king_sq@, ..v0 }));
        }
        let in_check = b.in_check(b.side);
        if !in_check {
            let stand = Self::side_rel_eval(b);
            if stand >= beta {
                assert(qv == (stand as int, bump(st0))) by {
                    reveal_with_fuel(q_node, 1);
                    reveal(stand_pat);
                    reveal(checked);
                }
                return stand;
            }
            if stand > alpha {
                alpha = stand;
            }
            if ply >= MAX_PLY - 1 {
                assert(qv == (stand as int, bump(st0))) by {
                    reveal_with_fuel(q_node, 1);
                    reveal(stand_pat);
                    reveal(checked);
                }
                return stand;
            }
        } else if ply >= MAX_PLY - 1 {
            assert(qv.0 == side_rel_eval_spec(v0.squares, v0.side) && qv.1 == bump(st0)) by {
                reveal_with_fuel(q_node, 1);
                reveal(stand_pat);
                reveal(checked);
            }
            return Self::side_rel_eval(b);
        }
        let side = b.side;
        let ghost s = b.squares@;
        proof {
            lemma_pseudo_moves_ok(s, side, 90);
        }
        let ghost pm_all = pseudo_moves_spec(s, side);
        let ghost ms = if in_check {
            pm_all
        } else {
            captures_of(pm_all)
        };
        let mut moves = if in_check {
            zero_scored(pseudo_moves(b))
        } else {
            let cm = capture_moves(b);
            proof {
                let all = pseudo_moves_spec(s, side);
                assert forall|i: int| 0 <= i < cm@.len() implies pseudo_ok(s, side, #[trigger] cm@[i]) by {
                    let f = |m: Move| m.captured != EMPTY;
                    all.lemma_filter_contains_rev(f, cm@[i]);
                }
            }
            zero_scored(cm)
        };
        proof {
            assert(all_pairs_ok(s, side, moves@));
        }
        let ghost unsorted = moves@;
        let oply = if ply < MAX_PLY - 1 {
            ply
        } else {
            MAX_PLY - 1
        };
        self.order_moves(b, &mut moves, None, oply);
        proof {
            let f = |e: (Move, i32)| (e.0, self.order_score(s, side, None, oply as int, e.0));
            let scored = unsorted.map_values(f);
            if in_check {
                lemma_rescored_from(pm_all, unsorted, f);
                lemma_sorted_pairs_from(moves@, scored, pm_all);
            }
            assert(all_pairs_ok(s, side, scored)) by {
                assert forall|i: int| 0 <= i < scored.len() implies pseudo_ok(s, side, (#[trigger] scored[i]).0) by {
                    assert(scored[i].0 == unsorted[i].0);
                }
            }
            lemma_sorted_pairs_ok(s, side, moves@, scored);
            crate::board::lemma_piece_bits(side);
            let g = |m: Move| (m, order_score_in(self.state(), s, side, None, ply as int, m));
            assert(scored =~= ms.map_values(g));
            assert(moves@ == ordered_moves(self.state(), v0, None, ply as int, ms)) by {
                reveal(ordered_moves);
            }
            assert(moves@ == q_moves(self.state(), v0, ply as int)) by {
                reveal(q_moves);
            }
        }
        let orig_alpha = alpha;
        let mut best: i32 = if in_check {
            -MATE * 2
        } else {
            alpha
        };
        let mut legal: usize = 0;
        let mut i: usize = 0;
        let ghost total = q_loop(self.state(), v0, moves@, 0, alpha as int, beta as int, ply as int, best as int, 0);
        proof {
            assert(checked(v0) == in_check && stand_pat(v0) == side_rel_eval_spec(s, side)) by {
                reveal(checked);
                reveal(stand_pat);
            }
            lemma_q_node_loop(st0, v0, a0, beta as int, ply as int);
        }
        while i < moves.len()
            invariant_except_break
                legal <= i,
                alpha == orig_alpha || alpha < beta,
                v0.kings_consistent() ==> q_loop(self.state(), v0, moves@, i as int, alpha as int, beta as int, ply as int, best as int, legal as int) == total,
            invariant
                0 <= i <= moves@.len(),
                self.inv(),
                !self.is_stopped(),
                b@ == (BoardView { king_sq: b.king_sq@, ..v0 }),
                v0 == old(b)@,
                b@.wf(),
                v0.kings_consistent() ==> b.king_sq@ == v0.king_sq,
                s == v0.squares,
                side == v0.side,
                side < 16,
                all_pairs_ok(s, side, moves@),
                ply < MAX_PLY - 1,
                orig_alpha <= alpha,
                i32::MIN + 1 <= orig_alpha <= i32::MAX - 1,
                i32::MIN + 2 <= beta,
                score_low(orig_alpha, beta) <= best <= score_high(orig_alpha, beta),
                alpha <= score_high(orig_alpha, beta),
                !in_check ==> best >= side_rel_eval_spec(s, side),
                in_check == in_check_spec(s, v0.king_sq, side),
                self.has_deadline() == dl,
                dl == old(self).has_deadline(),
                old(self).stored_keys().subset_of(self.stored_keys()),
                pm_all == pseudo_moves_spec(s, side),
                in_check ==> pairs_from(moves@, pm_all),
                in_check && v0.kings_consistent() && legal_moves_spec(v0).len() == 0 ==> legal == 0,
            ensures
                v0.kings_consistent() && !self.is_stopped() ==> q_loop(self.state(), v0, moves@, moves@.len() as int, alpha as int, beta as int, ply as int, best as int, legal as int) == total,
            decreases moves@.len() - i,
        {
            let ghost sti = self.state();
            let ghost (ai, bi, li) = (alpha as int, best as int, legal as int);
            let mv = moves[i].0;
            assert(pseudo_ok(s, side, mv));
            proof {
                if in_check && v0.kings_consistent() && legal_moves_spec(v0).len() == 0 {
                    assert(pm_all.contains(moves@[i as int].0));
                    crate::movegen::lemma_no_legal_all_unsafe(v0, mv);
                }
            }
            let score = match self.play_child(b, mv, 0, alpha, beta, ply, true) {
                None => {
                    proof {
                        if v0.kings_consistent() {
                            lemma_q_loop_skip(sti, v0, moves@, i as int, ai, beta as int, ply as int, bi, li);
                        }
                    }
                    i += 1;
                    continue;
                },
                Some(sc) => sc,
            };
            assert(b@ == (BoardView { king_sq: b.king_sq@, ..v0 }));
            legal += 1;
            if self.stopped {
                return 0;
            }
            if score > best {
                best = score;
            }
            if score > alpha {
                alpha = score;
            }
            proof {
                if v0.kings_consistent() {
                    lemma_q_loop_step(sti, v0, moves@, i as int, ai, beta as int, ply as int, bi, li, score as int, self.state());
                    lemma_q_loop_end(self.state(), v0, moves@, alpha as int, beta as int, ply as int, best as int, legal as int);
                }
            }
            if alpha >= beta {
                break;
            }
            i += 1;
        }
        proof {
            lemma_q_loop_end(self.state(), v0, moves@, alpha as int, beta as int, ply as int, best as int, legal as int);
        }
        if in_check && legal == 0 {
            return -MATE + ply as i32;
        }
        best
    }
}

// ---------------------------------------------------------------------------
// Weighted pick among near-best moves
// ---------------------------------------------------------------------------

/// Total weight of the first `i + 1` of `n` candidates, weighted 2n, 2(n - 1), ..., 2.
pub open spec fn cumulative_weight(n: int, i: int) -> int {
    (i + 1) * (2 * n - i)
}

/// The candidate that draw `r` falls on: the first, from `i` on, whose cumulative weight
/// exceeds `r` (the first candidate when none does).
pub open spec fn pick_from(n: int, r: int, i: int) -> int
    decreases n - i,
{
    if i >= n {
        0
    } else if r < cumulative_weight(n, i) {
        i
    } else {
        pick_from(n, r, i + 1)
    }
}

/// The draw of a pick among `n` candidates: a SplitMix64 value of the seed mixed with
/// the clock's nanoseconds, reduced modulo the total weight n(n + 1).
pub open spec fn pick_draw(n: int, seed: u64, nanos: u32) -> int {
    ((splitmix_spec(seed ^ (nanos as u64)) >> 33u64) as int) % (n * (n + 1))
}

/// Index of the candidate picked among `n` for `seed` and clock nanoseconds `nanos`.
pub open spec fn pick_index(n: int, seed: u64, nanos: u32) -> int {
    pick_from(n, pick_draw(n, seed, nanos), 0)
}

/// Picks one of `top`, the earlier ones more likely (weights 2n, 2(n - 1), ..., 2),
/// by a draw from `seed` and the clock reading `nanos`.
pub fn weighted_pick_at(top: &Vec<(Move, i32)>, seed: u64, nanos: u32) -> (r: (Move, i32))
    requires
        1 <= top@.len() <= 65535,
    ensures
        0 <= pick_index(top@.len() as int, seed, nanos) < top@.len(),
        r == top@[pick_index(top@.len() as int, seed, nanos)],
{
    let n = top.len();
    let nn = n as u32;
    proof {
        assert(nn * (nn + 1) <= u32::MAX) by (nonlinear_arith)
            requires
                1 <= nn <= 65535,
        ;
        assert(nn * (nn + 1) > 0) by (nonlinear_arith)
            requires
                1 <= nn,
        ;
    }
    let total: u32 = nn * (nn + 1);
    let x = splitmix(seed ^ (nanos as u64));
    let hi = x >> 33u64;
    assert(hi < 0x8000_0000) by (bit_vector)
        requires
            hi == x >> 33u64,
    ;
    let draw: u32 = (hi as u32) % total;
    assert(draw as int == pick_draw(n as int, seed, nanos));
    let ghost d = draw as int;
    let mut acc: u32 = 0;
    let mut i: usize = 0;
    while i < n
        invariant
            0 <= i <= n,
            n == top@.len(),
            nn == n,
            1 <= n <= 65535,
            acc == i * (2 * n - i + 1),
            d == draw,
            d == pick_draw(n as int, seed, nanos),
            0 <= d < n * (n + 1),
            n * (n + 1) <= u32::MAX,
            pick_from(n as int, d, 0) == pick_from(n as int, d, i as int),
        decreases n - i,
    {
        proof {
            assert((i + 1) * (2 * n - i) <= n * (n + 1)) by (nonlinear_arith)
                requires
                    0 <= i < n,
            ;
            assert((i + 1) * (2 * n - i) == i * (2 * n - i + 1) + 2 * (n - i)) by (nonlinear_arith);
        }
        let w: u32 = (nn - i as u32) * 2;
        assert(acc + w == (i + 1) * (2 * n - i));
        acc = acc + w;
        if draw < acc {
            assert(cumulative_weight(n as int, i as int) == acc);
            return top[i];
        }
        i += 1;
    }
    proof {
        assert(i * (2 * n - i + 1) == n * (n + 1)) by (nonlinear_arith)
            requires
                i == n,
        ;
    }
    top[0]
}

/// The fractional second of the wall clock, in nanoseconds (0 before the Unix epoch).
fn clock_nanos() -> (r: u32)
    ensures
        r < 1_000_000_000,
{
    let now = system_now();
    match since_unix_epoch(&now) {
        Some(d) => subsec_nanos(&d),
        None => 0,
    }
}

/// Picks one of `top` at random, weighted towards the earlier ones; the draw depends on
/// `seed` and the wall clock.
fn weighted_pick(top: &Vec<(Move, i32)>, seed: u64) -> (r: (Move, i32))
    requires
        1 <= top@.len() <= 65535,
    ensures
        exists|ns: u32|
            ns < 1_000_000_000 && 0 <= pick_index(top@.len() as int, seed, ns) < top@.len() && r
                == top@[pick_index(top@.len() as int, seed, ns)],
{
    let ns = clock_nanos();
    weighted_pick_at(top, seed, ns)
}

// ---------------------------------------------------------------------------
// Principal variation
// ---------------------------------------------------------------------------

/// Some legal move of position `v` goes from `from` to `to`.
pub open spec fn has_legal_move(v: BoardView, from: u8, to: u8) -> bool {
    exists|i: int|
        0 <= i < legal_moves_spec(v).len() && (#[trigger] legal_moves_spec(v)[i]).from == from
            && legal_moves_spec(v)[i].to == to
}

impl Searcher {
    /// The move the transposition table holds for position `v`, when the entry is for
    /// this position, holds a move, and that move is legal there.
    pub open spec fn table_move(&self, v: BoardView) -> Option<Move> {
        let e = self.tt_entry(tt_slot(v.hash));
        let mv = code_mv(e.1);
        if e.0 == v.hash && e.1 != 0 && has_legal_move(v, mv.from, mv.to) {
            Some(mv)
        } else {
            None
        }
    }

    /// Up to `n` table moves followed from position `v`, stopping at the first position
    /// without one.
    pub open spec fn table_line(&self, v: BoardView, n: nat) -> Seq<Move>
        decreases n,
    {
        if n == 0 {
            Seq::empty()
        } else {
            match self.table_move(v) {
                None => Seq::empty(),
                Some(m) => seq![m] + self.table_line(spec_make(v, m.from as int, m.to as int), (n - 1) as nat),
            }
        }
    }

    /// The principal variation reported for `first` in position `v`: `first`, then up
    /// to min(depth, 24) table moves.
    pub open spec fn pv_line(&self, v: BoardView, first: Move, depth: u8) -> Seq<Move> {
        seq![first] + self.table_line(
            spec_make(v, first.from as int, first.to as int),
            if depth < 24 {
                depth as nat
            } else {
                24
            },
        )
    }

    fn extract_pv(&self, b: &Board, first: Move, depth: u8) -> (pv: Vec<Move>)
        requires
            self.inv(),
            b@.wf(),
            first.from < 90,
            first.to < 90,
            b.squares@[first.from as int] != EMPTY,
        ensures
            pv@ == self.pv_line(b@, first, depth),
    {
        let mut pv: Vec<Move> = Vec::new();
        pv.push(first);
        let mut work = b.duplicate();
        work.make_move(first);
        let lim: u8 = if depth < 24 {
            depth
        } else {
            24
        };
        let ghost v1 = work@;
        let ghost target = self.pv_line(b@, first, depth);
        proof {
            assert(pv@ =~= seq![first]);
        }
        let mut k: u8 = 0;
        while k < lim
            invariant
                0 <= k <= lim,
                self.inv(),
                work@.wf(),
                target == seq![first] + self.table_line(v1, lim as nat),
                pv@ + self.table_line(work@, (lim - k) as nat) == target,
            ensures
                pv@ == target,
            decreases lim - k,
        {
            let h = work.hash();
            proof {
                lemma_tt_slot(h);
            }
            let e = self.tt[(#[verifier::truncate] (h as usize)) & (TT_SIZE - 1)];
            if e.key != h || e.mv == 0 {
                proof {
                    assert(self.table_move(work@) is None);
                    assert(pv@ + Seq::<Move>::empty() =~= pv@);
                }
                break;
            }
            let mv = u16_to_mv(e.mv);
            let legal = work.legal_moves();
            let mut found = false;
            let mut j: usize = 0;
            while j < legal.len()
                invariant
                    0 <= j <= legal@.len(),
                    legal@ == legal_moves_spec(work@),
                    found ==> has_legal_move(work@, mv.from, mv.to),
                    !found ==> forall|t: int| 0 <= t < j ==> !((#[trigger] legal@[t]).from == mv.from && legal@[t].to == mv.to),
                decreases legal@.len() - j,
            {
                if legal[j].from == mv.from && legal[j].to == mv.to {
                    found = true;
                }
                j += 1;
            }
            if !found {
                proof {
                    assert(self.table_move(work@) is None);
                    assert(pv@ + Seq::<Move>::empty() =~= pv@);
                }
                break;
            }
            proof {
                lemma_legal_moves_ok(work@);
                let t = choose|t: int|
                    0 <= t < legal_moves_spec(work@).len() && (#[trigger] legal_moves_spec(work@)[t]).from == mv.from
                        && legal_moves_spec(work@)[t].to == mv.to;
                assert(pseudo_ok(work.squares@, work.side, legal_moves_spec(work@)[t]));
                assert(self.table_move(work@) == Some(mv));
            }
            let ghost before = work@;
            let ghost prev = pv@;
            work.make_move(mv);
            pv.push(mv);
            proof {
                assert(self.table_line(before, (lim - k) as nat) == seq![mv] + self.table_line(work@, (lim - k - 1) as nat));
                assert(pv@ + self.table_line(work@, (lim - k - 1) as nat) =~= prev + (seq![mv] + self.table_line(work@, (lim - k - 1) as nat)));
            }
            k += 1;
        }
        pv
    }
}

// ---------------------------------------------------------------------------
// Root search
// ---------------------------------------------------------------------------

/// An entry scores within `window` of `first`.
pub open spec fn in_window(first: i32, window: i32) -> spec_fn((Move, i32)) -> bool {
    |e: (Move, i32)| first - e.1 <= window
}

/// The entries of `scores` within `window` of the first entry's score, in order.
pub open spec fn within_window(scores: Seq<(Move, i32)>, window: i32) -> Seq<(Move, i32)> {
    scores.filter(in_window(scores[0].1, window))
}

/// Candidates of the weighted pick: the first `pool` entries within the window.
pub open spec fn pool_candidates(scores: Seq<(Move, i32)>, pool: usize, window: i32) -> Seq<(Move, i32)> {
    let w = within_window(scores, window);
    if w.len() <= pool {
        w
    } else {
        w.take(pool as int)
    }
}

/// Every score of `v` lies within the score cap.
pub open spec fn scores_capped(v: Seq<(Move, i32)>) -> bool {
    forall|i: int| 0 <= i < v.len() ==> -score_cap() <= (#[trigger] v[i]).1 <= score_cap()
}

/// The first `pool` entries of `scores` within `window` of the first entry's score.
fn pool_top(scores: &Vec<(Move, i32)>, pool: usize, window: i32) -> (top: Vec<(Move, i32)>)
    requires
        scores@.len() >= 1,
        scores_capped(scores@),
    ensures
        top@ == pool_candidates(scores@, pool, window),
{
    let first = scores[0].1;
    let ghost f = in_window(first, window);
    let ghost sc = scores@;
    let mut top: Vec<(Move, i32)> = Vec::new();
    let mut i: usize = 0;
    proof {
        reveal(Seq::filter);
        assert(sc.take(0) =~= Seq::<(Move, i32)>::empty());
    }
    while i < scores.len() && top.len() < pool
        invariant
            0 <= i <= sc.len(),
            sc == scores@,
            scores_capped(sc),
            first == sc[0].1,
            f == in_window(first, window),
            top@ == sc.take(i as int).filter(f),
            top@.len() <= pool,
        decreases sc.len() - i,
    {
        let e = scores[i];
        proof {
            reveal(Seq::filter);
            assert(sc.take(i as int + 1).drop_last() =~= sc.take(i as int));
        }
        if first - e.1 <= window {
            top.push(e);
        }
        i += 1;
    }
    proof {
        Seq::filter_distributes_over_add(sc.take(i as int), sc.skip(i as int), f);
        assert(sc.take(i as int) + sc.skip(i as int) =~= sc);
        let w = within_window(sc, window);
        assert(w == top@ + sc.skip(i as int).filter(f));
        if i == sc.len() {
            assert(sc.skip(i as int) =~= Seq::<(Move, i32)>::empty());
            reveal(Seq::filter);
            assert(w =~= top@);
        } else {
            assert(top@.len() == pool);
            if w.len() <= pool {
                assert(w =~= top@);
            } else {
                assert(w.take(pool as int) =~= top@);
            }
        }
    }
    top
}

/// After `m` from `v`, the side to move is checkmated (in check, without a legal move),
/// the position has not occurred before, and its hash is not among `keys`.
pub open spec fn mates_unseen(v: BoardView, m: Move, keys: Set<u64>) -> bool {
    let w = spec_make(v, m.from as int, m.to as int);
    &&& in_check_spec(w.squares, w.king_sq, w.side)
    &&& legal_moves_spec(w).len() == 0
    &&& !repetition_draw(w, 1)
    &&& !keys.contains(w.hash)
}

/// Some legal move of `v` mates at once, into a position not seen before whose hash is
/// not among `keys`.
pub open spec fn unseen_mate_in_one(v: BoardView, keys: Set<u64>) -> bool {
    exists|m: Move| #[trigger] legal_moves_spec(v).contains(m) && mates_unseen(v, m, keys)
}

proof fn lemma_unseen_mate_fewer_keys(v: BoardView, keys: Set<u64>, more: Set<u64>)
    requires
        keys.subset_of(more),
        unseen_mate_in_one(v, more),
    ensures
        unseen_mate_in_one(v, keys),
{
    let m = choose|m: Move| #[trigger] legal_moves_spec(v).contains(m) && mates_unseen(v, m, more);
    let w = spec_make(v, m.from as int, m.to as int);
    if keys.contains(w.hash) {
        assert(more.contains(w.hash));
    }
    assert(mates_unseen(v, m, keys));
}

/// When every root move that mates at once scored MATE - 1 and every legal move was
/// searched, the best root score is at least MATE - 1.
proof fn lemma_mate_tops(
    v: BoardView,
    ordered: Seq<(Move, i32)>,
    iteration: Seq<(Move, i32)>,
    sorted: Seq<(Move, i32)>,
    keys: Set<u64>,
)
    requires
        covers_legal(ordered, legal_moves_spec(v)),
        iteration.len() == ordered.len(),
        forall|k: int| 0 <= k < iteration.len() ==> (#[trigger] iteration[k]).0 == ordered[k].0,
        forall|k: int|
            0 <= k < iteration.len() && mates_unseen(v, ordered[k].0, keys) ==> #[trigger] iteration[k].1 == MATE
                - 1,
        stable_sorted(sorted, iteration),
        unseen_mate_in_one(v, keys),
    ensures
        sorted.len() > 0,
        sorted[0].1 >= MATE - 1,
{
    let legal = legal_moves_spec(v);
    let m = choose|m: Move| #[trigger] legal.contains(m) && mates_unseen(v, m, keys);
    let i = choose|i: int| 0 <= i < legal.len() && legal[i] == m;
    assert(has_root(ordered, legal[i]));
    let j = choose|j: int| 0 <= j < ordered.len() && (#[trigger] ordered[j]).0 == legal[i];
    assert(iteration[j].1 == MATE - 1);
    lemma_stable_sorted_member_rev(sorted, iteration, j);
    let t = choose|t: int| 0 <= t < sorted.len() && sorted[t] == iteration[j];
    if t > 0 {
        assert(sorted[0].1 >= sorted[t].1);
    }
}

impl Searcher {
    /// One iteration at the root: searches the moves of `ordered` in turn to `depth`
    /// plies with the window (-2 MATE, -alpha), alpha rising with the best score so far,
    /// until the search is stopped. Returns the moves searched, in order, with their
    /// scores.
    #[verifier::rlimit(40)]
    fn root_iteration(&mut self, b: &Board, ordered: &Vec<(Move, i32)>, depth: u8) -> (iteration: Vec<(Move, i32)>)
        requires
            old(self).inv(),
            b@.wf(),
            b.side < 16,
            forall|i: int| 0 <= i < ordered@.len() ==> pseudo_ok(b.squares@, b.side, (#[trigger] ordered@[i]).0),
        ensures
            final(self).inv(),
            iteration@.len() <= ordered@.len(),
            forall|i: int| 0 <= i < iteration@.len() ==> (#[trigger] iteration@[i]).0 == ordered@[i].0,
            scores_capped(iteration@),
            old(self).is_stopped() ==> final(self).is_stopped(),
            iteration@.len() < ordered@.len() ==> final(self).is_stopped(),
            final(self).has_deadline() == old(self).has_deadline(),
            !old(self).has_deadline() && !old(self).is_stopped() ==> !final(self).is_stopped(),
            old(self).stored_keys().subset_of(final(self).stored_keys()),
            b@.kings_consistent() ==> forall|k: int|
                0 <= k < iteration@.len() && mates_unseen(b@, ordered@[k].0, final(self).stored_keys())
                    ==> #[trigger] iteration@[k].1 == MATE - 1,
    {
        let mut iteration: Vec<(Move, i32)> = Vec::new();
        let mut alpha: i32 = -MATE * 2;
        let mut work = b.duplicate();
        proof {
            crate::board::lemma_piece_bits(b.side);
        }
        let mut i: usize = 0;
        while i < ordered.len()
            invariant_except_break
                iteration@.len() == i,
            invariant
                0 <= i <= ordered@.len(),
                iteration@.len() <= i,
                self.inv(),
                old(self).is_stopped() ==> self.is_stopped(),
                iteration@.len() < i ==> self.is_stopped(),
                self.has_deadline() == old(self).has_deadline(),
                !old(self).has_deadline() && !old(self).is_stopped() ==> !self.is_stopped(),
                old(self).stored_keys().subset_of(self.stored_keys()),
                b@.wf(),
                b.side < 16,
                b.side ^ 8 < 16,
                work@ == (BoardView { king_sq: work.king_sq@, ..b@ }),
                work@.wf(),
                forall|k: int| 0 <= k < ordered@.len() ==> pseudo_ok(b.squares@, b.side, (#[trigger] ordered@[k]).0),
                forall|k: int| 0 <= k < iteration@.len() ==> (#[trigger] iteration@[k]).0 == ordered@[k].0,
                scores_capped(iteration@),
                -score_cap() <= alpha <= score_cap(),
                b@.kings_consistent() ==> work.king_sq@ == b.king_sq@,
                b@.kings_consistent() ==> forall|k: int|
                    0 <= k < iteration@.len() && mates_unseen(b@, ordered@[k].0, self.stored_keys())
                        ==> #[trigger] iteration@[k].1 == MATE - 1,
            ensures
                iteration@.len() < ordered@.len() ==> self.is_stopped(),
            decreases ordered@.len() - i,
        {
            let mv = ordered[i].0;
            assert(pseudo_ok(b.squares@, b.side, mv));
            let ghost v = work@;
            work.make_move(mv);
            let ghost w = work@;
            let ghost before = self.stored_keys();
            proof {
                if b@.kings_consistent() {
                    crate::board::lemma_make_kings_consistent(v, mv.from as int, mv.to as int);
                }
                lemma_tt_slot(w.hash);
            }
            let child = self.negamax(&mut work, depth as i32 - 1, -MATE * 2, -alpha, 1);
            proof {
                crate::board::lemma_make_unmake_kings(v, mv.from as int, mv.to as int, work.king_sq@);
            }
            work.unmake_move();
            if self.stopped {
                break;
            }
            let score = -child;
            let ghost prev = iteration@;
            iteration.push((mv, score));
            proof {
                if b@.kings_consistent() {
                    let after = self.stored_keys();
                    assert forall|k: int|
                        0 <= k < iteration@.len() && mates_unseen(b@, ordered@[k].0, after) implies #[trigger] iteration@[k].1
                        == MATE - 1 by {
                        let wk = spec_make(b@, ordered@[k].0.from as int, ordered@[k].0.to as int);
                        if before.contains(wk.hash) {
                            assert(after.contains(wk.hash));
                        }
                        if k < prev.len() {
                            assert(iteration@[k] == prev[k]);
                        } else {
                            assert(w == wk);
                        }
                    }
                }
            }
            if score > alpha {
                alpha = score;
            }
            i += 1;
        }
        iteration
    }
}

/// Each move paired with a score of zero.
pub open spec fn zero_pairs(ms: Seq<Move>) -> Seq<(Move, i32)> {
    ms.map_values(|m: Move| (m, 0i32))
}

/// The move and score a search settles on among the root scores `roots`: the best one,
/// or, with a candidate pool, the candidate that the weighted pick seeded by `seed`
/// falls on for some clock reading.
pub open spec fn chosen(roots: Seq<(Move, i32)>, pool: usize, window: i32, seed: u64, pick: (Move, i32)) -> bool {
    let cands = pool_candidates(roots, pool, window);
    if pool > 1 && cands.len() > 0 {
        exists|ns: u32|
            ns < 1_000_000_000 && 0 <= pick_index(cands.len() as int, seed, ns) < cands.len() && pick
                == cands[pick_index(cands.len() as int, seed, ns)]
    } else {
        pick == roots[0]
    }
}

/// What a search of a position with legal moves reports: root scores for legal moves,
/// sorted best first (all zero when no iteration completed), a depth within the limit,
/// and the move chosen among them. Without a time limit every legal move is scored and
/// the search goes to the full depth unless it found a mate.
pub open spec fn search_outcome(v: BoardView, limits: SearchLimits, best: Move, score: i32, roots: Seq<(Move, i32)>, depth: u8) -> bool {
    &&& 1 <= roots.len() <= legal_moves_spec(v).len()
    &&& sorted_desc(roots)
    &&& forall|i: int| 0 <= i < roots.len() ==> legal_moves_spec(v).contains((#[trigger] roots[i]).0)
    &&& scores_capped(roots)
    &&& depth <= limits.max_depth
    &&& depth == 0 ==> roots == zero_pairs(legal_moves_spec(v))
    &&& chosen(roots, limits.pool, limits.window, v.hash, (best, score))
    &&& limits.max_time_ms == 0 ==> {
        &&& covers_legal(roots, legal_moves_spec(v))
        &&& depth == limits.max_depth || (depth >= 1 && roots[0].1 > MATE_IN_MAX_PLY)
    }
}

impl Searcher {
    /// Iterative-deepening search of `b` within `limits`: depth 1, 2, ... up to
    /// `max_depth`, stopping early at the deadline (`max_time_ms`, when positive) or once a
    /// mate is found. Each iteration searches the root moves best-first and sorts them by
    /// score. With a pool above 1 the move is picked at random among the best ones.
    /// Without a time limit, a checkmate in one is found by the first iteration, unless the
    /// mated position repeats an earlier one or a table entry made during the search
    /// carries its hash.
    #[verifier::rlimit(60)]
    pub fn search(&mut self, b: &Board, limits: SearchLimits) -> (r: SearchResult)
        requires
            old(self).inv(),
            b@.wf(),
            b.side < 16,
        ensures
            final(self).inv(),
            r.nodes == final(self).node_count(),
            (r.best is None) == (legal_moves_spec(b@).len() == 0),
            r.best is None ==> r.score == -MATE && r.pv@.len() == 0 && r.root_scores@.len() == 0
                && r.depth_reached == 0 && r.nodes == 0,
            r.best matches Some(m) ==> {
                &&& legal_moves_spec(b@).contains(m)
                &&& search_outcome(b@, limits, m, r.score, r.root_scores@, r.depth_reached)
                &&& r.pv@ == final(self).pv_line(b@, m, r.depth_reached)
            },
            limits.max_time_ms == 0 && limits.pool <= 1 && limits.max_depth >= 1 && b@.kings_consistent()
                && unseen_mate_in_one(b@, final(self).stored_keys()) ==> r.depth_reached == 1 && r.score
                >= MATE - 1,
    {
        self.stopped = false;
        self.nodes = 0;
        self.deadline = if limits.max_time_ms > 0 {
            let now = instant_now();
            instant_checked_add(&now, &duration_from_millis(limits.max_time_ms))
        } else {
            None
        };
        self.use_null = !limits.pure;
        self.game_hashes = copy_vec(&b.history_hashes);
        let root_moves = b.legal_moves();
        let ghost legal = legal_moves_spec(b@);
        proof {
            lemma_legal_moves_ok(b@);
        }
        if root_moves.len() == 0 {
            return SearchResult {
                best: None,
                score: -MATE,
                pv: Vec::new(),
                root_scores: Vec::new(),
                depth_reached: 0,
                nodes: 0,
            };
        }
        let mut best_move = root_moves[0];
        let mut last_scores = zero_scored(root_moves);
        proof {
            assert(last_scores@ =~= zero_pairs(legal));
            assert(legal.contains(legal[0]));
            assert forall|i: int| 0 <= i < last_scores@.len() implies legal.contains((#[trigger] last_scores@[i]).0) by {
                assert(last_scores@[i].0 == legal[i]);
            }
        }
        proof {
            assert forall|i: int| 0 <= i < legal.len() implies #[trigger] has_root(last_scores@, legal[i]) by {
                assert(last_scores@[i].0 == legal[i]);
            }
        }
        let mut best_score: i32 = 0;
        let mut depth_reached: u8 = 0;
        let mut depth: u16 = 1;
        while depth <= limits.max_depth as u16
            invariant
                self.inv(),
                b@.wf(),
                b.side < 16,
                legal == legal_moves_spec(b@),
                legal.len() <= 7200,
                forall|i: int| 0 <= i < legal.len() ==> pseudo_ok(b.squares@, b.side, #[trigger] legal[i]),
                1 <= depth <= 256,
                depth_reached <= depth,
                depth_reached <= limits.max_depth,
                1 <= last_scores@.len() <= legal.len(),
                sorted_desc(last_scores@),
                forall|i: int| 0 <= i < last_scores@.len() ==> legal.contains((#[trigger] last_scores@[i]).0),
                scores_capped(last_scores@),
                depth_reached == 0 ==> last_scores@ == zero_pairs(legal),
                (best_move, best_score) == last_scores@[0],
                limits.max_time_ms == 0 ==> {
                    &&& !self.has_deadline()
                    &&& !self.is_stopped()
                    &&& covers_legal(last_scores@, legal)
                    &&& depth_reached == depth - 1 || (depth_reached == depth && last_scores@[0].1
                        > MATE_IN_MAX_PLY)
                },
                old(self).stored_keys().subset_of(self.stored_keys()),
                limits.max_time_ms == 0 && b@.kings_consistent() && depth >= 2 ==> !unseen_mate_in_one(
                    b@,
                    self.stored_keys(),
                ),
            ensures
                limits.max_time_ms == 0 && limits.max_depth >= 1 && b@.kings_consistent() && unseen_mate_in_one(
                    b@,
                    self.stored_keys(),
                ) ==> depth_reached == 1 && last_scores@[0].1 >= MATE - 1,
                limits.max_time_ms == 0 ==> {
                    &&& covers_legal(last_scores@, legal)
                    &&& depth_reached == limits.max_depth || (depth_reached >= 1 && last_scores@[0].1
                        > MATE_IN_MAX_PLY)
                },
            decreases 256 - depth,
        {
            let ghost s_head = self.stored_keys();
            let mut ordered = copy_vec(&last_scores);
            proof {
                assert forall|i: int| 0 <= i < ordered@.len() implies (#[trigger] ordered@[i]).0.from < 90
                    && ordered@[i].0.to < 90 by {
                    let x = ordered@[i].0;
                    assert(legal.contains(x));
                    let j = choose|j: int| 0 <= j < legal.len() && legal[j] == x;
                    assert(pseudo_ok(b.squares@, b.side, legal[j]));
                }
            }
            let ghost before = ordered@;
            self.order_moves(b, &mut ordered, Some(best_move), 0);
            proof {
                let f = |e: (Move, i32)| (e.0, self.order_score(b.squares@, b.side, Some(best_move), 0, e.0));
                let scored = before.map_values(f);
                if limits.max_time_ms == 0 {
                    assert forall|k: int| 0 <= k < scored.len() implies (#[trigger] scored[k]).0 == before[k].0 by {
                        assert(scored[k] == f(before[k]));
                    }
                    lemma_covers_same_moves(scored, before, legal);
                    lemma_covers_sorted(ordered@, scored, legal);
                }
                assert forall|i: int| 0 <= i < ordered@.len() implies legal.contains((#[trigger] ordered@[i]).0)
                    && pseudo_ok(b.squares@, b.side, ordered@[i].0) by {
                    lemma_stable_sorted_member(ordered@, scored, i);
                    let j = choose|j: int| 0 <= j < scored.len() && scored[j] == ordered@[i];
                    assert(scored[j].0 == before[j].0);
                    let x = ordered@[i].0;
                    assert(legal.contains(x));
                    let t = choose|t: int| 0 <= t < legal.len() && legal[t] == x;
                    assert(pseudo_ok(b.squares@, b.side, legal[t]));
                }
            }
            let iteration = self.root_iteration(b, &ordered, depth as u8);
            if self.stopped && depth > 1 {
                break;
            }
            proof {
                if limits.max_time_ms == 0 {
                    lemma_covers_same_moves(iteration@, ordered@, legal);
                }
            }
            if iteration.len() > 0 {
                let ghost it = iteration@;
                let sorted = sort_by_score_desc(iteration);
                proof {
                    if limits.max_time_ms == 0 {
                        lemma_covers_sorted(sorted@, it, legal);
                    }
                    if limits.max_time_ms == 0 && b@.kings_consistent() && unseen_mate_in_one(b@, self.stored_keys()) {
                        lemma_unseen_mate_fewer_keys(b@, s_head, self.stored_keys());
                        lemma_mate_tops(b@, ordered@, it, sorted@, self.stored_keys());
                    }
                    assert forall|i: int| 0 <= i < sorted@.len() implies legal.contains((#[trigger] sorted@[i]).0)
                        && -score_cap() <= sorted@[i].1 <= score_cap() by {
                        lemma_stable_sorted_member(sorted@, it, i);
                        let j = choose|j: int| 0 <= j < it.len() && it[j] == sorted@[i];
                        assert(it[j].0 == ordered@[j].0);
                        assert(legal.contains(ordered@[j].0));
                    }
                }
                last_scores = sorted;
                best_move = last_scores[0].0;
                best_score = last_scores[0].1;
                depth_reached = depth as u8;
            }
            if best_score > MATE_IN_MAX_PLY {
                break;  // a mate has been found
            }
            let expired = match &self.deadline {
                Some(d) => {
                    let now = instant_now();
                    instant_at_or_after(&now, d)
                },
                None => false,
            };
            if expired {
                break;
            }
            depth += 1;
        }
        // low levels: pick at random among the near-best moves, for a more human game
        if limits.pool > 1 {
            let top = pool_top(&last_scores, limits.pool, limits.window);
            proof {
                let w = within_window(last_scores@, limits.window);
                last_scores@.lemma_filter_len(in_window(last_scores@[0].1, limits.window));
                assert(top@.len() <= w.len());
            }
            if top.len() > 0 {
                let pick = weighted_pick(&top, b.hash());
                proof {
                    let f = in_window(last_scores@[0].1, limits.window);
                    let w = within_window(last_scores@, limits.window);
                    let ns = choose|ns: u32|
                        ns < 1_000_000_000 && 0 <= pick_index(top@.len() as int, b.hash, ns) < top@.len() && pick
                            == top@[pick_index(top@.len() as int, b.hash, ns)];
                    let k = pick_index(top@.len() as int, b.hash, ns);
                    assert(w.contains(top@[k])) by {
                        if w.len() > limits.pool {
                            assert(top@[k] == w[k]);
                        }
                    }
                    last_scores@.lemma_filter_contains_rev(f, pick);
                }
                best_move = pick.0;
                best_score = pick.1;
            }
        }
        proof {
            assert(legal.contains(best_move));
            let t = choose|t: int| 0 <= t < legal.len() && legal[t] == best_move;
            assert(pseudo_ok(b.squares@, b.side, legal[t]));
        }
        let pv = self.extract_pv(b, best_move, depth_reached);
        SearchResult {
            best: Some(best_move),
            score: best_score,
            pv,
            root_scores: last_scores,
            depth_reached,
            nodes: self.nodes,
        }
    }
}

/// Limits of the search that looks for a forced mate within `max_plies` plies: pure,
/// that deep, within 5 seconds.
pub open spec fn mate_search_limits(max_plies: u8) -> SearchLimits {
    SearchLimits { max_depth: max_plies, max_time_ms: 5_000, pool: 1, window: 0, pure: true }
}

impl Searcher {
    /// Whether the side to move can force mate within `max_plies` plies, judged by a
    /// pure search (no null-move pruning) to that depth with a 5-second deadline.
    pub fn forced_mate(&mut self, b: &Board, max_plies: u8) -> (r: bool)
        requires
            old(self).inv(),
            b@.wf(),
            b.side < 16,
        ensures
            final(self).inv(),
            legal_moves_spec(b@).len() == 0 ==> !r,
            legal_moves_spec(b@).len() > 0 ==> exists|best: Move, score: i32, roots: Seq<(Move, i32)>, depth: u8|
                {
                    &&& search_outcome(b@, mate_search_limits(max_plies), best, score, roots, depth)
                    &&& r == (score >= MATE - max_plies - 1)
                },
    {
        let limits = SearchLimits { max_depth: max_plies, max_time_ms: 5_000, pool: 1, window: 0, pure: true };
        let r = self.search(b, limits);
        proof {
            if let Some(m) = r.best {
                assert(search_outcome(b@, mate_search_limits(max_plies), m, r.score, r.root_scores@, r.depth_reached));
            }
        }
        r.score >= MATE - max_plies as i32 - 1
    }
}

// ---------------------------------------------------------------------------
// Difficulty levels
// ---------------------------------------------------------------------------

/// An AI difficulty level.
pub struct Level {
    pub name: &'static str,
    pub desc: &'static str,
    pub elo: u32,
    pub limits: SearchLimits,
}

/// The search limits of each level, from beginner to grandmaster: deeper and longer
/// searches, and a narrower random pool.
pub open spec fn level_limits() -> Seq<SearchLimits> {
    seq![
        SearchLimits { max_depth: 2, max_time_ms: 200, pool: 6, window: 260, pure: false },
        SearchLimits { max_depth: 3, max_time_ms: 400, pool: 4, window: 120, pure: false },
        SearchLimits { max_depth: 4, max_time_ms: 800, pool: 3, window: 45, pure: false },
        SearchLimits { max_depth: 5, max_time_ms: 1500, pool: 2, window: 18, pure: false },
        SearchLimits { max_depth: 7, max_time_ms: 3000, pool: 1, window: 0, pure: false },
        SearchLimits { max_depth: 9, max_time_ms: 6000, pool: 1, window: 0, pure: false },
    ]
}

/// Name, description and rating of each level.
pub open spec fn level_texts() -> Seq<(Seq<char>, Seq<char>, u32)> {
    seq![
        ("入门"@, "适合刚学会规则的朋友"@, 800u32),
        ("初级"@, "偶尔会犯小错误"@, 1100u32),
        ("中级"@, "思路比较稳健"@, 1400u32),
        ("高级"@, "善于抓住机会"@, 1700u32),
        ("大师"@, "计算深入，步步紧逼"@, 2000u32),
        ("特级大师"@, "全力以赴，小心应对"@, 2300u32),
    ]
}

/// Number of difficulty levels.
pub const LEVEL_COUNT: usize = 6;

/// The difficulty levels, from easiest to hardest.
pub fn levels() -> (r: Vec<Level>)
    ensures
        r@.len() == LEVEL_COUNT,
        forall|i: int| 0 <= i < LEVEL_COUNT ==> (#[trigger] r@[i]).limits == level_limits()[i] && (r@[i].name@,
            r@[i].desc@, r@[i].elo) == level_texts()[i],
{
    let r = vec![
        Level { name: "入门", desc: "适合刚学会规则的朋友", elo: 800, limits: SearchLimits { max_depth: 2, max_time_ms: 200, pool: 6, window: 260, pure: false } },
        Level { name: "初级", desc: "偶尔会犯小错误", elo: 1100, limits: SearchLimits { max_depth: 3, max_time_ms: 400, pool: 4, window: 120, pure: false } },
        Level { name: "中级", desc: "思路比较稳健", elo: 1400, limits: SearchLimits { max_depth: 4, max_time_ms: 800, pool: 3, window: 45, pure: false } },
        Level { name: "高级", desc: "善于抓住机会", elo: 1700, limits: SearchLimits { max_depth: 5, max_time_ms: 1500, pool: 2, window: 18, pure: false } },
        Level { name: "大师", desc: "计算深入，步步紧逼", elo: 2000, limits: SearchLimits { max_depth: 7, max_time_ms: 3000, pool: 1, window: 0, pure: false } },
        Level { name: "特级大师", desc: "全力以赴，小心应对", elo: 2300, limits: SearchLimits { max_depth: 9, max_time_ms: 6000, pool: 1, window: 0, pure: false } },
    ];
    r
}

/// The search limits of level `i` (`i` < LEVEL_COUNT).
pub fn level_limits_of(i: usize) -> (r: SearchLimits)
    requires
        i < LEVEL_COUNT,
    ensures
        r == level_limits()[i as int],
{
    let all = levels();
    all[i].limits
}

/// A search of `v` within `limits` can settle on `best`: for some root scores and depth
/// it is what such a search reports.
pub open spec fn can_settle(v: BoardView, limits: SearchLimits, best: Move) -> bool {
    exists|score: i32, roots: Seq<(Move, i32)>, depth: u8| search_outcome(v, limits, best, score, roots, depth)
}

/// A reported outcome is one the search can settle on.
pub proof fn lemma_can_settle(v: BoardView, limits: SearchLimits, best: Move, score: i32, roots: Seq<(Move, i32)>, depth: u8)
    requires
        search_outcome(v, limits, best, score, roots, depth),
    ensures
        can_settle(v, limits, best),
{
}

impl Default for Searcher {
    /// A fresh searcher.
    fn default() -> (s: Searcher)
        ensures
            s.inv(),
            s.node_count() == 0,
            !s.is_stopped(),
            s.null_enabled(),
    {
        Searcher::new()
    }
}

} // verus!
