//! Iterative-deepening negamax alpha-beta with a transposition table,
//! quiescence (table probe, SEE pruning, optional quiet checks), null move,
//! late-move reductions and pruning, reverse futility pruning, internal
//! iterative reduction, singular extension, killers and history.
//!
//! Where the engine's arithmetic or table writes would fail (an evaluation
//! out of range, a score the packed table cannot hold, a history entry
//! that overflows), the search raises `fault` and stops; the caller
//! reports it.
use vstd::prelude::*;
use std::time::Instant;
use crate::bits::{count_ones, popcount};
use crate::board::{Board, Move, WHITE, valid_piece, pt, pc};
use crate::eval::{evaluation, mopup_outcome, MATE, MATE_THRESHOLD};
use crate::legal::{
    legal_moves, perft_ok, can_make_all, move_fits, lemma_pseudo_fit, lemma_filter_fit, lemma_after_keeps,
};
use crate::makemove::{after, placed, lemma_unmake_null_undoes_make_null};
use crate::movegen::pseudo_moves;
use crate::ordering::{
    capture,
    can_order, order_moves, order_key, ps_index, hist_index, push_killer, fits_bonus, apply_bonus,
    capture_key, scores, is_capture, takes, capture_or_check, order_root, to_front, lemma_to_front_member,
    halve_history, clear_table, keep_captures, keep_captures_and_checks, sort_by_capture_value,
};
use crate::see::see_outcome;
use crate::tt::{
    Tt, TtVerdict, qtt_cut, draw_score, draw_score_spec, tt_cut, bound_flag, is_repetition2, occurrences, EXACT,
    LOWER, UPPER,
};
use crate::material::insufficient;
use crate::nnue::{acc_upto, bucket, output, Net};
use crate::attacks::is_attacked;

verus! {

/// Scores lie in `[-INF, INF]`.
pub const INF: i32 = 1_000_000_000;

/// The deepest ply the search walks to; a node there is scored statically.
pub const MAX_PLY: i32 = 128;

/// The deepest nominal depth an iteration searches to.
pub const MAX_DEPTH: i32 = 1000;

/// Rows of the late-move tables (depths `0..LMR_DEPTHS`, deeper ones read
/// the last row).
pub const LMR_DEPTHS: usize = 128;

/// Columns of the reduction table (move counts `0..LMR_COUNTS`, later
/// moves read the last column).
pub const LMR_COUNTS: usize = 256;

/// The evaluation the search scores positions with.
pub enum EvalChoice {
    /// The network evaluation.
    Net(Net),
    /// The tapered evaluation, with the mop-up term against a bare king
    /// (coefficients C1, C2) when set.
    Tapered(Option<(i32, i32)>),
}

impl EvalChoice {
    pub open spec fn wf(&self) -> bool {
        match self {
            EvalChoice::Net(net) => net.wf(),
            EvalChoice::Tapered(_) => true,
        }
    }
}

/// Centipawns from White's point of view, `None` where computing them
/// fails (a board with more pieces than the network has output buckets
/// for, a mop-up term that overflows, a negation that overflows).
pub open spec fn white_eval(e: EvalChoice, b: Board) -> Option<int> {
    match e {
        EvalChoice::Net(net) => {
            let occ = b.occ[0] | b.occ[1];
            if popcount(occ) > 33 {
                None
            } else {
                let v = output(
                    acc_upto(&net, b.sq@, occ, 64)[b.stm as int],
                    acc_upto(&net, b.sq@, occ, 64)[1 - b.stm],
                    &net,
                    bucket(popcount(occ) as u32),
                );
                if b.stm == WHITE {
                    Some(v)
                } else if v == i32::MIN {
                    None
                } else {
                    Some(-v)
                }
            }
        },
        EvalChoice::Tapered(mopup) => match mopup {
            Some((c1, c2)) => if mopup_outcome(b.sq@, c1 as int, c2 as int) is Panics {
                None
            } else {
                Some(evaluation(b, mopup))
            },
            None => Some(evaluation(b, None)),
        },
    }
}

/// The evaluation of `b` from White's point of view (see `white_eval`).
pub fn eval_white(e: &EvalChoice, b: &Board) -> (r: Option<i32>)
    requires
        e.wf(),
        b.wf(),
    ensures
        match r {
            Some(v) => white_eval(*e, *b) == Some(v as int),
            None => white_eval(*e, *b) is None,
        },
{
    match e {
        EvalChoice::Net(net) => {
            let n = count_ones(b.occ[0] | b.occ[1]);
            if n > 33 {
                return None;
            }
            let v = crate::nnue::evaluate(net, b);
            if b.stm == WHITE {
                Some(v)
            } else if v == i32::MIN {
                None
            } else {
                Some(-v)
            }
        },
        EvalChoice::Tapered(mopup) => match *mopup {
            Some((c1, c2)) => {
                if b.mopup2_eval_checked(c1, c2).is_none() {
                    None
                } else {
                    Some(crate::eval::evaluate(b, *mopup))
                }
            },
            None => Some(crate::eval::evaluate(b, None)),
        },
    }
}

/// The evaluation from the side to move's point of view, when it can be
/// computed and lies strictly inside `(-INF, INF)`.
pub open spec fn side_eval(e: EvalChoice, b: Board) -> Option<int> {
    match white_eval(e, b) {
        Some(v) => {
            let s = if b.stm == WHITE { v } else { -v };
            if -INF < s < INF {
                Some(s)
            } else {
                None
            }
        },
        None => None,
    }
}

/// `side_eval` computed.
pub fn eval_side(e: &EvalChoice, b: &Board) -> (r: Option<i32>)
    requires
        e.wf(),
        b.wf(),
    ensures
        match r {
            Some(v) => side_eval(*e, *b) == Some(v as int),
            None => side_eval(*e, *b) is None,
        },
{
    match eval_white(e, b) {
        Some(v) => {
            if v == i32::MIN {
                return None;
            }
            let s = if b.stm == WHITE { v } else { -v };
            if -INF < s && s < INF {
                Some(s)
            } else {
                None
            }
        },
        None => None,
    }
}

#[verifier::external_type_specification]
#[verifier::external_body]
pub struct ExInstant(Instant);

/// `Instant::now`: the current time. Nothing is stated of it.
#[verifier::external_body]
fn now() -> Instant {
    Instant::now()
}

/// `Instant >= Instant`: whether `a` is not earlier than `b`. Nothing is
/// stated of the answer, which rests on the clock.
#[verifier::external_body]
fn not_before(a: &Instant, b: &Instant) -> bool {
    a >= b
}

/// Is the side to move in check?
pub open spec fn checked(b: Board) -> bool {
    is_attacked(b@.sq, b@.king[b.stm as int] as int, 1 - b.stm)
}

/// The result of a node whose side to move has no legal move: mated or
/// stalemated.
pub open spec fn no_move_score(b: Board, ply: i32) -> int {
    if checked(b) {
        -(MATE - ply)
    } else {
        0
    }
}

/// The draw value of a quiescence leaf: the contempt of `alpha_beta` when
/// `contempt` is on, else 0.
pub open spec fn qdraw(contempt: bool, ply: i32) -> int {
    if contempt {
        draw_score_spec(ply)
    } else {
        0
    }
}

/// A node the search can stand on, `d` plies before the counters or the
/// ply limit run out, can generate and make its moves.
proof fn lemma_node(b: Board, d: int)
    requires
        perft_ok(b, d),
        d >= 1,
    ensures
        can_make_all(b),
        b.king[1 - b.stm] < 64,
{
}

/// A legal move fits `make` and its squares and promotion are in range.
proof fn lemma_legal_fits(b: Board, d: int, m: Move)
    requires
        perft_ok(b, d),
        d >= 1,
        legal_moves(b@).contains(m),
    ensures
        move_fits(b@, m),
        m.from < 64 && m.to < 64 && m.promo < 7,
{
    lemma_pseudo_fit(b);
    lemma_filter_fit(b@, pseudo_moves(b@));
    let lm = legal_moves(b@);
    let i = choose|i: int| 0 <= i < lm.len() && lm[i] == m;
    assert(move_fits(b@, lm[i]));
}

/// After a legal move, the board has one ply less to go.
proof fn lemma_child(b0: Board, b1: Board, d: int, m: Move)
    requires
        perft_ok(b0, d),
        d >= 2,
        legal_moves(b0@).contains(m),
        b1.wf(),
        b1@ == after(b0@, m),
    ensures
        perft_ok(b1, d - 1),
{
    lemma_legal_fits(b0, d, m);
    lemma_after_keeps(b0@, m);
}

/// Moves sorted from `a` (equal filters by every key value) are moves of
/// `a`.
proof fn lemma_sorted_member(a: Seq<Move>, s: Seq<Move>, key: spec_fn(Move) -> int, x: Move)
    requires
        forall|k: int| #[trigger] s.filter(scores(key, k)) == a.filter(scores(key, k)),
        s.contains(x),
    ensures
        a.contains(x),
{
    let i = choose|i: int| 0 <= i < s.len() && s[i] == x;
    s.lemma_filter_contains(scores(key, key(x)), i);
    assert(s.filter(scores(key, key(x))) == a.filter(scores(key, key(x))));
    a.lemma_filter_contains_rev(scores(key, key(x)), x);
}

/// The piece a legal move puts on its target square.
proof fn lemma_placed(b0: Board, b1: Board, d: int, m: Move)
    requires
        perft_ok(b0, d),
        d >= 2,
        legal_moves(b0@).contains(m),
        b1.wf(),
        b1@ == after(b0@, m),
    ensures
        1 <= pt(b1.sq@[m.to as int]) <= 6,
        pc(b1.sq@[m.to as int]) <= 1,
{
    lemma_legal_fits(b0, d, m);
    assert(b1.sq@[m.to as int] == placed(b0@, m));
    assert(valid_piece(b1.sq@[m.to as int]));
    assert(valid_piece(b0.sq@[m.from as int]));
}

/// After a null move the board has one ply less to go.
proof fn lemma_null_child(b0: Board, b1: Board, d: int)
    requires
        perft_ok(b0, d),
        d >= 2,
        b1.wf(),
        b1 == crate::makemove::null_moved(b0),
    ensures
        perft_ok(b1, d - 1),
{
}

/// A draw by rule: insufficient material, the fifty-move rule (unless the
/// side to move is mated), or a position seen twice before (from the
/// fourth reversible ply on).
pub open spec fn drawn(b: Board, keys: Seq<u64>) -> bool {
    ||| insufficient(b.sq@)
    ||| (b.halfmove >= 100 && !(checked(b) && legal_moves(b@).len() == 0))
    ||| (b.halfmove >= 4 && occurrences(keys, b.key) >= 2)
}

/// The switches are unchanged.
pub open spec fn same_switches(a: Searcher, b: Searcher) -> bool {
    a.sw == b.sw
}

/// The switches are unchanged, and so is whether a clock runs.
pub open spec fn same_tables(a: Searcher, b: Searcher) -> bool {
    &&& same_switches(a, b)
    &&& clocked(a) == clocked(b)
}

/// The search runs against a deadline or a node limit.
pub open spec fn clocked(s: Searcher) -> bool {
    s.deadline is Some || s.node_limit is Some
}

/// From `a` to `b` a stop came only from an earlier stop, a fault or the
/// clock; a stop or a fault stays.
pub open spec fn stop_ok(a: Searcher, b: Searcher) -> bool {
    &&& b.stop ==> a.stop || b.fault || clocked(a)
    &&& a.fault ==> b.fault
    &&& a.stop ==> b.stop
}

/// The call ran to its end: it did not stop, or it started unstopped with
/// no clock to stop it.
pub open spec fn ran(a: Searcher, b: Searcher) -> bool {
    !b.stop || (!a.stop && !clocked(a))
}

/// What the iterations found so far: the best move, its score and the
/// depth it was found at; the best move of the iteration before; how many
/// iterations in a row the best move stayed.
pub struct Deepening {
    pub best: (Option<Move>, i32, i32),
    pub prev_best: Option<Move>,
    pub stable: i32,
}

/// The iterations so far found a legal move of `b` (or none) at a depth
/// below `d`, with a score in range.
pub open spec fn deepening_ok(st: Deepening, b: Board, d: int) -> bool {
    &&& st.best.0 matches Some(m) ==> legal_moves(b@).contains(m)
    &&& 0 <= st.best.2 < d
    &&& -INF <= st.best.1 <= INF
}

/// The sound board a legal move leads to.
pub open spec fn child(b: Board, m: Move) -> Board {
    choose|c: Board| c.wf() && c@ == after(b@, m)
}

/// A search result `r` in the window `(a, b)` is right about the value
/// `v`: a result at or below `a` bounds `v` from above, one at or above `b`
/// bounds it from below, one strictly inside is `v` itself.
pub open spec fn bounds(r: int, v: int, a: int, b: int) -> bool {
    &&& r <= a ==> v <= r
    &&& r >= b ==> v >= r
    &&& a < r < b ==> v == r
}

/// The evaluation for the side to move (0 where it cannot be computed; the
/// search then raises its fault).
pub open spec fn eval_or0(e: EvalChoice, b: Board) -> int {
    match side_eval(e, b) {
        Some(v) => v,
        None => 0,
    }
}

/// The largest of `init` and `f` of the first `n` moves.
pub open spec fn fold_max(ms: Seq<Move>, n: int, init: int, f: spec_fn(Move) -> int) -> int
    decreases n,
{
    if n <= 0 {
        init
    } else {
        let p = fold_max(ms, n - 1, init, f);
        let t = f(ms[n - 1]);
        if t > p {
            t
        } else {
            p
        }
    }
}

proof fn lemma_fold_max(ms: Seq<Move>, n: int, init: int, f: spec_fn(Move) -> int)
    requires
        0 <= n <= ms.len(),
    ensures
        fold_max(ms, n, init, f) >= init,
        forall|i: int| 0 <= i < n ==> fold_max(ms, n, init, f) >= f(#[trigger] ms[i]),
        fold_max(ms, n, init, f) == init || exists|i: int| 0 <= i < n && fold_max(ms, n, init, f) == f(#[trigger] ms[i]),
    decreases n,
{
    if n > 0 {
        lemma_fold_max(ms, n - 1, init, f);
        if fold_max(ms, n - 1, init, f) != init {
            let i = choose|i: int| 0 <= i < n - 1 && fold_max(ms, n - 1, init, f) == f(#[trigger] ms[i]);
            assert(0 <= i < n && fold_max(ms, n, init, f) >= f(ms[i]));
        }
    }
}

/// The largest value over two lists of the same moves is the same.
proof fn lemma_fold_max_same(a: Seq<Move>, b: Seq<Move>, init: int, f: spec_fn(Move) -> int)
    requires
        forall|x: Move| a.contains(x) ==> b.contains(x),
        forall|x: Move| b.contains(x) ==> a.contains(x),
    ensures
        fold_max(a, a.len() as int, init, f) == fold_max(b, b.len() as int, init, f),
{
    lemma_fold_max(a, a.len() as int, init, f);
    lemma_fold_max(b, b.len() as int, init, f);
    let va = fold_max(a, a.len() as int, init, f);
    let vb = fold_max(b, b.len() as int, init, f);
    if va != init {
        let i = choose|i: int| 0 <= i < a.len() && va == f(#[trigger] a[i]);
        assert(a.contains(a[i]));
        let j = choose|j: int| 0 <= j < b.len() && b[j] == a[i];
        assert(vb >= f(b[j]));
    }
    if vb != init {
        let i = choose|i: int| 0 <= i < b.len() && vb == f(#[trigger] b[i]);
        assert(b.contains(b[i]));
        let j = choose|j: int| 0 <= j < a.len() && a[j] == b[i];
        assert(va >= f(a[j]));
    }
}

/// The moves quiescence searches at a node not in check: the captures,
/// and at the first ply with `qchecks` the quiet checks too.
pub open spec fn q_kept(b: Board, sw: Switches, qply: int) -> Seq<Move> {
    if sw.qchecks && qply == 0 {
        legal_moves(b@).filter(capture_or_check(b))
    } else {
        legal_moves(b@).filter(takes(b))
    }
}

/// Quiescence skips the move: a losing capture at a node not in check,
/// with `see_qs`.
pub open spec fn q_skip(b: Board, sw: Switches, m: Move) -> bool {
    &&& sw.see_qs
    &&& !checked(b)
    &&& capture(b, m)
    &&& see_outcome(b, m) matches Some(v) && v < 0
}

/// The quiescence value of `b` at `ply` (with the table off in
/// quiescence): mate, stalemate and insufficient material end the line, a
/// node at `MAX_PLY` gets its evaluation; in check the best evasion; else
/// the better of the evaluation and the best capture searched.
pub open spec fn qval(e: EvalChoice, sw: Switches, b: Board, ply: int, qply: int) -> int
    decreases MAX_PLY - ply, 1int, 0int,
{
    if legal_moves(b@).len() == 0 {
        if checked(b) {
            -(MATE - ply)
        } else {
            qdraw(sw.qcontempt, ply as i32)
        }
    } else if !checked(b) && insufficient(b.sq@) {
        qdraw(sw.qcontempt, ply as i32)
    } else if ply >= MAX_PLY || ply < 0 {
        eval_or0(e, b)
    } else if checked(b) {
        qbest(e, sw, b, ply, qply, legal_moves(b@), legal_moves(b@).len() as int, -INF)
    } else {
        qbest(e, sw, b, ply, qply, q_kept(b, sw, qply), q_kept(b, sw, qply).len() as int, eval_or0(e, b))
    }
}

/// The largest of `init` and the values of the first `n` moves of `ms`.
pub open spec fn qbest(e: EvalChoice, sw: Switches, b: Board, ply: int, qply: int, ms: Seq<Move>, n: int, init: int) -> int
    decreases MAX_PLY - ply, 0int, n,
{
    if n <= 0 {
        init
    } else {
        let p = qbest(e, sw, b, ply, qply, ms, n - 1, init);
        let t = qterm(e, sw, b, ply, qply, ms[n - 1]);
        if t > p {
            t
        } else {
            p
        }
    }
}

/// The value of move `m` in quiescence: the negated value of the board it
/// leads to (`-INF` for a skipped move).
pub open spec fn qterm(e: EvalChoice, sw: Switches, b: Board, ply: int, qply: int, m: Move) -> int
    decreases MAX_PLY - ply, 0int, 0int,
{
    if ply >= MAX_PLY || ply < 0 || q_skip(b, sw, m) {
        -INF
    } else {
        -qval(e, sw, child(b, m), ply + 1, qply + 1)
    }
}

proof fn lemma_qbest_fold(e: EvalChoice, sw: Switches, b: Board, ply: int, qply: int, ms: Seq<Move>, n: int, init: int)
    ensures
        qbest(e, sw, b, ply, qply, ms, n, init) == fold_max(ms, n, init, |m: Move| qterm(e, sw, b, ply, qply, m)),
    decreases n,
{
    if n > 0 {
        lemma_qbest_fold(e, sw, b, ply, qply, ms, n - 1, init);
    }
}

/// At a quiet quiescence node with moves, a result right about the node's
/// value is at least the smaller of `beta` and each of: the evaluation
/// (stand-pat), and the negated value of the board after each searched
/// capture that SEE pruning keeps.
pub proof fn lemma_quiescence_lifts(e: EvalChoice, sw: Switches, b: Board, ply: int, qply: int, r: int, alpha: int, beta: int, m: Move)
    requires
        bounds(r, qval(e, sw, b, ply, qply), alpha, beta),
        alpha < beta,
        0 <= ply < MAX_PLY,
        !checked(b),
        legal_moves(b@).len() > 0,
        !insufficient(b.sq@),
    ensures
        r >= beta || r >= eval_or0(e, b),
        q_kept(b, sw, qply).contains(m) && !q_skip(b, sw, m) ==> r >= beta || r >= -qval(e, sw, child(b, m), ply + 1, qply + 1),
{
    let kept = q_kept(b, sw, qply);
    let init = eval_or0(e, b);
    let f = |x: Move| qterm(e, sw, b, ply, qply, x);
    lemma_qbest_fold(e, sw, b, ply, qply, kept, kept.len() as int, init);
    lemma_fold_max(kept, kept.len() as int, init, f);
    if kept.contains(m) && !q_skip(b, sw, m) {
        let j = choose|j: int| 0 <= j < kept.len() && kept[j] == m;
        assert(f(kept[j]) == -qval(e, sw, child(b, m), ply + 1, qply + 1));
    }
}

/// The board `make` leaves after a move is `child`.
proof fn lemma_is_child(b0: Board, b1: Board, m: Move)
    requires
        b1.wf(),
        b1@ == after(b0@, m),
    ensures
        b1 == child(b0, m),
{
    let c = child(b0, m);
    assert(c.wf() && c@ == after(b0@, m));
    crate::makemove::lemma_board_ext(b1, c);
}

/// Two lists with equal filters by every key value hold the same moves.
proof fn lemma_same_moves(a: Seq<Move>, s: Seq<Move>, key: spec_fn(Move) -> int)
    requires
        forall|k: int| #[trigger] s.filter(scores(key, k)) == a.filter(scores(key, k)),
    ensures
        forall|x: Move| a.contains(x) ==> s.contains(x),
        forall|x: Move| s.contains(x) ==> a.contains(x),
{
    assert forall|x: Move| a.contains(x) implies s.contains(x) by {
        assert forall|k: int| #[trigger] a.filter(scores(key, k)) == s.filter(scores(key, k)) by {
            assert(s.filter(scores(key, k)) == a.filter(scores(key, k)));
        }
        lemma_sorted_member(s, a, key, x);
    }
    assert forall|x: Move| s.contains(x) implies a.contains(x) by {
        lemma_sorted_member(a, s, key, x);
    }
}

/// The switches of the search.
#[derive(Clone, Copy)]
pub struct Switches {
    /// Late-move reductions; with null move off too, the search is plain
    /// alpha-beta.
    pub lmr_enabled: bool,
    pub nullmove_enabled: bool,
    /// Table probe and store in `alpha_beta`.
    pub tt_enabled: bool,
    /// Table probe and store in quiescence.
    pub qtt_enabled: bool,
    /// Reductions read from `lmr` in place of the flat 1 or 2.
    pub lmr_log: bool,
    /// Continuation history in move ordering.
    pub conthist_enabled: bool,
    /// Reverse futility pruning at shallow nodes off the principal variation.
    pub rfp_enabled: bool,
    pub rfp_margin: i32,
    pub rfp_depth: i32,
    /// Internal iterative reduction: one ply less at nodes without a table
    /// move, from depth `iir_min` on.
    pub iir_enabled: bool,
    pub iir_min: i32,
    /// Table, killers and history kept across the moves of a game; the cap
    /// bounds the map-backed table.
    pub persist_enabled: bool,
    pub persist_cap: usize,
    /// Late-move pruning (see `Searcher::lmp_limit`).
    pub lmp_enabled: bool,
    /// Halve the history and clear the killers when a search starts.
    pub hist_age: bool,
    /// History with gravity, a malus for the quiet moves tried before the
    /// cutoff, continuation history.
    pub hist2: bool,
    /// Draw leaves of quiescence get the contempt of `alpha_beta`.
    pub qcontempt: bool,
    /// Singular extension of the table move, from depth `sing_min` on.
    pub singular: bool,
    pub sing_min: i32,
    pub sing_margin: i32,
    /// Skip losing captures in quiescence at nodes not in check.
    pub see_qs: bool,
    /// Quiet checks at the first ply of quiescence.
    pub qchecks: bool,
}

/// What the search counts besides nodes.
#[derive(Clone, Copy)]
pub struct Counters {
    /// Singular extensions made.
    pub sing_count: u64,
    /// Losing captures skipped in quiescence.
    pub see_skips: u64,
    /// Quiet checks added at the first ply of quiescence.
    pub qchecks_added: u64,
    /// How often the cap cleared the table.
    pub cap_clears: u64,
}


/// The searcher's state: table, killers, history tables, the keys of the
/// positions played and searched, the clock and the switches.
pub struct Searcher {
    pub tt: Tt,
    /// Two killer moves per ply (plies `0..64`).
    pub killers: Vec<[Option<Move>; 2]>,
    /// History by side, from and to.
    pub history: Vec<i32>,
    /// Continuation history by the piece-square indices of the previous
    /// move and of this one (empty when neither table switch is on).
    pub conthist: Vec<i32>,
    /// Keys of every position since the game started, extended along the
    /// search path.
    pub rep_keys: Vec<u64>,
    /// The time the running search stops at.
    pub deadline: Option<Instant>,
    /// The node count the running search stops at.
    pub node_limit: Option<u64>,
    pub stop: bool,
    /// The search met a position it cannot go on from (see the module).
    pub fault: bool,
    pub tick: u32,
    pub nodes: u64,
    /// Whether the time extension for an unstable best move fired.
    pub tm3_extended: bool,
    /// Reductions by depth (row) and move count (column), `LMR_DEPTHS` rows
    /// of `LMR_COUNTS`.
    pub lmr: Vec<u8>,
    /// Late-move pruning: at depth `d` (row `d`, deeper ones the last row),
    /// quiet moves from that move count on are skipped.
    pub lmp_limit: Vec<u32>,
    pub sw: Switches,
    pub stats: Counters,
}

/// The tables have their sizes and the thresholds their ranges.
pub open spec fn searcher_ok(s: Searcher) -> bool {
    &&& s.tt.wf()
    &&& s.killers@.len() == 64
    &&& s.history@.len() == 8192
    &&& (s.sw.conthist_enabled || s.sw.hist2 ==> s.conthist@.len() == 768 * 768)
    &&& s.lmr@.len() == LMR_DEPTHS * LMR_COUNTS
    &&& s.lmp_limit@.len() == LMR_DEPTHS
    &&& s.sw.iir_min >= 1
}

impl Searcher {
    pub open spec fn wf(&self) -> bool {
        searcher_ok(*self)
    }

    /// A searcher with empty tables (a flat table of `2^bits` slots when
    /// `flat`, else a map) and the default switches: reductions, null move,
    /// table in quiescence, reverse futility pruning (margin 100, depth 6),
    /// persistence (cap 4_000_000), history ageing and SEE pruning in
    /// quiescence on; the rest off (IIR from depth 4, singular extension
    /// from depth 7 with margin 2 when turned on). The late-move tables are
    /// given as filled.
    pub fn new(flat: bool, bits: u32, conthist_table: bool, lmr: Vec<u8>, lmp_limit: Vec<u32>) -> (s: Searcher)
        requires
            bits <= 30,
            lmr@.len() == LMR_DEPTHS * LMR_COUNTS,
            lmp_limit@.len() == LMR_DEPTHS,
        ensures
            s.wf(),
            s.tt.flat_on == flat,
            s.conthist@.len() == if conthist_table { 768 * 768 } else { 0 },
            s.rep_keys@.len() == 0,
            !s.stop && !s.fault,
            s.lmr == lmr && s.lmp_limit == lmp_limit,
            s.sw.lmr_enabled && s.sw.nullmove_enabled && s.sw.tt_enabled && s.sw.qtt_enabled && s.sw.rfp_enabled && s.sw.persist_enabled
                && s.sw.hist_age && s.sw.see_qs,
            !s.sw.lmr_log && !s.sw.conthist_enabled && !s.sw.iir_enabled && !s.sw.lmp_enabled && !s.sw.hist2 && !s.sw.qcontempt
                && !s.sw.singular && !s.sw.qchecks,
            s.sw.rfp_margin == 100 && s.sw.rfp_depth == 6 && s.sw.iir_min == 4 && s.sw.sing_min == 7 && s.sw.sing_margin == 2
                && s.sw.persist_cap == 4_000_000,
    {
        let mut killers: Vec<[Option<Move>; 2]> = Vec::with_capacity(64);
        let mut i: usize = 0;
        while i < 64
            invariant
                i <= 64,
                killers@.len() == i,
            decreases 64 - i,
        {
            killers.push([None, None]);
            i = i + 1;
        }
        Searcher {
            tt: Tt::new(flat, bits),
            killers,
            history: vec![0i32; 8192],
            conthist: if conthist_table { vec![0i32; 589824] } else { Vec::new() },
            rep_keys: Vec::new(),
            deadline: None,
            node_limit: None,
            stop: false,
            fault: false,
            tick: 0,
            nodes: 0,
            tm3_extended: false,
            lmr,
            lmp_limit,
            sw: Switches {
                lmr_enabled: true,
                nullmove_enabled: true,
                tt_enabled: true,
                qtt_enabled: true,
                lmr_log: false,
                conthist_enabled: false,
                rfp_enabled: true,
                rfp_margin: 100,
                rfp_depth: 6,
                iir_enabled: false,
                iir_min: 4,
                persist_enabled: true,
                persist_cap: 4_000_000,
                lmp_enabled: false,
                hist_age: true,
                hist2: false,
                qcontempt: false,
                singular: false,
                sing_min: 7,
                sing_margin: 2,
                see_qs: true,
                qchecks: false,
            },
            stats: Counters { sing_count: 0, see_skips: 0, qchecks_added: 0, cap_clears: 0 },
        }
    }

    /// The next tick count, and whether the clock or the node count says
    /// stop (looked at every 1024 ticks).
    fn clock_tick(&self) -> (r: (u32, bool))
        ensures
            r.1 ==> self.deadline is Some || (self.node_limit matches Some(n) && self.nodes >= n),
    {
        let t: u32 = if self.tick == u32::MAX { 0 } else { self.tick + 1 };
        if t < 1024 {
            return (t, false);
        }
        let mut hit = false;
        match &self.deadline {
            Some(d) => {
                let n = now();
                hit = not_before(&n, d);
            },
            None => {},
        }
        match self.node_limit {
            Some(nl) => {
                if self.nodes >= nl {
                    hit = true;
                }
            },
            None => {},
        }
        (0, hit)
    }

    /// The table entry for `key`, its score rebased to `ply`; entries whose
    /// rebased score leaves `[-INF, INF]` are passed over.
    fn probe_at(&self, key: u64, ply: i32) -> (r: Option<(i32, u8, i32, Option<Move>)>)
        requires
            self.wf(),
            0 <= ply <= MAX_PLY,
        ensures
            self.tt.probe_spec(key) is None ==> r is None,
            r matches Some(e) ==> -INF <= e.2 <= INF,
    {
        match self.tt.probe(key) {
            Some((d, f, s, best)) => {
                let w: i64 = if s >= MATE_THRESHOLD {
                    s as i64 - ply as i64
                } else if s <= -MATE_THRESHOLD {
                    s as i64 + ply as i64
                } else {
                    s as i64
                };
                if w < -(INF as i64) || w > INF as i64 {
                    None
                } else {
                    Some((d, f, w as i32, best))
                }
            },
            None => None,
        }
    }

    /// Stores a node score at `ply`, rebased for the table; a score the
    /// packed table cannot hold raises the fault.
    fn store_at(&mut self, key: u64, depth: i32, flag: u8, score: i32, best: Option<Move>, ply: i32)
        requires
            old(self).wf(),
            -INF <= score <= INF,
            0 <= ply <= MAX_PLY,
        ensures
            final(self).wf(),
            final(self).rep_keys == old(self).rep_keys,
            stop_ok(*old(self), *final(self)),
            same_tables(*old(self), *final(self)),
    {
        let t = crate::tt::score_to_tt(score, ply);
        if self.tt.flat_on && !crate::ordering::packable_score(t) {
            self.fault = true;
            self.stop = true;
            return;
        }
        self.tt.store(key, depth, flag, t, best);
    }

    /// Stores a quiescence result at depth 0, unless the table holds a
    /// deeper entry for the key (or the table is off in quiescence, or the
    /// search stopped).
    fn qtt_store(&mut self, key: u64, score: i32, flag: u8, ply: i32)
        requires
            old(self).wf(),
            -INF <= score <= INF,
            0 <= ply <= MAX_PLY,
        ensures
            final(self).wf(),
            final(self).rep_keys == old(self).rep_keys,
            stop_ok(*old(self), *final(self)),
            same_tables(*old(self), *final(self)),
    {
        if !self.sw.qtt_enabled || self.stop {
            return;
        }
        match self.tt.probe(key) {
            Some((d, _f, _s, _m)) => {
                if d > 0 {
                    return;
                }
            },
            None => {},
        }
        self.store_at(key, 0, flag, score, None, ply);
    }

    /// Quiescence search: at a node not in check, the evaluation stands
    /// in and captures (and at the first ply, with `qchecks`, quiet checks)
    /// are searched, best MVV-LVA first, losing captures skipped with
    /// `see_qs`; at a node in check every evasion is searched. Mate,
    /// stalemate and insufficient material end the line.
    /// Makes capture (or evasion) `m`, searches the board it leads to in
    /// quiescence with the negated window, and takes the move back; the
    /// negated result.
    fn q_child(&mut self, e: &EvalChoice, b: &mut Board, m: Move, alpha: i32, beta: i32, ply: i32, qply: i32) -> (r: i32)
        requires
            old(self).wf(),
            e.wf(),
            0 <= qply <= ply < MAX_PLY,
            perft_ok(*old(b), (MAX_PLY + 1 - ply) as int),
            legal_moves(old(b)@).contains(m),
            -INF <= alpha < beta <= INF,
            !q_skip(*old(b), old(self).sw, m),
        ensures
            final(self).wf(),
            *final(b) == *old(b),
            final(self).rep_keys@ == old(self).rep_keys@,
            same_tables(*old(self), *final(self)),
            stop_ok(*old(self), *final(self)),
            -INF <= r <= INF,
            !final(self).stop && !old(self).sw.qtt_enabled ==> bounds(
                r as int,
                qterm(*e, old(self).sw, *old(b), ply as int, qply as int, m),
                alpha as int,
                beta as int,
            ),
        decreases MAX_PLY - ply, 0int,
    {
        let ghost b0 = *b;
        let ghost rk0 = self.rep_keys@;
        let ghost d0 = (MAX_PLY + 1 - ply) as int;
        proof {
            lemma_legal_fits(b0, d0, m);
        }
        let undo = b.make(m);
        proof {
            lemma_child(b0, *b, d0, m);
            lemma_is_child(b0, *b, m);
        }
        self.rep_keys.push(b.key);
        let v = self.quiescence(e, b, -beta, -alpha, ply + 1, qply + 1);
        self.rep_keys.pop();
        proof {
            assert(self.rep_keys@ =~= rk0);
        }
        b.unmake(m, undo);
        -v
    }

    #[verifier::rlimit(40)]
    pub fn quiescence(&mut self, e: &EvalChoice, b: &mut Board, alpha: i32, beta: i32, ply: i32, qply: i32) -> (r: i32)
        requires
            old(self).wf(),
            e.wf(),
            0 <= qply <= ply <= MAX_PLY,
            perft_ok(*old(b), (MAX_PLY + 1 - ply) as int),
            -INF <= alpha < beta <= INF,
        ensures
            final(self).wf(),
            *final(b) == *old(b),
            final(self).rep_keys@ == old(self).rep_keys@,
            same_tables(*old(self), *final(self)),
            -INF <= r <= INF,
            stop_ok(*old(self), *final(self)),
            old(self).stop ==> r == alpha,
            ran(*old(self), *final(self)) && !(old(self).sw.qtt_enabled && old(self).tt.probe_spec(old(b).key) is Some) ==> {
                &&& legal_moves(old(b)@).len() == 0 ==> r == if checked(*old(b)) {
                    -(MATE - ply)
                } else {
                    qdraw(old(self).sw.qcontempt, ply)
                }
                &&& !checked(*old(b)) && insufficient(old(b).sq@) ==> r == qdraw(old(self).sw.qcontempt, ply)
                &&& legal_moves(old(b)@).len() > 0 && !(!checked(*old(b)) && insufficient(old(b).sq@)) && ply
                    < MAX_PLY ==> alpha <= r <= beta
            },
            !final(self).stop && !old(self).sw.qtt_enabled ==> bounds(
                r as int,
                qval(*e, old(self).sw, *old(b), ply as int, qply as int),
                alpha as int,
                beta as int,
            ),
        decreases MAX_PLY - ply, 1int,
    {
        let ghost b0 = *b;
        let ghost rk0 = self.rep_keys@;
        let ghost d0 = (MAX_PLY + 1 - ply) as int;
        let ghost s0 = *self;
        let (t, hit) = self.clock_tick();
        self.tick = t;
        if hit {
            self.stop = true;
        }
        if self.stop {
            return alpha;
        }
        self.nodes = self.nodes.wrapping_add(1);
        let alpha_orig = alpha;
        let mut alpha = alpha;
        if self.sw.qtt_enabled {
            match self.probe_at(b.key, ply) {
                Some((_d, f, score, _m)) => {
                    if qtt_cut(f, score, alpha, beta) {
                        return score;
                    }
                },
                None => {},
            }
        }
        proof {
            lemma_node(b0, d0);
        }
        let mut moves: Vec<Move> = Vec::new();
        b.gen_legal_into(&mut moves);
        let in_check = b.in_check();
        if in_check {
            if moves.len() == 0 {
                return -(MATE - ply);
            }
        } else {
            let draw_leaf = if self.sw.qcontempt { draw_score(ply) } else { 0 };
            if b.is_insufficient_material() {
                return draw_leaf;
            }
            if moves.len() == 0 {
                return draw_leaf;
            }
        }
        if ply >= MAX_PLY {
            match eval_side(e, b) {
                Some(v) => {
                    return v;
                },
                None => {
                    self.fault = true;
                    self.stop = true;
                    return alpha;
                },
            }
        }
        let ghost lm = moves@;
        let ghost sw0 = self.sw;
        let ghost mut init: int = -INF;
        let ghost mut kept: Seq<Move> = lm;
        if !in_check {
            let stand_pat = match eval_side(e, b) {
                Some(v) => v,
                None => {
                    self.fault = true;
                    self.stop = true;
                    return alpha;
                },
            };
            proof {
                init = stand_pat as int;
            }
            if stand_pat >= beta {
                proof {
                    lemma_qbest_fold(*e, sw0, b0, ply as int, qply as int, q_kept(b0, sw0, qply as int), q_kept(b0, sw0, qply as int).len() as int, init);
                    lemma_fold_max(q_kept(b0, sw0, qply as int), q_kept(b0, sw0, qply as int).len() as int, init, |m: Move| qterm(*e, sw0, b0, ply as int, qply as int, m));
                }
                self.qtt_store(b.key, beta, LOWER, ply);
                return beta;
            }
            if stand_pat > alpha {
                alpha = stand_pat;
            }
            if self.sw.qchecks && qply == 0 {
                let added = keep_captures_and_checks(b, &mut moves);
                self.stats.qchecks_added = self.stats.qchecks_added.wrapping_add(added);
                proof {
                    assert forall|i: int| 0 <= i < moves@.len() implies lm.contains(#[trigger] moves@[i]) by {
                        assert(moves@.contains(moves@[i]));
                        lm.lemma_filter_contains_rev(capture_or_check(b0), moves@[i]);
                    }
                }
            } else {
                proof {
                    assert forall|i: int| 0 <= i < moves@.len() implies (#[trigger] moves@[i]).from < 64
                        && moves@[i].to < 64 by {
                        lemma_legal_fits(b0, d0, lm[i]);
                    }
                }
                keep_captures(b, &mut moves);
                proof {
                    assert forall|i: int| 0 <= i < moves@.len() implies lm.contains(#[trigger] moves@[i]) by {
                        assert(moves@.contains(moves@[i]));
                        lm.lemma_filter_contains_rev(takes(b0), moves@[i]);
                    }
                }
            }
            proof {
                kept = moves@;
            }
            proof {
                assert forall|i: int| 0 <= i < kept.len() implies (#[trigger] kept[i]).from < 64 && kept[i].to
                    < 64 && kept[i].promo < 7 by {
                    lemma_legal_fits(b0, d0, kept[i]);
                }
            }
            sort_by_capture_value(b, &mut moves);
            proof {
                assert forall|i: int| 0 <= i < moves@.len() implies lm.contains(#[trigger] moves@[i]) by {
                    assert(moves@.contains(moves@[i]));
                    lemma_sorted_member(kept, moves@, capture_key(b0), moves@[i]);
                    let j = choose|j: int| 0 <= j < kept.len() && kept[j] == moves@[i];
                    assert(lm.contains(kept[j]));
                }
                lemma_same_moves(kept, moves@, capture_key(b0));
            }
        }
        let ghost ms = moves@;
        let ghost qt = |m: Move| qterm(*e, sw0, b0, ply as int, qply as int, m);
        proof {
            if in_check {
                assert(ms == lm);
            }
        }
        let n = moves.len();
        let mut result: Option<i32> = None;
        let mut i: usize = 0;
        while i < n
            invariant_except_break
                result is None,
            invariant
                self.wf(),
                e.wf(),
                *b == b0,
                self.rep_keys@ == rk0,
                same_tables(s0, *self),
                stop_ok(s0, *self),
                0 <= qply <= ply < MAX_PLY,
                perft_ok(b0, d0),
                d0 == MAX_PLY + 1 - ply,
                lm == legal_moves(b0@),
                ms == moves@,
                n == ms.len(),
                forall|j: int| 0 <= j < n ==> lm.contains(#[trigger] ms[j]),
                -INF <= alpha < beta <= INF,
                alpha_orig <= alpha,
                i <= n,
                result matches Some(v) ==> v == beta,
                self.sw == sw0,
                in_check == checked(b0),
                init == if in_check { -INF as int } else { eval_or0(*e, b0) },
                -INF <= init,
                kept == if in_check { lm } else { q_kept(b0, sw0, qply as int) },
                forall|x: Move| kept.contains(x) ==> ms.contains(x),
                forall|x: Move| ms.contains(x) ==> kept.contains(x),
                qt == (|m: Move| qterm(*e, sw0, b0, ply as int, qply as int, m)),
                !self.stop && !sw0.qtt_enabled ==> match result {
                    None => fold_max(ms, i as int, init, qt) <= alpha && (alpha > alpha_orig ==> fold_max(ms, i as int, init, qt) >= alpha),
                    Some(_) => i < n && fold_max(ms, i as int + 1, init, qt) >= beta,
                },
            ensures
                !self.stop && result is None ==> i == n,
            decreases n - i,
        {
            let m = moves[i];
            assert(lm.contains(ms[i as int]));
            proof {
                lemma_fold_max(ms, i as int, init, qt);
            }
            proof {
                lemma_legal_fits(b0, d0, m);
            }
            if self.sw.see_qs && !in_check && is_capture(b, m) {
                match b.see_checked(m) {
                    Some(v) => {
                        if v < 0 {
                            proof {
                                assert(q_skip(b0, sw0, m));
                                assert(qt(ms[i as int]) == -INF);
                                assert(fold_max(ms, i as int + 1, init, qt) == fold_max(ms, i as int, init, qt));
                            }
                            self.stats.see_skips = self.stats.see_skips.wrapping_add(1);
                            i = i + 1;
                            continue;
                        }
                    },
                    None => {
                        self.fault = true;
                        self.stop = true;
                        break;
                    },
                }
            }
            proof {
                assert(!q_skip(b0, sw0, m));
            }
            let score = self.q_child(e, b, m, alpha, beta, ply, qply);
            proof {
                assert(qt(ms[i as int]) == qterm(*e, sw0, b0, ply as int, qply as int, m));
                assert(fold_max(ms, i as int + 1, init, qt) == if qt(ms[i as int]) > fold_max(ms, i as int, init, qt) {
                    qt(ms[i as int])
                } else {
                    fold_max(ms, i as int, init, qt)
                });
            }
            if score >= beta {
                result = Some(beta);
                break;
            }
            if score > alpha {
                alpha = score;
            }
            i = i + 1;
        }
        proof {
            if !self.stop && !sw0.qtt_enabled {
                lemma_fold_max(ms, n as int, init, qt);
                if result is Some {
                    lemma_fold_max(ms, i as int + 1, init, qt);
                }
                lemma_fold_max_same(kept, ms, init, qt);
                lemma_qbest_fold(*e, sw0, b0, ply as int, qply as int, kept, kept.len() as int, init);
                assert(qval(*e, sw0, b0, ply as int, qply as int) == qbest(
                    *e,
                    sw0,
                    b0,
                    ply as int,
                    qply as int,
                    kept,
                    kept.len() as int,
                    init,
                ));
            }
        }
        let ret = match result {
            Some(v) => v,
            None => alpha,
        };
        let flag = if result.is_some() {
            LOWER
        } else if alpha > alpha_orig {
            EXACT
        } else {
            UPPER
        };
        self.qtt_store(b.key, ret, flag, ply);
        ret
    }

    /// A history entry moved toward the bonus with gravity; an update that
    /// would overflow raises the fault.
    fn history_gravity(&mut self, i: usize, bonus: i32)
        requires
            old(self).wf(),
            i < old(self).history@.len(),
        ensures
            final(self).wf(),
            final(self).rep_keys == old(self).rep_keys,
            stop_ok(*old(self), *final(self)),
            same_tables(*old(self), *final(self)),
    {
        let mut v = self.history[i];
        if !fits_bonus(v, bonus) {
            self.fault = true;
            self.stop = true;
            return;
        }
        apply_bonus(&mut v, bonus);
        self.history.set(i, v);
    }

    /// A continuation-history entry moved toward the bonus with gravity.
    fn conthist_gravity(&mut self, i: usize, bonus: i32)
        requires
            old(self).wf(),
            i < old(self).conthist@.len(),
        ensures
            final(self).wf(),
            final(self).rep_keys == old(self).rep_keys,
            stop_ok(*old(self), *final(self)),
            same_tables(*old(self), *final(self)),
    {
        let mut v = self.conthist[i];
        if !fits_bonus(v, bonus) {
            self.fault = true;
            self.stop = true;
            return;
        }
        apply_bonus(&mut v, bonus);
        self.conthist.set(i, v);
    }

    /// `depth²` added to a history entry (to a continuation-history entry
    /// when `cont`); an overflow raises the fault.
    fn history_add(&mut self, cont: bool, i: usize, bonus: i32)
        requires
            old(self).wf(),
            cont ==> i < old(self).conthist@.len(),
            !cont ==> i < old(self).history@.len(),
        ensures
            final(self).wf(),
            final(self).rep_keys == old(self).rep_keys,
            stop_ok(*old(self), *final(self)),
            same_tables(*old(self), *final(self)),
    {
        let v = if cont { self.conthist[i] } else { self.history[i] };
        match v.checked_add(bonus) {
            Some(w) => {
                if cont {
                    self.conthist.set(i, w);
                } else {
                    self.history.set(i, w);
                }
            },
            None => {
                self.fault = true;
                self.stop = true;
            },
        }
    }

    /// After quiet move `moves[mi]` caused a cutoff: it becomes a killer,
    /// and its history (and continuation history after `prev`) gains
    /// `depth²`; with `hist2`, with gravity, the quiet moves tried before it
    /// losing as much.
    fn reward(&mut self, b: &Board, moves: &Vec<Move>, mi: usize, depth: i32, ply: i32, prev: Option<usize>)
        requires
            old(self).wf(),
            perft_ok(*b, (MAX_PLY + 1 - ply) as int),
            0 <= ply < MAX_PLY,
            1 <= depth <= MAX_DEPTH,
            mi < moves@.len(),
            forall|j: int| 0 <= j < moves@.len() ==> legal_moves(b@).contains(#[trigger] moves@[j]),
            prev matches Some(p) ==> p < 768 && (old(self).sw.conthist_enabled || old(self).sw.hist2),
        ensures
            final(self).wf(),
            final(self).rep_keys == old(self).rep_keys,
            stop_ok(*old(self), *final(self)),
            same_tables(*old(self), *final(self)),
    {
        let ghost d0 = (MAX_PLY + 1 - ply) as int;
        let ghost s0 = *self;
        let m = moves[mi];
        proof {
            lemma_legal_fits(*b, d0, m);
            assert(valid_piece(b.sq@[m.from as int]));
        }
        if (ply as usize) < 64 {
            let mut kl = self.killers[ply as usize];
            push_killer(&mut kl, m);
            self.killers.set(ply as usize, kl);
        }
        assert(0 <= depth * depth <= 1_000_000) by (nonlinear_arith)
            requires
                1 <= depth <= 1000,
        ;
        let d2 = depth * depth;
        let hi = hist_index(b.stm, m);
        if self.sw.hist2 {
            self.history_gravity(hi, d2);
            match prev {
                Some(p) => {
                    let ci = p * 768 + ps_index(b.sq[m.from as usize], m.to);
                    self.conthist_gravity(ci, d2);
                },
                None => {},
            }
            let mut qi: usize = 0;
            while qi < mi
                invariant
                    self.wf(),
                    self.rep_keys == s0.rep_keys,
                    same_tables(s0, *self),
                stop_ok(s0, *self),
                    stop_ok(s0, *self),
                    perft_ok(*b, d0),
                    d0 == MAX_PLY + 1 - ply,
                    0 <= ply < MAX_PLY,
                    1 <= depth <= MAX_DEPTH,
                    d2 == depth * depth,
                    0 <= d2 <= 1_000_000,
                    mi < moves@.len(),
                    qi <= mi,
                    forall|j: int| 0 <= j < moves@.len() ==> legal_moves(b@).contains(#[trigger] moves@[j]),
                    prev matches Some(p) ==> p < 768 && (self.sw.conthist_enabled || self.sw.hist2),
                decreases mi - qi,
            {
                let q = moves[qi];
                assert(legal_moves(b@).contains(moves@[qi as int]));
                proof {
                    lemma_legal_fits(*b, d0, q);
                    assert(valid_piece(b.sq@[q.from as int]));
                }
                if !is_capture(b, q) && q.promo == 0 {
                    self.history_gravity(hist_index(b.stm, q), -d2);
                    match prev {
                        Some(p) => {
                            let ci = p * 768 + ps_index(b.sq[q.from as usize], q.to);
                            self.conthist_gravity(ci, -d2);
                        },
                        None => {},
                    }
                }
                qi = qi + 1;
            }
        } else {
            self.history_add(false, hi, d2);
            match prev {
                Some(p) => {
                    let ci = p * 768 + ps_index(b.sq[m.from as usize], m.to);
                    self.history_add(true, ci, d2);
                },
                None => {},
            }
        }
    }

    /// Searches legal move `m` at a node of depth `depth`: the first move
    /// with the full window, the others with a null window (reduced for
    /// late quiet moves), re-searched when they beat `alpha`.
    fn search_move(
        &mut self,
        e: &EvalChoice,
        b: &mut Board,
        m: Move,
        depth: i32,
        m_ext: i32,
        alpha: i32,
        beta: i32,
        ply: i32,
        move_count: usize,
        is_cap: bool,
        in_check: bool,
    ) -> (r: i32)
        requires
            old(self).wf(),
            e.wf(),
            0 <= ply < MAX_PLY,
            1 <= depth <= MAX_DEPTH,
            0 <= m_ext <= 1,
            move_count >= 1,
            perft_ok(*old(b), (MAX_PLY + 1 - ply) as int),
            legal_moves(old(b)@).contains(m),
            -INF <= alpha < beta <= INF,
        ensures
            final(self).wf(),
            *final(b) == *old(b),
            final(self).rep_keys@ == old(self).rep_keys@,
            same_tables(*old(self), *final(self)),
            stop_ok(*old(self), *final(self)),
            -INF <= r <= INF,
        decreases MAX_PLY - ply, depth, 0int,
    {
        let ghost b0 = *b;
        let ghost rk0 = self.rep_keys@;
        let ghost d0 = (MAX_PLY + 1 - ply) as int;
        proof {
            lemma_legal_fits(b0, d0, m);
        }
        let undo = b.make(m);
        proof {
            lemma_child(b0, *b, d0, m);
            lemma_placed(b0, *b, d0, m);
        }
        self.rep_keys.push(b.key);
        let gives_check = b.in_check();
        let child_prev = if self.sw.conthist_enabled || self.sw.hist2 {
            Some(ps_index(b.sq[m.to as usize], m.to))
        } else {
            None
        };
        let score = if move_count == 1 {
            let v = self.alpha_beta(e, b, depth - 1 + m_ext, -beta, -alpha, ply + 1, child_prev, None);
            -v
        } else {
            let mut reduction: i32 = 0;
            if self.sw.lmr_enabled && depth >= 3 && move_count >= 4 && !is_cap && !gives_check && m.promo == 0
                && !in_check {
                reduction =
                    if self.sw.lmr_log {
                        let row: usize = if depth < 128 { depth as usize } else { 127 };
                        let col: usize = if move_count < 256 { move_count } else { 255 };
                        let raw = self.lmr[row * 256 + col] as i32;
                        if raw < 1 {
                            1
                        } else if raw > depth - 2 {
                            depth - 2
                        } else {
                            raw
                        }
                    } else {
                        if move_count >= 8 { 2 } else { 1 }
                    };
            }
            let v = self.alpha_beta(e, b, depth - 1 + m_ext - reduction, -alpha - 1, -alpha, ply + 1, child_prev, None);
            let mut s = -v;
            if reduction > 0 && s > alpha {
                let v2 = self.alpha_beta(e, b, depth - 1 + m_ext, -alpha - 1, -alpha, ply + 1, child_prev, None);
                s = -v2;
            }
            if alpha < s && s < beta {
                let v3 = self.alpha_beta(e, b, depth - 1 + m_ext, -beta, -alpha, ply + 1, child_prev, None);
                s = -v3;
            }
            s
        };
        self.rep_keys.pop();
        proof {
            assert(self.rep_keys@ =~= rk0);
        }
        b.unmake(m, undo);
        score
    }

    /// The move loop of `alpha_beta`: the ordered legal moves searched in
    /// turn (the excluded move and, with late-move pruning, late quiet moves
    /// skipped) until one reaches `beta`; a quiet move that does feeds the
    /// killers and history. Returns the best score and its move.
    fn search_moves(
        &mut self,
        e: &EvalChoice,
        b: &mut Board,
        moves: &Vec<Move>,
        d: i32,
        alpha: i32,
        beta: i32,
        ply: i32,
        prev: Option<usize>,
        excluded: Option<Move>,
        tt_move: Option<Move>,
        sing_ext: i32,
        in_check: bool,
    ) -> (r: (i32, Option<Move>))
        requires
            old(self).wf(),
            e.wf(),
            0 <= ply < MAX_PLY,
            1 <= d <= MAX_DEPTH,
            0 <= sing_ext <= 1,
            perft_ok(*old(b), (MAX_PLY + 1 - ply) as int),
            forall|j: int| 0 <= j < moves@.len() ==> legal_moves(old(b)@).contains(#[trigger] moves@[j]),
            -INF <= alpha < beta <= INF,
            prev matches Some(p) ==> p < 768 && (old(self).sw.conthist_enabled || old(self).sw.hist2),
        ensures
            final(self).wf(),
            *final(b) == *old(b),
            final(self).rep_keys@ == old(self).rep_keys@,
            same_tables(*old(self), *final(self)),
            stop_ok(*old(self), *final(self)),
            -INF <= r.0 <= INF,
            r.1 matches Some(m) ==> legal_moves(old(b)@).contains(m),
        decreases MAX_PLY - ply, d, 1int,
    {
        let ghost b0 = *b;
        let ghost rk0 = self.rep_keys@;
        let ghost d0 = (MAX_PLY + 1 - ply) as int;
        let ghost s0 = *self;
        let ghost lm = legal_moves(b0@);
        let mut alpha = alpha;
        let ghost ms = moves@;
        let n = moves.len();
        let mut best: i32 = -INF;
        let mut best_move: Option<Move> = None;
        let mut move_count: usize = 0;
        let mut mi: usize = 0;
        while mi < n
            invariant_except_break
                alpha < beta <= INF,
                move_count <= mi,
            invariant
                self.wf(),
                e.wf(),
                *b == b0,
                self.rep_keys@ == rk0,
                same_tables(s0, *self),
                stop_ok(s0, *self),
                perft_ok(b0, d0),
                d0 == MAX_PLY + 1 - ply,
                0 <= ply < MAX_PLY,
                1 <= d <= MAX_DEPTH,
                0 <= sing_ext <= 1,
                lm == legal_moves(b0@),
                ms == moves@,
                n == ms.len(),
                forall|j: int| 0 <= j < n ==> lm.contains(#[trigger] ms[j]),
                -INF <= best <= INF,
                best_move matches Some(m) ==> lm.contains(m),
                -INF <= alpha <= INF,
                mi <= n,
                prev matches Some(p) ==> p < 768 && (s0.sw.conthist_enabled || s0.sw.hist2),
            decreases n - mi,
        {
            let m = moves[mi];
            assert(lm.contains(ms[mi as int]));
            proof {
                lemma_legal_fits(b0, d0, m);
            }
            if Some(m) == excluded {
                mi = mi + 1;
                continue;
            }
            move_count = move_count + 1;
            let m_ext: i32 = if sing_ext > 0 && Some(m) == tt_move { 1 } else { 0 };
            let is_cap = is_capture(b, m);
            if self.sw.lmp_enabled && beta - alpha == 1 && !in_check && !is_cap && m.promo == 0 {
                let row: usize = if d < 128 { d as usize } else { 127 };
                if move_count as u64 >= self.lmp_limit[row] as u64 {
                    mi = mi + 1;
                    continue;
                }
            }
            let score = self.search_move(e, b, m, d, m_ext, alpha, beta, ply, move_count, is_cap, in_check);
            if score > best {
                best = score;
                best_move = Some(m);
            }
            if best > alpha {
                alpha = best;
            }
            if alpha >= beta {
                if !is_cap && m.promo == 0 {
                    self.reward(b, &moves, mi, d, ply, prev);
                }
                break;
            }
            mi = mi + 1;
        }
        (best, best_move)
    }

    /// Negamax alpha-beta at depth `depth` (ply `ply` from the root). Draws
    /// by rule first, then the table (not read when a move is excluded),
    /// mate and stalemate, quiescence at depth 0, reverse futility pruning,
    /// null move, ordered moves with singular extension of the table move,
    /// late-move pruning and reductions; a cutoff by a quiet move feeds the
    /// killers and history; the result goes to the table (unless a move is
    /// excluded or the search stopped).
    #[verifier::rlimit(100)]
    #[verifier::spinoff_prover]
    pub fn alpha_beta(
        &mut self,
        e: &EvalChoice,
        b: &mut Board,
        depth: i32,
        alpha: i32,
        beta: i32,
        ply: i32,
        prev: Option<usize>,
        excluded: Option<Move>,
    ) -> (r: i32)
        requires
            old(self).wf(),
            e.wf(),
            0 <= ply <= MAX_PLY,
            0 <= depth <= MAX_DEPTH,
            perft_ok(*old(b), (MAX_PLY + 1 - ply) as int),
            -INF <= alpha < beta <= INF,
            prev matches Some(p) ==> p < 768 && (old(self).sw.conthist_enabled || old(self).sw.hist2),
        ensures
            final(self).wf(),
            *final(b) == *old(b),
            final(self).rep_keys@ == old(self).rep_keys@,
            same_tables(*old(self), *final(self)),
            -INF <= r <= INF,
            stop_ok(*old(self), *final(self)),
            old(self).stop ==> r == alpha,
            ran(*old(self), *final(self)) && drawn(*old(b), old(self).rep_keys@) ==> r == draw_score_spec(ply),
            ran(*old(self), *final(self)) && !drawn(*old(b), old(self).rep_keys@) && (excluded is Some
                || !old(self).sw.tt_enabled || old(self).tt.probe_spec(old(b).key) is None) && legal_moves(old(b)@).len() == 0 ==> r
                == no_move_score(*old(b), ply),
        decreases MAX_PLY - ply, depth, 2int,
    {
        let ghost b0 = *b;
        let ghost rk0 = self.rep_keys@;
        let ghost d0 = (MAX_PLY + 1 - ply) as int;
        let ghost s0 = *self;
        let (t, hit) = self.clock_tick();
        self.tick = t;
        if hit {
            self.stop = true;
        }
        if self.stop {
            return alpha;
        }
        self.nodes = self.nodes.wrapping_add(1);
        proof {
            lemma_node(b0, d0);
        }
        let contempt = draw_score(ply);
        if b.is_insufficient_material() {
            return contempt;
        }
        if b.halfmove >= 100 {
            let mate_now = b.in_check() && !b.has_legal_move();
            if !mate_now {
                return contempt;
            }
        }
        if b.halfmove >= 4 && is_repetition2(&self.rep_keys, b.key) {
            return contempt;
        }
        let key = b.key;
        let mut alpha = alpha;
        let mut beta = beta;
        let mut d = depth;
        let mut tt_move: Option<Move> = None;
        let mut tt_depth: i32 = -1;
        let mut tt_flag: u8 = UPPER;
        let mut tt_score: i32 = 0;
        if excluded.is_none() && self.sw.tt_enabled {
            match self.probe_at(key, ply) {
                Some((ed, ef, es, eb)) => {
                    tt_move = eb;
                    tt_depth = ed;
                    tt_flag = ef;
                    tt_score = es;
                    if ed >= d {
                        match tt_cut(ef, es, alpha, beta) {
                            TtVerdict::Return(v) => {
                                return v;
                            },
                            TtVerdict::Window(a, b2) => {
                                alpha = a;
                                beta = b2;
                            },
                        }
                    }
                },
                None => {},
            }
        }
        if self.sw.iir_enabled && d >= self.sw.iir_min && tt_move.is_none() {
            d = d - 1;
        }
        let alpha_orig = alpha;
        let mut moves: Vec<Move> = Vec::new();
        b.gen_legal_into(&mut moves);
        if moves.len() == 0 {
            return if b.in_check() { -(MATE - ply) } else { 0 };
        }
        if ply >= MAX_PLY {
            match eval_side(e, b) {
                Some(v) => {
                    return v;
                },
                None => {
                    self.fault = true;
                    self.stop = true;
                    return alpha;
                },
            }
        }
        if d == 0 {
            return self.quiescence(e, b, alpha, beta, ply, 0);
        }
        let in_check = b.in_check();
        if self.sw.rfp_enabled && d <= self.sw.rfp_depth && !in_check && beta - alpha == 1 && -MATE_THRESHOLD < beta
            && beta < MATE_THRESHOLD {
            match eval_side(e, b) {
                Some(ev) => {
                    assert(-0x8000_0000 * 1000 <= (self.sw.rfp_margin as i64) * (d as i64) <= 0x8000_0000 * 1000)
                        by (nonlinear_arith)
                        requires
                            1 <= d <= 1000,
                    ;
                    if (ev as i64) - (self.sw.rfp_margin as i64) * (d as i64) >= beta as i64 {
                        return ev;
                    }
                },
                None => {
                    self.fault = true;
                    self.stop = true;
                    return alpha;
                },
            }
        }
        if self.sw.nullmove_enabled && d >= 3 && !in_check && b.has_non_pawn_material() {
            let saved = b.make_null();
            proof {
                lemma_null_child(b0, *b, d0);
            }
            self.rep_keys.push(b.key);
            let v = self.alpha_beta(e, b, d - 3, -beta, -beta + 1, ply + 1, None, None);
            self.rep_keys.pop();
            proof {
                assert(self.rep_keys@ =~= rk0);
            }
            b.unmake_null(saved);
            proof {
                lemma_unmake_null_undoes_make_null(b0);
            }
            if -v >= beta {
                return beta;
            }
        }
        let ghost lm = moves@;
        proof {
            assert forall|i: int| 0 <= i < lm.len() implies (#[trigger] lm[i]).from < 64 && lm[i].to < 64
                && lm[i].promo < 7 by {
                assert(lm.contains(lm[i]));
                lemma_legal_fits(b0, d0, lm[i]);
            }
        }
        let k: [Option<Move>; 2] = if ply < 64 { self.killers[ply as usize] } else { [None, None] };
        if !can_order(b, &moves, tt_move, k, &self.history, &self.conthist, prev) {
            self.fault = true;
            self.stop = true;
            return alpha;
        }
        order_moves(b, &mut moves, tt_move, k, &self.history, &self.conthist, prev);
        proof {
            assert forall|i: int| 0 <= i < moves@.len() implies lm.contains(#[trigger] moves@[i]) by {
                assert(moves@.contains(moves@[i]));
                lemma_sorted_member(lm, moves@, order_key(b0, tt_move, k, self.history@, self.conthist@, prev), moves@[i]);
            }
        }
        let mut sing_ext: i32 = 0;
        if self.sw.singular && excluded.is_none() && ply > 0 && d >= self.sw.sing_min && tt_move.is_some() && tt_depth
            >= d - 3 && (tt_flag == LOWER || tt_flag == EXACT) {
            if -MATE_THRESHOLD < tt_score && tt_score < MATE_THRESHOLD {
                assert(-0x8000_0000 * 1000 <= (self.sw.sing_margin as i64) * (d as i64) <= 0x8000_0000 * 1000)
                    by (nonlinear_arith)
                    requires
                        1 <= d <= 1000,
                ;
                let sb: i64 = tt_score as i64 - (self.sw.sing_margin as i64) * (d as i64);
                if sb - 1 >= -(INF as i64) && sb <= INF as i64 {
                    let s_beta = sb as i32;
                    let v = self.alpha_beta(e, b, (d - 1) / 2, s_beta - 1, s_beta, ply, prev, tt_move);
                    if !self.stop && v < s_beta {
                        sing_ext = 1;
                        self.stats.sing_count = self.stats.sing_count.wrapping_add(1);
                    }
                }
            }
        }
        let (best, best_move) = self.search_moves(e, b, &moves, d, alpha, beta, ply, prev, excluded, tt_move, sing_ext, in_check);
        if !self.stop && excluded.is_none() && self.sw.tt_enabled {
            let flag = bound_flag(best, alpha_orig, beta);
            self.store_at(key, d, flag, best, best_move, ply);
        }
        best
    }


    /// Searches the root moves at depth `depth` in the window
    /// `(alpha, beta)`: the best move of the previous iteration first, then
    /// by MVV-LVA. Returns the best move and its score; a move that reaches
    /// `beta` ends the iteration, and so does a stop.
    pub fn root(
        &mut self,
        e: &EvalChoice,
        b: &mut Board,
        depth: i32,
        prev_best: Option<Move>,
        alpha: i32,
        beta: i32,
    ) -> (r: (Option<Move>, i32))
        requires
            old(self).wf(),
            e.wf(),
            perft_ok(*old(b), (MAX_PLY + 1) as int),
            1 <= depth <= MAX_DEPTH,
            -INF <= alpha < beta <= INF,
        ensures
            final(self).wf(),
            *final(b) == *old(b),
            final(self).rep_keys@ == old(self).rep_keys@,
            same_tables(*old(self), *final(self)),
            stop_ok(*old(self), *final(self)),
            -INF <= r.1 <= INF,
            r.0 matches Some(m) ==> legal_moves(old(b)@).contains(m),
            legal_moves(old(b)@).len() == 0 ==> r.0 is None,
    {
        let ghost b0 = *b;
        let ghost rk0 = self.rep_keys@;
        let ghost d0 = (MAX_PLY + 1) as int;
        let ghost s0 = *self;
        proof {
            lemma_node(b0, d0);
        }
        let mut moves = b.gen_legal();
        let ghost lm = moves@;
        proof {
            assert forall|i: int| 0 <= i < lm.len() implies (#[trigger] lm[i]).from < 64 && lm[i].to < 64
                && lm[i].promo < 7 by {
                assert(lm.contains(lm[i]));
                lemma_legal_fits(b0, d0, lm[i]);
            }
        }
        order_root(b, &mut moves, prev_best);
        proof {
            let sorted = choose|sorted: Seq<Move>|
                {
                    &&& sorted.len() == lm.len()
                    &&& forall|i: int, j: int|
                        0 <= i < j < sorted.len() ==> capture_key(b0)(sorted[i]) >= capture_key(b0)(sorted[j])
                    &&& forall|k: int| #[trigger]
                        sorted.filter(scores(capture_key(b0), k)) == lm.filter(scores(capture_key(b0), k))
                    &&& moves@ == to_front(sorted, prev_best)
                };
            assert forall|i: int| 0 <= i < moves@.len() implies lm.contains(#[trigger] moves@[i]) by {
                assert(moves@.contains(moves@[i]));
                lemma_to_front_member(sorted, prev_best, moves@[i]);
                lemma_sorted_member(lm, sorted, capture_key(b0), moves@[i]);
            }
            if lm.len() == 0 {
                assert(sorted.len() == 0);
                assert(sorted =~= Seq::<Move>::empty());
            }
        }
        let ghost ms = moves@;
        let n = moves.len();
        let mut alpha = alpha;
        let mut best: i32 = -INF;
        let mut best_move: Option<Move> = None;
        let mut i: usize = 0;
        while i < n
            invariant
                self.wf(),
                e.wf(),
                *b == b0,
                self.rep_keys@ == rk0,
                same_tables(s0, *self),
                stop_ok(s0, *self),
                perft_ok(b0, d0),
                d0 == MAX_PLY + 1,
                1 <= depth <= MAX_DEPTH,
                lm == legal_moves(b0@),
                ms == moves@,
                n == ms.len(),
                forall|j: int| 0 <= j < n ==> lm.contains(#[trigger] ms[j]),
                -INF <= alpha < beta <= INF,
                -INF <= best <= INF,
                best_move matches Some(m) ==> lm.contains(m),
                i <= n,
            decreases n - i,
        {
            let m = moves[i];
            assert(lm.contains(ms[i as int]));
            proof {
                lemma_legal_fits(b0, d0, m);
            }
            let undo = b.make(m);
            proof {
                lemma_child(b0, *b, d0, m);
                lemma_placed(b0, *b, d0, m);
            }
            self.rep_keys.push(b.key);
            let child_prev = if self.sw.conthist_enabled || self.sw.hist2 {
                Some(ps_index(b.sq[m.to as usize], m.to))
            } else {
                None
            };
            let v = self.alpha_beta(e, b, depth - 1, -beta, -alpha, 1, child_prev, None);
            let score = -v;
            self.rep_keys.pop();
            proof {
                assert(self.rep_keys@ =~= rk0);
            }
            b.unmake(m, undo);
            if self.stop {
                break;
            }
            if score > best {
                best = score;
                best_move = Some(m);
                if score > alpha {
                    if score >= beta {
                        break;
                    }
                    alpha = score;
                }
            }
            i = i + 1;
        }
        (best_move, best)
    }

    /// Killers cleared.
    fn clear_killers(&mut self)
        requires
            old(self).wf(),
        ensures
            final(self).wf(),
            final(self).rep_keys == old(self).rep_keys,
            same_tables(*old(self), *final(self)),
    {
        let mut i: usize = 0;
        while i < 64
            invariant
                self.wf(),
                self.rep_keys == old(self).rep_keys,
                same_tables(*old(self), *self),
                i <= 64,
            decreases 64 - i,
        {
            self.killers.set(i, [None, None]);
            i = i + 1;
        }
    }

    /// Prepares a search: with persistence off or the map-backed table over
    /// its cap, the table, killers and history are cleared; else, with
    /// `hist_age`, the history is halved and the killers cleared. The
    /// counters are reset and the deadline set to `soft`.
    pub fn begin(&mut self, soft: Option<Instant>)
        requires
            old(self).wf(),
        ensures
            final(self).wf(),
            final(self).rep_keys == old(self).rep_keys,
            same_switches(*old(self), *final(self)),
            !final(self).stop && !final(self).fault && !final(self).tm3_extended,
            final(self).nodes == 0,
    {
        let over = self.tt.over_cap(self.sw.persist_cap);
        if !self.sw.persist_enabled || over {
            if over {
                self.stats.cap_clears = self.stats.cap_clears.wrapping_add(1);
            }
            self.tt.clear();
            self.clear_killers();
            clear_table(&mut self.history);
            clear_table(&mut self.conthist);
        } else if self.sw.hist_age {
            halve_history(&mut self.history);
            self.clear_killers();
        }
        self.nodes = 0;
        self.stop = false;
        self.fault = false;
        self.tick = 0;
        self.tm3_extended = false;
        self.deadline = soft;
    }

    /// One iteration of iterative deepening at depth `d`: with
    /// `aspiration`, from depth 4 a window of 50 around the last score,
    /// searched again with the full window when the score falls outside.
    /// An iteration cut short by the clock is dropped, except that, once
    /// per search, when the best move changed between the last two
    /// iterations and the `hard` deadline is still ahead, the depth is
    /// searched again up to it. `tm4` = (iterations, centipawns, depth): stop
    /// once the best move stayed that many iterations with a score within
    /// that many centipawns of 0, from that depth on. Returns whether to go
    /// on with the next depth.
    pub fn deepen(
        &mut self,
        e: &EvalChoice,
        b: &mut Board,
        d: i32,
        hard: &Option<Instant>,
        aspiration: bool,
        tm4: Option<(i32, i32, i32)>,
        st: &mut Deepening,
    ) -> (go_on: bool)
        requires
            old(self).wf(),
            e.wf(),
            perft_ok(*old(b), (MAX_PLY + 1) as int),
            1 <= d <= MAX_DEPTH,
            deepening_ok(*old(st), *old(b), d as int),
        ensures
            final(self).wf(),
            *final(b) == *old(b),
            final(self).rep_keys@ == old(self).rep_keys@,
            same_switches(*old(self), *final(self)),
            deepening_ok(*final(st), *old(b), d + 1),
    {
        let ghost b0 = *b;
        let (w0, w1) = if aspiration && d >= 4 && st.best.0.is_some() {
            let lo = if st.best.1 - 50 < -INF { -INF } else { st.best.1 - 50 };
            let hi = if st.best.1 + 50 > INF { INF } else { st.best.1 + 50 };
            (lo, hi)
        } else {
            (-INF, INF)
        };
        let (mut mv, mut score) = self.root(e, b, d, st.best.0, w0, w1);
        if !self.stop && w0 > -INF && (score <= w0 || score >= w1) {
            let r = self.root(e, b, d, st.best.0, -INF, INF);
            mv = r.0;
            score = r.1;
        }
        if self.stop {
            match hard {
                Some(hd) => {
                    let unstable = match (st.best.0, st.prev_best) {
                        (Some(a), Some(p)) => !(a == p),
                        _ => true,
                    };
                    if !self.tm3_extended && unstable {
                        let t = now();
                        if !not_before(&t, hd) {
                            self.tm3_extended = true;
                            self.stop = false;
                            self.deadline = Some(*hd);
                            let r = self.root(e, b, d, st.best.0, -INF, INF);
                            if !self.stop && r.0.is_some() {
                                st.prev_best = st.best.0;
                                st.best = (r.0, r.1, d);
                            }
                        }
                    }
                },
                None => {},
            }
            return false;
        }
        if mv.is_some() {
            st.prev_best = st.best.0;
            st.best = (mv, score, d);
        }
        match tm4 {
            Some((stab, draw_cp, min_d)) => {
                if st.best.0.is_some() {
                    if st.best.0 == st.prev_best {
                        if st.stable < i32::MAX {
                            st.stable = st.stable + 1;
                        }
                    } else {
                        st.stable = 0;
                    }
                    let a = if st.best.1 < 0 { -st.best.1 } else { st.best.1 };
                    if st.stable >= stab && a <= draw_cp && st.best.2 >= min_d {
                        return false;
                    }
                }
            },
            None => {},
        }
        let sa = if score < 0 { -score } else { score };
        sa < MATE_THRESHOLD
    }

    /// Ends a search: the deadline is cleared, and when no iteration found
    /// a move, the first legal move is taken.
    pub fn finish(&mut self, b: &mut Board, st: &Deepening) -> (r: (Option<Move>, i32, i32))
        requires
            perft_ok(*old(b), (MAX_PLY + 1) as int),
            st.best.0 matches Some(m) ==> legal_moves(old(b)@).contains(m),
        ensures
            *final(b) == *old(b),
            final(self).wf() == old(self).wf(),
            final(self).rep_keys == old(self).rep_keys,
            same_switches(*old(self), *final(self)),
            r.0 is None <==> legal_moves(old(b)@).len() == 0,
            r.0 matches Some(m) ==> legal_moves(old(b)@).contains(m),
            r.1 == st.best.1 && r.2 == st.best.2,
            st.best.0 is None && legal_moves(old(b)@).len() > 0 ==> r.0 == Some(legal_moves(old(b)@)[0]),
    {
        self.deadline = None;
        let mut best = st.best;
        proof {
            lemma_node(*b, (MAX_PLY + 1) as int);
        }
        if best.0.is_none() {
            let ms = b.gen_legal();
            if ms.len() > 0 {
                assert(ms@.contains(ms@[0]));
                best.0 = Some(ms[0]);
            }
        } else {
            proof {
                let m = best.0->0;
                assert(legal_moves(b@).len() > 0);
            }
        }
        best
    }

    /// Iterative deepening from depth 1 to `max_depth` (at most
    /// `MAX_DEPTH`), with the deadlines `soft` (the search stops there) and
    /// `hard` (see `deepen`). Returns the best move (`None` exactly when
    /// there is no legal move), its score for the side to move, and the
    /// depth of the last completed iteration.
    pub fn iterate(
        &mut self,
        e: &EvalChoice,
        b: &mut Board,
        max_depth: i32,
        soft: Option<Instant>,
        hard: Option<Instant>,
        aspiration: bool,
        tm4: Option<(i32, i32, i32)>,
    ) -> (r: (Option<Move>, i32, i32))
        requires
            old(self).wf(),
            e.wf(),
            perft_ok(*old(b), (MAX_PLY + 1) as int),
        ensures
            final(self).wf(),
            *final(b) == *old(b),
            final(self).rep_keys@ == old(self).rep_keys@,
            r.0 is None <==> legal_moves(old(b)@).len() == 0,
            r.0 matches Some(m) ==> legal_moves(old(b)@).contains(m),
            0 <= r.2 <= if max_depth > 0 { max_depth as int } else { 0 },
            max_depth <= 0 ==> r.1 == 0 && r.2 == 0 && (legal_moves(old(b)@).len() > 0 ==> r.0 == Some(
                legal_moves(old(b)@)[0],
            )),
    {
        let ghost b0 = *b;
        self.begin(soft);
        let mut st = Deepening { best: (None, 0, 0), prev_best: None, stable: 0 };
        let top = if max_depth > MAX_DEPTH { MAX_DEPTH } else { max_depth };
        let mut d: i32 = 1;
        while d <= top
            invariant_except_break
                deepening_ok(st, b0, d as int),
            invariant
                st.best.0 matches Some(m) ==> legal_moves(b0@).contains(m),
                0 <= st.best.2,
                top < 1 ==> st.best.0 is None && st.best.1 == 0 && st.best.2 == 0,
                self.wf(),
                e.wf(),
                *b == b0,
                self.rep_keys@ == old(self).rep_keys@,
                perft_ok(b0, (MAX_PLY + 1) as int),
                1 <= d,
                top <= MAX_DEPTH,
                d <= top + 1 || top < 1,
                st.best.2 <= if top > 0 { top as int } else { 0 },
            decreases top + 1 - d,
        {
            let go_on = self.deepen(e, b, d, &hard, aspiration, tm4, &mut st);
            if !go_on {
                break;
            }
            d = d + 1;
        }
        self.finish(b, &st)
    }

}

} // verus!
