//! Search bookkeeping: packing scores into 16-bit table slots, history
//! updates with gravity, table indices, and capture ordering by
//! most-valuable-victim / least-valuable-attacker.

use vstd::prelude::*;
use crate::board::{Board, Move, EMPTY, PAWN, pt, pc, ptype, pcolor, file_of, valid_piece};
use crate::eval::{MATE_THRESHOLD, PIECE_VALUES};
use crate::legal::{legal_moves, can_make_all, lemma_pseudo_fit, lemma_filter_fit, move_fits};
use crate::makemove::{after, kings_tracked};
use crate::movegen::pseudo_moves;
use crate::attacks::is_attacked;
use crate::see::see_outcome;

verus! {

/// A score is packable: a normal score below 29000 in size, or a mate
/// score of size at least `MATE_THRESHOLD`.
pub open spec fn packable(s: i32) -> bool {
    s != i32::MIN && ((-29_000 < s < 29_000) || s >= MATE_THRESHOLD || s <= -MATE_THRESHOLD)
}

/// Is the score packable (see `packable`)?
pub fn packable_score(s: i32) -> (r: bool)
    ensures
        r == packable(s),
{
    s != i32::MIN && ((-29_000 < s && s < 29_000) || s >= MATE_THRESHOLD || s <= -MATE_THRESHOLD)
}

/// 16-bit slot of a score: mate scores shifted by 70000 towards zero.
pub open spec fn pack(s: i32) -> i16 {
    if s >= MATE_THRESHOLD {
        (s - 70_000) as i16
    } else if s <= -MATE_THRESHOLD {
        (s + 70_000) as i16
    } else {
        s as i16
    }
}

/// Score of a 16-bit slot: values of size 29000 and more shifted back by 70000.
pub open spec fn unpack(e: i16) -> i32 {
    if e >= 29_000 {
        (e + 70_000) as i32
    } else if e <= -29_000 {
        (e - 70_000) as i32
    } else {
        e as i32
    }
}

/// Packs a score into a 16-bit table slot (see `pack`).
pub fn pack_score(s: i32) -> (e: i16)
    requires
        packable(s),
    ensures
        e == pack(s),
{
    if s >= MATE_THRESHOLD {
        (s - 70_000) as i16
    } else if s <= -MATE_THRESHOLD {
        (s + 70_000) as i16
    } else {
        s as i16
    }
}

/// Reads a score back from a 16-bit table slot (see `unpack`).
pub fn unpack_score(e: i16) -> (s: i32)
    ensures
        s == unpack(e),
{
    let v = e as i32;
    if v >= 29_000 {
        v + 70_000
    } else if v <= -29_000 {
        v - 70_000
    } else {
        v
    }
}

/// Unpacking a packed score gives it back: for normal scores below 29000
/// in size and for mate scores from 99000 to 102767 in size.
pub proof fn lemma_unpack_pack(s: i32)
    requires
        (-29_000 < s < 29_000) || (MATE_THRESHOLD <= s <= 102_767) || (-102_767 <= s
            <= -MATE_THRESHOLD),
    ensures
        unpack(pack(s)) == s,
{
}

/// Rust's `/` on integers: the quotient rounded towards zero.
pub open spec fn trunc_div(x: int, d: int) -> int {
    if x >= 0 {
        x / d
    } else {
        -((-x) / d)
    }
}

pub open spec fn clamp_bonus(bonus: i32) -> int {
    if bonus < -8192 {
        -8192
    } else if bonus > 8192 {
        8192
    } else {
        bonus as int
    }
}

pub open spec fn abs(x: int) -> int {
    if x < 0 { -x } else { x }
}

/// History entry `e` after a bonus: the bonus clamped to ±8192, minus the
/// entry scaled by |bonus| / 8192 (rounded towards zero).
pub open spec fn bonus_applied(e: int, bonus: i32) -> int {
    let b = clamp_bonus(bonus);
    e + (b - trunc_div(abs(b) * e, 8192))
}

/// The update of `e` stays in `i32`.
pub open spec fn bonus_fits(e: i32, bonus: i32) -> bool {
    let b = clamp_bonus(bonus);
    &&& i32::MIN <= abs(b) * e <= i32::MAX
    &&& i32::MIN <= b - trunc_div(abs(b) * e, 8192) <= i32::MAX
    &&& i32::MIN <= bonus_applied(e as int, bonus) <= i32::MAX
}

/// History update with gravity (see `bonus_applied`).
pub fn apply_bonus(e: &mut i32, bonus: i32)
    requires
        bonus_fits(*old(e), bonus),
    ensures
        *final(e) == bonus_applied(*old(e) as int, bonus),
{
    let b: i32 = if bonus < -8192 {
        -8192
    } else if bonus > 8192 {
        8192
    } else {
        bonus
    };
    let ab: i32 = if b < 0 { -b } else { b };
    let prod = ab * *e;
    let q = match prod.checked_div(8192) {
        Some(q) => q,
        None => {
            assert(false);
            0
        },
    };
    assert(q == trunc_div(prod as int, 8192));
    *e = *e + (b - q);
}

/// Does the history update of `e` by `bonus` stay in `i32` (see
/// `bonus_fits`)?
pub fn fits_bonus(e: i32, bonus: i32) -> (r: bool)
    ensures
        r == bonus_fits(e, bonus),
{
    let b: i64 = if bonus < -8192 {
        -8192
    } else if bonus > 8192 {
        8192
    } else {
        bonus as i64
    };
    let ab: i64 = if b < 0 { -b } else { b };
    assert(-8192 * 0x8000_0000 <= ab * e <= 8192 * 0x8000_0000) by (nonlinear_arith)
        requires
            0 <= ab <= 8192,
            -0x8000_0000 <= e < 0x8000_0000,
    ;
    let prod: i64 = ab * (e as i64);
    let q: i64 = if prod >= 0 { prod / 8192 } else { -((-prod) / 8192) };
    assert(q == trunc_div(prod as int, 8192));
    let delta: i64 = b - q;
    let next: i64 = e as i64 + delta;
    i32::MIN as i64 <= prod && prod <= i32::MAX as i64 && i32::MIN as i64 <= delta && delta <= i32::MAX as i64
        && i32::MIN as i64 <= next && next <= i32::MAX as i64
}

/// A history entry within ±8192 stays within ±8192 after any bonus.
pub proof fn lemma_bonus_keeps_range(e: i32, bonus: i32)
    requires
        -8192 <= e <= 8192,
    ensures
        bonus_fits(e, bonus),
        -8192 <= bonus_applied(e as int, bonus) <= 8192,
{
    let b = clamp_bonus(bonus);
    let ab = abs(b);
    let p = ab * e;
    assert(-8192 * 8192 <= p <= 8192 * 8192) by (nonlinear_arith)
        requires
            0 <= ab <= 8192,
            -8192 <= e <= 8192,
            p == ab * e,
    ;
    let q = trunc_div(p, 8192);
    if p >= 0 {
        assert(q * 8192 <= p < q * 8192 + 8192);
    } else {
        assert(-q * 8192 <= -p < -q * 8192 + 8192);
    }
    if b >= 0 {
        assert(-8192 <= e + (b - q) <= 8192) by (nonlinear_arith)
            requires
                0 <= b <= 8192,
                -8192 <= e <= 8192,
                p == b * e,
                p >= 0 ==> q * 8192 <= p < q * 8192 + 8192,
                p < 0 ==> -q * 8192 <= -p < -q * 8192 + 8192,
        ;
    } else {
        assert(-8192 <= e + (b - q) <= 8192) by (nonlinear_arith)
            requires
                -8192 <= b < 0,
                -8192 <= e <= 8192,
                p == -b * e,
                p >= 0 ==> q * 8192 <= p < q * 8192 + 8192,
                p < 0 ==> -q * 8192 <= -p < -q * 8192 + 8192,
        ;
    }
}

/// Piece-square index of piece `p` arriving on `to`: (colour * 6 + type - 1) * 64 + to.
pub fn ps_index(p: u8, to: u8) -> (i: usize)
    requires
        1 <= pt(p),
    ensures
        i == ((pc(p) * 6) + pt(p) - 1) * 64 + to,
{
    ((pcolor(p) as usize * 6) + ptype(p) as usize - 1) * 64 + to as usize
}

/// History-table index of move `m` by side `color`: (color * 64 + from) * 64 + to.
pub fn hist_index(color: u8, m: Move) -> (i: usize)
    ensures
        i == ((color as int) * 64 + m.from as int) * 64 + m.to as int,
{
    ((color as usize) * 64 + m.from as usize) * 64 + m.to as usize
}

/// The move takes a piece: its target is occupied, or it is a pawn's
/// diagonal step onto the en-passant square.
pub open spec fn capture(b: Board, m: Move) -> bool {
    b.sq@[m.to as int] != EMPTY || (pt(b.sq@[m.from as int]) == PAWN as int && b.ep == Some(m.to)
        && m.from % 8 != m.to % 8)
}

pub fn is_capture(b: &Board, m: Move) -> (r: bool)
    requires
        m.from < 64,
        m.to < 64,
    ensures
        r == capture(*b, m),
{
    b.sq[m.to as usize] != EMPTY || (ptype(b.sq[m.from as usize]) == PAWN && b.ep == Some(m.to)
        && file_of(m.from) != file_of(m.to))
}

/// Move-ordering value of a piece type (see `PIECE_VALUES`).
pub open spec fn piece_value(t: int) -> int {
    PIECE_VALUES[t] as int
}

/// Ordering score of a move: for a capture, ten times the victim's value
/// (a pawn when the target is empty) minus the attacker's value; plus the
/// value of the promotion piece.
pub open spec fn mvv_lva_score(b: Board, m: Move) -> int {
    let cap = if capture(b, m) {
        let victim = pt(b.sq@[m.to as int]);
        let vv = if victim == 0 { piece_value(PAWN as int) } else { piece_value(victim) };
        10 * vv - piece_value(pt(b.sq@[m.from as int]))
    } else {
        0
    };
    cap + if m.promo != 0 { piece_value(m.promo as int) } else { 0 }
}

pub fn mvv_lva(b: &Board, m: Move) -> (score: i32)
    requires
        b.wf(),
        m.from < 64,
        m.to < 64,
        m.promo < 7,
    ensures
        score == mvv_lva_score(*b, m),
{
    let mut score: i32 = 0;
    assert(valid_piece(b.sq@[m.to as int]) && valid_piece(b.sq@[m.from as int]));
    assert(forall|i: int| 0 <= i < 7 ==> 0 <= #[trigger] PIECE_VALUES[i] <= 900);
    if is_capture(b, m) {
        let victim = ptype(b.sq[m.to as usize]);
        let victim_val = if victim == 0 { PIECE_VALUES[PAWN as usize] } else { PIECE_VALUES[victim as usize] };
        let attacker_val = PIECE_VALUES[ptype(b.sq[m.from as usize]) as usize];
        score = score + (10 * victim_val - attacker_val);
    }
    if m.promo != 0 {
        score = score + PIECE_VALUES[m.promo as usize];
    }
    score
}

/// A capture that loses material in the exchange on its square.
pub open spec fn losing_capture(b: Board, m: Move) -> bool {
    capture(b, m) && match see_outcome(b, m) {
        Some(v) => v < 0,
        None => false,
    }
}

/// A move scored by the history tables: neither the table move, nor a
/// capture or promotion, nor a killer.
pub open spec fn history_scored(b: Board, m: Move, tt_move: Option<Move>, killers: [Option<Move>; 2]) -> bool {
    &&& Some(m) != tt_move
    &&& !(capture(b, m) || m.promo != 0)
    &&& Some(m) != killers[0]
    &&& Some(m) != killers[1]
}

/// Ordering score of move `m` in the search: the table move first, then
/// captures and promotions by MVV-LVA (a capture that loses material in
/// the exchange drops below the killers), the two killer moves, and quiet
/// moves by their history entry (plus the continuation-history entry after
/// the move of piece-square index `prev`).
pub open spec fn order_score(
    b: Board,
    m: Move,
    tt_move: Option<Move>,
    killers: [Option<Move>; 2],
    history: Seq<i32>,
    conthist: Seq<i32>,
    prev: Option<usize>,
) -> int {
    if Some(m) == tt_move {
        1_000_000
    } else if capture(b, m) || m.promo != 0 {
        if losing_capture(b, m) {
            20_000 + mvv_lva_score(b, m)
        } else {
            100_000 + mvv_lva_score(b, m)
        }
    } else if Some(m) == killers[0] {
        90_000
    } else if Some(m) == killers[1] {
        80_000
    } else {
        let p = b.sq@[m.from as int];
        history[((b.stm as int) * 64 + m.from as int) * 64 + m.to as int] as int + match prev {
            Some(q) => conthist[q * 768 + ((pc(p) * 6) + pt(p) - 1) * 64 + m.to as int] as int,
            None => 0,
        }
    }
}

/// `order_score` as a function of the move.
pub open spec fn order_key(
    b: Board,
    tt_move: Option<Move>,
    killers: [Option<Move>; 2],
    history: Seq<i32>,
    conthist: Seq<i32>,
    prev: Option<usize>,
) -> spec_fn(Move) -> int {
    |m: Move| order_score(b, m, tt_move, killers, history, conthist, prev)
}

/// The move can be scored: squares on the board, a promotion type in
/// range, an exchange value that can be computed (for a capture other than
/// the table move), a piece on `from` (for a move scored by continuation
/// history), and a score that fits.
pub open spec fn scorable(
    b: Board,
    m: Move,
    tt_move: Option<Move>,
    killers: [Option<Move>; 2],
    history: Seq<i32>,
    conthist: Seq<i32>,
    prev: Option<usize>,
) -> bool {
    &&& m.from < 64
    &&& m.to < 64
    &&& m.promo < 7
    &&& (Some(m) != tt_move && capture(b, m) ==> see_outcome(b, m) is Some)
    &&& (history_scored(b, m, tt_move, killers) && prev is Some ==> b.sq@[m.from as int] != EMPTY)
    &&& i32::MIN < order_score(b, m, tt_move, killers, history, conthist, prev) <= i32::MAX
}

/// The tables of the search: history by side, from and to; continuation
/// history by two piece-square indices.
pub open spec fn tables_ok(history: Seq<i32>, conthist: Seq<i32>, prev: Option<usize>) -> bool {
    &&& history.len() == 2 * 64 * 64
    &&& (prev is Some ==> prev->0 < 768 && conthist.len() == 768 * 768)
}

/// The ordering score of one move (see `order_score`).
pub fn move_order_score(
    b: &Board,
    m: Move,
    tt_move: Option<Move>,
    killers: [Option<Move>; 2],
    history: &Vec<i32>,
    conthist: &Vec<i32>,
    prev: Option<usize>,
) -> (s: i32)
    requires
        b.wf(),
        tables_ok(history@, conthist@, prev),
        scorable(*b, m, tt_move, killers, history@, conthist@, prev),
    ensures
        s == order_score(*b, m, tt_move, killers, history@, conthist@, prev),
{
    if Some(m) == tt_move {
        1_000_000
    } else if is_capture(b, m) || m.promo != 0 {
        let v = mvv_lva(b, m);
        if is_capture(b, m) {
            match b.see_checked(m) {
                Some(x) => {
                    if x < 0 {
                        20_000 + v
                    } else {
                        100_000 + v
                    }
                },
                None => {
                    assert(false);
                    0
                },
            }
        } else {
            100_000 + v
        }
    } else if Some(m) == killers[0] {
        90_000
    } else if Some(m) == killers[1] {
        80_000
    } else {
        let h = history[hist_index(b.stm, m)];
        match prev {
            Some(q) => {
                assert(valid_piece(b.sq@[m.from as int]));
                let i = q * 768 + ps_index(b.sq[m.from as usize], m.to);
                h + conthist[i]
            },
            None => h,
        }
    }
}

/// Can the moves be ordered: tables of the right sizes, and every move
/// scorable (see `scorable`)?
pub fn can_order(
    b: &Board,
    moves: &Vec<Move>,
    tt_move: Option<Move>,
    killers: [Option<Move>; 2],
    history: &Vec<i32>,
    conthist: &Vec<i32>,
    prev: Option<usize>,
) -> (r: bool)
    requires
        b.wf(),
    ensures
        r == (tables_ok(history@, conthist@, prev) && forall|i: int|
            0 <= i < moves@.len() ==> scorable(*b, #[trigger] moves@[i], tt_move, killers, history@, conthist@, prev)),
{
    if history.len() != 8192 {
        return false;
    }
    match prev {
        Some(q) => {
            if q >= 768 || conthist.len() != 589824 {
                return false;
            }
        },
        None => {},
    }
    let mut i: usize = 0;
    while i < moves.len()
        invariant
            b.wf(),
            tables_ok(history@, conthist@, prev),
            i <= moves@.len(),
            forall|j: int| 0 <= j < i ==> scorable(*b, #[trigger] moves@[j], tt_move, killers, history@, conthist@, prev),
        decreases moves@.len() - i,
    {
        let m = moves[i];
        if m.from >= 64 || m.to >= 64 || m.promo >= 7 {
            return false;
        }
        if !(Some(m) == tt_move) && is_capture(b, m) && b.see_checked(m).is_none() {
            return false;
        }
        if !(Some(m) == tt_move) && !(is_capture(b, m) || m.promo != 0) && !(Some(m) == killers[0]) && !(Some(m)
            == killers[1]) {
            if prev.is_some() && b.sq[m.from as usize] == EMPTY {
                return false;
            }
            let h = history[hist_index(b.stm, m)] as i64;
            let c: i64 = match prev {
                Some(q) => {
                    assert(valid_piece(b.sq@[m.from as int]));
                    conthist[q * 768 + ps_index(b.sq[m.from as usize], m.to)] as i64
                },
                None => 0,
            };
            if h + c <= i32::MIN as i64 || h + c > i32::MAX as i64 {
                return false;
            }
        } else {
            assert(i32::MIN < order_score(*b, m, tt_move, killers, history@, conthist@, prev) <= i32::MAX) by {
                assert(forall|t: int| 0 <= t < 7 ==> 0 <= #[trigger] PIECE_VALUES[t] <= 900);
                assert(valid_piece(b.sq@[m.to as int]) && valid_piece(b.sq@[m.from as int]));
            }
        }
        i = i + 1;
    }
    true
}

/// The first field of a pair equals `k`.
pub open spec fn first_is(k: int) -> spec_fn((i32, Move)) -> bool {
    |p: (i32, Move)| p.0 == k
}

/// `slice::sort_by_key` on the first field: sorts the pairs by their first
/// field, ascending, and keeps pairs with equal first fields in their
/// order (the sort is stable).
#[verifier::external_body]
fn sort_by_first(v: &mut Vec<(i32, Move)>)
    ensures
        final(v)@.len() == old(v)@.len(),
        forall|i: int, j: int| 0 <= i < j < final(v)@.len() ==> final(v)@[i].0 <= final(v)@[j].0,
        forall|k: int| #[trigger] final(v)@.filter(first_is(k)) == old(v)@.filter(first_is(k)),
{
    v.sort_by_key(|p| p.0);
}

/// The score of `m` under `key` equals `k`.
pub open spec fn scores(key: spec_fn(Move) -> int, k: int) -> spec_fn(Move) -> bool {
    |m: Move| key(m) == k
}

/// Every pair holds a move and its negated score.
pub open spec fn keyed_by(q: Seq<(i32, Move)>, key: spec_fn(Move) -> int) -> bool {
    forall|i: int| 0 <= i < q.len() ==> #[trigger] q[i].0 == -key(q[i].1)
}

/// The second fields of the pairs.
pub open spec fn seconds(q: Seq<(i32, Move)>) -> Seq<Move> {
    q.map_values(|p: (i32, Move)| p.1)
}

/// Filtering the moves by score `k` is filtering the pairs by negated
/// score and taking the moves.
proof fn lemma_filter_seconds(q: Seq<(i32, Move)>, key: spec_fn(Move) -> int, k: int)
    requires
        keyed_by(q, key),
    ensures
        seconds(q).filter(scores(key, k)) == seconds(q.filter(first_is(-k))),
    decreases q.len(),
{
    broadcast use vstd::seq_lib::group_filter_ensures;
    if q.len() == 0 {
        reveal(Seq::filter);
        assert(seconds(q) =~= Seq::<Move>::empty());
        assert(q.filter(first_is(-k)) =~= q);
    } else {
        let r = q.drop_last();
        let x = q.last();
        assert(keyed_by(r, key));
        lemma_filter_seconds(r, key, k);
        assert(q =~= r.push(x));
        assert(seconds(q) =~= seconds(r).push(x.1));
        r.lemma_filter_push(x, first_is(-k));
        seconds(r).lemma_filter_push(x.1, scores(key, k));
        assert(x.0 == -key(x.1));
        if x.0 == -k {
            assert(seconds(r.filter(first_is(-k)).push(x)) =~= seconds(r.filter(first_is(-k))).push(x.1));
        }
    }
}

/// The moves of `keyed` by descending key, moves of equal key in their
/// order in `keyed` (each pair holds a move and its negated key).
fn sort_keyed(keyed: Vec<(i32, Move)>, Ghost(key): Ghost<spec_fn(Move) -> int>) -> (out: Vec<Move>)
    requires
        keyed_by(keyed@, key),
    ensures
        out@.len() == keyed@.len(),
        forall|i: int, j: int| 0 <= i < j < out@.len() ==> key(out@[i]) >= key(out@[j]),
        forall|k: int| #[trigger] out@.filter(scores(key, k)) == seconds(keyed@).filter(scores(key, k)),
{
    let ghost kq = keyed@;
    let mut keyed = keyed;
    let n = keyed.len();
    sort_by_first(&mut keyed);
    let ghost sp = keyed@;
    proof {
        broadcast use vstd::seq_lib::group_filter_ensures;
        assert forall|j: int| 0 <= j < sp.len() implies #[trigger] sp[j].0 == -key(sp[j].1) by {
            let x = sp[j];
            sp.lemma_filter_contains(first_is(x.0 as int), j);
            assert(sp.filter(first_is(x.0 as int)) == kq.filter(first_is(x.0 as int)));
            kq.lemma_filter_contains_rev(first_is(x.0 as int), x);
            let t = choose|t: int| 0 <= t < kq.len() && kq[t] == x;
            assert(kq[t].0 == -key(kq[t].1));
        }
    }
    let mut out: Vec<Move> = Vec::with_capacity(n);
    let mut i: usize = 0;
    while i < n
        invariant
            n == sp.len(),
            sp == keyed@,
            i <= n,
            out@ =~= seconds(sp).subrange(0, i as int),
        decreases n - i,
    {
        let (_k, m) = keyed[i];
        out.push(m);
        i = i + 1;
    }
    proof {
        assert(out@ =~= seconds(sp));
        assert forall|k: int| #[trigger] out@.filter(scores(key, k)) == seconds(kq).filter(scores(key, k)) by {
            lemma_filter_seconds(sp, key, k);
            lemma_filter_seconds(kq, key, k);
        }
    }
    out
}

/// Orders the moves for the search: by descending `order_score`, moves of
/// equal score in the order they came in.
pub fn order_moves(
    b: &Board,
    moves: &mut Vec<Move>,
    tt_move: Option<Move>,
    killers: [Option<Move>; 2],
    history: &Vec<i32>,
    conthist: &Vec<i32>,
    prev: Option<usize>,
)
    requires
        b.wf(),
        tables_ok(history@, conthist@, prev),
        forall|i: int|
            0 <= i < old(moves)@.len() ==> scorable(*b, #[trigger] old(moves)@[i], tt_move, killers, history@, conthist@, prev),
    ensures
        final(moves)@.len() == old(moves)@.len(),
        forall|i: int, j: int|
            0 <= i < j < final(moves)@.len() ==> order_key(*b, tt_move, killers, history@, conthist@, prev)(final(moves)@[i])
                >= order_key(*b, tt_move, killers, history@, conthist@, prev)(final(moves)@[j]),
        forall|k: int|
            #[trigger] final(moves)@.filter(scores(order_key(*b, tt_move, killers, history@, conthist@, prev), k))
                == old(moves)@.filter(scores(order_key(*b, tt_move, killers, history@, conthist@, prev), k)),
{
    let ghost key = order_key(*b, tt_move, killers, history@, conthist@, prev);
    let ghost ms = moves@;
    let n = moves.len();
    let mut keyed: Vec<(i32, Move)> = Vec::with_capacity(n);
    let mut i: usize = 0;
    while i < n
        invariant
            b.wf(),
            tables_ok(history@, conthist@, prev),
            key == order_key(*b, tt_move, killers, history@, conthist@, prev),
            ms == moves@,
            n == ms.len(),
            forall|j: int| 0 <= j < n ==> scorable(*b, #[trigger] ms[j], tt_move, killers, history@, conthist@, prev),
            i <= n,
            keyed@.len() == i,
            keyed_by(keyed@, key),
            seconds(keyed@) =~= ms.subrange(0, i as int),
        decreases n - i,
    {
        let m = moves[i];
        assert(scorable(*b, ms[i as int], tt_move, killers, history@, conthist@, prev));
        let s = move_order_score(b, m, tt_move, killers, history, conthist, prev);
        let ghost before = keyed@;
        keyed.push((-s, m));
        proof {
            assert(seconds(keyed@) =~= seconds(before).push(m));
            assert(ms.subrange(0, i as int + 1) =~= ms.subrange(0, i as int).push(m));
        }
        i = i + 1;
    }
    assert(seconds(keyed@) =~= ms);
    *moves = sort_keyed(keyed, Ghost(key));
}

/// The first position of `x` in `s` (the length when it does not occur).
pub open spec fn first_index(s: Seq<Move>, x: Move) -> int
    decreases s.len(),
{
    if s.len() == 0 {
        0
    } else if s[0] == x {
        0
    } else {
        1 + first_index(s.drop_first(), x)
    }
}

/// `mvv_lva_score` as a function of the move.
pub open spec fn capture_key(b: Board) -> spec_fn(Move) -> int {
    |m: Move| mvv_lva_score(b, m)
}

/// `s` with the move `pb` brought to the front (its first occurrence), or
/// `s` itself when `pb` is none or absent.
pub open spec fn to_front(s: Seq<Move>, pb: Option<Move>) -> Seq<Move> {
    match pb {
        Some(x) => if first_index(s, x) < s.len() {
            seq![x] + s.remove(first_index(s, x))
        } else {
            s
        },
        None => s,
    }
}

proof fn lemma_first_index(s: Seq<Move>, x: Move)
    ensures
        0 <= first_index(s, x) <= s.len(),
        first_index(s, x) < s.len() ==> s[first_index(s, x)] == x,
        forall|i: int| 0 <= i < first_index(s, x) ==> s[i] != x,
    decreases s.len(),
{
    if s.len() > 0 && s[0] != x {
        lemma_first_index(s.drop_first(), x);
        assert forall|i: int| 0 <= i < first_index(s, x) implies s[i] != x by {
            if i > 0 {
                assert(s[i] == s.drop_first()[i - 1]);
            }
        }
    }
}

/// Every move of `to_front(s, pb)` is a move of `s`.
pub proof fn lemma_to_front_member(s: Seq<Move>, pb: Option<Move>, x: Move)
    requires
        to_front(s, pb).contains(x),
    ensures
        s.contains(x),
{
    match pb {
        Some(p) => {
            lemma_first_index(s, p);
            let f = first_index(s, p);
            if f < s.len() {
                let t = to_front(s, pb);
                let i = choose|i: int| 0 <= i < t.len() && t[i] == x;
                if i == 0 {
                    assert(s[f] == x);
                } else {
                    assert(t[i] == s.remove(f)[i - 1]);
                    if i - 1 < f {
                        assert(s[i - 1] == x);
                    } else {
                        assert(s[i] == x);
                    }
                }
            }
        },
        None => {},
    }
}

/// Sorts the moves by descending `mvv_lva_score`, moves of equal score
/// keeping their order.
pub fn sort_by_capture_value(b: &Board, moves: &mut Vec<Move>)
    requires
        b.wf(),
        forall|i: int|
            0 <= i < old(moves)@.len() ==> (#[trigger] old(moves)@[i]).from < 64 && old(moves)@[i].to < 64
                && old(moves)@[i].promo < 7,
    ensures
        final(moves)@.len() == old(moves)@.len(),
        forall|i: int, j: int|
            0 <= i < j < final(moves)@.len() ==> capture_key(*b)(final(moves)@[i]) >= capture_key(*b)(
                final(moves)@[j],
            ),
        forall|k: int|
            #[trigger] final(moves)@.filter(scores(capture_key(*b), k)) == old(moves)@.filter(
                scores(capture_key(*b), k),
            ),
{
    let ghost key = capture_key(*b);
    let ghost ms = moves@;
    let n = moves.len();
    let mut keyed: Vec<(i32, Move)> = Vec::with_capacity(n);
    let mut i: usize = 0;
    while i < n
        invariant
            b.wf(),
            key == capture_key(*b),
            ms == moves@,
            n == ms.len(),
            forall|j: int| 0 <= j < n ==> (#[trigger] ms[j]).from < 64 && ms[j].to < 64 && ms[j].promo < 7,
            i <= n,
            keyed@.len() == i,
            keyed_by(keyed@, key),
            seconds(keyed@) =~= ms.subrange(0, i as int),
        decreases n - i,
    {
        let m = moves[i];
        assert(ms[i as int] == m);
        let s = mvv_lva(b, m);
        assert(-10_000 <= s <= 10_000) by {
            assert(forall|t: int| 0 <= t < 7 ==> 0 <= #[trigger] PIECE_VALUES[t] <= 900);
            assert(valid_piece(b.sq@[m.to as int]) && valid_piece(b.sq@[m.from as int]));
        }
        let ghost before = keyed@;
        keyed.push((-s, m));
        proof {
            assert(seconds(keyed@) =~= seconds(before).push(m));
            assert(ms.subrange(0, i as int + 1) =~= ms.subrange(0, i as int).push(m));
        }
        i = i + 1;
    }
    assert(seconds(keyed@) =~= ms);
    *moves = sort_keyed(keyed, Ghost(key));
}

/// The root moves in search order: by descending MVV-LVA score (equal
/// scores keep their order), then the best move of the previous iteration
/// brought to the front.
pub fn order_root(b: &Board, moves: &mut Vec<Move>, prev_best: Option<Move>)
    requires
        b.wf(),
        forall|i: int|
            0 <= i < old(moves)@.len() ==> (#[trigger] old(moves)@[i]).from < 64 && old(moves)@[i].to < 64
                && old(moves)@[i].promo < 7,
    ensures
        exists|sorted: Seq<Move>|
            {
                &&& sorted.len() == old(moves)@.len()
                &&& forall|i: int, j: int|
                    0 <= i < j < sorted.len() ==> capture_key(*b)(sorted[i]) >= capture_key(*b)(sorted[j])
                &&& forall|k: int|
                    #[trigger] sorted.filter(scores(capture_key(*b), k)) == old(moves)@.filter(
                        scores(capture_key(*b), k),
                    )
                &&& final(moves)@ == to_front(sorted, prev_best)
            },
{
    let ghost ms = moves@;
    sort_by_capture_value(b, moves);
    let ghost so = moves@;
    if let Some(pb) = prev_best {
        let mut pos: usize = 0;
        while pos < moves.len() && moves[pos] != pb
            invariant
                so == moves@,
                pos <= so.len(),
                forall|j: int| 0 <= j < pos ==> so[j] != pb,
            decreases so.len() - pos,
        {
            pos = pos + 1;
        }
        proof {
            lemma_first_index(so, pb);
            assert(pos == first_index(so, pb));
        }
        if pos < moves.len() {
            moves.remove(pos);
            moves.insert(0, pb);
            assert(moves@ =~= seq![pb] + so.remove(pos as int));
        }
    }
    assert(moves@ == to_front(so, prev_best));
    assert(so.len() == ms.len());
    assert(forall|k: int| #[trigger] so.filter(scores(capture_key(*b), k)) == ms.filter(scores(capture_key(*b), k)));
}

/// The move takes a piece on this board.
pub open spec fn takes(b: Board) -> spec_fn(Move) -> bool {
    |m: Move| capture(b, m)
}

/// Keeps the captures among the moves, in their order.
pub fn keep_captures(b: &Board, moves: &mut Vec<Move>)
    requires
        forall|i: int| 0 <= i < old(moves)@.len() ==> (#[trigger] old(moves)@[i]).from < 64 && old(moves)@[i].to < 64,
    ensures
        final(moves)@ == old(moves)@.filter(takes(*b)),
{
    let ghost ms = moves@;
    let n = moves.len();
    let mut out: Vec<Move> = Vec::with_capacity(n);
    let mut i: usize = 0;
    while i < n
        invariant
            ms == moves@,
            n == ms.len(),
            forall|j: int| 0 <= j < n ==> (#[trigger] ms[j]).from < 64 && ms[j].to < 64,
            i <= n,
            out@ == ms.subrange(0, i as int).filter(takes(*b)),
        decreases n - i,
    {
        let m = moves[i];
        assert(ms[i as int] == m);
        proof {
            assert(ms.subrange(0, i as int + 1) =~= ms.subrange(0, i as int).push(m));
            ms.subrange(0, i as int).lemma_filter_push(m, takes(*b));
        }
        if is_capture(b, m) {
            out.push(m);
        }
        i = i + 1;
    }
    assert(ms.subrange(0, n as int) =~= ms);
    *moves = out;
}

/// Records a killer move: `m` goes first and the first killer moves to
/// second place, unless `m` is already the first killer.
pub fn push_killer(kl: &mut [Option<Move>; 2], m: Move)
    ensures
        if old(kl)[0] == Some(m) {
            *final(kl) == *old(kl)
        } else {
            final(kl)[0] == Some(m) && final(kl)[1] == old(kl)[0]
        },
{
    if !(kl[0] == Some(m)) {
        kl[1] = kl[0];
        kl[0] = Some(m);
    }
}

/// Halves every history entry (rounding towards zero).
pub fn halve_history(h: &mut Vec<i32>)
    ensures
        final(h)@.len() == old(h)@.len(),
        forall|i: int| 0 <= i < final(h)@.len() ==> #[trigger] final(h)@[i] == trunc_div(old(h)@[i] as int, 2),
{
    let n = h.len();
    let mut i: usize = 0;
    while i < n
        invariant
            n == h@.len(),
            n == old(h)@.len(),
            i <= n,
            forall|j: int| 0 <= j < i ==> #[trigger] h@[j] == trunc_div(old(h)@[j] as int, 2),
            forall|j: int| i <= j < n ==> #[trigger] h@[j] == old(h)@[j],
        decreases n - i,
    {
        let v = h[i];
        let half: i32 = if v >= 0 { v / 2 } else { -((-(v as i64) / 2) as i32) };
        h.set(i, half);
        i = i + 1;
    }
}

/// Sets every entry to zero.
pub fn clear_table(h: &mut Vec<i32>)
    ensures
        final(h)@.len() == old(h)@.len(),
        forall|i: int| 0 <= i < final(h)@.len() ==> #[trigger] final(h)@[i] == 0,
{
    let n = h.len();
    let mut i: usize = 0;
    while i < n
        invariant
            n == h@.len(),
            n == old(h)@.len(),
            i <= n,
            forall|j: int| 0 <= j < i ==> #[trigger] h@[j] == 0,
        decreases n - i,
    {
        h.set(i, 0);
        i = i + 1;
    }
}

/// After `m` the side to move (the other side) is in check.
pub open spec fn gives_check(b: Board, m: Move) -> bool {
    let a = after(b@, m);
    is_attacked(a.sq, a.king[a.stm as int] as int, 1 - a.stm)
}

/// A quiet move (no capture, no promotion) that gives check.
pub open spec fn quiet_check(b: Board) -> spec_fn(Move) -> bool {
    |m: Move| !capture(b, m) && m.promo == 0 && gives_check(b, m)
}

/// A capture, or a quiet move that gives check.
pub open spec fn capture_or_check(b: Board) -> spec_fn(Move) -> bool {
    |m: Move| capture(b, m) || (m.promo == 0 && gives_check(b, m))
}

/// Keeps the captures and the quiet moves that give check among the legal
/// moves, in their order; returns how many quiet checks it kept.
pub fn keep_captures_and_checks(b: &mut Board, moves: &mut Vec<Move>) -> (added: u64)
    requires
        can_make_all(*old(b)),
        old(b).king[1 - old(b).stm] < 64,
        old(moves)@ == legal_moves(old(b)@),
    ensures
        *final(b) == *old(b),
        final(moves)@ == old(moves)@.filter(capture_or_check(*old(b))),
        added == old(moves)@.filter(quiet_check(*old(b))).len(),
{
    let ghost b0 = *b;
    let ghost ms = moves@;
    proof {
        lemma_pseudo_fit(b0);
        lemma_filter_fit(b0@, pseudo_moves(b0@));
    }
    let n = moves.len();
    let mut out: Vec<Move> = Vec::with_capacity(n);
    let mut added: u64 = 0;
    let mut i: usize = 0;
    while i < n
        invariant
            *b == b0,
            can_make_all(b0),
            b0.king[1 - b0.stm] < 64,
            ms == moves@,
            ms == legal_moves(b0@),
            n == ms.len(),
            forall|j: int| 0 <= j < ms.len() ==> #[trigger] move_fits(b0@, ms[j]),
            i <= n,
            out@ == ms.subrange(0, i as int).filter(capture_or_check(b0)),
            added == ms.subrange(0, i as int).filter(quiet_check(b0)).len(),
            added <= i,
        decreases n - i,
    {
        let m = moves[i];
        assert(ms[i as int] == m);
        assert(move_fits(b0@, m));
        proof {
            assert(ms.subrange(0, i as int + 1) =~= ms.subrange(0, i as int).push(m));
            ms.subrange(0, i as int).lemma_filter_push(m, capture_or_check(b0));
            ms.subrange(0, i as int).lemma_filter_push(m, quiet_check(b0));
        }
        if is_capture(b, m) {
            out.push(m);
        } else if m.promo == 0 {
            let undo = b.make(m);
            let gives = b.in_check();
            b.unmake(m, undo);
            if gives {
                out.push(m);
                added = added + 1;
            }
        }
        i = i + 1;
    }
    assert(ms.subrange(0, n as int) =~= ms);
    *moves = out;
    added
}

} // verus!
