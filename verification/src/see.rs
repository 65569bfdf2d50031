//! Static exchange evaluation: the material balance of the capture
//! sequence on one square when each side recaptures with its least valuable
//! attacker and may stop whenever continuing would lose material. Sliders
//! behind a capturer join in as the capturer leaves (x-rays).

use vstd::prelude::*;
use crate::bits::{bit, occ_blocked, lemma_bits_ops, lemma_bits_single, lemma_bits_remove, lemma_bit_test};
use crate::board::{
    Board, Move, EMPTY, WHITE, PAWN, KNIGHT, BISHOP, ROOK, QUEEN, KING, pc, pt, colored,
    squares_valid, valid_piece, ptype, pcolor, file_of, rank_of,
};
use crate::attacks::{file, rank, on_board, at, leap, slides, leaper_attacks_of, slider_attacks};

verus! {

/// Exchange value of a piece type: pawn 100, knight 320, bishop 330,
/// rook 500, queen 900, king 10000; nothing 0.
pub open spec fn see_value(t: int) -> int {
    if t == PAWN as int {
        100
    } else if t == KNIGHT as int {
        320
    } else if t == BISHOP as int {
        330
    } else if t == ROOK as int {
        500
    } else if t == QUEEN as int {
        900
    } else if t == KING as int {
        10000
    } else {
        0
    }
}

/// Square `s` is one from which a pawn of `side` attacks `t`.
pub open spec fn pawn_source(t: int, side: int, s: int) -> bool {
    let dr: int = if side == WHITE as int { -1 } else { 1 };
    (on_board(file(t) - 1, rank(t) + dr) && s == at(file(t) - 1, rank(t) + dr)) || (on_board(
        file(t) + 1,
        rank(t) + dr,
    ) && s == at(file(t) + 1, rank(t) + dr))
}

/// The piece on `s` is one of `side` still on the board (`occ`) and attacks
/// `t`, sliders through the squares of `occ` only.
pub open spec fn see_attacker(sq: Seq<u8>, t: int, side: int, occ: u64, s: int) -> bool {
    let p = sq[s];
    &&& bit(occ, s)
    &&& colored(p, side)
    &&& {
        ||| pt(p) == PAWN as int && pawn_source(t, side, s)
        ||| pt(p) == KNIGHT as int && leap(true, t, s)
        ||| pt(p) == KING as int && leap(false, t, s)
        ||| (pt(p) == BISHOP as int || pt(p) == QUEEN as int) && slides(occ_blocked(occ), t, true, s)
        ||| (pt(p) == ROOK as int || pt(p) == QUEEN as int) && slides(occ_blocked(occ), t, false, s)
    }
}

/// Least valuable square among the squares below `n` that satisfy `p`, the
/// lowest one on equal value, with its value; `(64, i32::MAX)` for none.
pub open spec fn lva_upto(sq: Seq<u8>, p: spec_fn(int) -> bool, n: int) -> (int, int)
    decreases n,
{
    if n <= 0 {
        (64, 0x7fff_ffff)
    } else {
        let (bs, bv) = lva_upto(sq, p, n - 1);
        if p(n - 1) && see_value(pt(sq[n - 1])) < bv {
            (n - 1, see_value(pt(sq[n - 1])))
        } else {
            (bs, bv)
        }
    }
}

/// The least valuable attacker of `t` for `side` over `occ`.
pub open spec fn lva(sq: Seq<u8>, t: int, side: int, occ: u64) -> (int, int) {
    lva_upto(sq, |s: int| see_attacker(sq, t, side, occ, s), 64)
}

/// The gains of the exchange from step `d` on: `g` is the balance after the
/// capture of step `d`, `av` the value of the piece that made it and now
/// stands on `t`, `side` the side to recapture. Each recapture with the
/// least valuable attacker adds the balance `av - g`, up to step 31.
pub open spec fn gains_from(sq: Seq<u8>, t: int, occ: u64, side: int, av: int, g: int, d: int) -> Seq<int>
    decreases 32 - d,
{
    let (ls, lv) = lva(sq, t, side, occ);
    if ls >= 64 || d + 1 >= 32 || d < 0 {
        seq![g]
    } else {
        seq![g] + gains_from(sq, t, occ & !(1u64 << (ls as u64)), 1 - side, lv, av - g, d + 1)
    }
}

/// The exchange goes on to a 32nd capture (its gain list has no room for it).
pub open spec fn overflows(sq: Seq<u8>, t: int, occ: u64, side: int, av: int, g: int, d: int) -> bool
    decreases 32 - d,
{
    let (ls, lv) = lva(sq, t, side, occ);
    if ls >= 64 || d < 0 {
        false
    } else if d + 1 >= 32 {
        true
    } else {
        overflows(sq, t, occ & !(1u64 << (ls as u64)), 1 - side, lv, av - g, d + 1)
    }
}

/// Value of a gain list when each side may stop: the last gain, and before
/// it the lesser of a gain and minus the value of the rest.
pub open spec fn back(gs: Seq<int>) -> int
    decreases gs.len(),
{
    if gs.len() <= 1 {
        if gs.len() == 1 { gs[0] } else { 0 }
    } else {
        let rest = back(gs.drop_first());
        if gs[0] < -rest { gs[0] } else { -rest }
    }
}

/// The exchange on `t` after the first capture, given the squares still
/// occupied and the value of the piece taken first: `None` where it
/// overflows.
pub open spec fn exchange(b: Board, m: Move, occ: u64, victim: int) -> Option<int> {
    let mover = b.sq@[m.from as int];
    let side = 1 - pc(mover);
    let av = see_value(pt(mover));
    if overflows(b.sq@, m.to as int, occ, side, av, victim, 0) {
        None
    } else {
        Some(back(gains_from(b.sq@, m.to as int, occ, side, av, victim, 0)))
    }
}

/// Static exchange value of the capture `m` for the side making it: 0 when
/// `m` takes nothing; an en-passant capture takes the pawn behind the
/// target square; a promotion counts as a pawn. `None` where computing it
/// would panic (an en-passant pawn off the board, an exchange of 32
/// captures).
pub open spec fn see_outcome(b: Board, m: Move) -> Option<int> {
    let t = m.to as int;
    let mover = b.sq@[m.from as int];
    let occ0 = (b.occ[0] | b.occ[1]) & !(1u64 << m.from);
    if b.sq@[t] != EMPTY {
        exchange(b, m, occ0, see_value(pt(b.sq@[t])))
    } else if pt(mover) == PAWN as int && b.ep == Some(m.to) {
        let cap = if pc(mover) == WHITE as int { t - 8 } else { t + 8 };
        if cap < 0 || cap >= 64 {
            None
        } else {
            exchange(b, m, occ0 & !(1u64 << (cap as u64)), 100)
        }
    } else {
        Some(0)
    }
}

proof fn lemma_lva_agree(sq: Seq<u8>, p1: spec_fn(int) -> bool, p2: spec_fn(int) -> bool, n: int)
    requires
        n <= 64,
        forall|s: int| 0 <= s < 64 ==> #[trigger] p1(s) == p2(s),
    ensures
        lva_upto(sq, p1, n) == lva_upto(sq, p2, n),
    decreases n,
{
    if n > 0 {
        lemma_lva_agree(sq, p1, p2, n - 1);
        assert(p1(n - 1) == p2(n - 1));
    }
}

proof fn lemma_lva_range(sq: Seq<u8>, p: spec_fn(int) -> bool, n: int)
    requires
        n <= 64,
    ensures
        lva_upto(sq, p, n).0 == 64 || (0 <= lva_upto(sq, p, n).0 < n && p(lva_upto(sq, p, n).0)
            && lva_upto(sq, p, n).1 == see_value(pt(sq[lva_upto(sq, p, n).0]))),
        lva_upto(sq, p, n).0 == 64 <==> lva_upto(sq, p, n).1 == 0x7fff_ffff,
        lva_upto(sq, p, n).0 == 64 ==> forall|s: int| 0 <= s < n ==> !#[trigger] p(s),
    decreases n,
{
    if n > 0 {
        lemma_lva_range(sq, p, n - 1);
    }
}

proof fn lemma_back_bound(gs: Seq<int>, k: int)
    requires
        k >= 0,
        forall|j: int| 0 <= j < gs.len() ==> -k <= #[trigger] gs[j] <= k,
    ensures
        -k <= back(gs) <= k,
    decreases gs.len(),
{
    if gs.len() > 1 {
        lemma_back_bound(gs.drop_first(), k);
    }
}

/// The entries of `s` as integers.
pub open spec fn ints(s: Seq<i32>) -> Seq<int> {
    s.map_values(|x: i32| x as int)
}

/// Exchange value of a piece type (see `see_value`).
fn see_value_of(t: u8) -> (v: i32)
    ensures
        v == see_value(t as int),
{
    if t == PAWN {
        100
    } else if t == KNIGHT {
        320
    } else if t == BISHOP {
        330
    } else if t == ROOK {
        500
    } else if t == QUEEN {
        900
    } else if t == KING {
        10000
    } else {
        0
    }
}

impl Board {
    /// Squares of the pieces of `side` still in `occ` that attack `t` (see `see_attacker`).
    fn see_attackers(&self, t: u8, side: u8, occ: u64) -> (r: u64)
        requires
            self.wf(),
            t < 64,
            side <= 1,
        ensures
            forall|s: int| 0 <= s < 64 ==> (#[trigger] bit(r, s) <==> see_attacker(self.sq@, t as int, side as int, occ, s)),
    {
        let f = file_of(t);
        let r = rank_of(t);
        let dr: i8 = if side == WHITE { -1 } else { 1 };
        let mut a: u64 = 0;
        proof {
            lemma_bits_ops(0, 0);
        }
        let nf = f - 1;
        let nr = r + dr;
        if 0 <= nf && nf < 8 && 0 <= nr && nr < 8 {
            let s1 = (nr * 8 + nf) as u64;
            proof {
                lemma_bits_ops(a, 1u64 << s1);
                lemma_bits_single(s1);
            }
            a = a | (1u64 << s1);
        }
        let ghost a1 = a;
        let nf2 = f + 1;
        if 0 <= nf2 && nf2 < 8 && 0 <= nr && nr < 8 {
            let s2 = (nr * 8 + nf2) as u64;
            proof {
                lemma_bits_ops(a, 1u64 << s2);
                lemma_bits_single(s2);
            }
            a = a | (1u64 << s2);
        }
        assert forall|s: int| 0 <= s < 64 implies (#[trigger] bit(a, s) <==> pawn_source(t as int, side as int, s)) by {
            assert(file(t as int) == f && rank(t as int) == r);
        }
        let kn = leaper_attacks_of(t, true);
        let kg = leaper_attacks_of(t, false);
        let diag = slider_attacks(t, occ, true);
        let orth = slider_attacks(t, occ, false);
        let pawns = a & self.pieces[PAWN as usize];
        let knights = kn & self.pieces[KNIGHT as usize];
        let kings = kg & self.pieces[KING as usize];
        let bq = self.pieces[BISHOP as usize] | self.pieces[QUEEN as usize];
        let rq = self.pieces[ROOK as usize] | self.pieces[QUEEN as usize];
        let ds = diag & bq;
        let os = orth & rq;
        let set = (((pawns | knights) | kings) | ds) | os;
        let mine = set & self.occ[side as usize];
        let res = mine & occ;
        proof {
            lemma_bits_ops(a, self.pieces@[PAWN as int]);
            lemma_bits_ops(kn, self.pieces@[KNIGHT as int]);
            lemma_bits_ops(kg, self.pieces@[KING as int]);
            lemma_bits_ops(self.pieces@[BISHOP as int], self.pieces@[QUEEN as int]);
            lemma_bits_ops(self.pieces@[ROOK as int], self.pieces@[QUEEN as int]);
            lemma_bits_ops(diag, bq);
            lemma_bits_ops(orth, rq);
            lemma_bits_ops(pawns, knights);
            lemma_bits_ops(pawns | knights, kings);
            lemma_bits_ops((pawns | knights) | kings, ds);
            lemma_bits_ops(((pawns | knights) | kings) | ds, os);
            lemma_bits_ops(set, self.occ@[side as int]);
            lemma_bits_ops(mine, occ);
            assert forall|s: int| 0 <= s < 64 implies (#[trigger] bit(res, s) <==> see_attacker(self.sq@, t as int, side as int, occ, s)) by {
                assert(bit(self.pieces@[PAWN as int], s) <==> self.sq@[s] != EMPTY && pt(self.sq@[s]) == PAWN);
                assert(bit(self.pieces@[KNIGHT as int], s) <==> self.sq@[s] != EMPTY && pt(self.sq@[s]) == KNIGHT);
                assert(bit(self.pieces@[KING as int], s) <==> self.sq@[s] != EMPTY && pt(self.sq@[s]) == KING);
                assert(bit(self.pieces@[BISHOP as int], s) <==> self.sq@[s] != EMPTY && pt(self.sq@[s]) == BISHOP);
                assert(bit(self.pieces@[ROOK as int], s) <==> self.sq@[s] != EMPTY && pt(self.sq@[s]) == ROOK);
                assert(bit(self.pieces@[QUEEN as int], s) <==> self.sq@[s] != EMPTY && pt(self.sq@[s]) == QUEEN);
                assert(bit(self.occ@[side as int], s) <==> colored(self.sq@[s], side as int));
                assert(bit(kn, s) <==> leap(true, t as int, s));
                assert(bit(kg, s) <==> leap(false, t as int, s));
                assert(bit(diag, s) <==> slides(occ_blocked(occ), t as int, true, s));
                assert(bit(orth, s) <==> slides(occ_blocked(occ), t as int, false, s));
            }
        }
        res
    }

    /// Least valuable square of `atts`, lowest first on equal value, with
    /// its value (see `lva_upto`).
    fn least_valuable(&self, atts: u64) -> (r: (u8, i32))
        requires
            self.wf(),
        ensures
            (r.0 as int, r.1 as int) == lva_upto(self.sq@, |s: int| bit(atts, s), 64),
    {
        let ghost p = |s: int| bit(atts, s);
        let mut best_sq: u8 = 64;
        let mut best_val: i32 = 0x7fff_ffff;
        let mut s: usize = 0;
        while s < 64
            invariant
                s <= 64,
                self.wf(),
                p == (|s: int| bit(atts, s)),
                (best_sq as int, best_val as int) == lva_upto(self.sq@, p, s as int),
            decreases 64 - s,
        {
            proof {
                lemma_bit_test(atts, s as u64);
            }
            if atts & (1u64 << s) != 0 {
                let v = see_value_of(ptype(self.sq[s]));
                if v < best_val {
                    best_val = v;
                    best_sq = s as u8;
                }
            }
            s = s + 1;
        }
        (best_sq, best_val)
    }

    /// Static exchange value of the capture `m` (see `see_outcome`); `None`
    /// exactly where computing it would panic.
    pub fn see_checked(&self, m: Move) -> (r: Option<i32>)
        requires
            self.wf(),
            m.from < 64,
            m.to < 64,
        ensures
            match r {
                Some(v) => see_outcome(*self, m) == Some(v as int),
                None => see_outcome(*self, m) is None,
            },
    {
        let t = m.to as usize;
        let mover = self.sq[m.from as usize];
        assert(valid_piece(self.sq@[m.from as int]));
        assert(valid_piece(self.sq@[t as int]));
        proof {
            lemma_bits_ops(self.occ@[0], self.occ@[1]);
        }
        let mut occ_all = (self.occ[0] | self.occ[1]) & !(1u64 << m.from);
        let victim_val: i32 = if self.sq[t] != EMPTY {
            see_value_of(ptype(self.sq[t]))
        } else if ptype(mover) == PAWN && self.ep == Some(m.to) {
            if pcolor(mover) == WHITE {
                if t < 8 {
                    return None;
                }
                occ_all = occ_all & !(1u64 << ((t - 8) as u64));
            } else {
                if t + 8 >= 64 {
                    return None;
                }
                occ_all = occ_all & !(1u64 << ((t + 8) as u64));
            }
            100
        } else {
            return Some(0);
        };
        let ghost occ_start = occ_all;
        let mut gain: [i32; 32] = [0i32; 32];
        let mut d: usize = 0;
        gain[0] = victim_val;
        let mut attacker_val = see_value_of(ptype(mover));
        let mc = pcolor(mover);
        let mut side: u8 = mc ^ 1;
        assert(side == 1 - pc(mover)) by {
            assert(mc == 0 || mc == 1);
            crate::bits::lemma_u8_flip(mc);
        }
        let ghost side0 = side as int;
        let ghost av0 = attacker_val as int;
        let ghost cs = gains_from(self.sq@, t as int, occ_start, side0, av0, victim_val as int, 0);
        assert(see_outcome(*self, m) == exchange(*self, m, occ_start, victim_val as int));
        assert(exchange(*self, m, occ_start, victim_val as int) == if overflows(self.sq@, t as int, occ_start, side0, av0, victim_val as int, 0) {
            None::<int>
        } else {
            Some(back(cs))
        });
        loop
            invariant_except_break
                d < 32,
                gain@.len() == 32,
                side <= 1,
                0 <= attacker_val <= 10000,
                -((d + 1) * 10000) <= gain@[d as int] <= (d + 1) * 10000,
                forall|j: int| 0 <= j <= d ==> -320000 <= #[trigger] gain@[j] <= 320000,
                self.wf(),
                t < 64,
                see_outcome(*self, m) == if overflows(self.sq@, t as int, occ_start, side0, av0, victim_val as int, 0) {
                    None::<int>
                } else {
                    Some(back(cs))
                },
                cs == ints(gain@).subrange(0, d as int) + gains_from(self.sq@, t as int, occ_all, side as int, attacker_val as int, gain@[d as int] as int, d as int),
                overflows(self.sq@, t as int, occ_start, side0, av0, victim_val as int, 0)
                    == overflows(self.sq@, t as int, occ_all, side as int, attacker_val as int, gain@[d as int] as int, d as int),
            ensures
                d < 32,
                gain@.len() == 32,
                forall|j: int| 0 <= j <= d ==> -320000 <= #[trigger] gain@[j] <= 320000,
                cs == ints(gain@).subrange(0, d as int + 1),
                see_outcome(*self, m) == Some(back(cs)),
                !overflows(self.sq@, t as int, occ_start, side0, av0, victim_val as int, 0),
            decreases 32 - d,
        {
            let atts = self.see_attackers(t as u8, side, occ_all);
            let ghost pa = |s: int| see_attacker(self.sq@, t as int, side as int, occ_all, s);
            proof {
                lemma_lva_agree(self.sq@, |s: int| bit(atts, s), pa, 64);
                lemma_lva_range(self.sq@, pa, 64);
            }
            if atts == 0 {
                proof {
                    lemma_bits_ops(0, 0);
                    assert(lva(self.sq@, t as int, side as int, occ_all).0 == 64) by {
                        if lva(self.sq@, t as int, side as int, occ_all).0 != 64 {
                            let w = lva(self.sq@, t as int, side as int, occ_all).0;
                            assert(pa(w));
                            assert(bit(atts, w));
                        }
                    }
                    assert(ints(gain@).subrange(0, d as int) + seq![gain@[d as int] as int] =~= ints(gain@).subrange(0, d as int + 1));
                }
                break;
            }
            let (lva_sq, lva_val) = self.least_valuable(atts);
            proof {
                assert(lva_sq < 64) by {
                    if lva_sq >= 64 {
                        assert(forall|s: int| 0 <= s < 64 ==> !#[trigger] pa(s));
                        assert forall|s: int| 0 <= s < 64 implies !#[trigger] bit(atts, s) by {
                            assert(!pa(s));
                        }
                        lemma_bits_ops(0, 0);
                        crate::bits::lemma_bits_ext(atts, 0);
                    }
                }
                assert(valid_piece(self.sq@[lva_sq as int]));
            }
            if d + 1 >= 32 {
                return None;
            }
            d = d + 1;
            gain[d] = attacker_val - gain[d - 1];
            proof {
                lemma_bits_remove(occ_all, lva_sq as u64);
            }
            attacker_val = lva_val;
            occ_all = occ_all & !(1u64 << (lva_sq as u64));
            let ghost old_side = side;
            side = side ^ 1;
            assert(side == 1 - old_side) by {
                assert(old_side == 0 || old_side == 1);
                crate::bits::lemma_u8_flip(old_side);
            }
            proof {
                assert(ints(gain@).subrange(0, d as int) =~= ints(gain@).subrange(0, d as int - 1) + seq![gain@[d as int - 1] as int]);
            }
        }
        assert(cs.len() == d + 1);
        let ghost len = d + 1;
        while d > 0
            invariant
                d < 32,
                len == cs.len(),
                d < len,
                gain@.len() == 32,
                forall|j: int| 0 <= j < d ==> #[trigger] gain@[j] == cs[j],
                forall|j: int| 0 <= j < cs.len() ==> -320000 <= #[trigger] cs[j] <= 320000,
                gain@[d as int] == back(cs.subrange(d as int, len as int)),
                -320000 <= gain@[d as int] <= 320000,
            decreases d,
        {
            let a = -gain[d - 1];
            let b = gain[d];
            let mx = if a >= b { a } else { b };
            gain[d - 1] = -mx;
            proof {
                assert(cs.subrange(d as int - 1, len as int).drop_first() =~= cs.subrange(d as int, len as int));
                assert(cs.subrange(d as int - 1, len as int)[0] == cs[d as int - 1]);
            }
            d = d - 1;
        }
        assert(cs.subrange(0, len as int) =~= cs);
        Some(gain[0])
    }

    /// Static exchange value of the capture `m` (see `see_outcome`), for
    /// captures whose evaluation does not panic.
    pub fn see(&self, m: Move) -> (v: i32)
        requires
            self.wf(),
            m.from < 64,
            m.to < 64,
            see_outcome(*self, m) is Some,
        ensures
            see_outcome(*self, m) == Some(v as int),
    {
        match self.see_checked(m) {
            Some(v) => v,
            None => {
                assert(false);
                0
            },
        }
    }
}


/// The value of the piece the capture `m` takes first: the piece on its
/// target square, the pawn behind it for an en-passant capture, else
/// nothing.
pub open spec fn see_victim(b: Board, m: Move) -> int {
    if b.sq@[m.to as int] != EMPTY {
        see_value(pt(b.sq@[m.to as int]))
    } else if pt(b.sq@[m.from as int]) == PAWN as int && b.ep == Some(m.to) {
        100
    } else {
        0
    }
}

/// Each side may stop the exchange: its value is at most the first gain,
/// and at least the lesser of the first gain and what the first
/// recapture leaves.
proof fn lemma_back_bounds(gs: Seq<int>)
    requires
        gs.len() >= 1,
    ensures
        back(gs) <= gs[0],
        gs.len() >= 2 ==> back(gs) >= if gs[0] < -gs[1] { gs[0] } else { -gs[1] },
{
    if gs.len() >= 2 {
        let rest = gs.drop_first();
        if rest.len() >= 2 {
            assert(back(rest) == if rest[0] < -back(rest.drop_first()) { rest[0] } else { -back(rest.drop_first()) });
        }
        assert(back(rest) <= rest[0]);
        assert(rest[0] == gs[1]);
    }
}

/// The gain list starts with the first gain, and the recapture (if any)
/// leaves the capturer's value less it.
proof fn lemma_gains_start(sq: Seq<u8>, t: int, occ: u64, side: int, av: int, g: int)
    ensures
        gains_from(sq, t, occ, side, av, g, 0).len() >= 1,
        gains_from(sq, t, occ, side, av, g, 0)[0] == g,
        gains_from(sq, t, occ, side, av, g, 0).len() >= 2 ==> gains_from(sq, t, occ, side, av, g, 0)[1] == av - g,
{
    let (ls, lv) = lva(sq, t, side, occ);
    if !(ls >= 64) {
        let rest = gains_from(sq, t, occ & !(1u64 << (ls as u64)), 1 - side, lv, av - g, 1);
        let (ls2, lv2) = lva(sq, t, 1 - side, occ & !(1u64 << (ls as u64)));
        assert(rest[0] == av - g);
    }
}

/// Static exchange never gains more than the piece taken first (the other
/// side may decline to recapture), and never loses more than the capturer
/// on top of it (the capturing side may stop after one recapture).
pub proof fn lemma_see_bounds(b: Board, m: Move)
    requires
        see_outcome(b, m) is Some,
    ensures
        see_outcome(b, m)->0 <= see_victim(b, m),
        see_outcome(b, m)->0 >= see_victim(b, m) - see_value(pt(b.sq@[m.from as int])),
{
    let t = m.to as int;
    let mover = b.sq@[m.from as int];
    let side = 1 - pc(mover);
    let av = see_value(pt(mover));
    let occ0 = (b.occ[0] | b.occ[1]) & !(1u64 << m.from);
    let v = see_victim(b, m);
    assert(av >= 0);
    if b.sq@[t] != EMPTY {
        lemma_gains_start(b.sq@, t, occ0, side, av, v);
        lemma_back_bounds(gains_from(b.sq@, t, occ0, side, av, v, 0));
    } else if pt(mover) == PAWN as int && b.ep == Some(m.to) {
        let cap = if pc(mover) == WHITE as int { t - 8 } else { t + 8 };
        let occ1 = occ0 & !(1u64 << (cap as u64));
        lemma_gains_start(b.sq@, t, occ1, side, av, 100);
        lemma_back_bounds(gains_from(b.sq@, t, occ1, side, av, 100, 0));
    }
}

} // verus!
