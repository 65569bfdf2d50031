//! Board geometry and attacks: knight and king steps, sliding rays that
//! stop at the first blocker, and whether a square is attacked by a side.

use vstd::prelude::*;
use vstd::std_specs::bits::u64_trailing_zeros;
use crate::bits::{
    bit, occ_blocked, sub_one, lemma_bits_ops, lemma_bits_insert, lemma_bit_test, lemma_lowest_bit,
};
use crate::board::{
    Board, EMPTY, PAWN, KNIGHT, BISHOP, ROOK, QUEEN, KING, WHITE, pc, pt, piece, colored,
    valid_piece, squares_valid, occ_consistent, make_piece, ptype, file_of, rank_of,
};

verus! {

pub open spec fn file(s: int) -> int {
    s % 8
}

pub open spec fn rank(s: int) -> int {
    s / 8
}

pub open spec fn on_board(f: int, r: int) -> bool {
    0 <= f < 8 && 0 <= r < 8
}

/// The square of file `f` and rank `r`.
pub open spec fn at(f: int, r: int) -> int {
    r * 8 + f
}

pub proof fn lemma_coords(s: int)
    requires
        0 <= s < 64,
    ensures
        0 <= file(s) < 8,
        0 <= rank(s) < 8,
        at(file(s), rank(s)) == s,
{
}

pub proof fn lemma_at(f: int, r: int)
    requires
        on_board(f, r),
    ensures
        0 <= at(f, r) < 64,
        file(at(f, r)) == f,
        rank(at(f, r)) == r,
{
}

/// `u` is a knight's move away from `s`.
pub open spec fn knight_step(s: int, u: int) -> bool {
    let df = file(u) - file(s);
    let dr = rank(u) - rank(s);
    ((df == 1 || df == -1) && (dr == 2 || dr == -2)) || ((df == 2 || df == -2) && (dr == 1 || dr
        == -1))
}

/// `u` is a king's move away from `s`.
pub open spec fn king_step(s: int, u: int) -> bool {
    let df = file(u) - file(s);
    let dr = rank(u) - rank(s);
    -1 <= df <= 1 && -1 <= dr <= 1 && !(df == 0 && dr == 0)
}

pub open spec fn leap(knight: bool, s: int, u: int) -> bool {
    if knight {
        knight_step(s, u)
    } else {
        king_step(s, u)
    }
}

/// Direction `d` of the eight: 0 (1,1) 1 (1,-1) 2 (-1,1) 3 (-1,-1)
/// 4 (1,0) 5 (-1,0) 6 (0,1) 7 (0,-1), as (file step, rank step);
/// 0..4 are diagonal, 4..8 orthogonal.
pub open spec fn dir_df(d: int) -> int {
    if d == 0 || d == 1 || d == 4 {
        1
    } else if d == 2 || d == 3 || d == 5 {
        -1
    } else {
        0
    }
}

pub open spec fn dir_dr(d: int) -> int {
    if d == 0 || d == 2 || d == 6 {
        1
    } else if d == 1 || d == 3 || d == 7 {
        -1
    } else {
        0
    }
}

/// `x * k` for a step `x` in {-1, 0, 1}.
pub open spec fn times(x: int, k: int) -> int {
    if x == 1 {
        k
    } else if x == -1 {
        -k
    } else {
        0
    }
}

/// The square `k` steps from `s` along direction `d` is on the board.
pub open spec fn ray_on(s: int, d: int, k: int) -> bool {
    on_board(file(s) + times(dir_df(d), k), rank(s) + times(dir_dr(d), k))
}

/// The square `k` steps from `s` along direction `d`.
pub open spec fn ray_sq(s: int, d: int, k: int) -> int {
    at(file(s) + times(dir_df(d), k), rank(s) + times(dir_dr(d), k))
}

/// Walking along direction `d` from `s`, starting at step `k`, the walk
/// reaches `t`: every square before `t` is free, `t` itself may be blocked.
pub open spec fn reach(blocked: spec_fn(int) -> bool, s: int, d: int, k: int, t: int) -> bool
    decreases 8 - k,
{
    if k < 1 || k > 7 || !ray_on(s, d, k) {
        false
    } else if ray_sq(s, d, k) == t {
        true
    } else if blocked(ray_sq(s, d, k)) {
        false
    } else {
        reach(blocked, s, d, k + 1, t)
    }
}

/// A slider on `s` (diagonal or orthogonal) reaches `t`.
pub open spec fn slides(blocked: spec_fn(int) -> bool, s: int, diag: bool, t: int) -> bool {
    if diag {
        reach(blocked, s, 0, 1, t) || reach(blocked, s, 1, 1, t) || reach(blocked, s, 2, 1, t)
            || reach(blocked, s, 3, 1, t)
    } else {
        reach(blocked, s, 4, 1, t) || reach(blocked, s, 5, 1, t) || reach(blocked, s, 6, 1, t)
            || reach(blocked, s, 7, 1, t)
    }
}

/// Occupied squares of a mailbox as a blocker predicate.
pub open spec fn sq_blocked(sq: Seq<u8>) -> spec_fn(int) -> bool {
    |u: int| sq[u] != EMPTY
}

/// Two blocker predicates that agree on the board give the same walks.
pub proof fn lemma_reach_agree(
    b1: spec_fn(int) -> bool,
    b2: spec_fn(int) -> bool,
    s: int,
    d: int,
    k: int,
    t: int,
)
    requires
        0 <= s < 64,
        forall|u: int| 0 <= u < 64 ==> #[trigger] b1(u) == b2(u),
    ensures
        reach(b1, s, d, k, t) == reach(b2, s, d, k, t),
    decreases 8 - k,
{
    if k < 1 || k > 7 || !ray_on(s, d, k) {
    } else {
        lemma_at(file(s) + times(dir_df(d), k), rank(s) + times(dir_dr(d), k));
        lemma_reach_agree(b1, b2, s, d, k + 1, t);
    }
}

pub proof fn lemma_slides_agree(b1: spec_fn(int) -> bool, b2: spec_fn(int) -> bool, s: int, t: int)
    requires
        0 <= s < 64,
        forall|u: int| 0 <= u < 64 ==> #[trigger] b1(u) == b2(u),
    ensures
        slides(b1, s, true, t) == slides(b2, s, true, t),
        slides(b1, s, false, t) == slides(b2, s, false, t),
{
    lemma_reach_agree(b1, b2, s, 0, 1, t);
    lemma_reach_agree(b1, b2, s, 1, 1, t);
    lemma_reach_agree(b1, b2, s, 2, 1, t);
    lemma_reach_agree(b1, b2, s, 3, 1, t);
    lemma_reach_agree(b1, b2, s, 4, 1, t);
    lemma_reach_agree(b1, b2, s, 5, 1, t);
    lemma_reach_agree(b1, b2, s, 6, 1, t);
    lemma_reach_agree(b1, b2, s, 7, 1, t);
    assert(reach(b1, s, 0, 1, t) == reach(b2, s, 0, 1, t));
    assert(reach(b1, s, 1, 1, t) == reach(b2, s, 1, 1, t));
    assert(reach(b1, s, 2, 1, t) == reach(b2, s, 2, 1, t));
    assert(reach(b1, s, 3, 1, t) == reach(b2, s, 3, 1, t));
    assert(reach(b1, s, 4, 1, t) == reach(b2, s, 4, 1, t));
    assert(reach(b1, s, 5, 1, t) == reach(b2, s, 5, 1, t));
    assert(reach(b1, s, 6, 1, t) == reach(b2, s, 6, 1, t));
    assert(reach(b1, s, 7, 1, t) == reach(b2, s, 7, 1, t));
}

/// A pawn of side `by` attacks `t`.
pub open spec fn pawn_attacks(sq: Seq<u8>, t: int, by: int) -> bool {
    let dr: int = if by == WHITE { -1 } else { 1 };
    let f = file(t);
    let r = rank(t);
    (on_board(f - 1, r + dr) && sq[at(f - 1, r + dr)] == piece(by, PAWN as int)) || (on_board(
        f + 1,
        r + dr,
    ) && sq[at(f + 1, r + dr)] == piece(by, PAWN as int))
}

/// A piece `p` stands a knight's (king's) move away from `t`.
pub open spec fn leaper_attacks(sq: Seq<u8>, t: int, knight: bool, p: u8) -> bool {
    exists|s: int| 0 <= s < 64 && #[trigger] leap(knight, t, s) && sq[s] == p
}

/// A slider of side `by`, of type `slider` or a queen, sees `t`.
pub open spec fn slider_sees(sq: Seq<u8>, t: int, diag: bool, by: int, slider: int) -> bool {
    exists|s: int|
        0 <= s < 64 && #[trigger] slides(sq_blocked(sq), t, diag, s) && colored(sq[s], by) && (pt(
            sq[s],
        ) == slider || pt(sq[s]) == QUEEN)
}

/// Square `t` is attacked by side `by`.
pub open spec fn is_attacked(sq: Seq<u8>, t: int, by: int) -> bool {
    ||| pawn_attacks(sq, t, by)
    ||| leaper_attacks(sq, t, true, piece(by, KNIGHT as int))
    ||| leaper_attacks(sq, t, false, piece(by, KING as int))
    ||| slider_sees(sq, t, true, by, BISHOP as int)
    ||| slider_sees(sq, t, false, by, ROOK as int)
}

/// `m` with square (f, r) added when it is on the board.
fn with_target(m: u64, f: i8, r: i8) -> (out: u64)
    requires
        -3 <= f <= 10,
        -3 <= r <= 10,
    ensures
        forall|u: int|
            0 <= u < 64 ==> (#[trigger] bit(out, u) <==> bit(m, u) || (on_board(f as int, r as int)
                && u == at(f as int, r as int))),
{
    if 0 <= f && f < 8 && 0 <= r && r < 8 {
        let t = (r * 8 + f) as u64;
        proof {
            lemma_bits_insert(m, t);
        }
        m | (1u64 << t)
    } else {
        m
    }
}

pub proof fn lemma_at_eq(u: int, f: int, r: int)
    requires
        0 <= u < 64,
    ensures
        (on_board(f, r) && u == at(f, r)) <==> (file(u) == f && rank(u) == r),
{
}

/// Squares a knight on `s` attacks.
fn knight_attacks_of(s: u8) -> (m: u64)
    requires
        s < 64,
    ensures
        forall|u: int| 0 <= u < 64 ==> (#[trigger] bit(m, u) <==> knight_step(s as int, u)),
{
    let f = file_of(s);
    let r = rank_of(s);
    proof {
        lemma_bits_ops(0, 0);
    }
    let m1 = with_target(0, f + 1, r + 2);
    let m2 = with_target(m1, f + 2, r + 1);
    let m3 = with_target(m2, f + 2, r - 1);
    let m4 = with_target(m3, f + 1, r - 2);
    let m5 = with_target(m4, f - 1, r - 2);
    let m6 = with_target(m5, f - 2, r - 1);
    let m7 = with_target(m6, f - 2, r + 1);
    let m8 = with_target(m7, f - 1, r + 2);
    assert forall|u: int| 0 <= u < 64 implies (#[trigger] bit(m8, u) <==> knight_step(s as int, u)) by {
        let fi = f as int;
        let ri = r as int;
        assert(bit(m1, u) <==> bit(0u64, u) || (on_board(fi + 1, ri + 2) && u == at(fi + 1, ri + 2)));
        assert(bit(m2, u) <==> bit(m1, u) || (on_board(fi + 2, ri + 1) && u == at(fi + 2, ri + 1)));
        assert(bit(m3, u) <==> bit(m2, u) || (on_board(fi + 2, ri - 1) && u == at(fi + 2, ri - 1)));
        assert(bit(m4, u) <==> bit(m3, u) || (on_board(fi + 1, ri - 2) && u == at(fi + 1, ri - 2)));
        assert(bit(m5, u) <==> bit(m4, u) || (on_board(fi - 1, ri - 2) && u == at(fi - 1, ri - 2)));
        assert(bit(m6, u) <==> bit(m5, u) || (on_board(fi - 2, ri - 1) && u == at(fi - 2, ri - 1)));
        assert(bit(m7, u) <==> bit(m6, u) || (on_board(fi - 2, ri + 1) && u == at(fi - 2, ri + 1)));
        assert(bit(m8, u) <==> bit(m7, u) || (on_board(fi - 1, ri + 2) && u == at(fi - 1, ri + 2)));
        lemma_at_eq(u, fi + 1, ri + 2);
        lemma_at_eq(u, fi + 2, ri + 1);
        lemma_at_eq(u, fi + 2, ri - 1);
        lemma_at_eq(u, fi + 1, ri - 2);
        lemma_at_eq(u, fi - 1, ri - 2);
        lemma_at_eq(u, fi - 2, ri - 1);
        lemma_at_eq(u, fi - 2, ri + 1);
        lemma_at_eq(u, fi - 1, ri + 2);
    }
    m8
}

/// Squares a king on `s` attacks.
fn king_attacks_of(s: u8) -> (m: u64)
    requires
        s < 64,
    ensures
        forall|u: int| 0 <= u < 64 ==> (#[trigger] bit(m, u) <==> king_step(s as int, u)),
{
    let f = file_of(s);
    let r = rank_of(s);
    proof {
        lemma_bits_ops(0, 0);
    }
    let m1 = with_target(0, f + 1, r);
    let m2 = with_target(m1, f + 1, r + 1);
    let m3 = with_target(m2, f, r + 1);
    let m4 = with_target(m3, f - 1, r + 1);
    let m5 = with_target(m4, f - 1, r);
    let m6 = with_target(m5, f - 1, r - 1);
    let m7 = with_target(m6, f, r - 1);
    let m8 = with_target(m7, f + 1, r - 1);
    assert forall|u: int| 0 <= u < 64 implies (#[trigger] bit(m8, u) <==> king_step(s as int, u)) by {
        let fi = f as int;
        let ri = r as int;
        assert(bit(m1, u) <==> bit(0u64, u) || (on_board(fi + 1, ri) && u == at(fi + 1, ri)));
        assert(bit(m2, u) <==> bit(m1, u) || (on_board(fi + 1, ri + 1) && u == at(fi + 1, ri + 1)));
        assert(bit(m3, u) <==> bit(m2, u) || (on_board(fi, ri + 1) && u == at(fi, ri + 1)));
        assert(bit(m4, u) <==> bit(m3, u) || (on_board(fi - 1, ri + 1) && u == at(fi - 1, ri + 1)));
        assert(bit(m5, u) <==> bit(m4, u) || (on_board(fi - 1, ri) && u == at(fi - 1, ri)));
        assert(bit(m6, u) <==> bit(m5, u) || (on_board(fi - 1, ri - 1) && u == at(fi - 1, ri - 1)));
        assert(bit(m7, u) <==> bit(m6, u) || (on_board(fi, ri - 1) && u == at(fi, ri - 1)));
        assert(bit(m8, u) <==> bit(m7, u) || (on_board(fi + 1, ri - 1) && u == at(fi + 1, ri - 1)));
        lemma_at_eq(u, fi + 1, ri);
        lemma_at_eq(u, fi + 1, ri + 1);
        lemma_at_eq(u, fi, ri + 1);
        lemma_at_eq(u, fi - 1, ri + 1);
        lemma_at_eq(u, fi - 1, ri);
        lemma_at_eq(u, fi - 1, ri - 1);
        lemma_at_eq(u, fi, ri - 1);
        lemma_at_eq(u, fi + 1, ri - 1);
    }
    m8
}

/// Squares a knight (`knight`) or a king (`!knight`) on `s` attacks.
pub fn leaper_attacks_of(s: u8, knight: bool) -> (m: u64)
    requires
        s < 64,
    ensures
        forall|u: int|
            0 <= u < 64 ==> (#[trigger] bit(m, u) <==> #[trigger] leap(knight, s as int, u)),
{
    if knight {
        knight_attacks_of(s)
    } else {
        king_attacks_of(s)
    }
}

pub fn dir_df_exec(d: u8) -> (r: i8)
    requires
        d < 8,
    ensures
        r == dir_df(d as int),
{
    if d == 0 || d == 1 || d == 4 {
        1
    } else if d == 2 || d == 3 || d == 5 {
        -1
    } else {
        0
    }
}

pub fn dir_dr_exec(d: u8) -> (r: i8)
    requires
        d < 8,
    ensures
        r == dir_dr(d as int),
{
    if d == 0 || d == 2 || d == 6 {
        1
    } else if d == 1 || d == 3 || d == 7 {
        -1
    } else {
        0
    }
}

/// One step of a ray walk: square `t` at step `k` is added to the walked set.
proof fn lemma_ray_step(occ: u64, s: int, d: int, k: int, t: int, att: u64, acc: u64, nacc: u64)
    requires
        1 <= k <= 7,
        ray_on(s, d, k),
        ray_sq(s, d, k) == t,
        0 <= t < 64,
        forall|u: int|
            0 <= u < 64 ==> ((bit(att, u) || reach(occ_blocked(occ), s, d, 1, u)) == (
            #[trigger] bit(acc, u) || reach(occ_blocked(occ), s, d, k, u))),
        forall|u: int| 0 <= u < 64 ==> (#[trigger] bit(nacc, u) == (bit(acc, u) || u == t)),
    ensures
        bit(occ, t) ==> forall|u: int|
            0 <= u < 64 ==> ((bit(att, u) || reach(occ_blocked(occ), s, d, 1, u)) == #[trigger] bit(
                nacc,
                u,
            )),
        !bit(occ, t) ==> forall|u: int|
            0 <= u < 64 ==> ((bit(att, u) || reach(occ_blocked(occ), s, d, 1, u)) == (
            #[trigger] bit(nacc, u) || reach(occ_blocked(occ), s, d, k + 1, u))),
{
    assert forall|u: int| 0 <= u < 64 implies #[trigger] reach(occ_blocked(occ), s, d, k, u) == (u
        == t || (!bit(occ, t) && reach(occ_blocked(occ), s, d, k + 1, u))) by {
    }
    if bit(occ, t) {
        assert forall|u: int|
            0 <= u < 64 implies ((bit(att, u) || reach(occ_blocked(occ), s, d, 1, u)) == #[trigger] bit(
            nacc,
            u,
        )) by {
            assert((bit(att, u) || reach(occ_blocked(occ), s, d, 1, u)) == (bit(acc, u) || reach(occ_blocked(occ), s, d, k, u)));
            assert(reach(occ_blocked(occ), s, d, k, u) == (u == t));
            assert(bit(nacc, u) == (bit(acc, u) || u == t));
        }
    } else {
        assert forall|u: int|
            0 <= u < 64 implies ((bit(att, u) || reach(occ_blocked(occ), s, d, 1, u)) == (
        #[trigger] bit(nacc, u) || reach(occ_blocked(occ), s, d, k + 1, u))) by {
            assert((bit(att, u) || reach(occ_blocked(occ), s, d, 1, u)) == (bit(acc, u) || reach(occ_blocked(occ), s, d, k, u)));
            assert(bit(nacc, u) == (bit(acc, u) || u == t));
            assert(reach(occ_blocked(occ), s, d, k, u) == (u == t || reach(
                occ_blocked(occ),
                s,
                d,
                k + 1,
                u,
            )));
        }
    }
}

/// `att` plus the squares a slider on `sq` reaches along direction `d`.
fn ray_attacks(sq: u8, occ: u64, d: u8, att: u64) -> (r: u64)
    requires
        sq < 64,
        d < 8,
    ensures
        forall|t: int|
            0 <= t < 64 ==> (#[trigger] bit(r, t) <==> bit(att, t) || reach(
                occ_blocked(occ),
                sq as int,
                d as int,
                1,
                t,
            )),
{
    let df = dir_df_exec(d);
    let dr = dir_dr_exec(d);
    let mut f: i8 = file_of(sq) + df;
    let mut r: i8 = rank_of(sq) + dr;
    let mut acc = att;
    let ghost mut k: int = 1;
    while 0 <= f && f < 8 && 0 <= r && r < 8
        invariant
            sq < 64,
            d < 8,
            df == dir_df(d as int),
            dr == dir_dr(d as int),
            1 <= k <= 8,
            f == file(sq as int) + times(df as int, k),
            r == rank(sq as int) + times(dr as int, k),
            forall|t: int|
                0 <= t < 64 ==> ((bit(att, t) || reach(occ_blocked(occ), sq as int, d as int, 1, t))
                    == (#[trigger] bit(acc, t) || reach(
                    occ_blocked(occ),
                    sq as int,
                    d as int,
                    k,
                    t,
                ))),
        decreases 8 - k,
    {
        let t = (r * 8 + f) as u8;
        proof {
            lemma_at(f as int, r as int);
            lemma_bits_insert(acc, t as u64);
            lemma_bit_test(occ, t as u64);
            assert(k <= 7);
            assert(ray_on(sq as int, d as int, k));
            assert(ray_sq(sq as int, d as int, k) == t);
            lemma_ray_step(occ, sq as int, d as int, k, t as int, att, acc, acc | (1u64 << t));
        }
        acc = acc | (1u64 << t);
        if occ & (1u64 << t) != 0 {
            return acc;
        }
        f = f + df;
        r = r + dr;
        proof {
            k = k + 1;
        }
    }
    assert forall|u: int| 0 <= u < 64 implies !reach(occ_blocked(occ), sq as int, d as int, k, u) by {
        assert(!ray_on(sq as int, d as int, k));
    }
    acc
}

/// Attack set of a slider on `sq` over occupancy `occ` for the diagonal
/// (`diag`) or orthogonal directions; includes the first blocker square.
pub fn slider_attacks(sq: u8, occ: u64, diag: bool) -> (r: u64)
    requires
        sq < 64,
    ensures
        forall|t: int|
            0 <= t < 64 ==> (#[trigger] bit(r, t) <==> slides(occ_blocked(occ), sq as int, diag, t)),
{
    let base: u8 = if diag { 0 } else { 4 };
    proof {
        lemma_bits_ops(0, 0);
    }
    let a0 = ray_attacks(sq, occ, base, 0);
    let a1 = ray_attacks(sq, occ, base + 1, a0);
    let a2 = ray_attacks(sq, occ, base + 2, a1);
    let a3 = ray_attacks(sq, occ, base + 3, a2);
    a3
}

impl Board {
    /// Some square of `mask` holds exactly `p`.
    pub(crate) fn any_piece_in(&self, mask: u64, p: u8) -> (r: bool)
        ensures
            r == exists|s: int| 0 <= s < 64 && #[trigger] bit(mask, s) && self.sq@[s] == p,
    {
        let mut m = mask;
        while m != 0
            invariant
                forall|i: int| 0 <= i < 64 && #[trigger] bit(m, i) ==> bit(mask, i),
                forall|i: int|
                    0 <= i < 64 && #[trigger] bit(mask, i) && !bit(m, i) ==> self.sq@[i] != p,
            decreases m,
        {
            proof {
                lemma_lowest_bit(m);
            }
            let s = m.trailing_zeros() as usize;
            if self.sq[s] == p {
                assert(bit(mask, s as int));
                return true;
            }
            m = m & (m - 1);
        }
        proof {
            lemma_bits_ops(0, 0);
        }
        false
    }

    /// Some square of `mask` holds a piece of type `slider` or a queen.
    fn any_slider_in(&self, mask: u64, slider: u8) -> (r: bool)
        ensures
            r == exists|s: int|
                0 <= s < 64 && #[trigger] bit(mask, s) && (pt(self.sq@[s]) == slider || pt(
                    self.sq@[s],
                ) == QUEEN),
    {
        let mut m = mask;
        while m != 0
            invariant
                forall|i: int| 0 <= i < 64 && #[trigger] bit(m, i) ==> bit(mask, i),
                forall|i: int|
                    0 <= i < 64 && #[trigger] bit(mask, i) && !bit(m, i) ==> pt(self.sq@[i])
                        != slider && pt(self.sq@[i]) != QUEEN,
            decreases m,
        {
            proof {
                lemma_lowest_bit(m);
            }
            let s = m.trailing_zeros() as usize;
            let t = ptype(self.sq[s]);
            if t == slider || t == QUEEN {
                assert(bit(mask, s as int));
                return true;
            }
            m = m & (m - 1);
        }
        proof {
            lemma_bits_ops(0, 0);
        }
        false
    }

    /// Is `t` attacked by side `by`?
    pub fn attacked(&self, t: u8, by: u8) -> (r: bool)
        requires
            self.wf(),
            t < 64,
            by <= 1,
        ensures
            r == is_attacked(self@.sq, t as int, by as int),
    {
        let f = file_of(t);
        let r = rank_of(t);
        let dr: i8 = if by == WHITE { -1 } else { 1 };
        let pawn = make_piece(by, PAWN);
        let nf = f - 1;
        let nr = r + dr;
        if 0 <= nf && nf < 8 && 0 <= nr && nr < 8 && self.sq[(nr * 8 + nf) as usize] == pawn {
            return true;
        }
        let nf = f + 1;
        if 0 <= nf && nf < 8 && 0 <= nr && nr < 8 && self.sq[(nr * 8 + nf) as usize] == pawn {
            return true;
        }
        assert(!pawn_attacks(self@.sq, t as int, by as int));
        let km = leaper_attacks_of(t, true);
        if self.any_piece_in(km, make_piece(by, KNIGHT)) {
            proof {
                let s = choose|s: int| 0 <= s < 64 && #[trigger] bit(km, s) && self.sq@[s] == piece(
                    by as int,
                    KNIGHT as int,
                );
                assert(leap(true, t as int, s));
            }
            return true;
        }
        assert(!leaper_attacks(self@.sq, t as int, true, piece(by as int, KNIGHT as int))) by {
            assert forall|s: int| 0 <= s < 64 && #[trigger] leap(true, t as int, s) implies self@.sq[s]
                != piece(by as int, KNIGHT as int) by {
                assert(bit(km, s));
            }
        }
        let gm = leaper_attacks_of(t, false);
        if self.any_piece_in(gm, make_piece(by, KING)) {
            proof {
                let s = choose|s: int| 0 <= s < 64 && #[trigger] bit(gm, s) && self.sq@[s] == piece(
                    by as int,
                    KING as int,
                );
                assert(leap(false, t as int, s));
            }
            return true;
        }
        assert(!leaper_attacks(self@.sq, t as int, false, piece(by as int, KING as int))) by {
            assert forall|s: int| 0 <= s < 64 && #[trigger] leap(false, t as int, s) implies self@.sq[s]
                != piece(by as int, KING as int) by {
                assert(bit(gm, s));
            }
        }
        let occ_all = self.occ[0] | self.occ[1];
        proof {
            lemma_bits_ops(self.occ[0], self.occ[1]);
            assert forall|u: int| 0 <= u < 64 implies #[trigger] occ_blocked(occ_all)(u) == sq_blocked(
                self@.sq,
            )(u) by {
                assert(bit(self.occ@[0], u) == colored(self@.sq[u], 0));
                assert(bit(self.occ@[1], u) == colored(self@.sq[u], 1));
                assert(valid_piece(self@.sq[u]));
            }
        }
        let sa_dm = slider_attacks(t, occ_all, true);
        let dm = sa_dm & self.occ[by as usize];
        proof {
            lemma_bits_ops(sa_dm, self.occ[by as int]);
        }
        if self.any_slider_in(dm, BISHOP) {
            proof {
                let s = choose|s: int|
                    0 <= s < 64 && #[trigger] bit(dm, s) && (pt(self.sq@[s]) == BISHOP || pt(
                        self.sq@[s],
                    ) == QUEEN);
                lemma_slides_agree(occ_blocked(occ_all), sq_blocked(self@.sq), t as int, s);
                assert(bit(dm, s));
                assert(bit(sa_dm, s));
                assert(slides(occ_blocked(occ_all), t as int, true, s));
                assert(bit(self.occ@[by as int], s));
                assert(colored(self@.sq[s], by as int));
                assert(slides(sq_blocked(self@.sq), t as int, true, s));
                assert(slider_sees(self@.sq, t as int, true, by as int, BISHOP as int));
            }
            return true;
        }
        let sa_om = slider_attacks(t, occ_all, false);
        let om = sa_om & self.occ[by as usize];
        proof {
            lemma_bits_ops(sa_om, self.occ[by as int]);
        }
        if self.any_slider_in(om, ROOK) {
            proof {
                let s = choose|s: int|
                    0 <= s < 64 && #[trigger] bit(om, s) && (pt(self.sq@[s]) == ROOK || pt(
                        self.sq@[s],
                    ) == QUEEN);
                lemma_slides_agree(occ_blocked(occ_all), sq_blocked(self@.sq), t as int, s);
                assert(bit(om, s));
                assert(bit(sa_om, s));
                assert(slides(occ_blocked(occ_all), t as int, false, s));
                assert(bit(self.occ@[by as int], s));
                assert(colored(self@.sq[s], by as int));
                assert(slides(sq_blocked(self@.sq), t as int, false, s));
                assert(slider_sees(self@.sq, t as int, false, by as int, ROOK as int));
            }
            return true;
        }
        proof {
            assert forall|s: int|
                0 <= s < 64 && #[trigger] slides(sq_blocked(self@.sq), t as int, true, s) && colored(
                    self@.sq[s],
                    by as int,
                ) implies !(pt(self@.sq[s]) == BISHOP || pt(self@.sq[s]) == QUEEN) by {
                lemma_slides_agree(occ_blocked(occ_all), sq_blocked(self@.sq), t as int, s);
                assert(bit(self.occ@[by as int], s));
                assert(bit(dm, s));
            }
            assert forall|s: int|
                0 <= s < 64 && #[trigger] slides(sq_blocked(self@.sq), t as int, false, s) && colored(
                    self@.sq[s],
                    by as int,
                ) implies !(pt(self@.sq[s]) == ROOK || pt(self@.sq[s]) == QUEEN) by {
                lemma_slides_agree(occ_blocked(occ_all), sq_blocked(self@.sq), t as int, s);
                assert(bit(self.occ@[by as int], s));
                assert(bit(om, s));
            }
        }
        false
    }

    /// The side to move's king is attacked.
    pub fn in_check(&self) -> (r: bool)
        requires
            self.wf(),
            self.king[self.stm as int] < 64,
        ensures
            r == is_attacked(self@.sq, self@.king[self.stm as int] as int, 1 - self.stm),
    {
        self.attacked(self.king[self.stm as usize], 1 - self.stm)
    }
}

} // verus!
