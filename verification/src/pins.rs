//! Checks and pins of the side to move: which enemy pieces attack its
//! king, which squares a move other than a king move must reach to answer a
//! check, and which of its pieces are pinned to the king, with the line
//! they may move along. For a move that is neither a king move nor an
//! en-passant capture these masks decide legality without making the move.

use vstd::prelude::*;
use crate::attacks::{
    file, rank, on_board, at, ray_on, ray_sq, reach, slides, sq_blocked, leap, dir_df, dir_dr,
    times, lemma_at, pawn_attacks, leaper_attacks, slider_sees, is_attacked, dir_df_exec,
    dir_dr_exec, leaper_attacks_of,
};
use crate::bits::{
    bit, lemma_bits_ops, lemma_bits_insert, lemma_bits_single, lemma_bit_test, count_where,
    lemma_count_bound,
};
use crate::board::{
    Board, Position, EMPTY, WHITE, PAWN, KNIGHT, BISHOP, ROOK, QUEEN, KING, pc, pt, piece, colored,
    valid_piece, squares_valid, file_of, rank_of, pcolor, ptype, make_piece,
};

verus! {

/// A piece of this type slides along direction `d`: a queen, a bishop on a
/// diagonal (`d < 4`), a rook on a line.
pub open spec fn hits(p: u8, d: int) -> bool {
    pt(p) == QUEEN as int || (d < 4 && pt(p) == BISHOP as int) || (d >= 4 && pt(p) == ROOK as int)
}

/// What walking from the king along one direction finds.
pub enum RayScan {
    /// No check and no pin along this direction.
    Clear,
    /// An enemy slider at this step checks the king.
    Check(int),
    /// The own piece at the first step is pinned by the enemy slider at the second.
    Pin(int, int),
}

/// Walk from `s` along `d` from step `k` on, having passed an own piece at
/// step `own` (0: none): empty squares are passed, a second own piece or an
/// enemy piece that does not slide this way ends the walk with nothing, an
/// enemy slider gives a check or, behind one own piece, a pin.
pub open spec fn scan_ray(sq: Seq<u8>, us: int, s: int, d: int, k: int, own: int) -> RayScan
    decreases 8 - k,
{
    if k < 1 || k > 7 || !ray_on(s, d, k) {
        RayScan::Clear
    } else {
        let p = sq[ray_sq(s, d, k)];
        if p == EMPTY {
            scan_ray(sq, us, s, d, k + 1, own)
        } else if pc(p) == us {
            if own > 0 {
                RayScan::Clear
            } else {
                scan_ray(sq, us, s, d, k + 1, k)
            }
        } else if hits(p, d) {
            if own > 0 {
                RayScan::Pin(own, k)
            } else {
                RayScan::Check(k)
            }
        } else {
            RayScan::Clear
        }
    }
}

/// Some step from `k` to `j` of the walk from `s` along `d` lands on `t`.
pub open spec fn on_ray(s: int, d: int, k: int, j: int, t: int) -> bool
    decreases 8 - k,
{
    if k < 1 || k > 7 || k > j || !ray_on(s, d, k) {
        false
    } else {
        ray_sq(s, d, k) == t || on_ray(s, d, k + 1, j, t)
    }
}

/// The first piece met walking from `s` along `d` from step `k` on is a
/// slider of side `by` that moves along `d`.
pub open spec fn ray_attack(sq: Seq<u8>, s: int, d: int, k: int, by: int) -> bool
    decreases 8 - k,
{
    if k < 1 || k > 7 || !ray_on(s, d, k) {
        false
    } else {
        let p = sq[ray_sq(s, d, k)];
        if p != EMPTY {
            colored(p, by) && hits(p, d)
        } else {
            ray_attack(sq, s, d, k + 1, by)
        }
    }
}

proof fn lemma_ray_sq_range(s: int, d: int, k: int)
    requires
        0 <= s < 64,
        ray_on(s, d, k),
    ensures
        0 <= ray_sq(s, d, k) < 64,
        file(ray_sq(s, d, k)) == file(s) + times(dir_df(d), k),
        rank(ray_sq(s, d, k)) == rank(s) + times(dir_dr(d), k),
{
    lemma_at(file(s) + times(dir_df(d), k), rank(s) + times(dir_dr(d), k));
}

/// Different steps of one walk land on different squares, none of them the start.
proof fn lemma_ray_distinct(s: int, d: int, i: int, k: int)
    requires
        0 <= s < 64,
        0 <= d < 8,
        0 <= i < k,
        ray_on(s, d, k),
        i == 0 || ray_on(s, d, i),
    ensures
        ray_sq(s, d, k) != (if i == 0 { s } else { ray_sq(s, d, i) }),
{
    lemma_ray_sq_range(s, d, k);
    if i > 0 {
        lemma_ray_sq_range(s, d, i);
    }
}

/// The walk reaches a slider of `by` that moves its way exactly when
/// `ray_attack` holds.
proof fn lemma_ray_attack_reach(sq: Seq<u8>, s: int, d: int, k: int, by: int)
    requires
        0 <= s < 64,
        1 <= k,
    ensures
        ray_attack(sq, s, d, k, by) == exists|t: int|
            0 <= t < 64 && #[trigger] reach(sq_blocked(sq), s, d, k, t) && colored(sq[t], by) && hits(sq[t], d),
    decreases 8 - k,
{
    if k > 7 || !ray_on(s, d, k) {
        assert forall|t: int| 0 <= t < 64 implies !#[trigger] reach(sq_blocked(sq), s, d, k, t) by {
        }
    } else {
        lemma_ray_sq_range(s, d, k);
        let q = ray_sq(s, d, k);
        lemma_ray_attack_reach(sq, s, d, k + 1, by);
        if sq[q] != EMPTY {
            if colored(sq[q], by) && hits(sq[q], d) {
                assert(reach(sq_blocked(sq), s, d, k, q));
            }
            assert forall|t: int| 0 <= t < 64 && #[trigger] reach(sq_blocked(sq), s, d, k, t) implies t == q by {
            }
        } else {
            assert forall|t: int| 0 <= t < 64 && t != q implies #[trigger] reach(sq_blocked(sq), s, d, k, t)
                == reach(sq_blocked(sq), s, d, k + 1, t) by {
            }
            if ray_attack(sq, s, d, k + 1, by) {
                let t = choose|t: int|
                    0 <= t < 64 && #[trigger] reach(sq_blocked(sq), s, d, k + 1, t) && colored(sq[t], by) && hits(sq[t], d);
                assert(t != q);
                assert(reach(sq_blocked(sq), s, d, k, t));
            }
        }
    }
}

/// `a` is `b` with the own piece on `from` moved to `to` (possibly
/// promoted, possibly taking what stood there); nothing else changes.
pub open spec fn moved_squares(b: Seq<u8>, a: Seq<u8>, us: int, from: int, to: int) -> bool {
    &&& b.len() == 64
    &&& a.len() == 64
    &&& 0 <= from < 64
    &&& 0 <= to < 64
    &&& from != to
    &&& colored(b[from], us)
    &&& a[from] == EMPTY
    &&& colored(a[to], us)
    &&& forall|u: int| 0 <= u < 64 && u != from && u != to ==> #[trigger] a[u] == b[u]
}

/// What a scan finds once an own piece has been passed.
proof fn lemma_scan_own(sq: Seq<u8>, us: int, s: int, d: int, k: int, own: int)
    requires
        own > 0,
    ensures
        scan_ray(sq, us, s, d, k, own) is Clear || scan_ray(sq, us, s, d, k, own) == RayScan::Pin(
            own,
            scan_ray(sq, us, s, d, k, own)->Pin_1,
        ),
    decreases 8 - k,
{
    if !(k < 1 || k > 7 || !ray_on(s, d, k)) {
        lemma_scan_own(sq, us, s, d, k + 1, own);
    }
}

/// Along one direction, after a move that is not a king move, an enemy
/// slider attacks the king exactly when it checked before and the move
/// lands off the checking line, or it pinned the moving piece and the move
/// leaves the pinning line.
proof fn lemma_ray_after_move(
    b: Seq<u8>,
    a: Seq<u8>,
    us: int,
    ks: int,
    d: int,
    k: int,
    own: int,
    from: int,
    to: int,
)
    requires
        0 <= us <= 1,
        0 <= ks < 64,
        0 <= d < 8,
        1 <= k,
        squares_valid(b),
        moved_squares(b, a, us, from, to),
        from != ks,
        own == 0 || (1 <= own < k && ray_on(ks, d, own) && ray_sq(ks, d, own) == from),
    ensures
        ray_attack(a, ks, d, k, 1 - us) == match scan_ray(b, us, ks, d, k, own) {
            RayScan::Check(j) => !on_ray(ks, d, k, j, to),
            RayScan::Pin(i, j) => ray_sq(ks, d, i) == from && !on_ray(ks, d, k, j, to),
            RayScan::Clear => false,
        },
    decreases 8 - k,
{
    let res = scan_ray(b, us, ks, d, k, own);
    let phi = match res {
        RayScan::Check(j) => !on_ray(ks, d, k, j, to),
        RayScan::Pin(i, j) => ray_sq(ks, d, i) == from && !on_ray(ks, d, k, j, to),
        RayScan::Clear => false,
    };
    if k > 7 || !ray_on(ks, d, k) {
        assert(res is Clear);
        assert(!ray_attack(a, ks, d, k, 1 - us));
    } else {
        lemma_ray_sq_range(ks, d, k);
        let q = ray_sq(ks, d, k);
        let p = b[q];
        assert(valid_piece(p));
        if own > 0 {
            lemma_ray_distinct(ks, d, own, k);
        }
        if p == EMPTY {
            assert(q != from);
            lemma_ray_after_move(b, a, us, ks, d, k + 1, own, from, to);
            lemma_scan_bounds(b, us, ks, d, k + 1, own);
            let r1 = scan_ray(b, us, ks, d, k + 1, own);
            assert(res == r1);
            if q == to {
                assert(colored(a[q], us));
                assert(!ray_attack(a, ks, d, k, 1 - us));
                match r1 {
                    RayScan::Check(j) => {
                        assert(on_ray(ks, d, k, j, to));
                    },
                    RayScan::Pin(i, j) => {
                        assert(on_ray(ks, d, k, j, to));
                    },
                    RayScan::Clear => {},
                }
            } else {
                assert(a[q] == EMPTY);
                assert(ray_attack(a, ks, d, k, 1 - us) == ray_attack(a, ks, d, k + 1, 1 - us));
                match r1 {
                    RayScan::Check(j) => {
                        assert(on_ray(ks, d, k, j, to) == on_ray(ks, d, k + 1, j, to));
                    },
                    RayScan::Pin(i, j) => {
                        assert(on_ray(ks, d, k, j, to) == on_ray(ks, d, k + 1, j, to));
                    },
                    RayScan::Clear => {},
                }
            }
        } else if pc(p) == us {
            if own > 0 {
                assert(q != from);
                assert(colored(a[q], us));
                assert(res is Clear);
                assert(!ray_attack(a, ks, d, k, 1 - us));
            } else if q == from {
                assert(a[q] == EMPTY);
                assert(q != to);
                lemma_ray_after_move(b, a, us, ks, d, k + 1, k, from, to);
                lemma_scan_own(b, us, ks, d, k + 1, k);
                lemma_scan_bounds(b, us, ks, d, k + 1, k);
                let r1 = scan_ray(b, us, ks, d, k + 1, k);
                assert(res == r1);
                assert(ray_attack(a, ks, d, k, 1 - us) == ray_attack(a, ks, d, k + 1, 1 - us));
                match r1 {
                    RayScan::Pin(i, j) => {
                        assert(i == k);
                        assert(on_ray(ks, d, k, j, to) == on_ray(ks, d, k + 1, j, to));
                    },
                    _ => {},
                }
            } else {
                assert(colored(a[q], us));
                lemma_scan_own(b, us, ks, d, k + 1, k);
                assert(!ray_attack(a, ks, d, k, 1 - us));
                let r1 = scan_ray(b, us, ks, d, k + 1, k);
                assert(res == r1);
                match r1 {
                    RayScan::Pin(i, j) => {
                        assert(i == k);
                        assert(ray_sq(ks, d, i) != from);
                    },
                    _ => {},
                }
            }
        } else {
            assert(pc(p) == 1 - us);
            if q == to {
                assert(colored(a[q], us));
                assert(!ray_attack(a, ks, d, k, 1 - us));
                if hits(p, d) {
                    assert(on_ray(ks, d, k, k, to));
                }
            } else {
                assert(q != from);
                assert(a[q] == p);
                if hits(p, d) {
                    assert(!on_ray(ks, d, k, k, to)) by {
                        assert(!on_ray(ks, d, k + 1, k, to));
                    }
                }
            }
        }
    }
}

/// A scan from step `k` ends at a later step, after the own piece it passed.
proof fn lemma_scan_bounds(sq: Seq<u8>, us: int, s: int, d: int, k: int, own: int)
    requires
        0 <= own < k,
    ensures
        match scan_ray(sq, us, s, d, k, own) {
            RayScan::Check(j) => k <= j <= 7,
            RayScan::Pin(i, j) => k <= j <= 7 && (if own > 0 { i == own } else { k <= i < j }),
            RayScan::Clear => true,
        },
    decreases 8 - k,
{
    if !(k < 1 || k > 7 || !ray_on(s, d, k)) {
        let p = sq[ray_sq(s, d, k)];
        if p == EMPTY {
            lemma_scan_bounds(sq, us, s, d, k + 1, own);
        } else if pc(p) == us && own == 0 {
            lemma_scan_bounds(sq, us, s, d, k + 1, k);
        }
    }
}

/// The scan of direction `d` from the king on `ks`.
pub open spec fn ray_scan(sq: Seq<u8>, us: int, ks: int, d: int) -> RayScan {
    scan_ray(sq, us, ks, d, 1, 0)
}

/// A knight of `them` on `c` checks the king on `ks`.
pub open spec fn knight_checker(sq: Seq<u8>, ks: int, them: int, c: int) -> bool {
    0 <= c < 64 && leap(true, ks, c) && sq[c] == piece(them, KNIGHT as int)
}

/// Square `c` is one from which a pawn of `them` attacks `ks`.
pub open spec fn pawn_spot(ks: int, them: int, c: int) -> bool {
    let dr: int = if them == WHITE as int { -1 } else { 1 };
    (on_board(file(ks) - 1, rank(ks) + dr) && c == at(file(ks) - 1, rank(ks) + dr)) || (on_board(
        file(ks) + 1,
        rank(ks) + dr,
    ) && c == at(file(ks) + 1, rank(ks) + dr))
}

/// A pawn of `them` on `c` checks the king on `ks`.
pub open spec fn pawn_checker(sq: Seq<u8>, ks: int, them: int, c: int) -> bool {
    0 <= c < 64 && pawn_spot(ks, them, c) && sq[c] == piece(them, PAWN as int)
}

/// A move that is not a king move, landing on `t`, answers every check:
/// it takes each knight or pawn that checks, and lands on the line between
/// the king and each checking slider, the slider's square included.
pub open spec fn answers_checks(sq: Seq<u8>, us: int, ks: int, t: int) -> bool {
    &&& forall|c: int| #[trigger] knight_checker(sq, ks, 1 - us, c) ==> c == t
    &&& forall|c: int| #[trigger] pawn_checker(sq, ks, 1 - us, c) ==> c == t
    &&& forall|d: int| 0 <= d < 8 && #[trigger] ray_scan(sq, us, ks, d) is Check ==> on_ray(ks, d, 1, ray_scan(sq, us, ks, d)->Check_0, t)
}

/// The piece on `from`, when pinned, moves to `t` on its pinning line (the
/// pinning slider's square included).
pub open spec fn keeps_pin(sq: Seq<u8>, us: int, ks: int, from: int, t: int) -> bool {
    forall|d: int|
        0 <= d < 8 && #[trigger] ray_scan(sq, us, ks, d) is Pin && ray_sq(ks, d, ray_scan(sq, us, ks, d)->Pin_0) == from
            ==> on_ray(ks, d, 1, ray_scan(sq, us, ks, d)->Pin_1, t)
}

/// No king of `them` stands next to `ks`.
pub open spec fn king_apart(sq: Seq<u8>, ks: int, them: int) -> bool {
    !leaper_attacks(sq, ks, false, piece(them, KING as int))
}

proof fn lemma_slider_rays(sq: Seq<u8>, ks: int, by: int)
    requires
        0 <= ks < 64,
    ensures
        slider_sees(sq, ks, true, by, BISHOP as int) == (ray_attack(sq, ks, 0, 1, by) || ray_attack(sq, ks, 1, 1, by)
            || ray_attack(sq, ks, 2, 1, by) || ray_attack(sq, ks, 3, 1, by)),
        slider_sees(sq, ks, false, by, ROOK as int) == (ray_attack(sq, ks, 4, 1, by) || ray_attack(sq, ks, 5, 1, by)
            || ray_attack(sq, ks, 6, 1, by) || ray_attack(sq, ks, 7, 1, by)),
{
    let bl = sq_blocked(sq);
    lemma_ray_attack_reach(sq, ks, 0, 1, by);
    lemma_ray_attack_reach(sq, ks, 1, 1, by);
    lemma_ray_attack_reach(sq, ks, 2, 1, by);
    lemma_ray_attack_reach(sq, ks, 3, 1, by);
    lemma_ray_attack_reach(sq, ks, 4, 1, by);
    lemma_ray_attack_reach(sq, ks, 5, 1, by);
    lemma_ray_attack_reach(sq, ks, 6, 1, by);
    lemma_ray_attack_reach(sq, ks, 7, 1, by);
    if slider_sees(sq, ks, true, by, BISHOP as int) {
        let s = choose|s: int| 0 <= s < 64 && #[trigger] slides(bl, ks, true, s) && colored(sq[s], by) && (pt(sq[s]) == BISHOP || pt(sq[s]) == QUEEN);
        assert(reach(bl, ks, 0, 1, s) || reach(bl, ks, 1, 1, s) || reach(bl, ks, 2, 1, s) || reach(bl, ks, 3, 1, s));
    }
    if ray_attack(sq, ks, 0, 1, by) {
        let t = choose|t: int| 0 <= t < 64 && #[trigger] reach(bl, ks, 0, 1, t) && colored(sq[t], by) && hits(sq[t], 0);
        assert(slides(bl, ks, true, t));
    }
    if ray_attack(sq, ks, 1, 1, by) {
        let t = choose|t: int| 0 <= t < 64 && #[trigger] reach(bl, ks, 1, 1, t) && colored(sq[t], by) && hits(sq[t], 1);
        assert(slides(bl, ks, true, t));
    }
    if ray_attack(sq, ks, 2, 1, by) {
        let t = choose|t: int| 0 <= t < 64 && #[trigger] reach(bl, ks, 2, 1, t) && colored(sq[t], by) && hits(sq[t], 2);
        assert(slides(bl, ks, true, t));
    }
    if ray_attack(sq, ks, 3, 1, by) {
        let t = choose|t: int| 0 <= t < 64 && #[trigger] reach(bl, ks, 3, 1, t) && colored(sq[t], by) && hits(sq[t], 3);
        assert(slides(bl, ks, true, t));
    }
    if slider_sees(sq, ks, false, by, ROOK as int) {
        let s = choose|s: int| 0 <= s < 64 && #[trigger] slides(bl, ks, false, s) && colored(sq[s], by) && (pt(sq[s]) == ROOK || pt(sq[s]) == QUEEN);
        assert(reach(bl, ks, 4, 1, s) || reach(bl, ks, 5, 1, s) || reach(bl, ks, 6, 1, s) || reach(bl, ks, 7, 1, s));
    }
    if ray_attack(sq, ks, 4, 1, by) {
        let t = choose|t: int| 0 <= t < 64 && #[trigger] reach(bl, ks, 4, 1, t) && colored(sq[t], by) && hits(sq[t], 4);
        assert(slides(bl, ks, false, t));
    }
    if ray_attack(sq, ks, 5, 1, by) {
        let t = choose|t: int| 0 <= t < 64 && #[trigger] reach(bl, ks, 5, 1, t) && colored(sq[t], by) && hits(sq[t], 5);
        assert(slides(bl, ks, false, t));
    }
    if ray_attack(sq, ks, 6, 1, by) {
        let t = choose|t: int| 0 <= t < 64 && #[trigger] reach(bl, ks, 6, 1, t) && colored(sq[t], by) && hits(sq[t], 6);
        assert(slides(bl, ks, false, t));
    }
    if ray_attack(sq, ks, 7, 1, by) {
        let t = choose|t: int| 0 <= t < 64 && #[trigger] reach(bl, ks, 7, 1, t) && colored(sq[t], by) && hits(sq[t], 7);
        assert(slides(bl, ks, false, t));
    }
}

/// After a move that is not a king move nor an en-passant capture, the
/// king is attacked exactly when the move fails to answer a check or
/// leaves a pinning line (the enemy king standing apart).
pub proof fn lemma_masks_decide(b: Seq<u8>, a: Seq<u8>, us: int, ks: int, from: int, to: int)
    requires
        0 <= us <= 1,
        0 <= ks < 64,
        squares_valid(b),
        moved_squares(b, a, us, from, to),
        from != ks,
        king_apart(b, ks, 1 - us),
    ensures
        is_attacked(a, ks, 1 - us) == !(answers_checks(b, us, ks, to) && keeps_pin(b, us, ks, from, to)),
{
    let them = 1 - us;
    // pawns
    assert(pawn_attacks(a, ks, them) == exists|c: int| #[trigger] pawn_checker(b, ks, them, c) && c != to) by {
        let dr: int = if them == WHITE as int { -1 } else { 1 };
        let f = file(ks);
        let r = rank(ks);
        let pp = piece(them, PAWN as int);
        assert(pp != EMPTY && pc(pp) == them);
        assert(a[to] != pp);
        assert(a[from] != pp);
        if on_board(f - 1, r + dr) {
            lemma_at(f - 1, r + dr);
            let c = at(f - 1, r + dr);
            assert(pawn_spot(ks, them, c));
            if a[c] == pp {
                assert(c != from && c != to);
                assert(b[c] == pp);
                assert(pawn_checker(b, ks, them, c));
            }
        }
        if on_board(f + 1, r + dr) {
            lemma_at(f + 1, r + dr);
            let c = at(f + 1, r + dr);
            assert(pawn_spot(ks, them, c));
            if a[c] == pp {
                assert(c != from && c != to);
                assert(b[c] == pp);
                assert(pawn_checker(b, ks, them, c));
            }
        }
        if exists|c: int| #[trigger] pawn_checker(b, ks, them, c) && c != to {
            let c = choose|c: int| #[trigger] pawn_checker(b, ks, them, c) && c != to;
            assert(c != from);
            assert(a[c] == b[c]);
        }
    }
    // knights
    assert(leaper_attacks(a, ks, true, piece(them, KNIGHT as int)) == exists|c: int| #[trigger] knight_checker(b, ks, them, c) && c != to) by {
        if leaper_attacks(a, ks, true, piece(them, KNIGHT as int)) {
            let s = choose|s: int| 0 <= s < 64 && #[trigger] leap(true, ks, s) && a[s] == piece(them, KNIGHT as int);
            assert(s != from && s != to);
            assert(knight_checker(b, ks, them, s));
        }
        if exists|c: int| #[trigger] knight_checker(b, ks, them, c) && c != to {
            let c = choose|c: int| #[trigger] knight_checker(b, ks, them, c) && c != to;
            assert(c != from);
            assert(a[c] == b[c]);
        }
    }
    // the enemy king stays apart
    assert(!leaper_attacks(a, ks, false, piece(them, KING as int))) by {
        if leaper_attacks(a, ks, false, piece(them, KING as int)) {
            let s = choose|s: int| 0 <= s < 64 && #[trigger] leap(false, ks, s) && a[s] == piece(them, KING as int);
            assert(s != from && s != to);
            assert(b[s] == piece(them, KING as int));
        }
    }
    // sliders, direction by direction
    lemma_slider_rays(a, ks, them);
    lemma_ray_after_move(b, a, us, ks, 0, 1, 0, from, to);
    lemma_ray_after_move(b, a, us, ks, 1, 1, 0, from, to);
    lemma_ray_after_move(b, a, us, ks, 2, 1, 0, from, to);
    lemma_ray_after_move(b, a, us, ks, 3, 1, 0, from, to);
    lemma_ray_after_move(b, a, us, ks, 4, 1, 0, from, to);
    lemma_ray_after_move(b, a, us, ks, 5, 1, 0, from, to);
    lemma_ray_after_move(b, a, us, ks, 6, 1, 0, from, to);
    lemma_ray_after_move(b, a, us, ks, 7, 1, 0, from, to);
    assert forall|e: int| 0 <= e < 8 implies #[trigger] ray_attack(a, ks, e, 1, them) == match ray_scan(b, us, ks, e) {
        RayScan::Check(j) => !on_ray(ks, e, 1, j, to),
        RayScan::Pin(i, j) => ray_sq(ks, e, i) == from && !on_ray(ks, e, 1, j, to),
        RayScan::Clear => false,
    } by {
        assert(e == 0 || e == 1 || e == 2 || e == 3 || e == 4 || e == 5 || e == 6 || e == 7);
    }
    let any_ray = exists|e: int| 0 <= e < 8 && #[trigger] ray_attack(a, ks, e, 1, them);
    assert(is_attacked(a, ks, them) == ((exists|c: int| #[trigger] pawn_checker(b, ks, them, c) && c != to)
        || (exists|c: int| #[trigger] knight_checker(b, ks, them, c) && c != to) || any_ray)) by {
        if any_ray {
            let e = choose|e: int| 0 <= e < 8 && #[trigger] ray_attack(a, ks, e, 1, them);
            assert(e == 0 || e == 1 || e == 2 || e == 3 || e == 4 || e == 5 || e == 6 || e == 7);
        }
    }
    if answers_checks(b, us, ks, to) && keeps_pin(b, us, ks, from, to) {
        assert forall|e: int| 0 <= e < 8 implies !#[trigger] ray_attack(a, ks, e, 1, them) by {
            match ray_scan(b, us, ks, e) {
                RayScan::Check(j) => {
                    assert(ray_scan(b, us, ks, e) is Check);
                },
                RayScan::Pin(i, j) => {
                    assert(ray_scan(b, us, ks, e) is Pin);
                },
                RayScan::Clear => {},
            }
        }
    } else {
        if !answers_checks(b, us, ks, to) {
            if exists|c: int| #[trigger] knight_checker(b, ks, them, c) && c != to {
            } else if exists|c: int| #[trigger] pawn_checker(b, ks, them, c) && c != to {
            } else {
                let e = choose|e: int| 0 <= e < 8 && #[trigger] ray_scan(b, us, ks, e) is Check && !on_ray(ks, e, 1, ray_scan(b, us, ks, e)->Check_0, to);
                assert(ray_attack(a, ks, e, 1, them));
            }
        } else {
            let e = choose|e: int| 0 <= e < 8 && #[trigger] ray_scan(b, us, ks, e) is Pin && ray_sq(ks, e, ray_scan(b, us, ks, e)->Pin_0) == from && !on_ray(ks, e, 1, ray_scan(b, us, ks, e)->Pin_1, to);
            assert(ray_attack(a, ks, e, 1, them));
        }
    }
}

/// A checker: a knight (kind 0) or a pawn (kind 1) of the other side on
/// square `x`, or a slider checking along direction `x` (kind 2).
pub open spec fn is_checker(sq: Seq<u8>, us: int, ks: int, kind: int, x: int) -> bool {
    if kind == 0 {
        knight_checker(sq, ks, 1 - us, x)
    } else if kind == 1 {
        pawn_checker(sq, ks, 1 - us, x)
    } else {
        kind == 2 && 0 <= x < 8 && ray_scan(sq, us, ks, x) is Check
    }
}

/// Landing on `t` answers the checker: it takes the knight or pawn, or it
/// lands between the king and the slider or on the slider.
pub open spec fn answers(sq: Seq<u8>, us: int, ks: int, kind: int, x: int, t: int) -> bool {
    if kind == 0 || kind == 1 {
        t == x
    } else {
        on_ray(ks, x, 1, ray_scan(sq, us, ks, x)->Check_0, t)
    }
}

/// The order in which checkers are found: knights by square, pawns by
/// square, then sliders by direction.
pub open spec fn found_before(k1: int, x1: int, k2: int, x2: int) -> bool {
    k1 < k2 || (k1 == k2 && x1 < x2)
}

proof fn lemma_on_ray_at(s: int, d: int, k: int, j: int, t: int)
    requires
        on_ray(s, d, k, j, t),
    ensures
        exists|l: int| k <= l <= j && 1 <= l <= 7 && ray_on(s, d, l) && #[trigger] ray_sq(s, d, l) == t,
    decreases 8 - k,
{
    if ray_sq(s, d, k) == t {
        assert(ray_sq(s, d, k) == t);
    } else {
        lemma_on_ray_at(s, d, k + 1, j, t);
    }
}

/// A check along a direction: empty squares up to the checking slider.
proof fn lemma_check_line(sq: Seq<u8>, us: int, s: int, d: int, k: int, j: int)
    requires
        scan_ray(sq, us, s, d, k, 0) == RayScan::Check(j),
    ensures
        k <= j <= 7,
        ray_on(s, d, j),
        hits(sq[ray_sq(s, d, j)], d),
        sq[ray_sq(s, d, j)] != EMPTY,
        pc(sq[ray_sq(s, d, j)]) != us,
        forall|l: int| k <= l < j ==> ray_on(s, d, l) && #[trigger] sq[ray_sq(s, d, l)] == EMPTY,
    decreases 8 - k,
{
    let p = sq[ray_sq(s, d, k)];
    if p == EMPTY {
        lemma_check_line(sq, us, s, d, k + 1, j);
        assert forall|l: int| k <= l < j implies ray_on(s, d, l) && #[trigger] sq[ray_sq(s, d, l)] == EMPTY by {
            if l == k {
            }
        }
    } else if pc(p) == us {
        lemma_scan_own(sq, us, s, d, k + 1, k);
    }
}

/// Two walks in different directions from one square never meet.
proof fn lemma_rays_apart(s: int, d1: int, l1: int, d2: int, l2: int)
    requires
        0 <= s < 64,
        0 <= d1 < 8,
        0 <= d2 < 8,
        d1 != d2,
        1 <= l1 <= 7,
        1 <= l2 <= 7,
        ray_on(s, d1, l1),
        ray_on(s, d2, l2),
    ensures
        ray_sq(s, d1, l1) != ray_sq(s, d2, l2),
{
    lemma_ray_sq_range(s, d1, l1);
    lemma_ray_sq_range(s, d2, l2);
}

/// No square answers two different checkers.
proof fn lemma_checkers_apart(sq: Seq<u8>, us: int, ks: int, k1: int, x1: int, k2: int, x2: int, t: int)
    requires
        0 <= us <= 1,
        0 <= ks < 64,
        squares_valid(sq),
        is_checker(sq, us, ks, k1, x1),
        is_checker(sq, us, ks, k2, x2),
        found_before(k1, x1, k2, x2),
    ensures
        !(answers(sq, us, ks, k1, x1, t) && answers(sq, us, ks, k2, x2, t)),
{
    if answers(sq, us, ks, k1, x1, t) && answers(sq, us, ks, k2, x2, t) {
        if k2 == 2 {
            let j2 = ray_scan(sq, us, ks, x2)->Check_0;
            lemma_check_line(sq, us, ks, x2, 1, j2);
            lemma_on_ray_at(ks, x2, 1, j2, t);
            let l2 = choose|l: int| 1 <= l <= j2 && 1 <= l <= 7 && ray_on(ks, x2, l) && #[trigger] ray_sq(ks, x2, l) == t;
            if k1 == 2 {
                let j1 = ray_scan(sq, us, ks, x1)->Check_0;
                lemma_check_line(sq, us, ks, x1, 1, j1);
                lemma_on_ray_at(ks, x1, 1, j1, t);
                let l1 = choose|l: int| 1 <= l <= j1 && 1 <= l <= 7 && ray_on(ks, x1, l) && #[trigger] ray_sq(ks, x1, l) == t;
                lemma_rays_apart(ks, x1, l1, x2, l2);
            } else {
                assert(t == x1);
                if l2 < j2 {
                    assert(sq[ray_sq(ks, x2, l2)] == EMPTY);
                } else {
                    assert(hits(sq[t], x2));
                }
            }
        } else {
            assert(x1 == t && x2 == t);
        }
    }
}

/// Landing on `t` answers every checker found before `(kind, x)`.
pub open spec fn answered_before(sq: Seq<u8>, us: int, ks: int, kind: int, x: int, t: int) -> bool {
    forall|k: int, y: int|
        #[trigger] is_checker(sq, us, ks, k, y) && found_before(k, y, kind, x) ==> answers(sq, us, ks, k, y, t)
}

/// The running state of the checker search at `(kind, x)`: `n` checkers
/// found, the last one `(lk, lx)`; `allowed` holds the squares that answer
/// them all when there is one.
pub open spec fn search_state(sq: Seq<u8>, us: int, ks: int, kind: int, x: int, n: int, allowed: u64, lk: int, lx: int) -> bool {
    &&& (n == 0 ==> forall|t: int| 0 <= t < 64 ==> #[trigger] answered_before(sq, us, ks, kind, x, t))
    &&& (n == 1 ==> forall|t: int| 0 <= t < 64 ==> #[trigger] answered_before(sq, us, ks, kind, x, t) == bit(allowed, t))
    &&& (n >= 1 ==> is_checker(sq, us, ks, lk, lx) && found_before(lk, lx, kind, x) && forall|t: int|
        0 <= t < 64 && #[trigger] answered_before(sq, us, ks, kind, x, t) ==> answers(sq, us, ks, lk, lx, t))
    &&& (n >= 2 ==> forall|t: int| 0 <= t < 64 ==> !#[trigger] answered_before(sq, us, ks, kind, x, t))
}

proof fn lemma_answered_step(sq: Seq<u8>, us: int, ks: int, kind: int, x: int, t: int)
    ensures
        answered_before(sq, us, ks, kind, x + 1, t) == (answered_before(sq, us, ks, kind, x, t) && (is_checker(
            sq,
            us,
            ks,
            kind,
            x,
        ) ==> answers(sq, us, ks, kind, x, t))),
{
    if answered_before(sq, us, ks, kind, x, t) && (is_checker(sq, us, ks, kind, x) ==> answers(sq, us, ks, kind, x, t)) {
        assert forall|k: int, y: int|
            #[trigger] is_checker(sq, us, ks, k, y) && found_before(k, y, kind, x + 1) implies answers(sq, us, ks, k, y, t) by {
            if !(k == kind && y == x) {
                assert(found_before(k, y, kind, x));
            }
        }
    }
    if answered_before(sq, us, ks, kind, x + 1, t) {
        assert forall|k: int, y: int|
            #[trigger] is_checker(sq, us, ks, k, y) && found_before(k, y, kind, x) implies answers(sq, us, ks, k, y, t) by {
            assert(found_before(k, y, kind, x + 1));
        }
        if is_checker(sq, us, ks, kind, x) {
            assert(found_before(kind, x, kind, x + 1));
        }
    }
}

/// One more candidate examined: a checker is added to the state, anything
/// else leaves it as it was.
proof fn lemma_search_step(sq: Seq<u8>, us: int, ks: int, kind: int, x: int, n: int, allowed: u64, lk: int, lx: int, mask: u64)
    requires
        0 <= us <= 1,
        0 <= ks < 64,
        squares_valid(sq),
        search_state(sq, us, ks, kind, x, n, allowed, lk, lx),
        n >= 0,
        is_checker(sq, us, ks, kind, x) ==> forall|t: int| 0 <= t < 64 ==> #[trigger] bit(mask, t) == answers(sq, us, ks, kind, x, t),
    ensures
        is_checker(sq, us, ks, kind, x) ==> search_state(sq, us, ks, kind, x + 1, n + 1, mask, kind, x),
        !is_checker(sq, us, ks, kind, x) ==> search_state(sq, us, ks, kind, x + 1, n, allowed, lk, lx),
{
    assert forall|t: int| 0 <= t < 64 implies #[trigger] answered_before(sq, us, ks, kind, x + 1, t) == (answered_before(sq, us, ks, kind, x, t) && (is_checker(
        sq,
        us,
        ks,
        kind,
        x,
    ) ==> answers(sq, us, ks, kind, x, t))) by {
        lemma_answered_step(sq, us, ks, kind, x, t);
    }
    if is_checker(sq, us, ks, kind, x) {
        assert(found_before(kind, x, kind, x + 1));
        if n >= 1 {
            assert(found_before(lk, lx, kind, x));
            assert forall|t: int| 0 <= t < 64 implies !#[trigger] answered_before(sq, us, ks, kind, x + 1, t) by {
                lemma_checkers_apart(sq, us, ks, lk, lx, kind, x, t);
            }
        }
    } else {
        if n >= 1 {
            assert(found_before(lk, lx, kind, x + 1));
        }
    }
}

/// The search moves on to the next kind of checker.
proof fn lemma_search_next_kind(sq: Seq<u8>, us: int, ks: int, kind: int, end: int, n: int, allowed: u64, lk: int, lx: int)
    requires
        0 <= kind <= 1 ==> end == 64,
        kind == 2 ==> end == 8,
        0 <= kind <= 2,
        search_state(sq, us, ks, kind, end, n, allowed, lk, lx),
    ensures
        search_state(sq, us, ks, kind + 1, 0, n, allowed, lk, lx),
        forall|t: int| #[trigger] answered_before(sq, us, ks, kind + 1, 0, t) == answered_before(sq, us, ks, kind, end, t),
{
    assert forall|t: int| #[trigger] answered_before(sq, us, ks, kind + 1, 0, t) == answered_before(sq, us, ks, kind, end, t) by {
        if answered_before(sq, us, ks, kind, end, t) {
            assert forall|k: int, y: int|
                #[trigger] is_checker(sq, us, ks, k, y) && found_before(k, y, kind + 1, 0) implies answers(sq, us, ks, k, y, t) by {
                assert(found_before(k, y, kind, end));
            }
        }
        if answered_before(sq, us, ks, kind + 1, 0, t) {
            assert forall|k: int, y: int|
                #[trigger] is_checker(sq, us, ks, k, y) && found_before(k, y, kind, end) implies answers(sq, us, ks, k, y, t) by {
                assert(found_before(k, y, kind + 1, 0));
            }
        }
    }
    if n >= 1 {
        assert(found_before(lk, lx, kind + 1, 0));
    }
}

/// All checkers examined: answering them all is `answers_checks`.
proof fn lemma_answered_all(sq: Seq<u8>, us: int, ks: int, t: int)
    ensures
        answered_before(sq, us, ks, 3, 0, t) == answers_checks(sq, us, ks, t),
{
    if answered_before(sq, us, ks, 3, 0, t) {
        assert forall|c: int| #[trigger] knight_checker(sq, ks, 1 - us, c) implies c == t by {
            assert(is_checker(sq, us, ks, 0, c) && found_before(0, c, 3, 0));
        }
        assert forall|c: int| #[trigger] pawn_checker(sq, ks, 1 - us, c) implies c == t by {
            assert(is_checker(sq, us, ks, 1, c) && found_before(1, c, 3, 0));
        }
        assert forall|d: int| 0 <= d < 8 && #[trigger] ray_scan(sq, us, ks, d) is Check implies on_ray(ks, d, 1, ray_scan(sq, us, ks, d)->Check_0, t) by {
            assert(is_checker(sq, us, ks, 2, d) && found_before(2, d, 3, 0));
        }
    }
    if answers_checks(sq, us, ks, t) {
        assert forall|k: int, y: int|
            #[trigger] is_checker(sq, us, ks, k, y) && found_before(k, y, 3, 0) implies answers(sq, us, ks, k, y, t) by {
            if k == 0 {
                assert(knight_checker(sq, ks, 1 - us, y));
            } else if k == 1 {
                assert(pawn_checker(sq, ks, 1 - us, y));
            } else {
                assert(ray_scan(sq, us, ks, y) is Check);
            }
        }
    }
}

/// Every step of a walk before an on-board step is on the board.
proof fn lemma_ray_on_prefix(s: int, d: int, l: int, m: int)
    requires
        0 <= s < 64,
        1 <= m <= l,
        ray_on(s, d, l),
    ensures
        ray_on(s, d, m),
{
}

/// Walking one step further adds that step's square to the line.
proof fn lemma_on_ray_extend(s: int, d: int, k: int, j: int, t: int)
    requires
        0 <= s < 64,
        1 <= k <= j + 1,
        j + 1 <= 7,
        ray_on(s, d, j + 1),
    ensures
        on_ray(s, d, k, j + 1, t) == (on_ray(s, d, k, j, t) || ray_sq(s, d, j + 1) == t),
    decreases j + 1 - k,
{
    lemma_ray_on_prefix(s, d, j + 1, k);
    if k <= j {
        lemma_on_ray_extend(s, d, k + 1, j, t);
    } else {
        assert(!on_ray(s, d, k + 1, j + 1, t));
        assert(!on_ray(s, d, k, j, t));
    }
}

/// The number of enemy pieces that check the king on `ks`.
pub open spec fn checker_count(sq: Seq<u8>, us: int, ks: int) -> nat {
    count_where(|c: int| is_checker(sq, us, ks, 0, c), 64) + count_where(
        |c: int| is_checker(sq, us, ks, 1, c),
        64,
    ) + count_where(|x: int| is_checker(sq, us, ks, 2, x), 8)
}

/// The directions `0..n`, in order, along which a piece of `us` is pinned
/// to the king on `ks`.
pub open spec fn pin_dirs(sq: Seq<u8>, us: int, ks: int, n: int) -> Seq<int>
    decreases n,
{
    if n <= 0 {
        seq![]
    } else {
        pin_dirs(sq, us, ks, n - 1) + if ray_scan(sq, us, ks, n - 1) is Pin {
            seq![n - 1]
        } else {
            seq![]
        }
    }
}

/// Landing on `t` keeps every pin among the first `n` entries of `pins`
/// that holds the piece on `from`.
pub open spec fn pin_ok(pins: Seq<(u8, u64)>, n: int, from: int, t: int) -> bool {
    forall|i: int| 0 <= i < n && #[trigger] pins[i].0 == from ==> bit(pins[i].1, t)
}

/// Before any candidate is examined, every square answers the checkers
/// found so far.
proof fn lemma_search_start(sq: Seq<u8>, us: int, ks: int, allowed: u64)
    ensures
        search_state(sq, us, ks, 0, 0, 0, allowed, 0, 0),
{
    assert forall|t: int| 0 <= t < 64 implies #[trigger] answered_before(sq, us, ks, 0, 0, t) by {
        assert forall|k: int, y: int|
            #[trigger] is_checker(sq, us, ks, k, y) && found_before(k, y, 0, 0) implies answers(sq, us, ks, k, y, t) by {
        }
    }
}

impl Board {
    /// Walks from the king square `ks` along direction `d`. Returns 0 when
    /// nothing checks or pins along it; 1 and the checking line when an
    /// enemy slider checks; 2, the pinned piece's square and the pinning
    /// line when one own piece stands between the king and an enemy slider.
    /// A line holds the squares from the king (excluded) to the slider
    /// (included).
    fn scan_dir(&self, us: u8, ks: u8, d: u8) -> (r: (u8, u8, u64))
        requires
            self.wf(),
            us <= 1,
            ks < 64,
            d < 8,
        ensures
            match ray_scan(self@.sq, us as int, ks as int, d as int) {
                RayScan::Clear => r.0 == 0,
                RayScan::Check(j) => r.0 == 1 && forall|t: int|
                    0 <= t < 64 ==> #[trigger] bit(r.2, t) == on_ray(ks as int, d as int, 1, j, t),
                RayScan::Pin(i, j) => r.0 == 2 && r.1 as int == ray_sq(ks as int, d as int, i)
                    && forall|t: int|
                    0 <= t < 64 ==> #[trigger] bit(r.2, t) == on_ray(ks as int, d as int, 1, j, t),
            },
    {
        let ghost sq = self@.sq;
        let ghost s0 = ks as int;
        let ghost dd = d as int;
        let df = dir_df_exec(d);
        let dr = dir_dr_exec(d);
        let kf = file_of(ks);
        let kr = rank_of(ks);
        let mut nf: i8 = kf + df;
        let mut nr: i8 = kr + dr;
        let mut ray: u64 = 0;
        let mut has_own = false;
        let mut own_sq: u8 = 0;
        let ghost mut own_k: int = 0;
        let mut k: u8 = 1;
        proof {
            lemma_bits_ops(0, 0);
        }
        while 0 <= nf && nf < 8 && 0 <= nr && nr < 8
            invariant
                self.wf(),
                sq == self@.sq,
                us <= 1,
                s0 == ks as int,
                dd == d as int,
                0 <= s0 < 64,
                0 <= dd < 8,
                df == dir_df(dd),
                dr == dir_dr(dd),
                1 <= k <= 8,
                nf == file(s0) + times(df as int, k as int),
                nr == rank(s0) + times(dr as int, k as int),
                (own_k == 0) == !has_own,
                has_own ==> 1 <= own_k < k && own_sq as int == ray_sq(s0, dd, own_k),
                ray_scan(sq, us as int, s0, dd) == scan_ray(sq, us as int, s0, dd, k as int, own_k),
                forall|t: int| 0 <= t < 64 ==> #[trigger] bit(ray, t) == on_ray(s0, dd, 1, k - 1, t),
            decreases 8 - k,
        {
            assert(k <= 7);
            assert(ray_on(s0, dd, k as int));
            proof {
                lemma_at(nf as int, nr as int);
            }
            let s: u8 = (nr * 8 + nf) as u8;
            assert(s as int == ray_sq(s0, dd, k as int));
            let p = self.sq[s as usize];
            proof {
                lemma_bits_insert(ray, s as u64);
                assert forall|t: int| 0 <= t < 64 implies on_ray(s0, dd, 1, k as int, t) == (on_ray(s0, dd, 1, k - 1, t) || s == t) by {
                    lemma_on_ray_extend(s0, dd, 1, k - 1, t);
                }
            }
            if p == EMPTY {
                ray = ray | (1u64 << s);
            } else if pcolor(p) == us {
                if has_own {
                    return (0, 0, 0);
                }
                has_own = true;
                own_sq = s;
                proof {
                    own_k = k as int;
                }
                ray = ray | (1u64 << s);
            } else {
                let t = ptype(p);
                if t == QUEEN || (d < 4 && t == BISHOP) || (d >= 4 && t == ROOK) {
                    ray = ray | (1u64 << s);
                    if has_own {
                        return (2, own_sq, ray);
                    } else {
                        return (1, 0, ray);
                    }
                }
                return (0, 0, 0);
            }
            nf = nf + df;
            nr = nr + dr;
            k = k + 1;
        }
        (0, 0, 0)
    }

    /// The checks and pins against the king of the side to move: the
    /// number of checkers; the squares on which a move other than a king
    /// move answers every check (all squares without a check, none in a
    /// double check); and the pinned pieces with their pinning lines, the
    /// first entries of the array.
    pub(crate) fn checkers_pins(&self) -> (r: (u32, u64, [(u8, u64); 8], usize))
        requires
            self.wf(),
            self.king[self.stm as int] < 64,
        ensures
            r.0 == checker_count(self@.sq, self.stm as int, self.king[self.stm as int] as int),
            forall|t: int|
                0 <= t < 64 ==> #[trigger] bit(r.1, t) == answers_checks(
                    self@.sq,
                    self.stm as int,
                    self.king[self.stm as int] as int,
                    t,
                ),
            r.3 <= 8,
            r.3 == pin_dirs(self@.sq, self.stm as int, self.king[self.stm as int] as int, 8).len(),
            forall|i: int|
                0 <= i < r.3 ==> {
                    let dir = #[trigger] pin_dirs(self@.sq, self.stm as int, self.king[self.stm as int] as int, 8)[i];
                    let scan = ray_scan(self@.sq, self.stm as int, self.king[self.stm as int] as int, dir);
                    &&& r.2@[i].0 as int == ray_sq(self.king[self.stm as int] as int, dir, scan->Pin_0)
                    &&& forall|t: int|
                        0 <= t < 64 ==> #[trigger] bit(r.2@[i].1, t) == on_ray(
                            self.king[self.stm as int] as int,
                            dir,
                            1,
                            scan->Pin_1,
                            t,
                        )
                },
            forall|from: int, t: int|
                0 <= from < 64 && 0 <= t < 64 ==> #[trigger] keeps_pin(
                    self@.sq,
                    self.stm as int,
                    self.king[self.stm as int] as int,
                    from,
                    t,
                ) == pin_ok(r.2@, r.3 as int, from, t),
    {
        let ghost sq = self@.sq;
        let us = self.stm;
        let them = 1 - us;
        let ks = self.king[us as usize];
        let ghost u = us as int;
        let ghost k0 = ks as int;
        let ghost kn = |c: int| is_checker(sq, u, k0, 0, c);
        let ghost pw = |c: int| is_checker(sq, u, k0, 1, c);
        let ghost sl = |x: int| is_checker(sq, u, k0, 2, x);
        let mut n: u32 = 0;
        let mut allowed: u64 = !0u64;
        let ghost mut lk: int = 0;
        let ghost mut lx: int = 0;
        proof {
            lemma_search_start(sq, u, k0, allowed);
        }
        // knight checks
        let katt = leaper_attacks_of(ks, true);
        let enemy_knight = make_piece(them, KNIGHT);
        let mut s: u8 = 0;
        while s < 64
            invariant
                self.wf(),
                sq == self@.sq,
                us == self.stm,
                u == us as int,
                them == 1 - us,
                k0 == ks as int,
                ks < 64,
                u <= 1,
                kn == (|c: int| is_checker(sq, u, k0, 0, c)),
                enemy_knight == piece(them as int, KNIGHT as int),
                forall|c: int| 0 <= c < 64 ==> (#[trigger] bit(katt, c) <==> leap(true, k0, c)),
                s <= 64,
                n == count_where(kn, s as int),
                search_state(sq, u, k0, 0, s as int, n as int, allowed, lk, lx),
            decreases 64 - s,
        {
            proof {
                lemma_bit_test(katt, s as u64);
                lemma_bits_single(s as u64);
                lemma_count_bound(kn, s as int);
            }
            let hit = katt & (1u64 << s) != 0 && self.sq[s as usize] == enemy_knight;
            assert(hit == is_checker(sq, u, k0, 0, s as int));
            if hit {
                proof {
                    lemma_search_step(sq, u, k0, 0, s as int, n as int, allowed, lk, lx, 1u64 << s);
                    lk = 0;
                    lx = s as int;
                }
                n = n + 1;
                allowed = 1u64 << s;
            } else {
                proof {
                    lemma_search_step(sq, u, k0, 0, s as int, n as int, allowed, lk, lx, allowed);
                }
            }
            s = s + 1;
        }
        proof {
            lemma_search_next_kind(sq, u, k0, 0, 64, n as int, allowed, lk, lx);
        }
        // pawn checks: the two squares a pawn of the other side checks from
        let kf = file_of(ks);
        let kr = rank_of(ks);
        let dr: i8 = if them == WHITE {
            -1
        } else {
            1
        };
        let pr = kr + dr;
        let c1: u8 = if 0 <= pr && pr < 8 && kf >= 1 {
            (pr * 8 + kf - 1) as u8
        } else {
            64
        };
        let c2: u8 = if 0 <= pr && pr < 8 && kf < 7 {
            (pr * 8 + kf + 1) as u8
        } else {
            64
        };
        assert forall|c: int| 0 <= c < 64 implies #[trigger] pawn_spot(k0, them as int, c) == (c == c1 || c
            == c2) by {
        }
        let enemy_pawn = make_piece(them, PAWN);
        let ghost nk = n as int;
        proof {
            lemma_count_bound(kn, 64);
        }
        let mut s: u8 = 0;
        while s < 64
            invariant
                self.wf(),
                sq == self@.sq,
                us == self.stm,
                u == us as int,
                them == 1 - us,
                k0 == ks as int,
                ks < 64,
                u <= 1,
                pw == (|c: int| is_checker(sq, u, k0, 1, c)),
                nk == count_where(kn, 64),
                nk <= 64,
                enemy_pawn == piece(them as int, PAWN as int),
                forall|c: int| 0 <= c < 64 ==> #[trigger] pawn_spot(k0, them as int, c) == (c == c1 || c == c2),
                s <= 64,
                n == nk + count_where(pw, s as int),
                search_state(sq, u, k0, 1, s as int, n as int, allowed, lk, lx),
            decreases 64 - s,
        {
            proof {
                lemma_bits_single(s as u64);
                lemma_count_bound(pw, s as int);
            }
            let hit = (s == c1 || s == c2) && self.sq[s as usize] == enemy_pawn;
            assert(hit == is_checker(sq, u, k0, 1, s as int));
            if hit {
                proof {
                    lemma_search_step(sq, u, k0, 1, s as int, n as int, allowed, lk, lx, 1u64 << s);
                    lk = 1;
                    lx = s as int;
                }
                n = n + 1;
                allowed = 1u64 << s;
            } else {
                proof {
                    lemma_search_step(sq, u, k0, 1, s as int, n as int, allowed, lk, lx, allowed);
                }
            }
            s = s + 1;
        }
        proof {
            lemma_search_next_kind(sq, u, k0, 1, 64, n as int, allowed, lk, lx);
        }
        // slider checks and pins, direction by direction
        let ghost np0 = n as int;
        proof {
            lemma_count_bound(pw, 64);
        }
        let mut pins: [(u8, u64); 8] = [(0u8, 0u64); 8];
        let mut np: usize = 0;
        let ghost mut pdir: Seq<int> = seq![];
        let mut d: u8 = 0;
        while d < 8
            invariant
                self.wf(),
                sq == self@.sq,
                us == self.stm,
                u == us as int,
                k0 == ks as int,
                ks < 64,
                u <= 1,
                sl == (|x: int| is_checker(sq, u, k0, 2, x)),
                np0 <= 128,
                d <= 8,
                n == np0 + count_where(sl, d as int),
                search_state(sq, u, k0, 2, d as int, n as int, allowed, lk, lx),
                np <= d,
                pdir.len() == np,
                pdir == pin_dirs(sq, u, k0, d as int),
                forall|i: int|
                    0 <= i < np ==> 0 <= #[trigger] pdir[i] < d && ray_scan(sq, u, k0, pdir[i]) is Pin
                        && pins@[i].0 as int == ray_sq(k0, pdir[i], ray_scan(sq, u, k0, pdir[i])->Pin_0)
                        && forall|t: int|
                        0 <= t < 64 ==> #[trigger] bit(pins@[i].1, t) == on_ray(
                            k0,
                            pdir[i],
                            1,
                            ray_scan(sq, u, k0, pdir[i])->Pin_1,
                            t,
                        ),
                forall|e: int|
                    0 <= e < d && #[trigger] ray_scan(sq, u, k0, e) is Pin ==> exists|i: int|
                        0 <= i < np && pdir[i] == e,
            decreases 8 - d,
        {
            proof {
                lemma_count_bound(sl, d as int);
            }
            let (kind, own, mask) = self.scan_dir(us, ks, d);
            assert((kind == 1) == is_checker(sq, u, k0, 2, d as int));
            if kind == 1 {
                proof {
                    lemma_search_step(sq, u, k0, 2, d as int, n as int, allowed, lk, lx, mask);
                    lk = 2;
                    lx = d as int;
                }
                n = n + 1;
                allowed = mask;
            } else {
                proof {
                    lemma_search_step(sq, u, k0, 2, d as int, n as int, allowed, lk, lx, allowed);
                }
                if kind == 2 {
                    let ghost before = pins@;
                    let ghost pdir0 = pdir;
                    pins[np] = (own, mask);
                    proof {
                        pdir = pdir.push(d as int);
                        assert(forall|i: int| 0 <= i < np ==> pins@[i] == before[i]);
                        assert(pdir[np as int] == d);
                    }
                    np = np + 1;
                    proof {
                        assert forall|e: int| 0 <= e < d + 1 && #[trigger] ray_scan(sq, u, k0, e) is Pin implies exists|i: int|
                            0 <= i < np && pdir[i] == e by {
                            if e == d as int {
                                assert(pdir[np - 1] == e);
                            } else {
                                let i = choose|i: int| 0 <= i < np - 1 && pdir0[i] == e;
                                assert(pdir[i] == e);
                            }
                        }
                    }
                }
            }
            proof {
                if ray_scan(sq, u, k0, d as int) is Pin {
                    assert(pdir =~= pin_dirs(sq, u, k0, d as int) + seq![d as int]);
                } else {
                    assert(pdir =~= pin_dirs(sq, u, k0, d as int) + Seq::<int>::empty());
                }
            }
            d = d + 1;
        }
        proof {
            lemma_search_next_kind(sq, u, k0, 2, 8, n as int, allowed, lk, lx);
            lemma_bits_ops(0, 0);
            assert forall|t: int| 0 <= t < 64 implies #[trigger] answered_before(sq, u, k0, 3, 0, t) == answers_checks(sq, u, k0, t) by {
                lemma_answered_all(sq, u, k0, t);
            }
        }
        let ghost a0 = allowed;
        if n == 0 {
            allowed = !0u64;
        } else if n > 1 {
            allowed = 0;
        }
        proof {
            assert forall|t: int| 0 <= t < 64 implies #[trigger] bit(allowed, t) == answers_checks(sq, u, k0, t) by {
                assert(answered_before(sq, u, k0, 3, 0, t) == answers_checks(sq, u, k0, t));
                if n == 1 {
                    assert(bit(a0, t) == answered_before(sq, u, k0, 3, 0, t));
                } else if n == 0 {
                    assert(answered_before(sq, u, k0, 3, 0, t));
                    assert(bit(!0u64, t));
                } else {
                    assert(!answered_before(sq, u, k0, 3, 0, t));
                    assert(!bit(0u64, t));
                }
            }
            assert forall|from: int, t: int| 0 <= from < 64 && 0 <= t < 64 implies #[trigger] keeps_pin(
                sq,
                u,
                k0,
                from,
                t,
            ) == pin_ok(pins@, np as int, from, t) by {
                if keeps_pin(sq, u, k0, from, t) {
                    assert forall|i: int| 0 <= i < np && #[trigger] pins@[i].0 == from implies bit(pins@[i].1, t) by {
                        let e = pdir[i];
                        assert(ray_scan(sq, u, k0, e) is Pin);
                    }
                }
                if pin_ok(pins@, np as int, from, t) {
                    assert forall|e: int|
                        0 <= e < 8 && #[trigger] ray_scan(sq, u, k0, e) is Pin && ray_sq(k0, e, ray_scan(sq, u, k0, e)->Pin_0)
                            == from implies on_ray(k0, e, 1, ray_scan(sq, u, k0, e)->Pin_1, t) by {
                        let i = choose|i: int| 0 <= i < np && pdir[i] == e;
                        assert(pins@[i].0 == from);
                        assert(bit(pins@[i].1, t));
                    }
                }
            }
        }
        (n, allowed, pins, np)
    }
}

/// Does landing on `to` keep every pin, among the first `n_pins` entries,
/// of the piece on `from`?
pub(crate) fn keeps_pins(pins: &[(u8, u64); 8], n_pins: usize, from: u8, to: u8) -> (r: bool)
    requires
        n_pins <= 8,
        to < 64,
    ensures
        r == pin_ok(pins@, n_pins as int, from as int, to as int),
{
    let mut ok = true;
    let mut j: usize = 0;
    while j < n_pins
        invariant
            n_pins <= 8,
            to < 64,
            j <= n_pins,
            ok == pin_ok(pins@, j as int, from as int, to as int),
        decreases n_pins - j,
    {
        let (pf, pmask) = pins[j];
        proof {
            lemma_bit_test(pmask, to as u64);
        }
        if pf == from && pmask & (1u64 << to) == 0 {
            ok = false;
        }
        proof {
            if ok {
                assert forall|i: int| 0 <= i < j + 1 && #[trigger] pins@[i].0 == from implies bit(pins@[i].1, to as int) by {
                    if i < j {
                        assert(pin_ok(pins@, j as int, from as int, to as int));
                    }
                }
            } else {
                if pin_ok(pins@, j as int, from as int, to as int) {
                    assert(pins@[j as int].0 == from);
                }
            }
        }
        j = j + 1;
    }
    ok
}

} // verus!
