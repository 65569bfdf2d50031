//! Tapered hand-crafted evaluation: material and piece-square tables
//! (PeSTO values, tables laid out a8 = 0 … h1 = 63, so white squares index
//! with `s ^ 56`), pawn structure, mobility and king safety, blended by game
//! phase; optionally a mop-up term against a bare king. Scores are
//! centipawns from White's point of view.

use vstd::prelude::*;
use crate::bits::{
    bit, lemma_bits_ops, lemma_bits_single, lemma_and_zero, lemma_bit_test, popcount, count_where,
    lemma_popcount_where, lemma_count_bound, count_ones,
};
use crate::attacks::{file, rank, leap, slides, sq_blocked, lemma_slides_agree, leaper_attacks_of, slider_attacks};
use crate::bits::occ_blocked;
use crate::board::{
    Board, EMPTY, WHITE, BLACK, PAWN, KNIGHT, BISHOP, ROOK, QUEEN, KING, pc, pt, piece, colored,
    valid_piece, ptype, pcolor,
};

verus! {

pub const MATE: i32 = 100_000;
pub const MATE_THRESHOLD: i32 = 99_000;

/// Search-side material (move-ordering scale), by piece type.
pub const PIECE_VALUES: [i32; 7] = [0, 100, 320, 330, 500, 900, 0];

pub const FILE_A: u64 = 0x0101_0101_0101_0101;

proof fn lemma_file_bv(f: u64, i: u64)
    by (bit_vector)
    requires
        f < 8,
        i < 64,
    ensures
        ((0x0101_0101_0101_0101u64 << f) >> i) & 1u64 == 1u64 <==> i % 8 == f,
{
}

proof fn lemma_above_bv(k: u64, i: u64)
    by (bit_vector)
    requires
        k < 8,
        i < 64,
    ensures
        ((!0u64 << (k * 8)) >> i) & 1u64 == 1u64 <==> i / 8 >= k,
{
}

proof fn lemma_below_bv(k: u64, i: u64)
    by (bit_vector)
    requires
        1 <= k < 8,
        i < 64,
    ensures
        ((((1u64 << (k * 8)) - 1) as u64) >> i) & 1u64 == 1u64 <==> i / 8 < k,
{
}

/// Squares of file `f`.
pub fn file_mask(f: usize) -> (m: u64)
    requires
        f < 8,
    ensures
        forall|i: int| 0 <= i < 64 ==> (#[trigger] bit(m, i) <==> file(i) == f),
{
    let m = FILE_A << f;
    assert forall|i: int| 0 <= i < 64 implies (#[trigger] bit(m, i) <==> file(i) == f) by {
        lemma_file_bv(f as u64, i as u64);
    }
    m
}

/// Squares of the files next to file `f`.
pub fn adj_files_mask(f: usize) -> (m: u64)
    requires
        f < 8,
    ensures
        forall|i: int| 0 <= i < 64 ==> (#[trigger] bit(m, i) <==> file(i) == f - 1 || file(i) == f + 1),
{
    let mut m: u64 = 0;
    proof {
        lemma_bits_ops(0, 0);
    }
    if f > 0 {
        let a = FILE_A << (f - 1);
        proof {
            lemma_bits_ops(m, a);
            assert forall|i: int| 0 <= i < 64 implies (#[trigger] bit(a, i) <==> file(i) == f - 1) by {
                lemma_file_bv((f - 1) as u64, i as u64);
            }
        }
        m = m | a;
    }
    let ghost m1 = m;
    if f < 7 {
        let a = FILE_A << (f + 1);
        proof {
            lemma_bits_ops(m, a);
            assert forall|i: int| 0 <= i < 64 implies (#[trigger] bit(a, i) <==> file(i) == f + 1) by {
                lemma_file_bv((f + 1) as u64, i as u64);
            }
        }
        m = m | a;
    }
    m
}

/// Files `f - 1` to `f + 1` hold square `i`.
pub open spec fn near_file(i: int, f: int) -> bool {
    f - 1 <= file(i) <= f + 1
}

/// Squares ahead of a pawn on `s` on its own and the adjacent files: ranks
/// above it for white (`white`), below it for black.
pub fn front_span(s: u8, white: bool) -> (m: u64)
    requires
        s < 64,
    ensures
        forall|i: int| 0 <= i < 64 ==> (#[trigger] bit(m, i) <==> near_file(i, file(s as int)) && if white {
            rank(i) > rank(s as int)
        } else {
            rank(i) < rank(s as int)
        }),
{
    proof {
        crate::bits::lemma_u8_coords(s);
    }
    let f = (s & 7) as usize;
    let r = s >> 3;
    let fm = file_mask(f);
    let am = adj_files_mask(f);
    let files = fm | am;
    proof {
        lemma_bits_ops(fm, am);
        lemma_bits_ops(0, 0);
    }
    if white {
        if r >= 7 {
            0
        } else {
            let above = !0u64 << ((r as u64 + 1) * 8);
            proof {
                lemma_bits_ops(files, above);
                assert forall|i: int| 0 <= i < 64 implies (#[trigger] bit(above, i) <==> rank(i) > r) by {
                    lemma_above_bv((r + 1) as u64, i as u64);
                }
            }
            files & above
        }
    } else if r == 0 {
        0
    } else {
        let k = r as u64 * 8;
        assert(1u64 << k >= 1u64) by (bit_vector)
            requires
                k < 64,
        ;
        let below = (1u64 << k) - 1;
        proof {
            lemma_bits_ops(files, below);
            assert forall|i: int| 0 <= i < 64 implies (#[trigger] bit(below, i) <==> rank(i) < r) by {
                lemma_below_bv(r as u64, i as u64);
            }
        }
        files & below
    }
}

/// Isolated-pawn and doubled-pawn penalties, passed-pawn bonuses by rank.
pub const ISO_MG: i32 = -12;
pub const ISO_EG: i32 = -8;
pub const DBL_MG: i32 = -8;
pub const DBL_EG: i32 = -18;
pub const PASSED_MG: [i32; 8] = [0, 4, 8, 15, 30, 55, 90, 0];
pub const PASSED_EG: [i32; 8] = [0, 12, 24, 45, 75, 120, 180, 0];

/// No pawn of `own` stands on a file next to the file of `s`.
pub open spec fn isolated(own: u64, s: int) -> bool {
    !exists|i: int| 0 <= i < 64 && #[trigger] bit(own, i) && (file(i) == file(s) - 1 || file(i) == file(s) + 1)
}

/// No pawn of `enemy` stands ahead of a pawn on `s` on its own or an
/// adjacent file (towards rank 8 for white, rank 1 for black).
pub open spec fn passed(enemy: u64, s: int, white: bool) -> bool {
    !exists|i: int|
        0 <= i < 64 && #[trigger] bit(enemy, i) && near_file(i, file(s)) && if white {
            rank(i) > rank(s)
        } else {
            rank(i) < rank(s)
        }
}

/// Middlegame and endgame pawn terms of a white pawn on `s` (`white`), or of
/// a black one (counted negatively, its rank taken from its own side).
pub open spec fn pawn_term(own: u64, enemy: u64, s: int, white: bool) -> (int, int) {
    let rel = if white { rank(s) } else { 7 - rank(s) };
    let iso = isolated(own, s);
    let pas = passed(enemy, s, white);
    let mg = (if iso { ISO_MG as int } else { 0 }) + (if pas { PASSED_MG[rel] as int } else { 0 });
    let eg = (if iso { ISO_EG as int } else { 0 }) + (if pas { PASSED_EG[rel] as int } else { 0 });
    if white {
        (mg, eg)
    } else {
        (-mg, -eg)
    }
}

/// Sum of the pawn terms of the pawns of `own` below square `n`.
pub open spec fn pawn_terms(own: u64, enemy: u64, white: bool, n: int) -> (int, int)
    decreases n,
{
    if n <= 0 {
        (0, 0)
    } else {
        let (a, b) = pawn_terms(own, enemy, white, n - 1);
        if bit(own, n - 1) {
            let (x, y) = pawn_term(own, enemy, n - 1, white);
            (a + x, b + y)
        } else {
            (a, b)
        }
    }
}

/// Number of pawns of `x` on file `f`.
pub open spec fn file_count(x: u64, f: int) -> int {
    count_where(|i: int| bit(x, i) && file(i) == f, 64) as int
}

/// Doubled-pawn terms of files below `n`: white's penalty, black's negated.
pub open spec fn doubled_terms(wp: u64, bp: u64, n: int) -> (int, int)
    decreases n,
{
    if n <= 0 {
        (0, 0)
    } else {
        let (a, b) = doubled_terms(wp, bp, n - 1);
        let wc = file_count(wp, n - 1);
        let bc = file_count(bp, n - 1);
        let wm = if wc > 1 { DBL_MG * (wc - 1) } else { 0 };
        let we = if wc > 1 { DBL_EG * (wc - 1) } else { 0 };
        let bm = if bc > 1 { DBL_MG * (bc - 1) } else { 0 };
        let be = if bc > 1 { DBL_EG * (bc - 1) } else { 0 };
        (a + wm - bm, b + we - be)
    }
}

/// Pawn structure of white pawns `wp` and black pawns `bp`.
pub open spec fn pawn_structure_spec(wp: u64, bp: u64) -> (int, int) {
    let (wm, we) = pawn_terms(wp, bp, true, 64);
    let (bm, be) = pawn_terms(bp, wp, false, 64);
    let (dm, de) = doubled_terms(wp, bp, 8);
    (wm + bm + dm, we + be + de)
}

proof fn lemma_pawn_terms_bound(own: u64, enemy: u64, white: bool, n: int)
    requires
        0 <= n <= 64,
    ensures
        -200 * n <= pawn_terms(own, enemy, white, n).0 <= 200 * n,
        -200 * n <= pawn_terms(own, enemy, white, n).1 <= 200 * n,
    decreases n,
{
    if n > 0 {
        lemma_pawn_terms_bound(own, enemy, white, n - 1);
    }
}

proof fn lemma_file_count_bound(x: u64, f: int)
    ensures
        0 <= file_count(x, f) <= 64,
{
    lemma_count_bound(|i: int| bit(x, i) && file(i) == f, 64);
}

proof fn lemma_doubled_bound(wp: u64, bp: u64, n: int)
    requires
        0 <= n <= 8,
    ensures
        -1200 * n <= doubled_terms(wp, bp, n).0 <= 1200 * n,
        -1200 * n <= doubled_terms(wp, bp, n).1 <= 1200 * n,
    decreases n,
{
    if n > 0 {
        lemma_doubled_bound(wp, bp, n - 1);
        lemma_file_count_bound(wp, n - 1);
        lemma_file_count_bound(bp, n - 1);
    }
}

/// Pawn-structure terms (see `pawn_structure_spec`).
pub fn pawn_structure(wp: u64, bp: u64) -> (r: (i32, i32))
    ensures
        (r.0 as int, r.1 as int) == pawn_structure_spec(wp, bp),
{
    let mut mg: i32 = 0;
    let mut eg: i32 = 0;
    let mut s: u8 = 0;
    while s < 64
        invariant
            s <= 64,
            (mg as int, eg as int) == pawn_terms(wp, bp, true, s as int),
        decreases 64 - s,
    {
        proof {
            lemma_pawn_terms_bound(wp, bp, true, s as int);
            lemma_bit_test(wp, s as u64);
        }
        if wp & (1u64 << s) != 0 {
            proof {
        crate::bits::lemma_u8_coords(s);
    }
            let f = (s & 7) as usize;
            let adj = adj_files_mask(f);
            proof {
                lemma_and_zero(wp, adj);
            }
            let mut dm: i32 = 0;
            let mut de: i32 = 0;
            if wp & adj == 0 {
                dm = ISO_MG;
                de = ISO_EG;
            }
            let span = front_span(s, true);
            proof {
                lemma_and_zero(bp, span);
            }
            if bp & span == 0 {
                let r = (s >> 3) as usize;
                dm = dm + PASSED_MG[r];
                de = de + PASSED_EG[r];
            }
            mg = mg + dm;
            eg = eg + de;
        }
        s = s + 1;
    }
    let ghost white_mg = mg as int;
    let ghost white_eg = eg as int;
    let mut bm: i32 = 0;
    let mut be: i32 = 0;
    s = 0;
    while s < 64
        invariant
            s <= 64,
            (bm as int, be as int) == pawn_terms(bp, wp, false, s as int),
        decreases 64 - s,
    {
        proof {
            lemma_pawn_terms_bound(bp, wp, false, s as int);
            lemma_bit_test(bp, s as u64);
        }
        if bp & (1u64 << s) != 0 {
            proof {
        crate::bits::lemma_u8_coords(s);
    }
            let f = (s & 7) as usize;
            let adj = adj_files_mask(f);
            proof {
                lemma_and_zero(bp, adj);
            }
            let mut dm: i32 = 0;
            let mut de: i32 = 0;
            if bp & adj == 0 {
                dm = ISO_MG;
                de = ISO_EG;
            }
            let span = front_span(s, false);
            proof {
                lemma_and_zero(wp, span);
            }
            if wp & span == 0 {
                let rel = 7 - (s >> 3) as usize;
                dm = dm + PASSED_MG[rel];
                de = de + PASSED_EG[rel];
            }
            bm = bm - dm;
            be = be - de;
        }
        s = s + 1;
    }
    proof {
        lemma_pawn_terms_bound(wp, bp, true, 64);
        lemma_pawn_terms_bound(bp, wp, false, 64);
    }
    mg = mg + bm;
    eg = eg + be;
    let mut dmg: i32 = 0;
    let mut deg: i32 = 0;
    let mut f: usize = 0;
    while f < 8
        invariant
            f <= 8,
            (dmg as int, deg as int) == doubled_terms(wp, bp, f as int),
        decreases 8 - f,
    {
        proof {
            lemma_doubled_bound(wp, bp, f as int);
        }
        let fm = file_mask(f);
        proof {
            lemma_bits_ops(wp, fm);
            lemma_bits_ops(bp, fm);
            lemma_popcount_where(wp & fm, |i: int| bit(wp, i) && file(i) == f, 64);
            lemma_popcount_where(bp & fm, |i: int| bit(bp, i) && file(i) == f, 64);
            lemma_file_count_bound(wp, f as int);
            lemma_file_count_bound(bp, f as int);
        }
        let wc = count_ones(wp & fm) as i32;
        let mut am: i32 = 0;
        let mut ae: i32 = 0;
        if wc > 1 {
            am = DBL_MG * (wc - 1);
            ae = DBL_EG * (wc - 1);
        }
        let bc = count_ones(bp & fm) as i32;
        if bc > 1 {
            am = am - DBL_MG * (bc - 1);
            ae = ae - DBL_EG * (bc - 1);
        }
        dmg = dmg + am;
        deg = deg + ae;
        f = f + 1;
    }
    proof {
        lemma_doubled_bound(wp, bp, 8);
    }
    (mg + dmg, eg + deg)
}

/// Middlegame piece-square values, by type (pawn … king) then square (a8 = 0).
pub const MG_PST: [i16; 384] = [
    0, 0, 0, 0, 0, 0, 0, 0,
    98, 134, 61, 95, 68, 126, 34, -11,
    -6, 7, 26, 31, 65, 56, 25, -20,
    -14, 13, 6, 21, 23, 12, 17, -23,
    -27, -2, -5, 12, 17, 6, 10, -25,
    -26, -4, -4, -10, 3, 3, 33, -12,
    -35, -1, -20, -23, -15, 24, 38, -22,
    0, 0, 0, 0, 0, 0, 0, 0,
    -167, -89, -34, -49, 61, -97, -15, -107,
    -73, -41, 72, 36, 23, 62, 7, -17,
    -47, 60, 37, 65, 84, 129, 73, 44,
    -9, 17, 19, 53, 37, 69, 18, 22,
    -13, 4, 16, 13, 28, 19, 21, -8,
    -23, -9, 12, 10, 19, 17, 25, -16,
    -29, -53, -12, -3, -1, 18, -14, -19,
    -105, -21, -58, -33, -17, -28, -19, -23,
    -29, 4, -82, -37, -25, -42, 7, -8,
    -26, 16, -18, -13, 30, 59, 18, -47,
    -16, 37, 43, 40, 35, 50, 37, -2,
    -4, 5, 19, 50, 37, 37, 7, -2,
    -6, 13, 13, 26, 34, 12, 10, 4,
    0, 15, 15, 15, 14, 27, 18, 10,
    4, 15, 16, 0, 7, 21, 33, 1,
    -33, -3, -14, -21, -13, -12, -39, -21,
    32, 42, 32, 51, 63, 9, 31, 43,
    27, 32, 58, 62, 80, 67, 26, 44,
    -5, 19, 26, 36, 17, 45, 61, 16,
    -24, -11, 7, 26, 24, 35, -8, -20,
    -36, -26, -12, -1, 9, -7, 6, -23,
    -45, -25, -16, -17, 3, 0, -5, -33,
    -44, -16, -20, -9, -1, 11, -6, -71,
    -19, -13, 1, 17, 16, 7, -37, -26,
    -28, 0, 29, 12, 59, 44, 43, 45,
    -24, -39, -5, 1, -16, 57, 28, 54,
    -13, -17, 7, 8, 29, 56, 47, 57,
    -27, -27, -16, -16, -1, 17, -2, 1,
    -9, -26, -9, -10, -2, -4, 3, -3,
    -14, 2, -11, -2, -5, 2, 14, 5,
    -35, -8, 11, 2, 8, 15, -3, 1,
    -1, -18, -9, 10, -15, -25, -31, -50,
    -65, 23, 16, -15, -56, -34, 2, 13,
    29, -1, -20, -7, -8, -4, -38, -29,
    -9, 24, 2, -16, -20, 6, 22, -22,
    -17, -20, -12, -27, -30, -25, -14, -36,
    -49, -1, -27, -39, -46, -44, -33, -51,
    -14, -14, -22, -46, -44, -30, -15, -27,
    1, 7, -8, -64, -43, -16, 9, 8,
    -15, 36, 12, -54, 8, -28, 24, 14,
];

/// Endgame piece-square values, laid out as `MG_PST`.
pub const EG_PST: [i16; 384] = [
    0, 0, 0, 0, 0, 0, 0, 0,
    178, 173, 158, 134, 147, 132, 165, 187,
    94, 100, 85, 67, 56, 53, 82, 84,
    32, 24, 13, 5, -2, 4, 17, 17,
    13, 9, -3, -7, -7, -8, 3, -1,
    4, 7, -6, 1, 0, -5, -1, -8,
    13, 8, 8, 10, 13, 0, 2, -7,
    0, 0, 0, 0, 0, 0, 0, 0,
    -58, -38, -13, -28, -31, -27, -63, -99,
    -25, -8, -25, -2, -9, -25, -24, -52,
    -24, -20, 10, 9, -1, -9, -19, -41,
    -17, 3, 22, 22, 22, 11, 8, -18,
    -18, -6, 16, 25, 16, 17, 4, -18,
    -23, -3, -1, 15, 10, -3, -20, -22,
    -42, -20, -10, -5, -2, -20, -23, -44,
    -29, -51, -23, -15, -22, -18, -50, -64,
    -14, -21, -11, -8, -7, -9, -17, -24,
    -8, -4, 7, -12, -3, -13, -4, -14,
    2, -8, 0, -1, -2, 6, 0, 4,
    -3, 9, 12, 9, 14, 10, 3, 2,
    -6, 3, 13, 19, 7, 10, -3, -9,
    -12, -3, 8, 10, 13, 3, -7, -15,
    -14, -18, -7, -1, 4, -9, -15, -27,
    -23, -9, -23, -5, -9, -16, -5, -17,
    13, 10, 18, 15, 12, 12, 8, 5,
    11, 13, 13, 11, -3, 3, 8, 3,
    7, 7, 7, 5, 4, -3, -5, -3,
    4, 3, 13, 1, 2, 1, -1, 2,
    3, 5, 8, 4, -5, -6, -8, -11,
    -4, 0, -5, -1, -7, -12, -8, -16,
    -6, -6, 0, 2, -9, -9, -11, -3,
    -9, 2, 3, -1, -5, -13, 4, -20,
    -9, 22, 22, 27, 27, 19, 10, 20,
    -17, 20, 32, 41, 58, 25, 30, 0,
    -20, 6, 9, 49, 47, 35, 19, 9,
    3, 22, 24, 45, 57, 40, 57, 36,
    -18, 28, 19, 47, 31, 34, 39, 23,
    -16, -27, 15, 6, 9, 17, 10, 5,
    -22, -23, -30, -16, -16, -23, -36, -32,
    -33, -28, -22, -43, -5, -32, -20, -41,
    -74, -35, -18, -18, -11, 15, 4, -17,
    -12, 17, 14, 17, 17, 38, 23, 11,
    10, 17, 23, 15, 20, 45, 44, 13,
    -8, 22, 24, 27, 26, 33, 26, 3,
    -18, -4, 21, 24, 27, 23, 9, -11,
    -19, -3, 11, 21, 23, 16, 7, -9,
    -27, -11, 4, 13, 14, 4, -5, -17,
    -53, -34, -21, -11, -28, -14, -24, -43,
];

/// Piece-square value of type `t` on table square `i`: middlegame (`mg`)
/// or endgame table; any type without a table of its kind reads the
/// endgame king table.
pub closed spec fn pst_entry(t: int, mg: bool, i: int) -> int {
    if mg && 1 <= t <= 6 {
        MG_PST[(t - 1) * 64 + i] as int
    } else if !mg && 1 <= t <= 5 {
        EG_PST[(t - 1) * 64 + i] as int
    } else {
        EG_PST[5 * 64 + i] as int
    }
}

proof fn lemma_pst_range(t: int, mg: bool, i: int)
    requires
        0 <= i < 64,
    ensures
        -32768 <= pst_entry(t, mg, i) <= 32767,
{
}

/// Piece-square value (see `pst_entry`).
pub fn pst(pt: u8, mg: bool, idx: usize) -> (v: i32)
    requires
        idx < 64,
    ensures
        v == pst_entry(pt as int, mg, idx as int),
{
    if mg && 1 <= pt && pt <= 6 {
        MG_PST[(pt as usize - 1) * 64 + idx] as i32
    } else if !mg && 1 <= pt && pt <= 5 {
        EG_PST[(pt as usize - 1) * 64 + idx] as i32
    } else {
        EG_PST[5 * 64 + idx] as i32
    }
}

/// Middlegame material value by type: 82 337 365 477 1025, king and none 0.
pub open spec fn mg_value(t: int) -> int {
    if t == 1 { 82 } else if t == 2 { 337 } else if t == 3 { 365 } else if t == 4 { 477 } else if t == 5 { 1025 } else { 0 }
}

/// Endgame material value by type: 94 281 297 512 936, king and none 0.
pub open spec fn eg_value(t: int) -> int {
    if t == 1 { 94 } else if t == 2 { 281 } else if t == 3 { 297 } else if t == 4 { 512 } else if t == 5 { 936 } else { 0 }
}

/// Game-phase weight by type: minor 1, rook 2, queen 4, others 0 (full phase 24).
pub open spec fn phase_inc(t: int) -> int {
    if t == 2 || t == 3 { 1 } else if t == 4 { 2 } else if t == 5 { 4 } else { 0 }
}

fn mg_value_of(t: u8) -> (v: i32)
    ensures
        v == mg_value(t as int),
{
    if t == 1 { 82 } else if t == 2 { 337 } else if t == 3 { 365 } else if t == 4 { 477 } else if t == 5 { 1025 } else { 0 }
}

fn eg_value_of(t: u8) -> (v: i32)
    ensures
        v == eg_value(t as int),
{
    if t == 1 { 94 } else if t == 2 { 281 } else if t == 3 { 297 } else if t == 4 { 512 } else if t == 5 { 936 } else { 0 }
}

fn phase_inc_of(t: u8) -> (v: i32)
    ensures
        v == phase_inc(t as int),
{
    if t == 2 || t == 3 { 1 } else if t == 4 { 2 } else if t == 5 { 4 } else { 0 }
}

/// Material and piece-square terms of the content `p` of square `s`:
/// middlegame, endgame (negative for black) and phase weight.
pub open spec fn square_terms(p: u8, s: int) -> (int, int, int) {
    if p == EMPTY {
        (0, 0, 0)
    } else {
        let t = pt(p);
        let i = if pc(p) == WHITE as int { (s as u8 ^ 56u8) as int } else { s };
        let m = mg_value(t) + pst_entry(t, true, i);
        let e = eg_value(t) + pst_entry(t, false, i);
        if pc(p) == WHITE as int {
            (m, e, phase_inc(t))
        } else {
            (-m, -e, phase_inc(t))
        }
    }
}

/// Sum of the square terms of the squares below `n`.
pub open spec fn material(sq: Seq<u8>, n: int) -> (int, int, int)
    decreases n,
{
    if n <= 0 {
        (0, 0, 0)
    } else {
        let (a, b, c) = material(sq, n - 1);
        let (x, y, z) = square_terms(sq[n - 1], n - 1);
        (a + x, b + y, c + z)
    }
}

proof fn lemma_material_bound(sq: Seq<u8>, n: int)
    requires
        0 <= n <= 64,
    ensures
        -34000 * n <= material(sq, n).0 <= 34000 * n,
        -34000 * n <= material(sq, n).1 <= 34000 * n,
        0 <= material(sq, n).2 <= 4 * n,
    decreases n,
{
    if n > 0 {
        lemma_material_bound(sq, n - 1);
        let p = sq[n - 1];
        if p != EMPTY {
            let i = if pc(p) == WHITE as int { ((n - 1) as u8 ^ 56u8) as int } else { n - 1 };
            let x: u8 = (n - 1) as u8;
            crate::bits::lemma_u8_coords(x);
            lemma_pst_range(pt(p), true, i);
            lemma_pst_range(pt(p), false, i);
        }
    }
}

/// Mobility offset, middlegame and endgame weights by type.
pub open spec fn mob_offset(t: int) -> int {
    if t == 2 { 4 } else if t == 3 { 6 } else if t == 4 { 7 } else if t == 5 { 13 } else { 0 }
}

pub open spec fn mob_mg(t: int) -> int {
    if t == 2 || t == 3 { 4 } else if t == 4 { 2 } else if t == 5 { 1 } else { 0 }
}

pub open spec fn mob_eg(t: int) -> int {
    if t == 2 { 4 } else if t == 3 { 5 } else if t == 4 { 4 } else if t == 5 { 2 } else { 0 }
}

/// The piece on `s` attacks `t`: a knight by its jump, bishops, rooks and
/// queens along their lines up to the first occupied square.
pub open spec fn mob_attacks(sq: Seq<u8>, s: int, t: int) -> bool {
    let k = pt(sq[s]);
    if k == KNIGHT as int {
        leap(true, s, t)
    } else if k == BISHOP as int {
        slides(sq_blocked(sq), s, true, t)
    } else if k == ROOK as int {
        slides(sq_blocked(sq), s, false, t)
    } else {
        slides(sq_blocked(sq), s, true, t) || slides(sq_blocked(sq), s, false, t)
    }
}

/// Squares the piece on `s` attacks that hold no piece of its own colour.
pub open spec fn mob_count(sq: Seq<u8>, s: int) -> int {
    count_where(|t: int| mob_attacks(sq, s, t) && !colored(sq[t], pc(sq[s])), 64) as int
}

/// Mobility terms of square `s`: for a knight, bishop, rook or queen,
/// (count - offset) times the weights, negative for black.
pub open spec fn mob_term(sq: Seq<u8>, s: int) -> (int, int) {
    let p = sq[s];
    let k = pt(p);
    if p != EMPTY && (k == KNIGHT as int || k == BISHOP as int || k == ROOK as int || k == QUEEN as int) {
        let m = mob_count(sq, s) - mob_offset(k);
        if pc(p) == WHITE as int {
            (mob_mg(k) * m, mob_eg(k) * m)
        } else {
            (-(mob_mg(k) * m), -(mob_eg(k) * m))
        }
    } else {
        (0, 0)
    }
}

/// Sum of the mobility terms of the squares below `n`.
pub open spec fn mobility_terms(sq: Seq<u8>, n: int) -> (int, int)
    decreases n,
{
    if n <= 0 {
        (0, 0)
    } else {
        let (a, b) = mobility_terms(sq, n - 1);
        let (x, y) = mob_term(sq, n - 1);
        (a + x, b + y)
    }
}

proof fn lemma_mob_term_bound(sq: Seq<u8>, s: int)
    ensures
        -400 <= mob_term(sq, s).0 <= 400,
        -400 <= mob_term(sq, s).1 <= 400,
{
    let p = sq[s];
    let k = pt(p);
    lemma_count_bound(|t: int| mob_attacks(sq, s, t) && !colored(sq[t], pc(sq[s])), 64);
    let m = mob_count(sq, s) - mob_offset(k);
    assert(-13 <= m <= 64);
    assert(0 <= mob_mg(k) <= 4 && 0 <= mob_eg(k) <= 5);
    assert(-65 <= mob_mg(k) * m <= 320) by (nonlinear_arith)
        requires
            -13 <= m <= 64,
            0 <= mob_mg(k) <= 4,
    ;
    assert(-65 <= mob_eg(k) * m <= 320) by (nonlinear_arith)
        requires
            -13 <= m <= 64,
            0 <= mob_eg(k) <= 5,
    ;
}

proof fn lemma_mobility_bound(sq: Seq<u8>, n: int)
    requires
        0 <= n <= 64,
    ensures
        -400 * n <= mobility_terms(sq, n).0 <= 400 * n,
        -400 * n <= mobility_terms(sq, n).1 <= 400 * n,
    decreases n,
{
    if n > 0 {
        lemma_mobility_bound(sq, n - 1);
        lemma_mob_term_bound(sq, n - 1);
    }
}

impl Board {
    /// Material and piece-square terms (see `material`).
    fn material_terms(&self) -> (r: (i32, i32, i32))
        requires
            self.wf(),
        ensures
            (r.0 as int, r.1 as int, r.2 as int) == material(self.sq@, 64),
    {
        let mut mg: i32 = 0;
        let mut eg: i32 = 0;
        let mut phase: i32 = 0;
        let mut s: u8 = 0;
        while s < 64
            invariant
                s <= 64,
                self.wf(),
                (mg as int, eg as int, phase as int) == material(self.sq@, s as int),
            decreases 64 - s,
        {
            proof {
                lemma_material_bound(self.sq@, s as int);
                lemma_material_bound(self.sq@, s as int + 1);
            }
            let p = self.sq[s as usize];
            if p != EMPTY {
                let t = ptype(p);
                phase = phase + phase_inc_of(t);
                if pcolor(p) == WHITE {
                    proof {
                        crate::bits::lemma_u8_coords(s);
                    }
                    let idx = (s ^ 56) as usize;
                    mg = mg + (mg_value_of(t) + pst(t, true, idx));
                    eg = eg + (eg_value_of(t) + pst(t, false, idx));
                } else {
                    let idx = s as usize;
                    mg = mg - (mg_value_of(t) + pst(t, true, idx));
                    eg = eg - (eg_value_of(t) + pst(t, false, idx));
                }
            }
            s = s + 1;
        }
        (mg, eg, phase)
    }

    /// Mobility terms (see `mobility_terms`).
    pub fn mobility(&self) -> (r: (i32, i32))
        requires
            self.wf(),
        ensures
            (r.0 as int, r.1 as int) == mobility_terms(self.sq@, 64),
    {
        let occ_all = self.occ[0] | self.occ[1];
        proof {
            lemma_bits_ops(self.occ@[0], self.occ@[1]);
        }
        let mut mg: i32 = 0;
        let mut eg: i32 = 0;
        let mut s: u8 = 0;
        while s < 64
            invariant
                s <= 64,
                self.wf(),
                occ_all == self.occ@[0] | self.occ@[1],
                (mg as int, eg as int) == mobility_terms(self.sq@, s as int),
            decreases 64 - s,
        {
            proof {
                lemma_mobility_bound(self.sq@, s as int);
                lemma_mob_term_bound(self.sq@, s as int);
            }
            let p = self.sq[s as usize];
            let k = ptype(p);
            if p != EMPTY && (k == KNIGHT || k == BISHOP || k == ROOK || k == QUEEN) {
                let c = pcolor(p);
                assert(valid_piece(self.sq@[s as int]));
                let att = if k == KNIGHT {
                    leaper_attacks_of(s, true)
                } else if k == BISHOP {
                    slider_attacks(s, occ_all, true)
                } else if k == ROOK {
                    slider_attacks(s, occ_all, false)
                } else {
                    let d = slider_attacks(s, occ_all, true);
                    let o = slider_attacks(s, occ_all, false);
                    proof {
                        lemma_bits_ops(d, o);
                    }
                    d | o
                };
                let own = self.occ[c as usize];
                let free = att & !own;
                proof {
                    lemma_bits_ops(att, !own);
                    lemma_bits_ops(own, 0);
                    lemma_bits_ops(self.occ@[0], self.occ@[1]);
                    assert forall|u: int| 0 <= u < 64 implies #[trigger] occ_blocked(occ_all)(u) == sq_blocked(self.sq@)(u) by {
                        assert(occ_blocked(occ_all)(u) == bit(occ_all, u));
                        assert(sq_blocked(self.sq@)(u) == (self.sq@[u] != EMPTY));
                        assert(bit(self.occ@[0], u) <==> colored(self.sq@[u], 0));
                        assert(bit(self.occ@[1], u) <==> colored(self.sq@[u], 1));
                        assert(valid_piece(self.sq@[u]));
                    }
                    assert forall|t: int| 0 <= t < 64 implies #[trigger] bit(free, t) == (mob_attacks(self.sq@, s as int, t) && !colored(self.sq@[t], pc(self.sq@[s as int]))) by {
                        lemma_slides_agree(occ_blocked(occ_all), sq_blocked(self.sq@), s as int, t);
                        assert(bit(own, t) <==> colored(self.sq@[t], c as int));
                    }
                    lemma_popcount_where(free, |t: int| mob_attacks(self.sq@, s as int, t) && !colored(self.sq@[t], pc(self.sq@[s as int])), 64);
                    lemma_count_bound(|t: int| mob_attacks(self.sq@, s as int, t) && !colored(self.sq@[t], pc(self.sq@[s as int])), 64);
                }
                let n = count_ones(free) as i32;
                let (off, wm, we): (i32, i32, i32) = if k == KNIGHT {
                    (4, 4, 4)
                } else if k == BISHOP {
                    (6, 4, 5)
                } else if k == ROOK {
                    (7, 2, 4)
                } else {
                    (13, 1, 2)
                };
                let m = n - off;
                assert(-13 <= m <= 64);
                assert(-65 <= wm * m <= 320) by (nonlinear_arith)
                    requires
                        -13 <= m <= 64,
                        0 <= wm <= 4,
                ;
                assert(-65 <= we * m <= 320) by (nonlinear_arith)
                    requires
                        -13 <= m <= 64,
                        0 <= we <= 5,
                ;
                if c == WHITE {
                    mg = mg + wm * m;
                    eg = eg + we * m;
                } else {
                    mg = mg - wm * m;
                    eg = eg - we * m;
                }
            }
            s = s + 1;
        }
        (mg, eg)
    }
}

/// Pawn-shield, open-file and tropism weights of king safety.
pub const SHIELD_PEN: i32 = -12;
pub const OPEN_FILE_PEN: i32 = -22;
pub const SEMI_OPEN_PEN: i32 = -11;
pub const TROPISM_Q: i32 = -4;
pub const TROPISM_R: i32 = -2;

proof fn lemma_row_bv(r: u64, i: u64)
    by (bit_vector)
    requires
        r < 8,
        i < 64,
    ensures
        ((0xFFu64 << (r * 8)) >> i) & 1u64 == 1u64 <==> i / 8 == r,
{
}

/// The lowest square below `n` that holds `p`; 64 if there is none.
pub open spec fn first_of(sq: Seq<u8>, p: u8, n: int) -> int
    decreases n,
{
    if n <= 0 {
        64
    } else if first_of(sq, p, n - 1) < 64 {
        first_of(sq, p, n - 1)
    } else if sq[n - 1] == p {
        n - 1
    } else {
        64
    }
}

proof fn lemma_first_of(sq: Seq<u8>, p: u8, n: int, k: int)
    requires
        0 <= n <= 64,
        k == 64 || (0 <= k < 64 && sq[k] == p),
        forall|j: int| 0 <= j < k && j < 64 ==> #[trigger] sq[j] != p,
    ensures
        first_of(sq, p, n) == if k < n { k } else { 64 },
    decreases n,
{
    if n > 0 {
        lemma_first_of(sq, p, n - 1, k);
    }
}

/// Own pawns of `color` on the files next to and of the king on `k`, on
/// the two ranks in front of it.
pub open spec fn shield_count(sq: Seq<u8>, color: int, k: int) -> int {
    count_where(
        |s: int|
            sq[s] == piece(color, PAWN as int) && near_file(s, file(k)) && if color == WHITE as int {
                rank(s) == rank(k) + 1 || rank(s) == rank(k) + 2
            } else {
                rank(s) == rank(k) - 1 || rank(s) == rank(k) - 2
            },
        64,
    ) as int
}

/// Penalty for file `ff` next to or of the king: none when it is off the
/// board or holds an own pawn; open (no pawn at all) or half-open otherwise.
pub open spec fn open_file_term(sq: Seq<u8>, color: int, ff: int) -> int {
    if 0 <= ff < 8 && !exists|s: int| 0 <= s < 64 && #[trigger] sq[s] == piece(color, PAWN as int) && file(s) == ff {
        if !exists|s: int| 0 <= s < 64 && #[trigger] sq[s] != EMPTY && pt(sq[s]) == PAWN as int && file(s) == ff {
            OPEN_FILE_PEN as int
        } else {
            SEMI_OPEN_PEN as int
        }
    } else {
        0
    }
}

pub open spec fn abs(x: int) -> int {
    if x < 0 { -x } else { x }
}

/// King distance between squares `a` and `b`.
pub open spec fn king_distance(a: int, b: int) -> int {
    let df = abs(file(a) - file(b));
    let dr = abs(rank(a) - rank(b));
    if df > dr { df } else { dr }
}

/// Tropism of an enemy queen or rook on `s` towards the king on `k`.
pub open spec fn tropism_term(sq: Seq<u8>, color: int, k: int, s: int) -> int {
    if sq[s] == piece(1 - color, QUEEN as int) {
        TROPISM_Q * (7 - king_distance(s, k))
    } else if sq[s] == piece(1 - color, ROOK as int) {
        TROPISM_R * (7 - king_distance(s, k))
    } else {
        0
    }
}

pub open spec fn tropism(sq: Seq<u8>, color: int, k: int, n: int) -> int
    decreases n,
{
    if n <= 0 {
        0
    } else {
        tropism(sq, color, k, n - 1) + tropism_term(sq, color, k, n - 1)
    }
}

/// King safety of `color` (0 without a king): pawn shield, open files
/// around the king and enemy queen and rook tropism.
pub open spec fn king_safety_spec(sq: Seq<u8>, color: int) -> int {
    let k = first_of(sq, piece(color, KING as int), 64);
    if k >= 64 {
        0
    } else {
        let sh = shield_count(sq, color, k);
        SHIELD_PEN * (3 - if sh < 3 { sh } else { 3 }) + open_file_term(sq, color, file(k) - 1)
            + open_file_term(sq, color, file(k)) + open_file_term(sq, color, file(k) + 1) + tropism(
            sq,
            color,
            k,
            64,
        )
    }
}

proof fn lemma_tropism_bound(sq: Seq<u8>, color: int, k: int, n: int)
    requires
        0 <= n <= 64,
        0 <= k < 64,
    ensures
        -28 * n <= tropism(sq, color, k, n) <= 0,
    decreases n,
{
    if n > 0 {
        lemma_tropism_bound(sq, color, k, n - 1);
        let s = n - 1;
        assert(0 <= king_distance(s, k) <= 7);
    }
}

impl Board {
    /// King safety of `color` (see `king_safety_spec`).
    pub fn king_safety(&self, color: u8) -> (score: i32)
        requires
            self.wf(),
            color <= 1,
        ensures
            score == king_safety_spec(self.sq@, color as int),
    {
        let kbb = self.pieces[KING as usize] & self.occ[color as usize];
        let ghost kp = piece(color as int, KING as int);
        proof {
            lemma_bits_ops(self.pieces@[KING as int], self.occ@[color as int]);
            assert forall|s: int| 0 <= s < 64 implies #[trigger] bit(kbb, s) == (self.sq@[s] == kp) by {
                assert(bit(self.pieces@[KING as int], s) <==> self.sq@[s] != EMPTY && pt(self.sq@[s]) == KING);
                assert(bit(self.occ@[color as int], s) <==> colored(self.sq@[s], color as int));
                assert(valid_piece(self.sq@[s]));
            }
        }
        if kbb == 0 {
            proof {
                lemma_bits_ops(0, 0);
                assert forall|j: int| 0 <= j < 64 implies #[trigger] self.sq@[j] != kp by {
                    assert(!bit(kbb, j));
                }
                lemma_first_of(self.sq@, kp, 64, 64);
            }
            return 0;
        }
        proof {
            crate::bits::lemma_lowest_bit(kbb);
        }
        let ksq = kbb.trailing_zeros() as u8;
        proof {
            assert forall|j: int| 0 <= j < ksq && j < 64 implies #[trigger] self.sq@[j] != kp by {
                assert(!bit(kbb, j));
            }
            lemma_first_of(self.sq@, kp, 64, ksq as int);
        }
        proof {
            crate::bits::lemma_u8_coords(ksq);
        }
        let f = (ksq & 7) as i8;
        let kr = (ksq >> 3) as i8;
        let mut score: i32 = 0;
        let own_pawns = self.pieces[PAWN as usize] & self.occ[color as usize];
        let all_pawns = self.pieces[PAWN as usize];
        let ghost pp = piece(color as int, PAWN as int);
        proof {
            lemma_bits_ops(self.pieces@[PAWN as int], self.occ@[color as int]);
            assert forall|s: int| 0 <= s < 64 implies #[trigger] bit(own_pawns, s) == (self.sq@[s] == pp) by {
                assert(bit(self.pieces@[PAWN as int], s) <==> self.sq@[s] != EMPTY && pt(self.sq@[s]) == PAWN);
                assert(bit(self.occ@[color as int], s) <==> colored(self.sq@[s], color as int));
                assert(valid_piece(self.sq@[s]));
            }
            assert forall|s: int| 0 <= s < 64 implies #[trigger] bit(all_pawns, s) == (self.sq@[s] != EMPTY && pt(self.sq@[s]) == PAWN) by {
            }
        }
        let fm0 = file_mask(f as usize);
        let am0 = adj_files_mask(f as usize);
        let shield_files = fm0 | am0;
        proof {
            lemma_bits_ops(fm0, am0);
            lemma_bits_ops(0, 0);
        }
        let mut front: u64 = 0;
        let (r1, r2): (i8, i8) = if color == WHITE { (kr + 1, kr + 2) } else { (kr - 1, kr - 2) };
        if 0 <= r1 && r1 < 8 {
            let row = 0xFFu64 << (r1 as u64 * 8);
            proof {
                lemma_bits_ops(front, row);
                assert forall|i: int| 0 <= i < 64 implies (#[trigger] bit(row, i) <==> rank(i) == r1) by {
                    lemma_row_bv(r1 as u64, i as u64);
                }
            }
            front = front | row;
        }
        let ghost front1 = front;
        if 0 <= r2 && r2 < 8 {
            let row = 0xFFu64 << (r2 as u64 * 8);
            proof {
                lemma_bits_ops(front, row);
                assert forall|i: int| 0 <= i < 64 implies (#[trigger] bit(row, i) <==> rank(i) == r2) by {
                    lemma_row_bv(r2 as u64, i as u64);
                }
            }
            front = front | row;
        }
        assert forall|i: int| 0 <= i < 64 implies (#[trigger] bit(front, i) <==> rank(i) == r1 || rank(i) == r2) by {
            assert(0 <= rank(i) < 8);
        }
        let shield_set = (own_pawns & shield_files) & front;
        let ghost shield_pred = |s: int|
            self.sq@[s] == pp && near_file(s, file(ksq as int)) && if color == WHITE {
                rank(s) == rank(ksq as int) + 1 || rank(s) == rank(ksq as int) + 2
            } else {
                rank(s) == rank(ksq as int) - 1 || rank(s) == rank(ksq as int) - 2
            };
        proof {
            lemma_bits_ops(own_pawns, shield_files);
            lemma_bits_ops(own_pawns & shield_files, front);
            assert forall|s: int| 0 <= s < 64 implies #[trigger] bit(shield_set, s) == shield_pred(s) by {
            }
            lemma_popcount_where(shield_set, shield_pred, 64);
            lemma_count_bound(shield_pred, 64);
        }
        let shield = count_ones(shield_set) as i32;
        let capped = if shield < 3 { shield } else { 3 };
        score = score + SHIELD_PEN * (3 - capped);
        let ghost s0 = score as int;
        let mut ff: i8 = f - 1;
        let ghost mut acc: int = 0;
        while ff <= f + 1
            invariant
                f - 1 <= ff <= f + 2,
                0 <= f < 8,
                -36 <= s0 <= 0,
                score as int == s0 + acc,
                -22 * (ff - (f - 1)) <= acc <= 0,
                acc == (if ff > f - 1 { open_file_term(self.sq@, color as int, f - 1) } else { 0 })
                    + (if ff > f { open_file_term(self.sq@, color as int, f as int) } else { 0 })
                    + (if ff > f + 1 { open_file_term(self.sq@, color as int, f + 1) } else { 0 }),
                forall|s: int| 0 <= s < 64 ==> #[trigger] bit(own_pawns, s) == (self.sq@[s] == pp),
                forall|s: int| 0 <= s < 64 ==> #[trigger] bit(all_pawns, s) == (self.sq@[s] != EMPTY && pt(self.sq@[s]) == PAWN),
                pp == piece(color as int, PAWN as int),
            decreases f + 2 - ff,
        {
            let mut t: i32 = 0;
            if 0 <= ff && ff < 8 {
                let fm = file_mask(ff as usize);
                proof {
                    lemma_and_zero(own_pawns, fm);
                    lemma_and_zero(all_pawns, fm);
                }
                if own_pawns & fm == 0 {
                    t = if all_pawns & fm == 0 { OPEN_FILE_PEN } else { SEMI_OPEN_PEN };
                    proof {
                        assert(!exists|s: int| 0 <= s < 64 && #[trigger] self.sq@[s] == piece(color as int, PAWN as int) && file(s) == ff) by {
                            if exists|s: int| 0 <= s < 64 && #[trigger] self.sq@[s] == piece(color as int, PAWN as int) && file(s) == ff {
                                let w = choose|s: int| 0 <= s < 64 && #[trigger] self.sq@[s] == piece(color as int, PAWN as int) && file(s) == ff;
                                assert(bit(own_pawns, w) && bit(fm, w));
                            }
                        }
                        if all_pawns & fm == 0 {
                            assert(!exists|s: int| 0 <= s < 64 && #[trigger] self.sq@[s] != EMPTY && pt(self.sq@[s]) == PAWN as int && file(s) == ff) by {
                                if exists|s: int| 0 <= s < 64 && #[trigger] self.sq@[s] != EMPTY && pt(self.sq@[s]) == PAWN as int && file(s) == ff {
                                    let w = choose|s: int| 0 <= s < 64 && #[trigger] self.sq@[s] != EMPTY && pt(self.sq@[s]) == PAWN as int && file(s) == ff;
                                    assert(bit(all_pawns, w) && bit(fm, w));
                                }
                            }
                        } else {
                            let w = choose|i: int| 0 <= i < 64 && #[trigger] bit(all_pawns, i) && bit(fm, i);
                            assert(self.sq@[w] != EMPTY && pt(self.sq@[w]) == PAWN as int && file(w) == ff);
                        }
                    }
                } else {
                    proof {
                        let w = choose|i: int| 0 <= i < 64 && #[trigger] bit(own_pawns, i) && bit(fm, i);
                        assert(self.sq@[w] == piece(color as int, PAWN as int) && file(w) == ff);
                    }
                }
            }
            assert(t == open_file_term(self.sq@, color as int, ff as int));
            score = score + t;
            proof {
                acc = acc + t;
            }
            ff = ff + 1;
        }
        let ghost s1 = score as int;
        assert(s1 == s0 + open_file_term(self.sq@, color as int, f - 1) + open_file_term(self.sq@, color as int, f as int) + open_file_term(self.sq@, color as int, f + 1));
        let mut s: u8 = 0;
        while s < 64
            invariant
                s <= 64,
                0 <= f < 8,
                0 <= kr < 8,
                ksq < 64,
                f == file(ksq as int),
                kr == rank(ksq as int),
                color <= 1,
                -102 <= s1 <= 0,
                score as int == s1 + tropism(self.sq@, color as int, ksq as int, s as int),
                self.wf(),
            decreases 64 - s,
        {
            proof {
                lemma_tropism_bound(self.sq@, color as int, ksq as int, s as int);
            }
            let p = self.sq[s as usize];
            let them = 1 - color;
            let w: i32 = if p == crate::board::make_piece(them, QUEEN) {
                TROPISM_Q
            } else if p == crate::board::make_piece(them, ROOK) {
                TROPISM_R
            } else {
                0
            };
            if w != 0 {
                proof {
        crate::bits::lemma_u8_coords(s);
    }
                let sf = (s & 7) as i8;
                let sr = (s >> 3) as i8;
                let df = if sf >= f { sf - f } else { f - sf };
                let dr = if sr >= kr { sr - kr } else { kr - sr };
                let d = if df > dr { df } else { dr };
                assert(d as int == king_distance(s as int, ksq as int));
                score = score + w * (7 - d as i32);
            }
            s = s + 1;
        }
        score
    }
}

/// Manhattan distance of each square to the nearest centre square (d4 e4 d5 e5).
pub const CMD: [i32; 64] = [
    6, 5, 4, 3, 3, 4, 5, 6,
    5, 4, 3, 2, 2, 3, 4, 5,
    4, 3, 2, 1, 1, 2, 3, 4,
    3, 2, 1, 0, 0, 1, 2, 3,
    3, 2, 1, 0, 0, 1, 2, 3,
    4, 3, 2, 1, 1, 2, 3, 4,
    5, 4, 3, 2, 2, 3, 4, 5,
    6, 5, 4, 3, 3, 4, 5, 6,
];

/// Distance of square `s` to the centre (see `CMD`).
pub closed spec fn center_distance(s: int) -> int {
    CMD[s] as int
}

/// Squares whose file and rank sum is odd (b1, d1, …, a2, …).
pub const LIGHT_SQUARES: u64 = 0x55AA_55AA_55AA_55AA;

pub open spec fn light(s: int) -> bool {
    (file(s) + rank(s)) % 2 == 1
}

proof fn lemma_light_bv(i: u64)
    by (bit_vector)
    requires
        i < 64,
    ensures
        ((0x55AA_55AA_55AA_55AAu64 >> i) & 1u64 == 1u64) <==> ((i % 8) + (i / 8)) % 2 == 1,
{
}

/// "Known win" base of the mop-up score.
pub const MOPUP2_WIN_BASE: i32 = 1200;

/// Sum of the file distance and the rank distance of squares `a` and `b`.
pub open spec fn manhattan_spec(a: int, b: int) -> int {
    abs(a % 8 - b % 8) + abs(a / 8 - b / 8)
}

/// Manhattan distance of two squares (see `manhattan_spec`).
pub fn manhattan(a: i32, b: i32) -> (d: i32)
    requires
        0 <= a <= 64,
        0 <= b <= 64,
    ensures
        d == manhattan_spec(a as int, b as int),
{
    let df = a % 8 - b % 8;
    let dr = a / 8 - b / 8;
    (if df < 0 { -df } else { df }) + (if dr < 0 { -dr } else { dr })
}

/// The squares holding `p`.
pub open spec fn holds(sq: Seq<u8>, p: u8) -> spec_fn(int) -> bool {
    |s: int| sq[s] == p
}

/// Number of squares holding `p`.
pub open spec fn count_of(sq: Seq<u8>, p: u8) -> int {
    count_where(holds(sq, p), 64) as int
}

/// What the mop-up evaluation makes of one side as the stronger side.
pub enum Mopup {
    /// The other side has more than one piece (or none).
    Skip,
    /// The other side has a bare king but this side has no mating material.
    NoMating,
    Score(int),
    /// The arithmetic overflows `i32`, or the bare side has no king to look up.
    Panics,
}

pub open spec fn fits_i32(x: int) -> bool {
    -0x8000_0000 <= x <= 0x7fff_ffff
}

/// Mop-up score with `us` the side with material against a bare king:
/// known-win base plus material (endgame values) plus `c1` times how far
/// the bare king is pushed (to the centre's rim, or towards a corner of the
/// bishop's colour with king, bishop and knight) plus `c2` times how close
/// the kings are; negative when `us` is black.
pub open spec fn mopup_side(sq: Seq<u8>, us: int, c1: int, c2: int) -> Mopup {
    if count_where(|s: int| colored(sq[s], 1 - us), 64) != 1 {
        Mopup::Skip
    } else if !has_mating(sq, us) {
        Mopup::NoMating
    } else {
        mopup_score(sq, us, c1, c2)
    }
}

/// Bishops of `us` on both square colours.
pub open spec fn two_color_bishops(sq: Seq<u8>, us: int) -> bool {
    &&& exists|s: int| 0 <= s < 64 && #[trigger] sq[s] == piece(us, BISHOP as int) && light(s)
    &&& exists|s: int| 0 <= s < 64 && #[trigger] sq[s] == piece(us, BISHOP as int) && !light(s)
}

/// `us` has exactly king, one bishop and knights.
pub open spec fn is_kbn(sq: Seq<u8>, us: int) -> bool {
    &&& count_of(sq, piece(us, PAWN as int)) == 0
    &&& count_of(sq, piece(us, ROOK as int)) == 0
    &&& count_of(sq, piece(us, QUEEN as int)) == 0
    &&& count_of(sq, piece(us, BISHOP as int)) == 1
    &&& count_of(sq, piece(us, KNIGHT as int)) >= 1
}

/// `us` has mating material: a pawn, rook or queen, bishop and knight,
/// bishops on both colours, or three knights.
pub open spec fn has_mating(sq: Seq<u8>, us: int) -> bool {
    ||| count_of(sq, piece(us, PAWN as int)) > 0
    ||| count_of(sq, piece(us, ROOK as int)) > 0
    ||| count_of(sq, piece(us, QUEEN as int)) > 0
    ||| count_of(sq, piece(us, BISHOP as int)) > 0 && count_of(sq, piece(us, KNIGHT as int)) > 0
    ||| two_color_bishops(sq, us)
    ||| count_of(sq, piece(us, KNIGHT as int)) >= 3
}

/// Material of `us` at endgame values.
pub open spec fn mopup_material(sq: Seq<u8>, us: int) -> int {
    count_of(sq, piece(us, PAWN as int)) * 94 + count_of(sq, piece(us, KNIGHT as int)) * 281
        + count_of(sq, piece(us, BISHOP as int)) * 297 + count_of(sq, piece(us, ROOK as int)) * 512
        + count_of(sq, piece(us, QUEEN as int)) * 936
}

/// How far the bare king is driven: towards a corner of the bishop's
/// colour for king, bishop and knight, else towards the rim; `None` when
/// the bare side has no king to look up.
pub open spec fn mopup_push(sq: Seq<u8>, us: int) -> Option<int> {
    let tk = first_of(sq, piece(1 - us, KING as int), 64);
    if is_kbn(sq, us) {
        let bsq = first_of(sq, piece(us, BISHOP as int), 64);
        let ca: int = if light(bsq) { 56 } else { 0 };
        let cb: int = if light(bsq) { 7 } else { 63 };
        let da = manhattan_spec(tk, ca);
        let db = manhattan_spec(tk, cb);
        let m = if da < db { da } else { db };
        Some(7 - if m < 7 { m } else { 7 })
    } else if tk >= 64 {
        None
    } else {
        Some(center_distance(tk))
    }
}

/// The mop-up score of `us` (see `mopup_side`).
pub open spec fn mopup_score(sq: Seq<u8>, us: int, c1: int, c2: int) -> Mopup {
    match mopup_push(sq, us) {
        None => Mopup::Panics,
        Some(push) => {
            let ok = first_of(sq, piece(us, KING as int), 64);
            let tk = first_of(sq, piece(1 - us, KING as int), 64);
            let base = MOPUP2_WIN_BASE + mopup_material(sq, us);
            let a = c1 * push;
            let s1 = base + a;
            let b = c2 * (14 - manhattan_spec(ok, tk));
            let s2 = s1 + b;
            if !fits_i32(a) || !fits_i32(s1) || !fits_i32(b) || !fits_i32(s2) {
                Mopup::Panics
            } else if us == WHITE as int {
                Mopup::Score(s2)
            } else if s2 == -0x8000_0000 {
                Mopup::Panics
            } else {
                Mopup::Score(-s2)
            }
        },
    }
}

/// Mop-up against a bare king: white as the stronger side first, then black.
pub open spec fn mopup_outcome(sq: Seq<u8>, c1: int, c2: int) -> Mopup {
    match mopup_side(sq, WHITE as int, c1, c2) {
        Mopup::Skip => mopup_side(sq, BLACK as int, c1, c2),
        r => r,
    }
}

proof fn lemma_tz_first(x: u64, sq: Seq<u8>, p: u8)
    requires
        forall|s: int| 0 <= s < 64 ==> #[trigger] bit(x, s) == (sq[s] == p),
    ensures
        vstd::std_specs::bits::u64_trailing_zeros(x) as int == first_of(sq, p, 64),
{
    vstd::std_specs::bits::axiom_u64_trailing_zeros(x);
    if x == 0 {
        lemma_bits_ops(0, 0);
        assert forall|j: int| 0 <= j < 64 implies #[trigger] sq[j] != p by {
            assert(!bit(x, j));
        }
        lemma_first_of(sq, p, 64, 64);
    } else {
        crate::bits::lemma_lowest_bit(x);
        let k = vstd::std_specs::bits::u64_trailing_zeros(x) as int;
        assert forall|j: int| 0 <= j < k && j < 64 implies #[trigger] sq[j] != p by {
            assert(!bit(x, j));
        }
        lemma_first_of(sq, p, 64, k);
    }
}

impl Board {
    /// Number of pieces of type `t` of colour `c`.
    fn own_count(&self, c: u8, t: u8) -> (n: u32)
        requires
            self.wf(),
            c <= 1,
            1 <= t <= 6,
        ensures
            n == count_of(self.sq@, piece(c as int, t as int)),
            n <= 64,
    {
        let (_, n) = self.own_set(c, t);
        n
    }

    /// Squares of the pieces of type `t` of colour `c`, with their count.
    fn own_set(&self, c: u8, t: u8) -> (r: (u64, u32))
        requires
            self.wf(),
            c <= 1,
            1 <= t <= 6,
        ensures
            forall|s: int| 0 <= s < 64 ==> #[trigger] bit(r.0, s) == (self.sq@[s] == piece(c as int, t as int)),
            r.1 == count_of(self.sq@, piece(c as int, t as int)),
            r.1 == popcount(r.0),
            r.1 <= 64,
    {
        let x = self.pieces[t as usize] & self.occ[c as usize];
        proof {
            lemma_bits_ops(self.pieces@[t as int], self.occ@[c as int]);
            assert forall|s: int| 0 <= s < 64 implies #[trigger] bit(x, s) == (self.sq@[s] == piece(c as int, t as int)) by {
                assert(bit(self.pieces@[t as int], s) <==> self.sq@[s] != EMPTY && pt(self.sq@[s]) == t);
                assert(bit(self.occ@[c as int], s) <==> colored(self.sq@[s], c as int));
                assert(valid_piece(self.sq@[s]));
            }
            lemma_popcount_where(x, holds(self.sq@, piece(c as int, t as int)), 64);
            lemma_count_bound(holds(self.sq@, piece(c as int, t as int)), 64);
        }
        (x, count_ones(x))
    }

    /// Whether `us` has mating material, whether it is king, bishop and
    /// knight, its material and its bishops.
    #[verifier::rlimit(60)]
    fn mating_material(&self, us: u8) -> (r: (bool, bool, i64, u64))
        requires
            self.wf(),
            us <= 1,
        ensures
            r.0 == has_mating(self.sq@, us as int),
            r.1 == is_kbn(self.sq@, us as int),
            r.2 == mopup_material(self.sq@, us as int),
            forall|s: int| 0 <= s < 64 ==> #[trigger] bit(r.3, s) == (self.sq@[s] == piece(us as int, BISHOP as int)),
    {
        let ghost sq = self.sq@;
        let pawns = self.own_count(us, PAWN);
        let knights = self.own_count(us, KNIGHT);
        let (bishops, nb) = self.own_set(us, BISHOP);
        let rooks = self.own_count(us, ROOK);
        let queens = self.own_count(us, QUEEN);
        let ghost bp = piece(us as int, BISHOP as int);
        proof {
            lemma_bits_ops(bishops, LIGHT_SQUARES);
            lemma_and_zero(bishops, LIGHT_SQUARES);
            lemma_and_zero(bishops, !LIGHT_SQUARES);
            lemma_bits_ops(LIGHT_SQUARES, 0);
            assert forall|i: int| 0 <= i < 64 implies #[trigger] bit(LIGHT_SQUARES, i) == light(i) by {
                lemma_light_bv(i as u64);
            }
        }
        let on_light = bishops & LIGHT_SQUARES != 0;
        let on_dark = bishops & !LIGHT_SQUARES != 0;
        proof {
            if on_light {
                let w = choose|i: int| 0 <= i < 64 && #[trigger] bit(bishops, i) && bit(LIGHT_SQUARES, i);
                assert(sq[w] == bp && light(w));
            } else {
                assert(!exists|s: int| 0 <= s < 64 && #[trigger] sq[s] == bp && light(s)) by {
                    if exists|s: int| 0 <= s < 64 && #[trigger] sq[s] == bp && light(s) {
                        let w = choose|s: int| 0 <= s < 64 && #[trigger] sq[s] == bp && light(s);
                        assert(bit(bishops, w) && bit(LIGHT_SQUARES, w));
                    }
                }
            }
            if on_dark {
                let w = choose|i: int| 0 <= i < 64 && #[trigger] bit(bishops, i) && bit(!LIGHT_SQUARES, i);
                assert(sq[w] == bp && !light(w));
            } else {
                assert(!exists|s: int| 0 <= s < 64 && #[trigger] sq[s] == bp && !light(s)) by {
                    if exists|s: int| 0 <= s < 64 && #[trigger] sq[s] == bp && !light(s) {
                        let w = choose|s: int| 0 <= s < 64 && #[trigger] sq[s] == bp && !light(s);
                        assert(bit(bishops, w) && bit(!LIGHT_SQUARES, w));
                    }
                }
            }
            crate::bits::lemma_popcount_nonzero(bishops);
        }
        let two_color = on_light && on_dark;
        let kbn = pawns == 0 && rooks == 0 && queens == 0 && nb == 1 && knights >= 1;
        let mating = pawns > 0 || rooks > 0 || queens > 0 || (bishops != 0 && knights > 0)
            || two_color || knights >= 3;
        let material: i64 = pawns as i64 * 94 + knights as i64 * 281 + nb as i64 * 297 + rooks as i64
            * 512 + queens as i64 * 936;
        (mating, kbn, material, bishops)
    }

    /// How far the bare king is driven (see `mopup_push`).
    #[verifier::rlimit(60)]
    fn mopup_push_of(&self, us: u8, kbn: bool, bishops: u64) -> (r: Option<i32>)
        requires
            self.wf(),
            us <= 1,
            kbn == is_kbn(self.sq@, us as int),
            forall|s: int| 0 <= s < 64 ==> #[trigger] bit(bishops, s) == (self.sq@[s] == piece(us as int, BISHOP as int)),
        ensures
            match r {
                Some(v) => mopup_push(self.sq@, us as int) == Some(v as int) && 0 <= v <= 7,
                None => mopup_push(self.sq@, us as int) is None,
            },
    {
        let ghost sq = self.sq@;
        let them = 1 - us;
        let (kings_them, _) = self.own_set(them, KING);
        proof {
            lemma_tz_first(kings_them, sq, piece(them as int, KING as int));
            lemma_tz_first(bishops, sq, piece(us as int, BISHOP as int));
            vstd::std_specs::bits::axiom_u64_trailing_zeros(kings_them);
            vstd::std_specs::bits::axiom_u64_trailing_zeros(bishops);
        }
        let tk = kings_them.trailing_zeros() as i32;
        if kbn {
            let bsq = bishops.trailing_zeros() as i32;
            let is_light = (bsq % 8 + bsq / 8) % 2 == 1;
            let (ca, cb): (i32, i32) = if is_light { (56, 7) } else { (0, 63) };
            let da = manhattan(tk, ca);
            let db = manhattan(tk, cb);
            let m = if da < db { da } else { db };
            Some(7 - if m < 7 { m } else { 7 })
        } else {
            if tk >= 64 {
                return None;
            }
            let v = CMD[tk as usize];
            assert(0 <= v <= 6) by {
                assert(0 <= CMD[tk as int] <= 6);
            }
            Some(v)
        }
    }

    /// Mop-up evaluation for one side `us` (see `mopup_side`); `None` where it panics.
    #[verifier::rlimit(60)]
    fn mopup_side_of(&self, us: u8, c1: i32, c2: i32) -> (r: Option<Mopup2Step>)
        requires
            self.wf(),
            us <= 1,
        ensures
            match r {
                None => mopup_side(self.sq@, us as int, c1 as int, c2 as int) is Panics,
                Some(Mopup2Step::Skip) => mopup_side(self.sq@, us as int, c1 as int, c2 as int) is Skip,
                Some(Mopup2Step::NoMating) => mopup_side(self.sq@, us as int, c1 as int, c2 as int) is NoMating,
                Some(Mopup2Step::Score(v)) => mopup_side(self.sq@, us as int, c1 as int, c2 as int) == Mopup::Score(v as int),
            },
    {
        let ghost sq = self.sq@;
        let them = 1 - us;
        let theirs = self.occ[them as usize];
        proof {
            assert forall|s: int| 0 <= s < 64 implies #[trigger] bit(theirs, s) == colored(sq[s], them as int) by {
            }
            lemma_popcount_where(theirs, |s: int| colored(sq[s], 1 - us), 64);
        }
        if count_ones(theirs) != 1 {
            return Some(Mopup2Step::Skip);
        }
        let (mating, kbn, material, bishops) = self.mating_material(us);
        if !mating {
            return Some(Mopup2Step::NoMating);
        }
        let push = match self.mopup_push_of(us, kbn, bishops) {
            Some(v) => v,
            None => {
                return None;
            },
        };
        let (kings_us, _) = self.own_set(us, KING);
        let (kings_them, _) = self.own_set(them, KING);
        proof {
            lemma_tz_first(kings_us, sq, piece(us as int, KING as int));
            lemma_tz_first(kings_them, sq, piece(them as int, KING as int));
            vstd::std_specs::bits::axiom_u64_trailing_zeros(kings_us);
            vstd::std_specs::bits::axiom_u64_trailing_zeros(kings_them);
            lemma_count_bound(holds(sq, piece(us as int, PAWN as int)), 64);
        }
        let ok = kings_us.trailing_zeros() as i32;
        let tk = kings_them.trailing_zeros() as i32;
        assert(0 <= material <= 64 * 936 * 5) by {
            lemma_count_bound(holds(sq, piece(us as int, PAWN as int)), 64);
            lemma_count_bound(holds(sq, piece(us as int, KNIGHT as int)), 64);
            lemma_count_bound(holds(sq, piece(us as int, BISHOP as int)), 64);
            lemma_count_bound(holds(sq, piece(us as int, ROOK as int)), 64);
            lemma_count_bound(holds(sq, piece(us as int, QUEEN as int)), 64);
        }
        let base: i64 = 1200 + material;
        assert(-0x8000_0000 * 7 <= (c1 as int) * (push as int) <= 0x7fff_ffff * 7) by (nonlinear_arith)
            requires
                0 <= push <= 7,
                -0x8000_0000 <= c1 <= 0x7fff_ffff,
        ;
        let a: i64 = c1 as i64 * push as i64;
        let s1: i64 = base + a;
        let md = manhattan(ok, tk);
        assert(-1 <= 14 - md <= 14) by {
            assert(0 <= ok <= 64 && 0 <= tk <= 64);
        }
        assert(-0x8000_0000 * 14 <= (c2 as int) * ((14 - md) as int) <= 0x8000_0000 * 14) by (nonlinear_arith)
            requires
                -1 <= 14 - md <= 14,
                -0x8000_0000 <= c2 <= 0x7fff_ffff,
        ;
        let b: i64 = c2 as i64 * (14 - md) as i64;
        if a < -0x8000_0000 || a > 0x7fff_ffff || s1 < -0x8000_0000 || s1 > 0x7fff_ffff || b
            < -0x8000_0000 || b > 0x7fff_ffff {
            return None;
        }
        let s2: i64 = s1 + b;
        if s2 < -0x8000_0000 || s2 > 0x7fff_ffff {
            return None;
        }
        if us == WHITE {
            Some(Mopup2Step::Score(s2 as i32))
        } else if s2 == -0x8000_0000 {
            None
        } else {
            Some(Mopup2Step::Score(-(s2 as i32)))
        }
    }
}

/// What the mop-up evaluation of one side gives (exec counterpart of `Mopup`).
pub enum Mopup2Step {
    Skip,
    NoMating,
    Score(i32),
}

impl Board {
    /// Mop-up evaluation against a bare king (see `mopup_outcome`); the outer
    /// `None` exactly where it panics.
    pub fn mopup2_eval_checked(&self, c1: i32, c2: i32) -> (r: Option<Option<i32>>)
        requires
            self.wf(),
        ensures
            match r {
                None => mopup_outcome(self.sq@, c1 as int, c2 as int) is Panics,
                Some(Some(v)) => mopup_outcome(self.sq@, c1 as int, c2 as int) == Mopup::Score(v as int),
                Some(None) => mopup_outcome(self.sq@, c1 as int, c2 as int) is Skip
                    || mopup_outcome(self.sq@, c1 as int, c2 as int) is NoMating,
            },
    {
        match self.mopup_side_of(WHITE, c1, c2) {
            None => None,
            Some(Mopup2Step::Score(v)) => Some(Some(v)),
            Some(Mopup2Step::NoMating) => Some(None),
            Some(Mopup2Step::Skip) => match self.mopup_side_of(BLACK, c1, c2) {
                None => None,
                Some(Mopup2Step::Score(v)) => Some(Some(v)),
                Some(Mopup2Step::NoMating) => Some(None),
                Some(Mopup2Step::Skip) => Some(None),
            },
        }
    }
}

/// Mop-up score against a bare king with coefficients `c1` (push) and `c2`
/// (king proximity), for boards on which it does not panic.
pub fn mopup2_eval(b: &Board, c1: i32, c2: i32) -> (r: Option<i32>)
    requires
        b.wf(),
        !(mopup_outcome(b.sq@, c1 as int, c2 as int) is Panics),
    ensures
        match r {
            Some(v) => mopup_outcome(b.sq@, c1 as int, c2 as int) == Mopup::Score(v as int),
            None => mopup_outcome(b.sq@, c1 as int, c2 as int) is Skip
                || mopup_outcome(b.sq@, c1 as int, c2 as int) is NoMating,
        },
{
    match b.mopup2_eval_checked(c1, c2) {
        Some(r) => r,
        None => None,
    }
}

/// White pawns and black pawns of a board.
pub open spec fn pawn_sets(b: Board) -> (u64, u64) {
    (b.pieces@[PAWN as int] & b.occ@[WHITE as int], b.pieces@[PAWN as int] & b.occ@[BLACK as int])
}

/// The tapered evaluation: middlegame and endgame sums of material and
/// piece-square values, pawn structure and mobility (king safety counts in
/// the middlegame only), blended by the phase (capped at 24) and floored.
pub open spec fn hce(b: Board) -> int {
    let (m0, e0, ph0) = material(b.sq@, 64);
    let (pm, pe) = pawn_structure_spec(pawn_sets(b).0, pawn_sets(b).1);
    let (mm, me) = mobility_terms(b.sq@, 64);
    let mg = m0 + (pm + mm) + (king_safety_spec(b.sq@, WHITE as int) - king_safety_spec(b.sq@, BLACK as int));
    let eg = e0 + (pe + me);
    let phase = if ph0 > 24 { 24 } else { ph0 };
    (mg * phase + eg * (24 - phase)) / 24
}

/// The evaluation: the mop-up score where mop-up coefficients are given and
/// it applies, the tapered evaluation otherwise.
pub open spec fn evaluation(b: Board, mopup: Option<(i32, i32)>) -> int {
    match mopup {
        Some((c1, c2)) => match mopup_outcome(b.sq@, c1 as int, c2 as int) {
            Mopup::Score(v) => v,
            _ => hce(b),
        },
        None => hce(b),
    }
}

proof fn lemma_king_safety_bound(sq: Seq<u8>, color: int)
    ensures
        -2000 <= king_safety_spec(sq, color) <= 0,
{
    let k = first_of(sq, piece(color, KING as int), 64);
    if k < 64 {
        lemma_first_range(sq, piece(color, KING as int), 64);
        let sh = shield_count(sq, color, k);
        lemma_count_bound(
            |s: int|
                sq[s] == piece(color, PAWN as int) && near_file(s, file(k)) && if color == WHITE as int {
                    rank(s) == rank(k) + 1 || rank(s) == rank(k) + 2
                } else {
                    rank(s) == rank(k) - 1 || rank(s) == rank(k) - 2
                },
            64,
        );
        lemma_tropism_bound(sq, color, k, 64);
    }
}

proof fn lemma_first_range(sq: Seq<u8>, p: u8, n: int)
    requires
        0 <= n <= 64,
    ensures
        0 <= first_of(sq, p, n) <= 64,
    decreases n,
{
    if n > 0 {
        lemma_first_range(sq, p, n - 1);
    }
}

/// Evaluation in centipawns from White's point of view (see `evaluation`);
/// with mop-up coefficients, for boards on which the mop-up does not panic.
pub fn evaluate(b: &Board, mopup: Option<(i32, i32)>) -> (score: i32)
    requires
        b.wf(),
        match mopup {
            Some((c1, c2)) => !(mopup_outcome(b.sq@, c1 as int, c2 as int) is Panics),
            None => true,
        },
    ensures
        score == evaluation(*b, mopup),
{
    if let Some((c1, c2)) = mopup {
        if let Some(s) = mopup2_eval(b, c1, c2) {
            return s;
        }
    }
    let (mut mg, mut eg, mut phase) = b.material_terms();
    let wp = b.pieces[PAWN as usize] & b.occ[WHITE as usize];
    let bp = b.pieces[PAWN as usize] & b.occ[BLACK as usize];
    let (ps_mg, ps_eg) = pawn_structure(wp, bp);
    let (mb_mg, mb_eg) = b.mobility();
    proof {
        lemma_material_bound(b.sq@, 64);
        lemma_pawn_terms_bound(wp, bp, true, 64);
        lemma_pawn_terms_bound(bp, wp, false, 64);
        lemma_doubled_bound(wp, bp, 8);
        lemma_mobility_bound(b.sq@, 64);
        lemma_king_safety_bound(b.sq@, WHITE as int);
        lemma_king_safety_bound(b.sq@, BLACK as int);
    }
    mg = mg + (ps_mg + mb_mg);
    eg = eg + (ps_eg + mb_eg);
    let kw = b.king_safety(WHITE);
    let kb = b.king_safety(BLACK);
    mg = mg + (kw - kb);
    if phase > 24 {
        phase = 24;
    }
    assert(0 <= phase <= 24);
    assert(-2_400_000 <= mg <= 2_400_000);
    assert(-2_400_000 <= eg <= 2_400_000);
    assert(-57_600_000 <= mg * phase <= 57_600_000) by (nonlinear_arith)
        requires
            0 <= phase <= 24,
            -2_400_000 <= mg <= 2_400_000,
    ;
    assert(-57_600_000 <= eg * (24 - phase) <= 57_600_000) by (nonlinear_arith)
        requires
            0 <= phase <= 24,
            -2_400_000 <= eg <= 2_400_000,
    ;
    let total = mg * phase + eg * (24 - phase);
    match total.checked_div_euclid(24) {
        Some(v) => v,
        None => {
            assert(false);
            0
        },
    }
}

} // verus!
