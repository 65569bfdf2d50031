//! Colour symmetry of the pawn-structure terms: a pawn structure scores
//! as the negation of the same structure mirrored with the colours swapped.

use vstd::prelude::*;
use crate::bits::{bit, count_where};
use crate::attacks::{file, rank};
use crate::eval::{
    pawn_term, pawn_terms, pawn_structure_spec, doubled_terms, file_count, isolated, passed, near_file,
};
use crate::nnue::{flip_sq, sum_upto, lemma_sum_flip, lemma_sum_agree};

verus! {

/// `y` holds the squares of `x` mirrored across the middle rank.
pub open spec fn mirrored(x: u64, y: u64) -> bool {
    forall|i: int| 0 <= i < 64 ==> #[trigger] bit(y, flip_sq(i)) == bit(x, i)
}

proof fn lemma_flip(i: int)
    requires
        0 <= i < 64,
    ensures
        0 <= flip_sq(i) < 64,
        flip_sq(flip_sq(i)) == i,
        file(flip_sq(i)) == file(i),
        rank(flip_sq(i)) == 7 - rank(i),
{
    let r = i / 8;
    let f = i % 8;
    assert(i == 8 * r + f && 0 <= f < 8 && 0 <= r < 8);
    assert(flip_sq(i) == 8 * (7 - r) + f);
    assert((8 * (7 - r) + f) / 8 == 7 - r);
    assert((8 * (7 - r) + f) % 8 == f);
    assert(flip_sq(flip_sq(i)) == 8 * (7 - (7 - r)) + f);
}

proof fn lemma_mirrored_back(x: u64, y: u64)
    requires
        mirrored(x, y),
    ensures
        forall|j: int| 0 <= j < 64 ==> #[trigger] bit(y, j) == bit(x, flip_sq(j)),
{
    assert forall|j: int| 0 <= j < 64 implies #[trigger] bit(y, j) == bit(x, flip_sq(j)) by {
        lemma_flip(j);
        assert(bit(y, flip_sq(flip_sq(j))) == bit(x, flip_sq(j)));
    }
}

/// A pawn mirrored, with its own and the enemy pawns mirrored and the
/// colours swapped, gets the negated terms.
proof fn lemma_pawn_term_mirror(own: u64, enemy: u64, mo: u64, me: u64, s: int, white: bool)
    requires
        mirrored(own, mo),
        mirrored(enemy, me),
        0 <= s < 64,
    ensures
        pawn_term(mo, me, flip_sq(s), !white).0 == -pawn_term(own, enemy, s, white).0,
        pawn_term(mo, me, flip_sq(s), !white).1 == -pawn_term(own, enemy, s, white).1,
{
    lemma_flip(s);
    lemma_mirrored_back(own, mo);
    lemma_mirrored_back(enemy, me);
    let fs = flip_sq(s);
    assert(isolated(mo, fs) == isolated(own, s)) by {
        if !isolated(own, s) {
            let i = choose|i: int| 0 <= i < 64 && #[trigger] bit(own, i) && (file(i) == file(s) - 1 || file(i) == file(s) + 1);
            lemma_flip(i);
            assert(bit(mo, flip_sq(i)));
        }
        if !isolated(mo, fs) {
            let j = choose|j: int| 0 <= j < 64 && #[trigger] bit(mo, j) && (file(j) == file(fs) - 1 || file(j) == file(fs) + 1);
            lemma_flip(j);
            assert(bit(own, flip_sq(j)));
        }
    }
    assert(passed(me, fs, !white) == passed(enemy, s, white)) by {
        if !passed(enemy, s, white) {
            let i = choose|i: int|
                0 <= i < 64 && #[trigger] bit(enemy, i) && near_file(i, file(s)) && if white {
                    rank(i) > rank(s)
                } else {
                    rank(i) < rank(s)
                };
            lemma_flip(i);
            assert(bit(me, flip_sq(i)));
        }
        if !passed(me, fs, !white) {
            let j = choose|j: int|
                0 <= j < 64 && #[trigger] bit(me, j) && near_file(j, file(fs)) && if !white {
                    rank(j) > rank(fs)
                } else {
                    rank(j) < rank(fs)
                };
            lemma_flip(j);
            assert(bit(enemy, flip_sq(j)));
        }
    }
}

/// The pawn terms of one side as sums over the board.
proof fn lemma_pawn_terms_sum(own: u64, enemy: u64, white: bool, n: int)
    ensures
        pawn_terms(own, enemy, white, n).0 == sum_upto(|s: int| if bit(own, s) { pawn_term(own, enemy, s, white).0 } else { 0 }, n),
        pawn_terms(own, enemy, white, n).1 == sum_upto(|s: int| if bit(own, s) { pawn_term(own, enemy, s, white).1 } else { 0 }, n),
    decreases n,
{
    if n > 0 {
        lemma_pawn_terms_sum(own, enemy, white, n - 1);
    }
}

proof fn lemma_sum_neg(g: spec_fn(int) -> int, n: int)
    ensures
        sum_upto(|s: int| -g(s), n) == -sum_upto(g, n),
    decreases n,
{
    if n > 0 {
        lemma_sum_neg(g, n - 1);
    }
}

/// Mirroring the pawns and swapping colours negates one side's terms.
proof fn lemma_pawn_terms_mirror(own: u64, enemy: u64, mo: u64, me: u64, white: bool)
    requires
        mirrored(own, mo),
        mirrored(enemy, me),
    ensures
        pawn_terms(mo, me, !white, 64).0 == -pawn_terms(own, enemy, white, 64).0,
        pawn_terms(mo, me, !white, 64).1 == -pawn_terms(own, enemy, white, 64).1,
{
    lemma_pawn_terms_sum(own, enemy, white, 64);
    lemma_pawn_terms_sum(mo, me, !white, 64);
    let g0 = |s: int| if bit(own, s) { pawn_term(own, enemy, s, white).0 } else { 0 };
    let g1 = |s: int| if bit(own, s) { pawn_term(own, enemy, s, white).1 } else { 0 };
    let h0 = |j: int| if bit(mo, j) { pawn_term(mo, me, j, !white).0 } else { 0 };
    let h1 = |j: int| if bit(mo, j) { pawn_term(mo, me, j, !white).1 } else { 0 };
    lemma_sum_flip(h0);
    lemma_sum_flip(h1);
    let k0 = |s: int| h0(flip_sq(s));
    let k1 = |s: int| h1(flip_sq(s));
    let n0 = |s: int| -g0(s);
    let n1 = |s: int| -g1(s);
    assert forall|s: int| 0 <= s < 64 implies #[trigger] k0(s) == n0(s) by {
        lemma_pawn_term_mirror(own, enemy, mo, me, s, white);
        lemma_flip(s);
    }
    assert forall|s: int| 0 <= s < 64 implies #[trigger] k1(s) == n1(s) by {
        lemma_pawn_term_mirror(own, enemy, mo, me, s, white);
        lemma_flip(s);
    }
    lemma_sum_agree(k0, n0, 64);
    lemma_sum_agree(k1, n1, 64);
    lemma_sum_neg(g0, 64);
    lemma_sum_neg(g1, 64);
}

proof fn lemma_count_sum(p: spec_fn(int) -> bool, n: int)
    ensures
        count_where(p, n) as int == sum_upto(|i: int| if p(i) { 1int } else { 0int }, n),
    decreases n,
{
    if n > 0 {
        lemma_count_sum(p, n - 1);
    }
}

/// Mirroring keeps the number of pawns on each file.
proof fn lemma_file_count_mirror(x: u64, y: u64, f: int)
    requires
        mirrored(x, y),
    ensures
        file_count(y, f) == file_count(x, f),
{
    let px = |i: int| bit(x, i) && file(i) == f;
    let py = |i: int| bit(y, i) && file(i) == f;
    lemma_count_sum(px, 64);
    lemma_count_sum(py, 64);
    let gx = |i: int| if px(i) { 1int } else { 0int };
    let gy = |i: int| if py(i) { 1int } else { 0int };
    lemma_sum_flip(gy);
    let k = |i: int| gy(flip_sq(i));
    assert forall|i: int| 0 <= i < 64 implies #[trigger] k(i) == gx(i) by {
        lemma_flip(i);
    }
    lemma_sum_agree(k, gx, 64);
}

proof fn lemma_doubled_mirror(wp: u64, bp: u64, mwp: u64, mbp: u64, n: int)
    requires
        mirrored(wp, mwp),
        mirrored(bp, mbp),
    ensures
        doubled_terms(mbp, mwp, n).0 == -doubled_terms(wp, bp, n).0,
        doubled_terms(mbp, mwp, n).1 == -doubled_terms(wp, bp, n).1,
    decreases n,
{
    if n > 0 {
        lemma_doubled_mirror(wp, bp, mwp, mbp, n - 1);
        lemma_file_count_mirror(wp, mwp, n - 1);
        lemma_file_count_mirror(bp, mbp, n - 1);
    }
}

/// The pawn structure is colour-symmetric: mirroring every pawn across
/// the middle rank and swapping the colours negates both terms.
pub proof fn lemma_pawn_structure_mirror(wp: u64, bp: u64, mwp: u64, mbp: u64)
    requires
        mirrored(wp, mwp),
        mirrored(bp, mbp),
    ensures
        pawn_structure_spec(mbp, mwp).0 == -pawn_structure_spec(wp, bp).0,
        pawn_structure_spec(mbp, mwp).1 == -pawn_structure_spec(wp, bp).1,
{
    lemma_pawn_terms_mirror(wp, bp, mwp, mbp, true);
    lemma_pawn_terms_mirror(bp, wp, mbp, mwp, false);
    lemma_doubled_mirror(wp, bp, mwp, mbp, 8);
}


} // verus!
