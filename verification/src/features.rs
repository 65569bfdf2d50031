//! Threat-input feature set: the 768 piece features of a perspective plus
//! 128 threat features, two per square (attacked by the perspective's side,
//! attacked by the other side).

use vstd::prelude::*;
use crate::bits::{bit, lemma_bit_test, lemma_bits_ops};
use crate::board::{Board, WHITE, pt, valid_piece, ptype, pcolor};
use crate::attacks::is_attacked;
use crate::nnue::{feat, feature};

verus! {

/// Piece features of the occupied squares below `n`, by square from a1.
pub open spec fn base_features(b: Board, persp: u8, n: int) -> Seq<usize>
    decreases n,
{
    if n <= 0 {
        seq![]
    } else {
        let rest = base_features(b, persp, n - 1);
        let p = b.sq@[n - 1];
        if bit(b.occ[0] | b.occ[1], n - 1) {
            rest.push(feature(persp, (p as int / 8) as u8, (pt(p) - 1) as u8, (n - 1) as u8) as usize)
        } else {
            rest
        }
    }
}

/// Threat features of the squares below `n`: `768 + 2 * s'` when the
/// perspective's side attacks the square, `768 + 2 * s' + 1` when the other
/// side does (`s'` the square mirrored for Black).
pub open spec fn threat_features(b: Board, persp: u8, n: int) -> Seq<usize>
    decreases n,
{
    if n <= 0 {
        seq![]
    } else {
        let s = n - 1;
        let sp: int = if persp == WHITE { s } else { ((s as u8) ^ 56u8) as int };
        let ours: Seq<usize> = if is_attacked(b@.sq, s, persp as int) { seq![(768 + 2 * sp) as usize] } else { seq![] };
        let theirs: Seq<usize> = if is_attacked(b@.sq, s, 1 - persp) { seq![(768 + 2 * sp + 1) as usize] } else { seq![] };
        threat_features(b, persp, n - 1) + ours + theirs
    }
}

/// The sequence is in ascending order.
pub open spec fn ascending(v: Seq<usize>) -> bool {
    forall|i: int, j: int| 0 <= i < j < v.len() ==> v[i] <= v[j]
}

/// `slice::sort_unstable`: sorts the vector in ascending order (a
/// permutation of its items).
#[verifier::external_body]
fn sort_indices(v: &mut Vec<usize>)
    ensures
        final(v)@.to_multiset() == old(v)@.to_multiset(),
        ascending(final(v)@),
{
    v.sort_unstable();
}

/// The feature indices of a board in perspective `persp`, sorted.
pub fn feature_indices(b: &Board, persp: u8) -> (idx: Vec<usize>)
    requires
        b.wf(),
        persp <= 1,
    ensures
        ascending(idx@),
        idx@.to_multiset() == (base_features(*b, persp, 64) + threat_features(*b, persp, 64)).to_multiset(),
{
    let mut idx: Vec<usize> = Vec::new();
    let occ = b.occ[0] | b.occ[1];
    let mut s: u8 = 0;
    while s < 64
        invariant
            s <= 64,
            b.wf(),
            occ == b.occ[0] | b.occ[1],
            idx@ == base_features(*b, persp, s as int),
        decreases 64 - s,
    {
        proof {
            lemma_bit_test(occ, s as u64);
        }
        if occ & (1u64 << s) != 0 {
            let p = b.sq[s as usize];
            proof {
                lemma_bits_ops(b.occ@[0], b.occ@[1]);
                assert(valid_piece(b.sq@[s as int]));
                assert(bit(b.occ@[0], s as int) ==> b.sq@[s as int] != 0);
                assert(bit(b.occ@[1], s as int) ==> b.sq@[s as int] != 0);
            }
            let f = feat(persp, pcolor(p), ptype(p) - 1, s);
            idx.push(f);
        }
        s = s + 1;
    }
    let ghost base = idx@;
    let opp = 1 - persp;
    let mut t: u8 = 0;
    while t < 64
        invariant
            t <= 64,
            b.wf(),
            persp <= 1,
            opp == 1 - persp,
            base == base_features(*b, persp, 64),
            idx@ == base + threat_features(*b, persp, t as int),
        decreases 64 - t,
    {
        proof {
            crate::bits::lemma_u8_coords(t);
        }
        let sp = (if persp == WHITE { t } else { t ^ 56 }) as usize;
        let ghost before = idx@;
        if b.attacked(t, persp) {
            idx.push(768 + 2 * sp);
        }
        if b.attacked(t, opp) {
            idx.push(768 + 2 * sp + 1);
        }
        proof {
            assert(idx@ =~= base + threat_features(*b, persp, t as int + 1));
        }
        t = t + 1;
    }
    sort_indices(&mut idx);
    idx
}

} // verus!
