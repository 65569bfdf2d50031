//! Material tests: non-pawn material of the side to move, and positions
//! where neither side has mating material.

use vstd::prelude::*;
use crate::board::{Board, EMPTY, KNIGHT, BISHOP, ROOK, QUEEN, KING, pc, pt, pcolor, ptype};

verus! {

/// Square content `p` is a knight, bishop, rook or queen of colour `c`.
pub open spec fn is_officer(p: u8, c: int) -> bool {
    p != EMPTY && pc(p) == c && (pt(p) == KNIGHT as int || pt(p) == BISHOP as int || pt(p)
        == ROOK as int || pt(p) == QUEEN as int)
}

/// Square content `p` is a knight or a bishop.
pub open spec fn is_minor(p: u8) -> bool {
    p != EMPTY && (pt(p) == KNIGHT as int || pt(p) == BISHOP as int)
}

/// Number of minor pieces on the first `n` squares.
pub open spec fn minors(sq: Seq<u8>, n: int) -> int
    decreases n,
{
    if n <= 0 {
        0
    } else {
        minors(sq, n - 1) + if is_minor(sq[n - 1]) { 1int } else { 0 }
    }
}

/// Only kings, knights and bishops on the board, and at most one knight or bishop.
pub open spec fn insufficient(sq: Seq<u8>) -> bool {
    &&& forall|s: int|
        0 <= s < 64 ==> #[trigger] sq[s] == EMPTY || pt(sq[s]) == KING as int || is_minor(sq[s])
    &&& minors(sq, 64) <= 1
}

proof fn lemma_minors_bound(sq: Seq<u8>, n: int)
    requires
        0 <= n,
    ensures
        0 <= minors(sq, n) <= n,
    decreases n,
{
    if n > 0 {
        lemma_minors_bound(sq, n - 1);
    }
}

impl Board {
    /// The side to move has a knight, bishop, rook or queen.
    pub fn has_non_pawn_material(&self) -> (r: bool)
        ensures
            r <==> exists|s: int| 0 <= s < 64 && #[trigger] is_officer(self.sq@[s], self.stm as int),
    {
        let mut s: usize = 0;
        while s < 64
            invariant
                s <= 64,
                forall|i: int| 0 <= i < s ==> !#[trigger] is_officer(self.sq@[i], self.stm as int),
            decreases 64 - s,
        {
            let p = self.sq[s];
            if p != EMPTY && pcolor(p) == self.stm {
                let t = ptype(p);
                if t == KNIGHT || t == BISHOP || t == ROOK || t == QUEEN {
                    assert(is_officer(self.sq@[s as int], self.stm as int));
                    return true;
                }
            }
            s = s + 1;
        }
        false
    }

    /// Bare kings, or kings and a single knight or bishop.
    pub fn is_insufficient_material(&self) -> (r: bool)
        ensures
            r == insufficient(self.sq@),
    {
        let mut count: i32 = 0;
        let mut s: usize = 0;
        while s < 64
            invariant
                s <= 64,
                count == minors(self.sq@, s as int),
                forall|i: int|
                    0 <= i < s ==> #[trigger] self.sq@[i] == EMPTY || pt(self.sq@[i]) == KING as int
                        || is_minor(self.sq@[i]),
            decreases 64 - s,
        {
            proof {
                lemma_minors_bound(self.sq@, s as int);
            }
            let p = self.sq[s];
            if p != EMPTY {
                let t = ptype(p);
                if t == KING {
                } else if t == KNIGHT || t == BISHOP {
                    count = count + 1;
                } else {
                    assert(!(self.sq@[s as int] == EMPTY || pt(self.sq@[s as int]) == KING as int
                        || is_minor(self.sq@[s as int])));
                    return false;
                }
            }
            s = s + 1;
        }
        count <= 1
    }
}

} // verus!
