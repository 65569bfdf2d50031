//! Pseudo-legal move generation. The emitted order is fixed: pieces by
//! ascending square; per piece: pawn push, double push, capture toward the
//! a-file side, capture toward the h-file side (promotions Q, R, B, N);
//! knight and king targets ascending; sliders direction by direction,
//! near to far; castling last (king side, then queen side).

use vstd::prelude::*;
use vstd::std_specs::bits::u64_trailing_zeros;
use crate::bits::{bit, sub_one, lemma_bits_ops, lemma_bit_test, lemma_lowest_bit};
use crate::board::{
    Board, Move, Position, mv, EMPTY, PAWN, KNIGHT, BISHOP, ROOK, QUEEN, KING, WHITE, BLACK, WK,
    WQ, BK, BQ, pc, pt, piece, colored, valid_piece, squares_valid, occ_consistent, make_piece,
    ptype, pcolor, file_of, rank_of,
};
use crate::attacks::{
    file, rank, on_board, at, leap, ray_on, ray_sq, is_attacked, dir_df, dir_dr, times,
    lemma_coords, lemma_at, leaper_attacks_of, dir_df_exec, dir_dr_exec,
};

verus! {

/// Concatenation of `f(lo), f(lo + 1), …, f(hi - 1)`.
pub open spec fn collect(f: spec_fn(int) -> Seq<Move>, lo: int, hi: int) -> Seq<Move>
    decreases hi - lo,
{
    if hi <= lo {
        seq![]
    } else {
        collect(f, lo, hi - 1) + f(hi - 1)
    }
}

/// Indices in `[lo, hi)` that contribute nothing can be skipped.
pub proof fn lemma_collect_skip(f: spec_fn(int) -> Seq<Move>, a: int, lo: int, hi: int)
    requires
        a <= lo <= hi,
        forall|i: int| lo <= i < hi ==> #[trigger] f(i) == Seq::<Move>::empty(),
    ensures
        collect(f, a, hi) == collect(f, a, lo),
    decreases hi - lo,
{
    if hi > lo {
        lemma_collect_skip(f, a, lo, hi - 1);
        assert(f(hi - 1) == Seq::<Move>::empty());
        assert(collect(f, a, hi) == collect(f, a, hi - 1) + f(hi - 1));
        assert(collect(f, a, hi - 1) + Seq::<Move>::empty() =~= collect(f, a, hi - 1));
    }
}

/// Square `s` holds a piece of the side to move.
pub open spec fn own(pos: Position, s: int) -> bool {
    colored(pos.sq[s], pos.stm as int)
}

/// Square `s` holds a piece of the side not to move.
pub open spec fn enemy(pos: Position, s: int) -> bool {
    colored(pos.sq[s], 1 - pos.stm)
}

/// The pawn moves from `from` to `to`: the four promotions (Q, R, B, N) on
/// the first and last ranks, one plain move elsewhere.
pub open spec fn pawn_to(from: int, to: int) -> Seq<Move> {
    if rank(to) == 0 || rank(to) == 7 {
        seq![
            mv(from, to, QUEEN as int),
            mv(from, to, ROOK as int),
            mv(from, to, BISHOP as int),
            mv(from, to, KNIGHT as int),
        ]
    } else {
        seq![mv(from, to, 0)]
    }
}

pub open spec fn pawn_dir(stm: u8) -> int {
    if stm == WHITE {
        8
    } else {
        -8
    }
}

/// Pawn capture of the pawn on `s` toward file side `df`: onto an enemy
/// piece, or onto the en-passant square.
pub open spec fn pawn_capture(pos: Position, s: int, df: int) -> Seq<Move> {
    let nf = file(s) + df;
    if !(0 <= nf < 8) {
        seq![]
    } else {
        let t = s + pawn_dir(pos.stm) + df;
        if enemy(pos, t) {
            pawn_to(s, t)
        } else if pos.ep == Some(t as u8) {
            seq![mv(s, t, 0)]
        } else {
            seq![]
        }
    }
}

pub open spec fn pawn_moves(pos: Position, s: int) -> Seq<Move> {
    let one = s + pawn_dir(pos.stm);
    let start: int = if pos.stm == WHITE { 1 } else { 6 };
    let two = one + pawn_dir(pos.stm);
    let pushes = if pos.sq[one] == EMPTY {
        pawn_to(s, one) + if rank(s) == start && pos.sq[two] == EMPTY {
            seq![mv(s, two, 0)]
        } else {
            seq![]
        }
    } else {
        seq![]
    };
    pushes + pawn_capture(pos, s, -1) + pawn_capture(pos, s, 1)
}

/// The knight (king) move from `s` to `t`, if `t` is a step away and not own.
pub open spec fn leaper_target(pos: Position, s: int, knight: bool, t: int) -> Seq<Move> {
    if leap(knight, s, t) && !own(pos, t) {
        seq![mv(s, t, 0)]
    } else {
        seq![]
    }
}

pub open spec fn leaper_targets(pos: Position, s: int, knight: bool) -> spec_fn(int) -> Seq<Move> {
    |t: int| leaper_target(pos, s, knight, t)
}

pub open spec fn leaper_moves(pos: Position, s: int, knight: bool) -> Seq<Move> {
    collect(leaper_targets(pos, s, knight), 0, 64)
}

/// Slider moves from `s` along direction `d` from step `k` on: empty squares,
/// then the first enemy piece; an own piece stops the walk.
pub open spec fn slide_dir(pos: Position, s: int, d: int, k: int) -> Seq<Move>
    decreases 8 - k,
{
    if k < 1 || k > 7 || !ray_on(s, d, k) {
        seq![]
    } else {
        let u = ray_sq(s, d, k);
        if pos.sq[u] == EMPTY {
            seq![mv(s, u, 0)] + slide_dir(pos, s, d, k + 1)
        } else if enemy(pos, u) {
            seq![mv(s, u, 0)]
        } else {
            seq![]
        }
    }
}

pub open spec fn slide_dirs(pos: Position, s: int) -> spec_fn(int) -> Seq<Move> {
    |d: int| slide_dir(pos, s, d, 1)
}

/// Moves of the piece on `s` if it belongs to the side to move.
pub open spec fn piece_moves(pos: Position, s: int) -> Seq<Move> {
    if !own(pos, s) {
        seq![]
    } else {
        let t = pt(pos.sq[s]);
        if t == PAWN {
            pawn_moves(pos, s)
        } else if t == KNIGHT {
            leaper_moves(pos, s, true)
        } else if t == KING {
            leaper_moves(pos, s, false)
        } else if t == BISHOP {
            collect(slide_dirs(pos, s), 0, 4)
        } else if t == ROOK {
            collect(slide_dirs(pos, s), 4, 8)
        } else {
            collect(slide_dirs(pos, s), 0, 8)
        }
    }
}

pub open spec fn all_piece_moves(pos: Position) -> spec_fn(int) -> Seq<Move> {
    |s: int| piece_moves(pos, s)
}

/// Castling bit `b` is held.
pub open spec fn has_right(castling: u8, b: u8) -> bool {
    castling & b != 0
}

/// Castling: the right is held, the king stands on its home square and is
/// not in check, the rook stands on its home square, the squares between
/// are empty and the squares the king crosses are not attacked.
pub open spec fn castling_moves(pos: Position) -> Seq<Move> {
    let us = pos.stm as int;
    let them = 1 - us;
    let ksq: int = if us == WHITE { 4 } else { 60 };
    let r0: int = if us == WHITE { 0 } else { 56 };
    let kb: u8 = if us == WHITE { WK } else { BK };
    let qb: u8 = if us == WHITE { WQ } else { BQ };
    let sq = pos.sq;
    if sq[ksq] == piece(us, KING as int) && !is_attacked(sq, ksq, them) {
        (if has_right(pos.castling, kb) && sq[r0 + 5] == EMPTY && sq[r0 + 6] == EMPTY && sq[r0 + 7]
            == piece(us, ROOK as int) && !is_attacked(sq, r0 + 5, them) && !is_attacked(
            sq,
            r0 + 6,
            them,
        ) {
            seq![mv(ksq, r0 + 6, 0)]
        } else {
            seq![]
        }) + (if has_right(pos.castling, qb) && sq[r0 + 1] == EMPTY && sq[r0 + 2] == EMPTY && sq[r0
            + 3] == EMPTY && sq[r0] == piece(us, ROOK as int) && !is_attacked(sq, r0 + 2, them)
            && !is_attacked(sq, r0 + 3, them) {
            seq![mv(ksq, r0 + 2, 0)]
        } else {
            seq![]
        })
    } else {
        seq![]
    }
}

/// All pseudo-legal moves of a position, in generation order.
pub open spec fn pseudo_moves(pos: Position) -> Seq<Move> {
    collect(all_piece_moves(pos), 0, 64) + castling_moves(pos)
}

/// No pawn of colour `c` stands on the rank it would step off the board from.
pub open spec fn pawns_ok(sq: Seq<u8>, c: int) -> bool {
    forall|s: int|
        0 <= s < 64 && #[trigger] sq[s] == piece(c, PAWN as int) ==> if c == WHITE {
            rank(s) < 7
        } else {
            rank(s) > 0
        }
}

/// `occ_all` holds exactly the occupied squares.
pub open spec fn occ_all_ok(sq: Seq<u8>, occ_all: u64) -> bool {
    forall|u: int| 0 <= u < 64 ==> (#[trigger] bit(occ_all, u) <==> sq[u] != EMPTY)
}

impl Board {
    pub proof fn lemma_occ_all(&self)
        requires
            self.wf(),
        ensures
            occ_all_ok(self@.sq, self.occ[0] | self.occ[1]),
            forall|u: int| 0 <= u < 64 ==> (#[trigger] bit(self.occ[self.stm as int], u) <==> own(self@, u)),
            forall|u: int| 0 <= u < 64 ==> (#[trigger] bit(self.occ[1 - self.stm], u) <==> enemy(self@, u)),
    {
        lemma_bits_ops(self.occ[0], self.occ[1]);
        assert forall|u: int| 0 <= u < 64 implies (#[trigger] bit(self.occ[0] | self.occ[1], u)
            <==> self@.sq[u] != EMPTY) by {
            assert(bit(self.occ@[0], u) == colored(self@.sq[u], 0));
            assert(bit(self.occ@[1], u) == colored(self@.sq[u], 1));
            assert(valid_piece(self@.sq[u]));
        }
        assert forall|u: int| 0 <= u < 64 implies (#[trigger] bit(self.occ[self.stm as int], u) <==> own(self@, u)) by {
            assert(bit(self.occ@[self.stm as int], u) == colored(self@.sq[u], self.stm as int));
        }
        assert forall|u: int| 0 <= u < 64 implies (#[trigger] bit(self.occ[1 - self.stm], u) <==> enemy(self@, u)) by {
            assert(bit(self.occ@[1 - self.stm], u) == colored(self@.sq[u], 1 - self.stm));
        }
    }

    /// Appends the pawn moves from `from` to `to` (promotions Q, R, B, N on
    /// the first and last ranks).
    fn push_pawn_moves(&self, from: u8, to: u8, out: &mut Vec<Move>)
        requires
            to < 64,
        ensures
            final(out)@ == old(out)@ + pawn_to(from as int, to as int),
    {
        let r = rank_of(to);
        if r == 0 || r == 7 {
            out.push(Move { from, to, promo: QUEEN });
            out.push(Move { from, to, promo: ROOK });
            out.push(Move { from, to, promo: BISHOP });
            out.push(Move { from, to, promo: KNIGHT });
            assert(final(out)@ =~= old(out)@ + pawn_to(from as int, to as int));
        } else {
            out.push(Move { from, to, promo: 0 });
            assert(final(out)@ =~= old(out)@ + pawn_to(from as int, to as int));
        }
    }

    /// Appends the capture of the pawn on `s` toward file side `df`.
    fn pawn_capture_into(&self, s: u8, df: i8, out: &mut Vec<Move>)
        requires
            self.wf(),
            s < 64,
            df == -1 || df == 1,
            self@.sq[s as int] == piece(self.stm as int, PAWN as int),
            pawns_ok(self@.sq, self.stm as int),
        ensures
            final(out)@ == old(out)@ + pawn_capture(self@, s as int, df as int),
    {
        proof {
            self.lemma_occ_all();
            lemma_coords(s as int);
        }
        let us = self.stm;
        let them = 1 - us;
        let fwd: i8 = if us == WHITE { 8 } else { -8 };
        let f = file_of(s);
        let nf = f + df;
        if !(0 <= nf && nf < 8) {
            assert(pawn_capture(self@, s as int, df as int) == Seq::<Move>::empty());
            assert(out@ =~= out@ + Seq::<Move>::empty());
            return;
        }
        let t = (s as i8 + fwd + df) as u8;
        proof {
            lemma_bit_test(self.occ[them as int], t as u64);
        }
        if self.occ[them as usize] & (1u64 << t) != 0 {
            self.push_pawn_moves(s, t, out);
        } else if Some(t) == self.ep {
            out.push(Move { from: s, to: t, promo: 0 });
        } else {
            assert(out@ =~= out@ + Seq::<Move>::empty());
        }
    }

    /// Appends the moves of the side to move's pawn on `s`.
    fn pawn_moves_into(&self, s: u8, occ_all: u64, out: &mut Vec<Move>)
        requires
            self.wf(),
            s < 64,
            self@.sq[s as int] == piece(self.stm as int, PAWN as int),
            pawns_ok(self@.sq, self.stm as int),
            occ_all_ok(self@.sq, occ_all),
        ensures
            final(out)@ == old(out)@ + pawn_moves(self@, s as int),
    {
        let ghost start = out@;
        let us = self.stm;
        let fwd: i8 = if us == WHITE { 8 } else { -8 };
        let start_rank: i8 = if us == WHITE { 1 } else { 6 };
        let r = rank_of(s);
        proof {
            lemma_coords(s as int);
            assert(if us == WHITE { rank(s as int) < 7 } else { rank(s as int) > 0 });
        }
        let one = (s as i8 + fwd) as u8;
        proof {
            lemma_bit_test(occ_all, one as u64);
        }
        let ghost pushes: Seq<Move>;
        if occ_all & (1u64 << one) == 0 {
            self.push_pawn_moves(s, one, out);
            if r == start_rank {
                let two = (one as i8 + fwd) as u8;
                proof {
                    lemma_bit_test(occ_all, two as u64);
                }
                if occ_all & (1u64 << two) == 0 {
                    out.push(Move { from: s, to: two, promo: 0 });
                } else {
                    assert(out@ =~= out@ + Seq::<Move>::empty());
                }
            } else {
                assert(out@ =~= out@ + Seq::<Move>::empty());
            }
            proof {
                pushes = out@.subrange(start.len() as int, out@.len() as int);
                assert(out@ =~= start + pushes);
            }
        } else {
            proof {
                pushes = Seq::<Move>::empty();
                assert(out@ =~= start + pushes);
            }
        }
        let ghost mid = out@;
        self.pawn_capture_into(s, -1, out);
        self.pawn_capture_into(s, 1, out);
        proof {
            let pos = self@;
            let one_i = s as int + pawn_dir(pos.stm);
            let start_i: int = if pos.stm == WHITE { 1 } else { 6 };
            let two_i = one_i + pawn_dir(pos.stm);
            let spec_pushes = if pos.sq[one_i] == EMPTY {
                pawn_to(s as int, one_i) + if rank(s as int) == start_i && pos.sq[two_i] == EMPTY {
                    seq![mv(s as int, two_i, 0)]
                } else {
                    seq![]
                }
            } else {
                seq![]
            };
            assert(pushes =~= spec_pushes);
            assert(out@ =~= start + (spec_pushes + pawn_capture(pos, s as int, -1) + pawn_capture(
                pos,
                s as int,
                1,
            )));
        }
    }


    /// Appends the knight (`knight`) or king moves from `s`, targets ascending.
    fn leaper_moves_into(&self, s: u8, knight: bool, out: &mut Vec<Move>)
        requires
            self.wf(),
            s < 64,
        ensures
            final(out)@ == old(out)@ + leaper_moves(self@, s as int, knight),
    {
        let ghost start = out@;
        let ghost pos = self@;
        let ghost lt = leaper_targets(pos, s as int, knight);
        proof {
            self.lemma_occ_all();
        }
        let a = leaper_attacks_of(s, knight);
        let own_bb = self.occ[self.stm as usize];
        let mut m = a & !own_bb;
        proof {
            lemma_bits_ops(a, !own_bb);
            lemma_bits_ops(own_bb, 0);
        }
        let ghost mut lo: int = 0;
        while m != 0
            invariant
                s < 64,
                0 <= lo <= 64,
                pos == self@,
                lt == leaper_targets(pos, s as int, knight),
                out@ == start + collect(lt, 0, lo),
                forall|i: int|
                    0 <= i < 64 ==> (#[trigger] bit(m, i) <==> (i >= lo && leap(knight, s as int, i)
                        && !own(pos, i))),
            decreases m,
        {
            proof {
                lemma_lowest_bit(m);
            }
            let t = m.trailing_zeros() as u8;
            proof {
                assert forall|i: int| lo <= i < t implies #[trigger] lt(i) == Seq::<Move>::empty() by {
                    assert(!bit(m, i));
                }
                lemma_collect_skip(lt, 0, lo, t as int);
                assert(bit(m, t as int));
                assert(lt(t as int) == seq![mv(s as int, t as int, 0)]);
                assert(collect(lt, 0, t as int + 1) == collect(lt, 0, t as int) + lt(t as int));
            }
            out.push(Move { from: s, to: t, promo: 0 });
            m = m & (m - 1);
            proof {
                lo = t as int + 1;
                assert(out@ =~= start + collect(lt, 0, lo));
            }
        }
        proof {
            lemma_bits_ops(0, 0);
            assert forall|i: int| lo <= i < 64 implies #[trigger] lt(i) == Seq::<Move>::empty() by {
                assert(!bit(m, i));
            }
            lemma_collect_skip(lt, 0, lo, 64);
        }
    }

    /// Appends the slider moves from `s` along direction `d`, near to far.
    fn slide_dir_into(&self, s: u8, d: u8, occ_all: u64, out: &mut Vec<Move>)
        requires
            self.wf(),
            s < 64,
            d < 8,
            occ_all_ok(self@.sq, occ_all),
        ensures
            final(out)@ == old(out)@ + slide_dir(self@, s as int, d as int, 1),
    {
        let ghost start = out@;
        let ghost pos = self@;
        proof {
            self.lemma_occ_all();
        }
        let them = 1 - self.stm;
        let df = dir_df_exec(d);
        let dr = dir_dr_exec(d);
        let mut f: i8 = file_of(s) + df;
        let mut r: i8 = rank_of(s) + dr;
        let ghost mut k: int = 1;
        while 0 <= f && f < 8 && 0 <= r && r < 8
            invariant
                s < 64,
                d < 8,
                pos == self@,
                start == old(out)@,
                self.wf(),
                them == 1 - self.stm,
                occ_all_ok(self@.sq, occ_all),
                forall|u: int| 0 <= u < 64 ==> (#[trigger] bit(self.occ[them as int], u) <==> enemy(pos, u)),
                df == dir_df(d as int),
                dr == dir_dr(d as int),
                1 <= k <= 8,
                f == file(s as int) + times(df as int, k),
                r == rank(s as int) + times(dr as int, k),
                start + slide_dir(pos, s as int, d as int, 1) =~= out@ + slide_dir(
                    pos,
                    s as int,
                    d as int,
                    k,
                ),
            decreases 8 - k,
        {
            let t = (r * 8 + f) as u8;
            proof {
                lemma_at(f as int, r as int);
                lemma_bit_test(occ_all, t as u64);
                lemma_bit_test(self.occ[them as int], t as u64);
                assert(k <= 7);
                assert(ray_on(s as int, d as int, k));
                assert(ray_sq(s as int, d as int, k) == t);
            }
            if occ_all & (1u64 << t) == 0 {
                proof {
                    assert(slide_dir(pos, s as int, d as int, k) == seq![mv(s as int, t as int, 0)]
                        + slide_dir(pos, s as int, d as int, k + 1));
                }
                out.push(Move { from: s, to: t, promo: 0 });
                f = f + df;
                r = r + dr;
                proof {
                    k = k + 1;
                }
            } else {
                if self.occ[them as usize] & (1u64 << t) != 0 {
                    proof {
                        assert(slide_dir(pos, s as int, d as int, k) == seq![mv(s as int, t as int, 0)]);
                    }
                    out.push(Move { from: s, to: t, promo: 0 });
                    assert(start + slide_dir(pos, s as int, d as int, 1) =~= out@);
                } else {
                    proof {
                        assert(slide_dir(pos, s as int, d as int, k) == Seq::<Move>::empty());
                    }
                    assert(start + slide_dir(pos, s as int, d as int, 1) =~= out@);
                }
                return;
            }
        }
        proof {
            assert(!ray_on(s as int, d as int, k));
            assert(slide_dir(pos, s as int, d as int, k) == Seq::<Move>::empty());
            assert(start + slide_dir(pos, s as int, d as int, 1) =~= out@);
        }
    }

    /// Appends the slider moves from `s` for directions `lo..hi`.
    fn slide_into(&self, s: u8, lo: u8, hi: u8, occ_all: u64, out: &mut Vec<Move>)
        requires
            self.wf(),
            s < 64,
            lo <= hi <= 8,
            occ_all_ok(self@.sq, occ_all),
        ensures
            final(out)@ == old(out)@ + collect(slide_dirs(self@, s as int), lo as int, hi as int),
    {
        let ghost start = out@;
        let mut d = lo;
        assert(out@ =~= start + collect(slide_dirs(self@, s as int), lo as int, d as int));
        while d < hi
            invariant
                self.wf(),
                s < 64,
                lo <= d <= hi <= 8,
                occ_all_ok(self@.sq, occ_all),
                out@ == start + collect(slide_dirs(self@, s as int), lo as int, d as int),
            decreases hi - d,
        {
            self.slide_dir_into(s, d, occ_all, out);
            proof {
                let sd = slide_dirs(self@, s as int);
                assert(collect(sd, lo as int, d as int + 1) == collect(sd, lo as int, d as int) + sd(
                    d as int,
                ));
                assert(out@ =~= start + collect(sd, lo as int, d as int + 1));
            }
            d = d + 1;
        }
    }

    /// Appends the moves of the side to move's piece on `s`.
    fn piece_moves_into(&self, s: u8, occ_all: u64, out: &mut Vec<Move>)
        requires
            self.wf(),
            s < 64,
            own(self@, s as int),
            pawns_ok(self@.sq, self.stm as int),
            occ_all_ok(self@.sq, occ_all),
        ensures
            final(out)@ == old(out)@ + piece_moves(self@, s as int),
    {
        let p = self.sq[s as usize];
        proof {
            assert(valid_piece(self@.sq[s as int]));
        }
        let t = ptype(p);
        if t == PAWN {
            self.pawn_moves_into(s, occ_all, out);
        } else if t == KNIGHT || t == KING {
            self.leaper_moves_into(s, t == KNIGHT, out);
        } else if t == BISHOP {
            self.slide_into(s, 0, 4, occ_all, out);
        } else if t == ROOK {
            self.slide_into(s, 4, 8, occ_all, out);
        } else {
            self.slide_into(s, 0, 8, occ_all, out);
        }
    }

    /// Appends the castling moves of the side to move.
    fn gen_castling(&self, out: &mut Vec<Move>)
        requires
            self.wf(),
        ensures
            final(out)@ == old(out)@ + castling_moves(self@),
    {
        let ghost start = out@;
        let us = self.stm;
        let them = 1 - us;
        let (ksq, k_bit, q_bit, rank0) = if us == WHITE {
            (4u8, WK, WQ, 0u8)
        } else {
            (60u8, BK, BQ, 56u8)
        };
        let king = make_piece(us, KING);
        let rook = make_piece(us, ROOK);
        if self.sq[ksq as usize] == king && !self.attacked(ksq, them) {
            let ghost a = out@;
            if self.castling & k_bit != 0 && self.sq[(rank0 + 5) as usize] == EMPTY && self.sq[(rank0
                + 6) as usize] == EMPTY && self.sq[(rank0 + 7) as usize] == rook && !self.attacked(
                rank0 + 5,
                them,
            ) && !self.attacked(rank0 + 6, them) {
                out.push(Move { from: ksq, to: rank0 + 6, promo: 0 });
            }
            let ghost b = out@;
            if self.castling & q_bit != 0 && self.sq[(rank0 + 1) as usize] == EMPTY && self.sq[(rank0
                + 2) as usize] == EMPTY && self.sq[(rank0 + 3) as usize] == EMPTY && self.sq[rank0
                as usize] == rook && !self.attacked(rank0 + 2, them) && !self.attacked(
                rank0 + 3,
                them,
            ) {
                out.push(Move { from: ksq, to: rank0 + 2, promo: 0 });
            }
            assert(out@ =~= start + castling_moves(self@));
        } else {
            assert(out@ =~= start + castling_moves(self@));
        }
    }

    /// Appends the pseudo-legal moves of the side to move (bitboard-driven:
    /// pieces are found by scanning the side's occupancy).
    pub fn gen_pseudo(&self, out: &mut Vec<Move>)
        requires
            self.wf(),
            pawns_ok(self@.sq, self.stm as int),
        ensures
            final(out)@ == old(out)@ + pseudo_moves(self@),
    {
        let ghost start = out@;
        let ghost pos = self@;
        let ghost pm = all_piece_moves(pos);
        proof {
            self.lemma_occ_all();
        }
        let occ_all = self.occ[0] | self.occ[1];
        let mut own_bb = self.occ[self.stm as usize];
        let ghost mut lo: int = 0;
        while own_bb != 0
            invariant
                self.wf(),
                pawns_ok(self@.sq, self.stm as int),
                occ_all_ok(self@.sq, occ_all),
                pos == self@,
                pm == all_piece_moves(pos),
                0 <= lo <= 64,
                out@ == start + collect(pm, 0, lo),
                forall|i: int| 0 <= i < 64 ==> (#[trigger] bit(own_bb, i) <==> (i >= lo && own(pos, i))),
            decreases own_bb,
        {
            proof {
                lemma_lowest_bit(own_bb);
            }
            let s = own_bb.trailing_zeros() as u8;
            proof {
                assert forall|i: int| lo <= i < s implies #[trigger] pm(i) == Seq::<Move>::empty() by {
                    assert(!bit(own_bb, i));
                }
                lemma_collect_skip(pm, 0, lo, s as int);
                assert(bit(own_bb, s as int));
                assert(collect(pm, 0, s as int + 1) == collect(pm, 0, s as int) + pm(s as int));
            }
            self.piece_moves_into(s, occ_all, out);
            own_bb = own_bb & (own_bb - 1);
            proof {
                lo = s as int + 1;
                assert(out@ =~= start + collect(pm, 0, lo));
            }
        }
        proof {
            lemma_bits_ops(0, 0);
            assert forall|i: int| lo <= i < 64 implies #[trigger] pm(i) == Seq::<Move>::empty() by {
                assert(!bit(own_bb, i));
            }
            lemma_collect_skip(pm, 0, lo, 64);
        }
        let ghost mid = out@;
        self.gen_castling(out);
        assert(out@ =~= start + pseudo_moves(pos));
    }

    /// Appends the pseudo-legal moves of the side to move by scanning the
    /// squares in order; the same moves in the same order as `gen_pseudo`.
    pub fn gen_pseudo_ref(&self, out: &mut Vec<Move>)
        requires
            self.wf(),
            pawns_ok(self@.sq, self.stm as int),
        ensures
            final(out)@ == old(out)@ + pseudo_moves(self@),
    {
        let ghost start = out@;
        let ghost pos = self@;
        let ghost pm = all_piece_moves(pos);
        proof {
            self.lemma_occ_all();
        }
        let occ_all = self.occ[0] | self.occ[1];
        let mut s: u8 = 0;
        while s < 64
            invariant
                self.wf(),
                pawns_ok(self@.sq, self.stm as int),
                occ_all_ok(self@.sq, occ_all),
                pos == self@,
                pm == all_piece_moves(pos),
                s <= 64,
                out@ == start + collect(pm, 0, s as int),
            decreases 64 - s,
        {
            let p = self.sq[s as usize];
            proof {
                assert(valid_piece(self@.sq[s as int]));
                assert(collect(pm, 0, s as int + 1) == collect(pm, 0, s as int) + pm(s as int));
            }
            if p != EMPTY && pcolor(p) == self.stm {
                self.piece_moves_into(s, occ_all, out);
            } else {
                assert(pm(s as int) == Seq::<Move>::empty());
            }
            assert(out@ =~= start + collect(pm, 0, s as int + 1));
            s = s + 1;
        }
        self.gen_castling(out);
        assert(out@ =~= start + pseudo_moves(pos));
    }

}

} // verus!
