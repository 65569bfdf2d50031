//! Legal moves (pseudo-legal moves that do not leave the mover's king
//! attacked), stalemate/mate support and perft.

use vstd::prelude::*;
use crate::board::{
    Board, Move, Position, mv, EMPTY, PAWN, KNIGHT, BISHOP, ROOK, QUEEN, KING, WHITE, BLACK, pc, pt,
    piece, colored, valid_piece, squares_valid,
};
use crate::attacks::{
    file, rank, on_board, at, leap, knight_step, king_step, ray_on, ray_sq, is_attacked, dir_df,
    dir_dr, times, lemma_coords, lemma_at,
};
use crate::movegen::{
    collect, own, enemy, pawn_to, pawn_dir, pawn_capture, pawn_moves, leaper_target, leaper_targets,
    leaper_moves, slide_dir, slide_dirs, piece_moves, all_piece_moves, castling_moves, pseudo_moves,
    pawns_ok,
};
use crate::makemove::{
    move_ok, after, after_squares, moving, placed, captured, capture_sq, is_ep_capture,
    castles_king_side, castles_queen_side, kings_tracked, position_ok,
};
use crate::attacks::{leaper_attacks, leaper_attacks_of};
use crate::bits::{bit, lemma_bit_test};
use crate::board::{make_piece, ptype, file_of};
use crate::pins::{moved_squares, king_apart, keeps_pins, lemma_masks_decide};

verus! {

/// A generated move fits `make` and keeps pawns off the rank they would
/// step off the board from.
pub open spec fn move_fits(pos: Position, m: Move) -> bool {
    &&& move_ok(pos, m)
    &&& (ep_ok(pos) && pt(moving(pos, m)) == PAWN && m.promo == 0 ==> if pos.stm == WHITE {
        rank(m.to as int) < 7
    } else {
        rank(m.to as int) > 0
    })
    &&& (pt(moving(pos, m)) == PAWN && m.to as int == m.from as int + 16 ==> pos.stm == WHITE
        && rank(m.from as int) == 1)
    &&& (pt(moving(pos, m)) == PAWN && m.to as int + 16 == m.from as int ==> pos.stm == BLACK
        && rank(m.from as int) == 6)
}

/// The en-passant square, if any, is a square off the rank on which a
/// pawn of the side to move would promote (a capture onto it leaves no
/// pawn on its last rank).
pub open spec fn ep_ok(pos: Position) -> bool {
    match pos.ep {
        None => true,
        Some(e) => if pos.stm == WHITE {
            e < 56
        } else {
            8 <= e < 64
        },
    }
}

pub open spec fn all_fit(pos: Position, ms: Seq<Move>) -> bool {
    forall|j: int| 0 <= j < ms.len() ==> #[trigger] move_fits(pos, ms[j])
}

/// The position is sound and the side to move can move: squares, counters
/// below their limits, pawns of the side to move off the last rank, its
/// king on the board.
pub open spec fn can_generate(b: Board) -> bool {
    &&& b.wf()
    &&& pawns_ok(b@.sq, b.stm as int)
    &&& b.halfmove < 0xffff
    &&& b.fullmove < 0xffff
}

proof fn lemma_all_fit_add(pos: Position, a: Seq<Move>, b: Seq<Move>)
    requires
        all_fit(pos, a),
        all_fit(pos, b),
    ensures
        all_fit(pos, a + b),
{
    assert forall|j: int| 0 <= j < (a + b).len() implies #[trigger] move_fits(pos, (a + b)[j]) by {
        if j < a.len() {
            assert((a + b)[j] == a[j]);
        } else {
            assert((a + b)[j] == b[j - a.len()]);
        }
    }
}

proof fn lemma_collect_fit(pos: Position, f: spec_fn(int) -> Seq<Move>, lo: int, hi: int)
    requires
        forall|i: int| lo <= i < hi ==> all_fit(pos, #[trigger] f(i)),
    ensures
        all_fit(pos, collect(f, lo, hi)),
    decreases hi - lo,
{
    if hi > lo {
        lemma_collect_fit(pos, f, lo, hi - 1);
        lemma_all_fit_add(pos, collect(f, lo, hi - 1), f(hi - 1));
    }
}

proof fn lemma_pawn_to_fit(b: Board, s: int, t: int)
    requires
        can_generate(b),
        0 <= s < 64,
        0 <= t < 64,
        s != t,
        b@.sq[s] == piece(b.stm as int, PAWN as int),
        !is_ep_capture(b@, mv(s, t, 0)),
        b.stm == WHITE ==> rank(t) > 0,
        b.stm == BLACK ==> rank(t) < 7,
        t != s + 16 && t + 16 != s,
    ensures
        all_fit(b@, pawn_to(s, t)),
{
    let pos = b@;
    let ms = pawn_to(s, t);
    assert forall|j: int| 0 <= j < ms.len() implies #[trigger] move_fits(pos, ms[j]) by {
        let m = ms[j];
        assert(m.from == s && m.to == t);
        assert(!is_ep_capture(pos, m));
    }
}

proof fn lemma_pawn_fit(b: Board, s: int)
    requires
        can_generate(b),
        0 <= s < 64,
        b@.sq[s] == piece(b.stm as int, PAWN as int),
    ensures
        all_fit(b@, pawn_moves(b@, s)),
{
    let pos = b@;
    lemma_coords(s);
    assert(if pos.stm == WHITE { rank(s) < 7 } else { rank(s) > 0 });
    let one = s + pawn_dir(pos.stm);
    let start: int = if pos.stm == WHITE { 1 } else { 6 };
    let two = one + pawn_dir(pos.stm);
    assert(file(one) == file(s));
    if pos.sq[one] == EMPTY {
        lemma_pawn_to_fit(b, s, one);
        if rank(s) == start && pos.sq[two] == EMPTY {
            let m2 = mv(s, two, 0);
            assert(file(two) == file(s));
            assert(move_fits(pos, m2));
            assert(all_fit(pos, seq![m2]));
            lemma_all_fit_add(pos, pawn_to(s, one), seq![m2]);
        } else {
            assert(pawn_to(s, one) + Seq::<Move>::empty() =~= pawn_to(s, one));
        }
    }
    let pushes = if pos.sq[one] == EMPTY {
        pawn_to(s, one) + if rank(s) == start && pos.sq[two] == EMPTY {
            seq![mv(s, two, 0)]
        } else {
            seq![]
        }
    } else {
        seq![]
    };
    assert(all_fit(pos, pushes));
    assert forall|df: int| df == -1 || df == 1 implies all_fit(pos, #[trigger] pawn_capture(pos, s, df)) by {
        let nf = file(s) + df;
        if 0 <= nf < 8 {
            let t = s + pawn_dir(pos.stm) + df;
            assert(file(t) == nf);
            assert(file(t) != file(s));
            if enemy(pos, t) {
                lemma_pawn_to_fit(b, s, t);
            } else if pos.ep == Some(t as u8) {
                let m = mv(s, t, 0);
                assert(move_fits(pos, m));
                assert(all_fit(pos, seq![m]));
            }
        }
    }
    lemma_all_fit_add(pos, pushes, pawn_capture(pos, s, -1));
    lemma_all_fit_add(pos, pushes + pawn_capture(pos, s, -1), pawn_capture(pos, s, 1));
}

proof fn lemma_leaper_fit(b: Board, s: int, knight: bool)
    requires
        can_generate(b),
        0 <= s < 64,
        own(b@, s),
        pt(b@.sq[s]) == (if knight { KNIGHT } else { KING }),
    ensures
        all_fit(b@, leaper_moves(b@, s, knight)),
{
    let pos = b@;
    let f = leaper_targets(pos, s, knight);
    assert forall|t: int| 0 <= t < 64 implies all_fit(pos, #[trigger] f(t)) by {
        if leap(knight, s, t) && !own(pos, t) {
            let m = mv(s, t, 0);
            lemma_coords(s);
            lemma_coords(t);
            assert(!castles_king_side(pos, m));
            assert(!castles_queen_side(pos, m));
            assert(move_fits(pos, m));
            assert(f(t) == seq![m]);
        }
    }
    lemma_collect_fit(pos, f, 0, 64);
}

proof fn lemma_slide_dir_fit(b: Board, s: int, d: int, k: int)
    requires
        can_generate(b),
        0 <= s < 64,
        0 <= d < 8,
        1 <= k,
        own(b@, s),
        pt(b@.sq[s]) == BISHOP || pt(b@.sq[s]) == ROOK || pt(b@.sq[s]) == QUEEN,
    ensures
        all_fit(b@, slide_dir(b@, s, d, k)),
    decreases 8 - k,
{
    let pos = b@;
    if k < 1 || k > 7 || !ray_on(s, d, k) {
    } else {
        let u = ray_sq(s, d, k);
        lemma_at(file(s) + times(dir_df(d), k), rank(s) + times(dir_dr(d), k));
        lemma_coords(s);
        let m = mv(s, u, 0);
        assert(u != s);
        assert(move_fits(pos, m));
        assert(all_fit(pos, seq![m]));
        if pos.sq[u] == EMPTY {
            lemma_slide_dir_fit(b, s, d, k + 1);
            lemma_all_fit_add(pos, seq![m], slide_dir(pos, s, d, k + 1));
        }
    }
}

proof fn lemma_piece_fit(b: Board, s: int)
    requires
        can_generate(b),
        0 <= s < 64,
    ensures
        all_fit(b@, piece_moves(b@, s)),
{
    let pos = b@;
    if own(pos, s) {
        assert(valid_piece(pos.sq[s]));
        let t = pt(pos.sq[s]);
        if t == PAWN {
            lemma_pawn_fit(b, s);
        } else if t == KNIGHT {
            lemma_leaper_fit(b, s, true);
        } else if t == KING {
            lemma_leaper_fit(b, s, false);
        } else {
            let f = slide_dirs(pos, s);
            assert forall|d: int| 0 <= d < 8 implies all_fit(pos, #[trigger] f(d)) by {
                lemma_slide_dir_fit(b, s, d, 1);
            }
            lemma_collect_fit(pos, f, 0, 4);
            lemma_collect_fit(pos, f, 4, 8);
            lemma_collect_fit(pos, f, 0, 8);
        }
    }
}

proof fn lemma_castling_fit(b: Board)
    requires
        can_generate(b),
    ensures
        all_fit(b@, castling_moves(b@)),
{
    let pos = b@;
    let us = pos.stm as int;
    let ksq: int = if us == WHITE { 4 } else { 60 };
    let r0: int = if us == WHITE { 0 } else { 56 };
    let mk = mv(ksq, r0 + 6, 0);
    let mq = mv(ksq, r0 + 2, 0);
    if pos.sq[ksq] == piece(us, KING as int) {
        assert(castles_king_side(pos, mk));
        assert(castles_queen_side(pos, mq));
        if pos.sq[r0 + 5] == EMPTY && pos.sq[r0 + 6] == EMPTY && pos.sq[r0 + 7] == piece(
            us,
            ROOK as int,
        ) {
            assert(move_fits(pos, mk));
        }
        if pos.sq[r0 + 1] == EMPTY && pos.sq[r0 + 2] == EMPTY && pos.sq[r0 + 3] == EMPTY
            && pos.sq[r0] == piece(us, ROOK as int) {
            assert(move_fits(pos, mq));
        }
        assert(all_fit(pos, seq![mk]) ==> true);
        let a = if crate::movegen::has_right(pos.castling, if us == WHITE { crate::board::WK } else { crate::board::BK }) && pos.sq[r0 + 5] == EMPTY && pos.sq[r0 + 6] == EMPTY && pos.sq[r0 + 7]
            == piece(us, ROOK as int) && !is_attacked(pos.sq, r0 + 5, 1 - us) && !is_attacked(
            pos.sq,
            r0 + 6,
            1 - us,
        ) {
            seq![mk]
        } else {
            seq![]
        };
        let q = if crate::movegen::has_right(pos.castling, if us == WHITE { crate::board::WQ } else { crate::board::BQ }) && pos.sq[r0 + 1] == EMPTY && pos.sq[r0 + 2] == EMPTY && pos.sq[r0
            + 3] == EMPTY && pos.sq[r0] == piece(us, ROOK as int) && !is_attacked(pos.sq, r0 + 2, 1 - us)
            && !is_attacked(pos.sq, r0 + 3, 1 - us) {
            seq![mq]
        } else {
            seq![]
        };
        assert(all_fit(pos, a));
        assert(all_fit(pos, q));
        lemma_all_fit_add(pos, a, q);
    }
}

/// Every pseudo-legal move fits `make`.
pub proof fn lemma_pseudo_fit(b: Board)
    requires
        can_generate(b),
    ensures
        all_fit(b@, pseudo_moves(b@)),
{
    let pos = b@;
    let f = all_piece_moves(pos);
    assert forall|s: int| 0 <= s < 64 implies all_fit(pos, #[trigger] f(s)) by {
        lemma_piece_fit(b, s);
    }
    lemma_collect_fit(pos, f, 0, 64);
    lemma_castling_fit(b);
    lemma_all_fit_add(pos, collect(f, 0, 64), castling_moves(pos));
}

/// The position after a generated move keeps what perft needs: pawns off
/// their last ranks, a sound en-passant square, every king tracked.
pub proof fn lemma_after_keeps(pos: Position, m: Move)
    requires
        position_ok(pos),
        pos.sq.len() == 64,
        move_fits(pos, m),
        pawns_ok(pos.sq, 0),
        pawns_ok(pos.sq, 1),
        ep_ok(pos),
        kings_tracked(pos),
    ensures
        pawns_ok(after(pos, m).sq, 0),
        pawns_ok(after(pos, m).sq, 1),
        ep_ok(after(pos, m)),
        kings_tracked(after(pos, m)),
{
    let a = after(pos, m);
    let from = m.from as int;
    let to = m.to as int;
    let us = pos.stm as int;
    assert(valid_piece(pos.sq[from]));
    lemma_coords(from);
    lemma_coords(to);
    assert forall|s: int| 0 <= s < 64 && #[trigger] a.sq[s] == piece(0, PAWN as int) implies rank(s) < 7 by {
        lemma_coords(s);
        if s == to {
            assert(placed(pos, m) == piece(0, PAWN as int));
            assert(m.promo == 0);
        } else if a.sq[s] == pos.sq[s] {
            assert(pos.sq[s] == piece(0, PAWN as int));
        }
    }
    assert forall|s: int| 0 <= s < 64 && #[trigger] a.sq[s] == piece(1, PAWN as int) implies rank(s) > 0 by {
        lemma_coords(s);
        if s == to {
            assert(placed(pos, m) == piece(1, PAWN as int));
            assert(m.promo == 0);
        } else if a.sq[s] == pos.sq[s] {
            assert(pos.sq[s] == piece(1, PAWN as int));
        }
    }
    assert forall|s: int| 0 <= s < 64 implies (#[trigger] a.sq[s] == piece(0, KING as int) ==> a.king[0]
        == s) && (a.sq[s] == piece(1, KING as int) ==> a.king[1] == s) by {
        if s == to {
        } else if a.sq[s] == pos.sq[s] {
            if pt(moving(pos, m)) == KING {
                assert(pos.sq[from] == piece(us, KING as int));
                assert(pos.king[us] == from);
            }
        }
    }
}

/// After `m`, the mover's king is not attacked.
pub open spec fn legal(pos: Position, m: Move) -> bool {
    let a = after(pos, m);
    !is_attacked(a.sq, a.king[pos.stm as int] as int, 1 - pos.stm)
}

/// The legal moves among `ms`, in order.
pub open spec fn filter_legal(pos: Position, ms: Seq<Move>) -> Seq<Move>
    decreases ms.len(),
{
    if ms.len() == 0 {
        seq![]
    } else {
        filter_legal(pos, ms.drop_last()) + if legal(pos, ms.last()) {
            seq![ms.last()]
        } else {
            seq![]
        }
    }
}

/// All legal moves of a position, in generation order.
pub open spec fn legal_moves(pos: Position) -> Seq<Move> {
    filter_legal(pos, pseudo_moves(pos))
}

proof fn lemma_filter_step(pos: Position, ms: Seq<Move>, i: int)
    requires
        0 <= i < ms.len(),
    ensures
        filter_legal(pos, ms.subrange(0, i + 1)) == filter_legal(pos, ms.subrange(0, i)) + if legal(
            pos,
            ms[i],
        ) {
            seq![ms[i]]
        } else {
            seq![]
        },
{
    assert(ms.subrange(0, i + 1).drop_last() =~= ms.subrange(0, i));
}

pub proof fn lemma_filter_fit(pos: Position, ms: Seq<Move>)
    requires
        all_fit(pos, ms),
    ensures
        all_fit(pos, filter_legal(pos, ms)),
    decreases ms.len(),
{
    if ms.len() > 0 {
        assert(all_fit(pos, ms.drop_last()));
        lemma_filter_fit(pos, ms.drop_last());
        assert(move_fits(pos, ms[ms.len() - 1]));
        if legal(pos, ms.last()) {
            assert(all_fit(pos, seq![ms.last()]));
            lemma_all_fit_add(pos, filter_legal(pos, ms.drop_last()), seq![ms.last()]);
        } else {
            assert(filter_legal(pos, ms.drop_last()) + Seq::<Move>::empty() =~= filter_legal(pos, ms.drop_last()));
        }
    }
}

proof fn lemma_filter_len(pos: Position, ms: Seq<Move>, i: int)
    requires
        0 <= i <= ms.len(),
    ensures
        filter_legal(pos, ms.subrange(0, i)).len() <= filter_legal(pos, ms).len(),
    decreases ms.len() - i,
{
    if i < ms.len() {
        lemma_filter_step(pos, ms, i);
        lemma_filter_len(pos, ms, i + 1);
    } else {
        assert(ms.subrange(0, i) =~= ms);
    }
}

/// A move that is neither a king move nor an en-passant capture moves one
/// piece of the side to move from `from` to `to` and leaves the king
/// squares as they were.
proof fn lemma_plain_move(pos: Position, m: Move)
    requires
        position_ok(pos),
        move_ok(pos, m),
        kings_tracked(pos),
        m.from != pos.king[pos.stm as int],
        !is_ep_capture(pos, m),
    ensures
        moved_squares(pos.sq, after(pos, m).sq, pos.stm as int, m.from as int, m.to as int),
        after(pos, m).king[pos.stm as int] == pos.king[pos.stm as int],
{
    let us = pos.stm as int;
    let p = pos.sq[m.from as int];
    if pt(p) == KING {
        assert(p == piece(us, KING as int));
        assert(pos.sq[m.from as int] == piece(us, KING as int));
    }
    assert(!castles_king_side(pos, m) && !castles_queen_side(pos, m));
    assert(capture_sq(pos, m) == m.to as int);
    let a = after(pos, m).sq;
    assert(colored(placed(pos, m), us));
}

/// Moves can be made on the board: it is sound, the side to move's king is
/// on the board and every king is tracked.
pub open spec fn can_make_all(b: Board) -> bool {
    &&& can_generate(b)
    &&& kings_tracked(b@)
    &&& b.king[b.stm as int] < 64
}

impl Board {
    /// Is the pseudo-legal move `m` legal? Made, checked, unmade.
    fn is_legal(&mut self, m: Move) -> (r: bool)
        requires
            old(self).wf(),
            move_ok(old(self)@, m),
            kings_tracked(old(self)@),
            old(self).king[old(self).stm as int] < 64,
        ensures
            r == legal(old(self)@, m),
            *final(self) == *old(self),
    {
        let undo = self.make(m);
        let mover = 1 - self.stm;
        let ok = !self.attacked(self.king[mover as usize], self.stm);
        self.unmake(m, undo);
        ok
    }

    /// Legal moves by the plain filter: make, is the king attacked,
    /// unmake.
    pub fn gen_legal_ref(&mut self) -> (out: Vec<Move>)
        requires
            can_make_all(*old(self)),
        ensures
            out@ == legal_moves(old(self)@),
            *final(self) == *old(self),
    {
        let ghost b0 = *self;
        let mut ps: Vec<Move> = Vec::with_capacity(64);
        self.gen_pseudo(&mut ps);
        proof {
            lemma_pseudo_fit(*self);
            assert(ps@ =~= pseudo_moves(b0@));
        }
        let mut out: Vec<Move> = Vec::with_capacity(ps.len());
        let n = ps.len();
        let mut i: usize = 0;
        while i < n
            invariant
                *self == b0,
                can_make_all(b0),
                n == ps@.len(),
                ps@ == pseudo_moves(b0@),
                all_fit(b0@, ps@),
                i <= n,
                out@ == filter_legal(b0@, ps@.subrange(0, i as int)),
            decreases n - i,
        {
            let m = ps[i];
            assert(move_fits(b0@, ps@[i as int]));
            let ok = self.is_legal(m);
            if ok {
                out.push(m);
            }
            proof {
                lemma_filter_step(b0@, ps@, i as int);
                assert(out@ =~= filter_legal(b0@, ps@.subrange(0, i as int + 1)));
            }
            i = i + 1;
        }
        assert(ps@.subrange(0, n as int) =~= ps@);
        out
    }

    /// Legal moves into a caller-owned buffer: the pseudo-legal moves land in
    /// `out` and are filtered in place, keeping their order. A move that is
    /// neither a king move nor an en-passant capture is judged by the
    /// check and pin masks; the others are made and tested. (With the other
    /// king next to the mover's, which play never reaches, every move is
    /// made and tested.)
    pub fn gen_legal_into(&mut self, out: &mut Vec<Move>)
        requires
            can_make_all(*old(self)),
        ensures
            final(out)@ == legal_moves(old(self)@),
            *final(self) == *old(self),
    {
        let ghost b0 = *self;
        out.clear();
        self.gen_pseudo(out);
        let ghost ps = out@;
        proof {
            lemma_pseudo_fit(*self);
            assert(ps =~= pseudo_moves(b0@));
        }
        let (_n_chk, allowed, pins, n_pins) = self.checkers_pins();
        let us = self.stm;
        let ksq = self.king[us as usize];
        let them = 1 - us;
        let near = leaper_attacks_of(ksq, false);
        let enemy_king = make_piece(them, KING);
        let apart = !self.any_piece_in(near, enemy_king);
        assert(apart == king_apart(b0@.sq, ksq as int, them as int)) by {
            assert(enemy_king == piece(them as int, KING as int));
            if !apart {
                let s = choose|s: int| 0 <= s < 64 && #[trigger] bit(near, s) && self.sq@[s] == enemy_king;
                assert(leap(false, ksq as int, s));
            }
            if leaper_attacks(b0@.sq, ksq as int, false, piece(them as int, KING as int)) {
                let s = choose|s: int| 0 <= s < 64 && #[trigger] leap(false, ksq as int, s) && b0@.sq[s] == piece(them as int, KING as int);
                assert(bit(near, s));
            }
        }
        let n = out.len();
        let mut w: usize = 0;
        let mut i: usize = 0;
        while i < n
            invariant
                *self == b0,
                can_make_all(b0),
                us == b0.stm,
                ksq == b0.king[us as int],
                them == 1 - us,
                apart == king_apart(b0@.sq, ksq as int, them as int),
                n_pins <= 8,
                forall|t: int|
                    0 <= t < 64 ==> #[trigger] bit(allowed, t) == crate::pins::answers_checks(
                        b0@.sq,
                        us as int,
                        ksq as int,
                        t,
                    ),
                forall|from: int, t: int|
                    0 <= from < 64 && 0 <= t < 64 ==> #[trigger] crate::pins::keeps_pin(
                        b0@.sq,
                        us as int,
                        ksq as int,
                        from,
                        t,
                    ) == crate::pins::pin_ok(pins@, n_pins as int, from, t),
                ps == pseudo_moves(b0@),
                all_fit(b0@, ps),
                n == ps.len(),
                out@.len() == n,
                w <= i <= n,
                out@.subrange(0, w as int) == filter_legal(b0@, ps.subrange(0, i as int)),
                out@.subrange(i as int, n as int) == ps.subrange(i as int, n as int),
            decreases n - i,
        {
            let m = out[i];
            assert(m == ps[i as int]) by {
                assert(out@.subrange(i as int, n as int)[0] == ps.subrange(i as int, n as int)[0]);
            }
            assert(move_fits(b0@, ps[i as int]));
            let is_king = m.from == ksq;
            let is_ep = !is_king && ptype(self.sq[m.from as usize]) == PAWN && (match self.ep {
                Some(e) => e == m.to,
                None => false,
            }) && file_of(m.from) != file_of(m.to);
            let ok = if is_king || is_ep || !apart {
                self.is_legal(m)
            } else {
                proof {
                    lemma_bit_test(allowed, m.to as u64);
                    lemma_plain_move(b0@, m);
                    lemma_masks_decide(b0@.sq, after(b0@, m).sq, us as int, ksq as int, m.from as int, m.to as int);
                }
                allowed & (1u64 << m.to) != 0 && keeps_pins(&pins, n_pins, m.from, m.to)
            };
            assert(ok == legal(b0@, m));
            proof {
                lemma_filter_step(b0@, ps, i as int);
            }
            if ok {
                let ghost before = out@;
                out.set(w, m);
                proof {
                    assert(out@.subrange(0, w as int + 1) =~= before.subrange(0, w as int).push(m));
                    assert(out@.subrange(i as int + 1, n as int) =~= before.subrange(i as int + 1, n as int));
                    assert(before.subrange(i as int + 1, n as int) =~= before.subrange(i as int, n as int).subrange(1, n - i));
                    assert(ps.subrange(i as int + 1, n as int) =~= ps.subrange(i as int, n as int).subrange(1, n - i));
                }
                w = w + 1;
            } else {
                proof {
                    assert(out@.subrange(i as int + 1, n as int) =~= out@.subrange(i as int, n as int).subrange(1, n - i));
                    assert(ps.subrange(i as int + 1, n as int) =~= ps.subrange(i as int, n as int).subrange(1, n - i));
                    assert(filter_legal(b0@, ps.subrange(0, i as int)) + Seq::<Move>::empty() =~= filter_legal(b0@, ps.subrange(0, i as int)));
                }
            }
            i = i + 1;
        }
        out.truncate(w);
        assert(ps.subrange(0, n as int) =~= ps);
        assert(out@ =~= filter_legal(b0@, ps));
    }

    /// The legal moves of the side to move, in generation order.
    pub fn gen_legal(&mut self) -> (out: Vec<Move>)
        requires
            can_make_all(*old(self)),
        ensures
            out@ == legal_moves(old(self)@),
            *final(self) == *old(self),
    {
        let mut out: Vec<Move> = Vec::with_capacity(64);
        self.gen_legal_into(&mut out);
        out
    }

    /// Is there any legal move? Stops at the first one.
    pub fn has_legal_move(&mut self) -> (r: bool)
        requires
            can_make_all(*old(self)),
        ensures
            r == (legal_moves(old(self)@).len() > 0),
            *final(self) == *old(self),
    {
        let ghost b0 = *self;
        let mut ps: Vec<Move> = Vec::with_capacity(64);
        self.gen_pseudo(&mut ps);
        proof {
            lemma_pseudo_fit(*self);
            assert(ps@ =~= pseudo_moves(b0@));
        }
        let n = ps.len();
        let mut i: usize = 0;
        while i < n
            invariant
                *self == b0,
                can_make_all(b0),
                n == ps@.len(),
                ps@ == pseudo_moves(b0@),
                all_fit(b0@, ps@),
                i <= n,
                filter_legal(b0@, ps@.subrange(0, i as int)).len() == 0,
                b0 == *old(self),
            decreases n - i,
        {
            let m = ps[i];
            assert(move_fits(b0@, ps@[i as int]));
            let ok = self.is_legal(m);
            proof {
                lemma_filter_step(b0@, ps@, i as int);
            }
            if ok {
                proof {
                    lemma_filter_len(b0@, ps@, i as int + 1);
                }
                return true;
            }
            i = i + 1;
        }
        assert(ps@.subrange(0, n as int) =~= ps@);
        false
    }
}

/// Leaf count of the legal-move tree of depth `depth`.
pub open spec fn spec_perft(pos: Position, depth: nat) -> nat
    decreases depth, 0int,
{
    if depth == 0 {
        1
    } else if depth == 1 {
        legal_moves(pos).len()
    } else {
        sum_perft(pos, legal_moves(pos), (depth - 1) as nat)
    }
}

/// Sum of the leaf counts of depth `d` after each of the moves `ms`.
pub open spec fn sum_perft(pos: Position, ms: Seq<Move>, d: nat) -> nat
    decreases d, ms.len() + 1,
{
    if ms.len() == 0 {
        0
    } else {
        sum_perft(pos, ms.drop_last(), d) + spec_perft(after(pos, ms.last()), d)
    }
}

/// A board perft can walk to depth `depth`: sound, pawns off their last
/// ranks, a sound en-passant square, both kings on the board and tracked,
/// counters that do not overflow on the way.
pub open spec fn perft_ok(b: Board, depth: int) -> bool {
    &&& b.wf()
    &&& pawns_ok(b@.sq, 0)
    &&& pawns_ok(b@.sq, 1)
    &&& ep_ok(b@)
    &&& kings_tracked(b@)
    &&& b.king[0] < 64
    &&& b.king[1] < 64
    &&& b.halfmove + depth <= 0xffff
    &&& b.fullmove + depth <= 0xffff
}

pub open spec fn modulus() -> int {
    0x1_0000_0000_0000_0000
}

proof fn lemma_wrapping_sum(n: u64, c: u64, a: int, b: int)
    requires
        a >= 0,
        b >= 0,
        n as int == a % modulus(),
        c as int == b % modulus(),
    ensures
        vstd::wrapping::u64_specs::wrapping_add(n, c) as int == (a + b) % modulus(),
{
    vstd::arithmetic::div_mod::lemma_add_mod_noop(a, b, modulus());
}

impl Board {
    /// Number of leaves of the legal-move tree of depth `depth`.
    pub fn perft(&mut self, depth: u32) -> (n: u64)
        requires
            perft_ok(*old(self), depth as int),
        ensures
            *final(self) == *old(self),
            n as int == (spec_perft(old(self)@, depth as nat) as int) % modulus(),
        decreases depth,
    {
        if depth == 0 {
            return 1;
        }
        let ghost b0 = *self;
        let moves = self.gen_legal();
        if depth == 1 {
            return moves.len() as u64;
        }
        let ghost lm = moves@;
        proof {
            lemma_pseudo_fit(b0);
            lemma_filter_fit(b0@, pseudo_moves(b0@));
        }
        let len = moves.len();
        let mut n: u64 = 0;
        let mut i: usize = 0;
        while i < len
            invariant
                *self == b0,
                perft_ok(b0, depth as int),
                depth >= 2,
                lm == moves@,
                lm == legal_moves(b0@),
                all_fit(b0@, lm),
                len == lm.len(),
                i <= len,
                n as int == (sum_perft(b0@, lm.subrange(0, i as int), (depth - 1) as nat) as int) % modulus(),
            decreases len - i,
        {
            let m = moves[i];
            assert(move_fits(b0@, lm[i as int]));
            let undo = self.make(m);
            proof {
                lemma_after_keeps(b0@, m);
            }
            let c = self.perft(depth - 1);
            self.unmake(m, undo);
            proof {
                assert(lm.subrange(0, i as int + 1).drop_last() =~= lm.subrange(0, i as int));
                assert(lm.subrange(0, i as int + 1).last() == m);
                lemma_wrapping_sum(
                    n,
                    c,
                    sum_perft(b0@, lm.subrange(0, i as int), (depth - 1) as nat) as int,
                    spec_perft(after(b0@, m), (depth - 1) as nat) as int,
                );
            }
            n = n.wrapping_add(c);
            i = i + 1;
        }
        assert(lm.subrange(0, len as int) =~= lm);
        n
    }
}

impl Board {
    /// Can perft (and play) walk `depth` plies from this board (see
    /// `perft_ok`)?
    pub fn perft_ready(&self, depth: u32) -> (r: bool)
        requires
            self.wf(),
        ensures
            r == perft_ok(*self, depth as int),
    {
        let wp = make_piece(WHITE, PAWN);
        let bp = make_piece(BLACK, PAWN);
        let wk = make_piece(WHITE, KING);
        let bk = make_piece(BLACK, KING);
        let mut s: usize = 0;
        while s < 64
            invariant
                self.wf(),
                s <= 64,
                wp == piece(0, PAWN as int),
                bp == piece(1, PAWN as int),
                wk == piece(0, KING as int),
                bk == piece(1, KING as int),
                forall|j: int| 0 <= j < s && #[trigger] self.sq@[j] == piece(0, PAWN as int) ==> rank(j) < 7,
                forall|j: int| 0 <= j < s && #[trigger] self.sq@[j] == piece(1, PAWN as int) ==> rank(j) > 0,
                forall|j: int|
                    0 <= j < s ==> (#[trigger] self.sq@[j] == piece(0, KING as int) ==> self.king@[0] == j) && (
                    self.sq@[j] == piece(1, KING as int) ==> self.king@[1] == j),
            decreases 64 - s,
        {
            let p = self.sq[s];
            if (p == wp && s >= 56) || (p == bp && s < 8) || (p == wk && self.king[0] as usize != s) || (p == bk
                && self.king[1] as usize != s) {
                proof {
                    lemma_coords(s as int);
                }
                return false;
            }
            proof {
                lemma_coords(s as int);
            }
            s = s + 1;
        }
        let ep_fine = match self.ep {
            None => true,
            Some(e) => if self.stm == WHITE {
                e < 56
            } else {
                8 <= e && e < 64
            },
        };
        ep_fine && self.king[0] < 64 && self.king[1] < 64 && self.halfmove as u64 + depth as u64 <= 0xffff
            && self.fullmove as u64 + depth as u64 <= 0xffff
    }
}

} // verus!
