//! Making and unmaking moves. `make` updates the mailbox, the bitboards and
//! the Zobrist key incrementally and returns what `unmake` needs to restore
//! the position exactly.

use vstd::prelude::*;
use crate::bits::{bit, lemma_bits_remove, lemma_bits_insert, lemma_xor, lemma_bits_ext};
use crate::board::{
    Board, Move, Position, EMPTY, PAWN, ROOK, KING, WHITE, BLACK, WK, WQ, BK, BQ, pc, pt, piece,
    colored, valid_piece, squares_valid, occ_consistent, pieces_consistent, square_key,
    pieces_key, ep_relevant, ep_key, stm_key, key_of, make_piece, ptype, pcolor, file_of,
};
use crate::zobrist::{spec_piece_key, piece_key, spec_castle_key, spec_ep_key, castle_key, ep_file_key, STM_KEY};
use crate::attacks::{file, rank};

verus! {

/// The mailbox, the occupancy and the type bitboards agree.
pub open spec fn mailbox_ok(b: Board) -> bool {
    &&& squares_valid(b.sq@)
    &&& occ_consistent(b.sq@, b.occ@)
    &&& pieces_consistent(b.sq@, b.pieces@)
}

/// The board `b` with square `s` set to `p`, all else equal.
pub open spec fn with_square(b: Position, s: int, p: u8) -> Position {
    Position { sq: b.sq.update(s, p), ..b }
}

/// Key of the pieces changes by the keys of the old and the new content of
/// the one square that changes.
pub proof fn lemma_pieces_key_update(sq: Seq<u8>, i: int, v: u8, n: int)
    requires
        sq.len() == 64,
        0 <= i < 64,
        0 <= n <= 64,
    ensures
        pieces_key(sq.update(i, v), n) == if i < n {
            pieces_key(sq, n) ^ square_key(sq[i], i) ^ square_key(v, i)
        } else {
            pieces_key(sq, n)
        },
    decreases n,
{
    let s2 = sq.update(i, v);
    if n > 0 {
        lemma_pieces_key_update(sq, i, v, n - 1);
        let a = pieces_key(sq, n - 1);
        let x = square_key(sq[i], i);
        let y = square_key(v, i);
        if n - 1 == i {
            let b = pieces_key(sq, n);
            assert(b == a ^ x);
            assert(pieces_key(s2, n) == a ^ y);
            assert((a ^ y) == ((a ^ x) ^ x) ^ y) by {
                lemma_xor(a, x, x);
                lemma_xor(x, 0, 0);
                lemma_xor(a, 0, 0);
            }
        } else if n - 1 > i {
            let z = square_key(sq[n - 1], n - 1);
            assert(s2[n - 1] == sq[n - 1]);
            assert(pieces_key(s2, n) == ((a ^ x) ^ y) ^ z);
            assert(((a ^ x) ^ y) ^ z == ((a ^ z) ^ x) ^ y) by (bit_vector);
        } else {
            assert(s2[n - 1] == sq[n - 1]);
        }
    }
}


/// `castling &= rights_mask(from) & rights_mask(to)` on every move: moving
/// or capturing a king or rook on its home square drops the right.
pub open spec fn rights_mask(s: int) -> u8 {
    if s == 0 {
        0xfd
    } else if s == 7 {
        0xfe
    } else if s == 4 {
        0xfc
    } else if s == 56 {
        0xf7
    } else if s == 63 {
        0xfb
    } else if s == 60 {
        0xf3
    } else {
        0xff
    }
}

/// The castling-rights mask of square `s`.
pub fn rights_mask_of(s: u8) -> (r: u8)
    ensures
        r == rights_mask(s as int),
{
    assert(0xffu8 ^ 2u8 == 0xfdu8 && 0xffu8 ^ 1u8 == 0xfeu8 && 0xffu8 ^ (1u8 | 2u8) == 0xfcu8
        && 0xffu8 ^ 8u8 == 0xf7u8 && 0xffu8 ^ 4u8 == 0xfbu8 && 0xffu8 ^ (4u8 | 8u8) == 0xf3u8)
        by (bit_vector);
    if s == 0 {
        0xff ^ WQ
    } else if s == 7 {
        0xff ^ WK
    } else if s == 4 {
        0xff ^ (WK | WQ)
    } else if s == 56 {
        0xff ^ BQ
    } else if s == 63 {
        0xff ^ BK
    } else if s == 60 {
        0xff ^ (BK | BQ)
    } else {
        0xff
    }
}

/// The piece that moves.
pub open spec fn moving(pos: Position, m: Move) -> u8 {
    pos.sq[m.from as int]
}

/// A pawn moves diagonally onto the empty en-passant square.
pub open spec fn is_ep_capture(pos: Position, m: Move) -> bool {
    &&& pt(moving(pos, m)) == PAWN
    &&& pos.ep == Some(m.to)
    &&& pos.sq[m.to as int] == EMPTY
    &&& file(m.from as int) != file(m.to as int)
}

/// The square whose content is taken: behind the target on en passant.
pub open spec fn capture_sq(pos: Position, m: Move) -> int {
    if is_ep_capture(pos, m) {
        if pos.stm == WHITE {
            m.to as int - 8
        } else {
            m.to as int + 8
        }
    } else {
        m.to as int
    }
}

/// The content taken (EMPTY when nothing is taken).
pub open spec fn captured(pos: Position, m: Move) -> u8 {
    pos.sq[capture_sq(pos, m)]
}

/// The piece that lands on the target square.
pub open spec fn placed(pos: Position, m: Move) -> u8 {
    if m.promo != 0 {
        piece(pos.stm as int, m.promo as int)
    } else {
        moving(pos, m)
    }
}

pub open spec fn castles_king_side(pos: Position, m: Move) -> bool {
    pt(moving(pos, m)) == KING && m.to as int == m.from as int + 2
}

pub open spec fn castles_queen_side(pos: Position, m: Move) -> bool {
    pt(moving(pos, m)) == KING && m.to as int + 2 == m.from as int
}

/// The squares after move `m`: the taken content removed, the piece moved
/// (promoted), and on castling the rook moved next to the king.
pub open spec fn after_squares(pos: Position, m: Move) -> Seq<u8> {
    let from = m.from as int;
    let to = m.to as int;
    let rook = piece(pos.stm as int, ROOK as int);
    let s1 = pos.sq.update(capture_sq(pos, m), EMPTY).update(from, EMPTY).update(to, placed(pos, m));
    if castles_king_side(pos, m) {
        s1.update(to + 1, EMPTY).update(to - 1, rook)
    } else if castles_queen_side(pos, m) {
        s1.update(to - 2, EMPTY).update(to + 1, rook)
    } else {
        s1
    }
}

/// The position after move `m`.
pub open spec fn after(pos: Position, m: Move) -> Position {
    let p = moving(pos, m);
    let pawn = pt(p) == PAWN;
    let d = m.to as int - m.from as int;
    Position {
        sq: after_squares(pos, m),
        stm: (1 - pos.stm) as u8,
        castling: pos.castling & rights_mask(m.from as int) & rights_mask(m.to as int),
        ep: if pawn && (d == 16 || d == -16) {
            Some(((m.from as int + m.to as int) / 2) as u8)
        } else {
            None
        },
        halfmove: if pawn || captured(pos, m) != EMPTY {
            0
        } else {
            (pos.halfmove + 1) as u16
        },
        fullmove: if pos.stm == BLACK {
            (pos.fullmove + 1) as u16
        } else {
            pos.fullmove
        },
        king: if pt(p) == KING {
            pos.king.update(pos.stm as int, m.to)
        } else {
            pos.king
        },
    }
}

/// What `make` accepts: a piece of the side to move moves to another
/// square; only a pawn promotes, to a knight, bishop, rook or queen; a king
/// moving two squares has its rook beside the target and the square it
/// crosses empty; an en-passant capture takes from the board; the move
/// counters do not overflow.
pub open spec fn move_ok(pos: Position, m: Move) -> bool {
    let from = m.from as int;
    let to = m.to as int;
    let p = pos.sq[from];
    let us = pos.stm as int;
    &&& from < 64 && to < 64 && from != to
    &&& colored(p, us)
    &&& (m.promo == 0 || (pt(p) == PAWN && 2 <= m.promo <= 5))
    &&& (castles_king_side(pos, m) ==> to + 1 < 64 && pos.sq[to + 1] == piece(us, ROOK as int)
        && pos.sq[to - 1] == EMPTY)
    &&& (castles_queen_side(pos, m) ==> to >= 2 && pos.sq[to - 2] == piece(us, ROOK as int)
        && pos.sq[to + 1] == EMPTY)
    &&& (is_ep_capture(pos, m) ==> 0 <= capture_sq(pos, m) < 64)
    &&& (!(pt(p) == PAWN || captured(pos, m) != EMPTY) ==> pos.halfmove < 0xffff)
    &&& (pos.stm == BLACK ==> pos.fullmove < 0xffff)
}

/// Every king of a colour stands on that colour's king square (so there is
/// at most one king per colour).
pub open spec fn kings_tracked(pos: Position) -> bool {
    forall|s: int|
        0 <= s < 64 ==> (#[trigger] pos.sq[s] == piece(0, KING as int) ==> pos.king[0] == s) && (
        pos.sq[s] == piece(1, KING as int) ==> pos.king[1] == s)
}

/// What `make` saves: the content taken and its square, castling rights,
/// en-passant square and halfmove clock before the move.
pub open spec fn undo_of(pos: Position, m: Move) -> (u8, u8, u8, Option<u8>, u16) {
    (captured(pos, m), capture_sq(pos, m) as u8, pos.castling, pos.ep, pos.halfmove)
}

/// The position `unmake` rebuilds from the position after `m` and the saved data.
pub open spec fn unmade(now: Position, m: Move, u: (u8, u8, u8, Option<u8>, u16)) -> Position {
    let from = m.from as int;
    let to = m.to as int;
    let us = 1 - now.stm;
    let moved = now.sq[to];
    let back = if m.promo != 0 { piece(us, PAWN as int) } else { moved };
    let rook = piece(us, ROOK as int);
    let s1 = now.sq.update(to, EMPTY).update(from, back).update(u.1 as int, u.0);
    let king_moved = pt(moved) == KING;
    Position {
        sq: if king_moved && to == from + 2 {
            s1.update(to + 1, rook).update(to - 1, EMPTY)
        } else if king_moved && to + 2 == from {
            s1.update(to - 2, rook).update(to + 1, EMPTY)
        } else {
            s1
        },
        stm: us as u8,
        castling: u.2,
        ep: u.3,
        halfmove: u.4,
        fullmove: if us == BLACK {
            (now.fullmove - 1) as u16
        } else {
            now.fullmove
        },
        king: if king_moved {
            now.king.update(us, m.from)
        } else {
            now.king
        },
    }
}

/// The position is sound enough to move in: valid squares, side to move,
/// king squares on the board or 64.
pub open spec fn position_ok(pos: Position) -> bool {
    &&& squares_valid(pos.sq)
    &&& pos.stm <= 1
    &&& pos.king.len() == 2
    &&& pos.king[0] <= 64
    &&& pos.king[1] <= 64
}

/// Unmaking a move rebuilds every part of the position but the king
/// squares, and those too when each king stands on its colour's square.
pub proof fn lemma_unmake_undoes_make(pos: Position, m: Move)
    requires
        position_ok(pos),
        move_ok(pos, m),
    ensures
        unmade(after(pos, m), m, undo_of(pos, m)).sq == pos.sq,
        unmade(after(pos, m), m, undo_of(pos, m)).stm == pos.stm,
        unmade(after(pos, m), m, undo_of(pos, m)).castling == pos.castling,
        unmade(after(pos, m), m, undo_of(pos, m)).ep == pos.ep,
        unmade(after(pos, m), m, undo_of(pos, m)).halfmove == pos.halfmove,
        unmade(after(pos, m), m, undo_of(pos, m)).fullmove == pos.fullmove,
        kings_tracked(pos) ==> unmade(after(pos, m), m, undo_of(pos, m)) == pos,
{
    let a = after(pos, m);
    let r = unmade(a, m, undo_of(pos, m));
    let from = m.from as int;
    let to = m.to as int;
    assert(valid_piece(pos.sq[from]));
    assert(a.sq[to] == placed(pos, m));
    assert(pt(a.sq[to]) == KING <==> pt(moving(pos, m)) == KING);
    assert(r.sq =~= pos.sq);
    if kings_tracked(pos) {
        if pt(moving(pos, m)) == KING {
            assert(pos.sq[from] == piece(pos.stm as int, KING as int));
            assert(pos.king[pos.stm as int] == from);
        }
        assert(r.king =~= pos.king);
    }
}

impl Board {
    /// Empties square `s` (holding a piece), keeping the bitboards in step.
    fn clear_sq(&mut self, s: u8)
        requires
            mailbox_ok(*old(self)),
            s < 64,
            old(self).sq@[s as int] != EMPTY,
        ensures
            mailbox_ok(*final(self)),
            final(self)@ == with_square(old(self)@, s as int, EMPTY),
            final(self).key == old(self).key,
    {
        let p = self.sq[s as usize];
        proof {
            assert(valid_piece(self.sq@[s as int]));
        }
        let c = pcolor(p) as usize;
        let t = ptype(p) as usize;
        let oc = self.occ[c];
        let ot = self.pieces[t];
        proof {
            lemma_bits_remove(oc, s as u64);
            lemma_bits_remove(ot, s as u64);
        }
        self.occ[c] = oc & !(1u64 << s);
        self.pieces[t] = ot & !(1u64 << s);
        self.sq[s as usize] = EMPTY;
        proof {
            let sq0 = old(self).sq@;
            let sq1 = self.sq@;
            assert(sq1 =~= sq0.update(s as int, EMPTY));
            assert forall|u: int| 0 <= u < 64 implies #[trigger] valid_piece(sq1[u]) by {
                assert(valid_piece(sq0[u]));
            }
            assert forall|c2: int, u: int|
                0 <= c2 < 2 && 0 <= u < 64 implies (#[trigger] bit(self.occ@[c2], u) <==> colored(
                sq1[u],
                c2,
            )) by {
                assert(bit(old(self).occ@[c2], u) <==> colored(sq0[u], c2));
            }
            assert forall|t2: int, u: int|
                0 <= t2 < 7 && 0 <= u < 64 implies (#[trigger] bit(self.pieces@[t2], u) <==> sq1[u]
                != EMPTY && pt(sq1[u]) == t2) by {
                assert(bit(old(self).pieces@[t2], u) <==> sq0[u] != EMPTY && pt(sq0[u]) == t2);
            }
            assert(self@ =~= with_square(old(self)@, s as int, EMPTY));
        }
    }

    /// Puts piece `p` on the empty square `s`, keeping the bitboards in step.
    fn set_sq(&mut self, s: u8, p: u8)
        requires
            mailbox_ok(*old(self)),
            s < 64,
            old(self).sq@[s as int] == EMPTY,
            p != EMPTY,
            valid_piece(p),
        ensures
            mailbox_ok(*final(self)),
            final(self)@ == with_square(old(self)@, s as int, p),
            final(self).key == old(self).key,
    {
        let c = pcolor(p) as usize;
        let t = ptype(p) as usize;
        let oc = self.occ[c];
        let ot = self.pieces[t];
        proof {
            lemma_bits_insert(oc, s as u64);
            lemma_bits_insert(ot, s as u64);
        }
        self.occ[c] = oc | (1u64 << s);
        self.pieces[t] = ot | (1u64 << s);
        self.sq[s as usize] = p;
        proof {
            let sq0 = old(self).sq@;
            let sq1 = self.sq@;
            assert(sq1 =~= sq0.update(s as int, p));
            assert forall|u: int| 0 <= u < 64 implies #[trigger] valid_piece(sq1[u]) by {
                assert(valid_piece(sq0[u]));
            }
            assert forall|c2: int, u: int|
                0 <= c2 < 2 && 0 <= u < 64 implies (#[trigger] bit(self.occ@[c2], u) <==> colored(
                sq1[u],
                c2,
            )) by {
                assert(bit(old(self).occ@[c2], u) <==> colored(sq0[u], c2));
            }
            assert forall|t2: int, u: int|
                0 <= t2 < 7 && 0 <= u < 64 implies (#[trigger] bit(self.pieces@[t2], u) <==> sq1[u]
                != EMPTY && pt(sq1[u]) == t2) by {
                assert(bit(old(self).pieces@[t2], u) <==> sq0[u] != EMPTY && pt(sq0[u]) == t2);
            }
            assert(self@ =~= with_square(old(self)@, s as int, p));
        }
    }
}

proof fn lemma_key_start(key0: u64, pk: u64, c0: u64, e0: u64, s0: u64)
    by (bit_vector)
    requires
        key0 == pk ^ c0 ^ e0 ^ s0,
    ensures
        (key0 ^ e0) ^ c0 == pk ^ s0,
{
}

proof fn lemma_key_clear(k: u64, pk: u64, s0: u64, x: u64)
    by (bit_vector)
    requires
        k == pk ^ s0,
    ensures
        k ^ x == ((pk ^ x) ^ 0u64) ^ s0,
{
}

proof fn lemma_key_set(k: u64, pk: u64, s0: u64, x: u64)
    by (bit_vector)
    requires
        k == pk ^ s0,
    ensures
        k ^ x == ((pk ^ 0u64) ^ x) ^ s0,
{
}

proof fn lemma_key_end(k: u64, pk: u64, s0: u64, s1: u64, c1: u64, e1: u64, stm: u64)
    by (bit_vector)
    requires
        k == pk ^ s0,
        s1 == s0 ^ stm,
    ensures
        ((k ^ c1) ^ stm) ^ e1 == pk ^ c1 ^ e1 ^ s1,
{
}

/// What `make` hands to `unmake`.
pub struct Undo {
    cap: u8,
    cap_sq: u8,
    castling: u8,
    ep: Option<u8>,
    halfmove: u16,
    key: u64,
    prior: Ghost<Board>,
}

impl Undo {
    /// The board before the move.
    pub closed spec fn prior(&self) -> Board {
        self.prior@
    }

    /// The saved data (see `undo_of`).
    pub closed spec fn data(&self) -> (u8, u8, u8, Option<u8>, u16) {
        (self.cap, self.cap_sq, self.castling, self.ep, self.halfmove)
    }

    /// This undo record was made by making `m` on a sound board, which led to `now`.
    pub closed spec fn restores(&self, m: Move, now: Position) -> bool {
        &&& self.prior@.wf()
        &&& move_ok(self.prior@@, m)
        &&& now == after(self.prior@@, m)
        &&& self.data() == undo_of(self.prior@@, m)
        &&& self.key == self.prior@.key
    }
}

/// Two sound boards that stand for the same position are equal.
pub proof fn lemma_board_ext(b1: Board, b2: Board)
    requires
        b1.wf(),
        b2.wf(),
        b1@ == b2@,
    ensures
        b1 == b2,
{
    assert forall|c: int| 0 <= c < 2 implies b1.occ[c] == b2.occ[c] by {
        assert forall|i: int| 0 <= i < 64 implies #[trigger] bit(b1.occ@[c], i) == bit(b2.occ@[c], i) by {
        }
        lemma_bits_ext(b1.occ@[c], b2.occ@[c]);
    }
    assert forall|t: int| 0 <= t < 7 implies b1.pieces[t] == b2.pieces[t] by {
        assert forall|i: int| 0 <= i < 64 implies #[trigger] bit(b1.pieces@[t], i) == bit(b2.pieces@[t], i) by {
        }
        lemma_bits_ext(b1.pieces@[t], b2.pieces@[t]);
    }
    assert(b1.occ =~= b2.occ);
    assert(b1.pieces =~= b2.pieces);
    assert(b1.sq =~= b2.sq);
    assert(b1.king =~= b2.king);
}

impl Board {
    /// The square part of `make`: the taken content, the moving piece and,
    /// on castling, the rook; `k` follows the key of the pieces.
    fn move_squares(&mut self, m: Move, cap_sq: u8, k0: u64, Ghost(s0): Ghost<u64>) -> (k: u64)
        requires
            mailbox_ok(*old(self)),
            old(self).stm <= 1,
            old(self).king[0] <= 64,
            old(self).king[1] <= 64,
            move_ok(old(self)@, m),
            cap_sq as int == capture_sq(old(self)@, m),
            k0 == pieces_key(old(self).sq@, 64) ^ s0,
        ensures
            mailbox_ok(*final(self)),
            final(self)@ == (Position {
                sq: after_squares(old(self)@, m),
                king: after(old(self)@, m).king,
                ..old(self)@
            }),
            final(self).key == old(self).key,
            k == pieces_key(final(self).sq@, 64) ^ s0,
    {
        let ghost pos0 = self@;
        let us = self.stm;
        let p = self.sq[m.from as usize];
        proof {
            assert(valid_piece(pos0.sq[m.from as int]));
            assert(valid_piece(pos0.sq[cap_sq as int]));
        }
        let cap = self.sq[cap_sq as usize];
        let mut k = k0;
        let ghost mut pk = pieces_key(pos0.sq, 64);
        if cap != EMPTY {
            proof {
                lemma_key_clear(k, pk, s0, square_key(cap, cap_sq as int));
                lemma_pieces_key_update(self.sq@, cap_sq as int, EMPTY, 64);
            }
            k = k ^ piece_key(pcolor(cap), ptype(cap), cap_sq);
            self.clear_sq(cap_sq);
            proof {
                pk = pieces_key(self.sq@, 64);
            }
        } else {
            assert(self.sq@ =~= pos0.sq.update(cap_sq as int, EMPTY));
        }
        let placed = if m.promo != 0 {
            make_piece(us, m.promo)
        } else {
            p
        };
        proof {
            assert(self.sq@[m.from as int] == p);
            lemma_key_clear(k, pk, s0, square_key(p, m.from as int));
            lemma_pieces_key_update(self.sq@, m.from as int, EMPTY, 64);
        }
        k = k ^ piece_key(us, ptype(p), m.from);
        self.clear_sq(m.from);
        proof {
            pk = pieces_key(self.sq@, 64);
            assert(self.sq@[m.to as int] == EMPTY);
            lemma_key_set(k, pk, s0, square_key(placed, m.to as int));
            lemma_pieces_key_update(self.sq@, m.to as int, placed, 64);
        }
        k = k ^ piece_key(us, ptype(placed), m.to);
        self.set_sq(m.to, placed);
        proof {
            pk = pieces_key(self.sq@, 64);
        }
        let d = m.to as i8 - m.from as i8;
        if ptype(p) == KING {
            self.king[us as usize] = m.to;
            let rook = make_piece(us, ROOK);
            if d == 2 {
                proof {
                    assert(self.sq@[m.to as int + 1] == rook);
                    lemma_key_clear(k, pk, s0, square_key(rook, m.to as int + 1));
                    lemma_pieces_key_update(self.sq@, m.to as int + 1, EMPTY, 64);
                }
                k = k ^ piece_key(us, ROOK, m.to + 1);
                self.clear_sq(m.to + 1);
                proof {
                    pk = pieces_key(self.sq@, 64);
                    assert(self.sq@[m.to as int - 1] == EMPTY);
                    lemma_key_set(k, pk, s0, square_key(rook, m.to as int - 1));
                    lemma_pieces_key_update(self.sq@, m.to as int - 1, rook, 64);
                }
                k = k ^ piece_key(us, ROOK, m.to - 1);
                self.set_sq(m.to - 1, rook);
                proof {
                    pk = pieces_key(self.sq@, 64);
                }
            } else if d == -2 {
                proof {
                    assert(self.sq@[m.to as int - 2] == rook);
                    lemma_key_clear(k, pk, s0, square_key(rook, m.to as int - 2));
                    lemma_pieces_key_update(self.sq@, m.to as int - 2, EMPTY, 64);
                }
                k = k ^ piece_key(us, ROOK, m.to - 2);
                self.clear_sq(m.to - 2);
                proof {
                    pk = pieces_key(self.sq@, 64);
                    assert(self.sq@[m.to as int + 1] == EMPTY);
                    lemma_key_set(k, pk, s0, square_key(rook, m.to as int + 1));
                    lemma_pieces_key_update(self.sq@, m.to as int + 1, rook, 64);
                }
                k = k ^ piece_key(us, ROOK, m.to + 1);
                self.set_sq(m.to + 1, rook);
                proof {
                    pk = pieces_key(self.sq@, 64);
                }
            }
        }
        assert(self.sq@ =~= after_squares(pos0, m));
        assert(self@ =~= (Position { sq: after_squares(pos0, m), king: after(pos0, m).king, ..pos0 }));
        k
    }

    /// Makes move `m`, keeping bitboards and key in step; returns what
    /// `unmake` needs.
    pub fn make(&mut self, m: Move) -> (undo: Undo)
        requires
            old(self).wf(),
            move_ok(old(self)@, m),
        ensures
            final(self).wf(),
            final(self)@ == after(old(self)@, m),
            undo.prior() == *old(self),
            undo.restores(m, final(self)@),
    {
        let ghost b0 = *self;
        let ghost pos0 = self@;
        let us = self.stm;
        let p = self.sq[m.from as usize];
        proof {
            assert(valid_piece(pos0.sq[m.from as int]));
        }
        let ghost s0 = stm_key(us);
        let ghost pk0 = pieces_key(pos0.sq, 64);
        let mut k = self.key;
        let ghost e0: u64 = 0;
        match self.ep_relevant() {
            Some(e) => {
                proof {
                    crate::bits::lemma_u8_coords(e);
                }
                k = k ^ ep_file_key(e & 7);
                proof {
                    e0 = spec_ep_key(e as int % 8);
                }
            },
            None => {
                proof {
                    lemma_xor(k, 0, 0);
                }
            },
        }
        assert(e0 == ep_key(pos0));
        k = k ^ castle_key(self.castling);
        proof {
            lemma_key_start(b0.key, pk0, spec_castle_key(pos0.castling as int), e0, s0);
        }
        let mut cap_sq = m.to;
        if ptype(p) == PAWN && Some(m.to) == self.ep && self.sq[m.to as usize] == EMPTY && file_of(
            m.from,
        ) != file_of(m.to) {
            cap_sq = if us == WHITE {
                m.to - 8
            } else {
                m.to + 8
            };
        }
        assert(cap_sq as int == capture_sq(pos0, m));
        let cap = self.sq[cap_sq as usize];
        proof {
            assert(valid_piece(pos0.sq[cap_sq as int]));
        }
        let undo = Undo {
            cap,
            cap_sq,
            castling: self.castling,
            ep: self.ep,
            halfmove: self.halfmove,
            key: self.key,
            prior: Ghost(b0),
        };
        let d = m.to as i8 - m.from as i8;
        k = self.move_squares(m, cap_sq, k, Ghost(s0));
        let ghost pk = pieces_key(self.sq@, 64);
        assert(self.sq@ =~= after_squares(pos0, m));
        let old_castling = self.castling;
        let mf = rights_mask_of(m.from);
        let mt = rights_mask_of(m.to);
        self.castling = old_castling & mf & mt;
        assert((old_castling & mf & mt) <= old_castling) by (bit_vector);
        self.ep = None;
        if ptype(p) == PAWN && (d == 16 || d == -16) {
            self.ep = Some(((m.from as i8 + m.to as i8) / 2) as u8);
        }
        if ptype(p) == PAWN || cap != EMPTY {
            self.halfmove = 0;
        } else {
            self.halfmove = self.halfmove + 1;
        }
        if us == BLACK {
            self.fullmove = self.fullmove + 1;
        }
        self.stm = 1 - us;
        assert(self@ =~= after(pos0, m));
        let c1 = castle_key(self.castling);
        let kk = (k ^ c1) ^ STM_KEY;
        let ghost e1: u64 = 0;
        let mut key = kk;
        match self.ep_relevant() {
            Some(e) => {
                proof {
                    crate::bits::lemma_u8_coords(e);
                }
                key = kk ^ ep_file_key(e & 7);
                proof {
                    e1 = spec_ep_key(e as int % 8);
                }
            },
            None => {
                proof {
                    lemma_xor(kk, 0, 0);
                }
            },
        }
        proof {
            assert(e1 == ep_key(self@));
            assert(stm_key(self.stm) == s0 ^ STM_KEY) by {
                lemma_xor(STM_KEY, 0, 0);
            }
            lemma_key_end(k, pk, s0, stm_key(self.stm), c1, e1, STM_KEY);
        }
        self.key = key;
        undo
    }

    /// Takes back move `m` made with `make`, restoring the board.
    pub fn unmake(&mut self, m: Move, undo: Undo)
        requires
            old(self).wf(),
            undo.restores(m, old(self)@),
        ensures
            final(self).wf(),
            final(self)@ == unmade(old(self)@, m, undo.data()),
            kings_tracked(undo.prior()@) ==> *final(self) == undo.prior(),
    {
        let ghost now = self@;
        let ghost pos0 = undo.prior()@;
        proof {
            lemma_unmake_undoes_make(pos0, m);
            assert(valid_piece(pos0.sq[m.from as int]));
        }
        let us = 1 - self.stm;
        let moved = self.sq[m.to as usize];
        assert(moved == placed(pos0, m));
        self.clear_sq(m.to);
        let back = if m.promo != 0 {
            make_piece(us, PAWN)
        } else {
            moved
        };
        self.set_sq(m.from, back);
        if undo.cap != EMPTY {
            assert(self.sq@[undo.cap_sq as int] == EMPTY);
            assert(valid_piece(pos0.sq[undo.cap_sq as int]));
            self.set_sq(undo.cap_sq, undo.cap);
        } else {
            assert(self.sq@ =~= self.sq@.update(undo.cap_sq as int, undo.cap));
        }
        if ptype(moved) == KING {
            self.king[us as usize] = m.from;
            let d = m.to as i8 - m.from as i8;
            let rook = make_piece(us, ROOK);
            if d == 2 {
                self.clear_sq(m.to - 1);
                self.set_sq(m.to + 1, rook);
            } else if d == -2 {
                self.clear_sq(m.to + 1);
                self.set_sq(m.to - 2, rook);
            }
        }
        self.castling = undo.castling;
        self.ep = undo.ep;
        self.halfmove = undo.halfmove;
        self.key = undo.key;
        if us == BLACK {
            self.fullmove = self.fullmove - 1;
        }
        self.stm = us;
        proof {
            assert(self@.sq =~= unmade(now, m, undo.data()).sq);
            assert(self@.king =~= unmade(now, m, undo.data()).king);
            assert(self@ == unmade(now, m, undo.data()));
            assert(key_of(self@) == key_of(pos0));
            if kings_tracked(pos0) {
                lemma_board_ext(*self, undo.prior());
            }
        }
    }
}

/// The position after a null move (a pass): the other side to move, no
/// en-passant square.
pub open spec fn after_null(pos: Position) -> Position {
    Position { stm: (1 - pos.stm) as u8, ep: None, ..pos }
}

/// The board after a null move: side to move and en-passant square as in
/// `after_null`, the key recomputed, all else kept.
pub open spec fn null_moved(b: Board) -> Board {
    Board { stm: (1 - b.stm) as u8, ep: None, key: key_of(after_null(b@)), ..b }
}

/// The board after undoing a null move with the saved en-passant square and key.
pub open spec fn null_unmoved(b: Board, saved: (Option<u8>, u64)) -> Board {
    Board { stm: (1 - b.stm) as u8, ep: saved.0, key: saved.1, ..b }
}

impl Board {
    /// Null move: passes the turn and clears the en-passant square; returns
    /// the en-passant square and key before it, for `unmake_null`.
    pub fn make_null(&mut self) -> (saved: (Option<u8>, u64))
        requires
            old(self).wf(),
        ensures
            *final(self) == null_moved(*old(self)),
            final(self).wf(),
            final(self)@ == after_null(old(self)@),
            saved == (old(self).ep, old(self).key),
    {
        let saved = (self.ep, self.key);
        self.ep = None;
        self.stm = 1 - self.stm;
        self.key = self.compute_key();
        saved
    }

    /// Undoes a null move with what `make_null` returned.
    pub fn unmake_null(&mut self, saved: (Option<u8>, u64))
        requires
            old(self).stm <= 1,
        ensures
            *final(self) == null_unmoved(*old(self), saved),
    {
        self.stm = 1 - self.stm;
        self.ep = saved.0;
        self.key = saved.1;
    }
}

/// Undoing a null move with what it returned gives back the board exactly.
pub proof fn lemma_unmake_null_undoes_make_null(b: Board)
    requires
        b.wf(),
    ensures
        null_unmoved(null_moved(b), (b.ep, b.key)) == b,
{
}

} // verus!
