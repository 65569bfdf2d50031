//! Board representation: piece codes, squares (a1 = 0 … h8 = 63, file + 8 * rank),
//! the mailbox board with its incrementally kept bitboards and Zobrist key,
//! and the mathematical position every board stands for.

use vstd::prelude::*;
use crate::bits::{bit, lemma_bits_ops, lemma_bits_insert, lemma_xor};
use crate::zobrist::{spec_piece_key, piece_key, spec_castle_key, spec_ep_key, castle_key, ep_file_key, STM_KEY};

verus! {

pub const WHITE: u8 = 0;
pub const BLACK: u8 = 1;

pub const EMPTY: u8 = 0;
pub const PAWN: u8 = 1;
pub const KNIGHT: u8 = 2;
pub const BISHOP: u8 = 3;
pub const ROOK: u8 = 4;
pub const QUEEN: u8 = 5;
pub const KING: u8 = 6;

// Castling-right bits.
pub const WK: u8 = 1;
pub const WQ: u8 = 2;
pub const BK: u8 = 4;
pub const BQ: u8 = 8;

/// Colour of a piece code.
pub open spec fn pc(p: u8) -> int {
    p as int / 8
}

/// Type of a piece code.
pub open spec fn pt(p: u8) -> int {
    p as int % 8
}

/// The piece code of colour `c` and type `t`.
pub open spec fn piece(c: int, t: int) -> u8 {
    (t + 8 * c) as u8
}

/// A square's content is empty or a piece of one of the two colours.
pub open spec fn valid_piece(p: u8) -> bool {
    p == EMPTY || (1 <= pt(p) <= 6 && pc(p) <= 1)
}

/// The content `p` is a piece of colour `c`.
pub open spec fn colored(p: u8, c: int) -> bool {
    p != EMPTY && pc(p) == c
}

/// Piece code of colour `color` and type `ptype`.
pub fn make_piece(color: u8, ptype: u8) -> (r: u8)
    ensures
        r == ptype | (color << 3u8),
        color <= 1 && ptype < 8 ==> r == ptype + 8 * color,
{
    assert(color <= 1 && ptype < 8 ==> (ptype | (color << 3u8)) == ptype + 8 * color)
        by (bit_vector);
    ptype | (color << 3)
}

/// Type of piece `p`.
pub fn ptype(p: u8) -> (r: u8)
    ensures
        r == pt(p),
{
    proof {
        crate::bits::lemma_u8_coords(p);
    }
    p & 7
}

/// Colour of piece `p`.
pub fn pcolor(p: u8) -> (r: u8)
    ensures
        r == pc(p),
{
    proof {
        crate::bits::lemma_u8_coords(p);
    }
    p >> 3
}

/// File of square `s`.
pub fn file_of(s: u8) -> (r: i8)
    ensures
        r == s % 8,
{
    proof {
        crate::bits::lemma_u8_coords(s);
    }
    (s & 7) as i8
}

/// Rank of square `s`.
pub fn rank_of(s: u8) -> (r: i8)
    ensures
        r == s / 8,
{
    proof {
        crate::bits::lemma_u8_coords(s);
    }
    (s >> 3) as i8
}

/// A move: from-square, to-square, promotion type (0 or KNIGHT..=QUEEN).
#[derive(Clone, Copy, PartialEq, Eq, Debug, Structural)]
pub struct Move {
    pub from: u8,
    pub to: u8,
    pub promo: u8,
}

/// The move with the given fields.
pub open spec fn mv(from: int, to: int, promo: int) -> Move {
    Move { from: from as u8, to: to as u8, promo: promo as u8 }
}

/// The chess position a board stands for.
pub struct Position {
    pub sq: Seq<u8>,
    pub stm: u8,
    pub castling: u8,
    pub ep: Option<u8>,
    pub halfmove: u16,
    pub fullmove: u16,
    pub king: Seq<u8>,
}

/// Mailbox board, with occupancy per colour, per-type bitboards and a
/// Zobrist key kept in step with the squares.
#[derive(Clone, Copy)]
pub struct Board {
    pub sq: [u8; 64],
    pub stm: u8,
    pub castling: u8,
    pub ep: Option<u8>,
    pub halfmove: u16,
    pub fullmove: u16,
    /// Zobrist key, maintained incrementally by make/unmake.
    pub key: u64,
    /// Occupancy per colour.
    pub occ: [u64; 2],
    /// Per-type bitboards, both colours merged; index by type 1..=6.
    pub pieces: [u64; 7],
    /// King square per colour (64 = none).
    pub king: [u8; 2],
}

impl View for Board {
    type V = Position;

    open spec fn view(&self) -> Position {
        Position {
            sq: self.sq@,
            stm: self.stm,
            castling: self.castling,
            ep: self.ep,
            halfmove: self.halfmove,
            fullmove: self.fullmove,
            king: self.king@,
        }
    }
}

/// Every square holds a valid code.
pub open spec fn squares_valid(sq: Seq<u8>) -> bool {
    sq.len() == 64 && forall|s: int| 0 <= s < 64 ==> #[trigger] valid_piece(sq[s])
}

/// The occupancy bitboards hold exactly the squares of each colour.
pub open spec fn occ_consistent(sq: Seq<u8>, occ: Seq<u64>) -> bool {
    occ.len() == 2 && forall|c: int, s: int|
        0 <= c < 2 && 0 <= s < 64 ==> (#[trigger] bit(occ[c], s) <==> colored(sq[s], c))
}

/// The type bitboards hold exactly the squares of each piece type.
pub open spec fn pieces_consistent(sq: Seq<u8>, pieces: Seq<u64>) -> bool {
    pieces.len() == 7 && forall|t: int, s: int|
        0 <= t < 7 && 0 <= s < 64 ==> (#[trigger] bit(pieces[t], s) <==> sq[s] != EMPTY && pt(
            sq[s],
        ) == t)
}

/// Key of the content `p` of square `s`.
pub open spec fn square_key(p: u8, s: int) -> u64 {
    if p == EMPTY {
        0
    } else {
        spec_piece_key(pc(p), pt(p), s)
    }
}

/// Key of the pieces on the first `n` squares.
pub open spec fn pieces_key(sq: Seq<u8>, n: int) -> u64
    decreases n,
{
    if n <= 0 {
        0
    } else {
        pieces_key(sq, n - 1) ^ square_key(sq[n - 1], n - 1)
    }
}

/// The en-passant square when an enemy pawn of the side to move stands next
/// to the pawn that just moved two squares; otherwise none.
pub open spec fn ep_relevant(pos: Position) -> Option<u8> {
    match pos.ep {
        None => None,
        Some(e) => {
            let vr: int = if pos.stm == WHITE { 4 } else { 3 };
            let f = e as int % 8;
            let pawn = piece(pos.stm as int, PAWN as int);
            if (f - 1 >= 0 && pos.sq[vr * 8 + f - 1] == pawn) || (f + 1 < 8 && pos.sq[vr * 8 + f
                + 1] == pawn) {
                Some(e)
            } else {
                None
            }
        },
    }
}

pub open spec fn ep_key(pos: Position) -> u64 {
    match ep_relevant(pos) {
        Some(e) => spec_ep_key(e as int % 8),
        None => 0,
    }
}

pub open spec fn stm_key(stm: u8) -> u64 {
    if stm == BLACK {
        STM_KEY
    } else {
        0
    }
}

/// The Zobrist key of a position.
pub open spec fn key_of(pos: Position) -> u64 {
    pieces_key(pos.sq, 64) ^ spec_castle_key(pos.castling as int) ^ ep_key(pos) ^ stm_key(pos.stm)
}

impl Board {
    /// The board is internally consistent: valid square codes, side to move,
    /// castling rights, bitboards and key in step with the squares, king
    /// squares on the board or 64 (none).
    pub open spec fn wf(&self) -> bool {
        &&& squares_valid(self.sq@)
        &&& self.stm <= 1
        &&& self.castling <= 15
        &&& occ_consistent(self.sq@, self.occ@)
        &&& pieces_consistent(self.sq@, self.pieces@)
        &&& self.king[0] <= 64
        &&& self.king[1] <= 64
        &&& self.key == key_of(self@)
    }

    /// Squares of the two colours, recomputed from the mailbox.
    pub fn compute_occ(&self) -> (r: [u64; 2])
        requires
            squares_valid(self.sq@),
        ensures
            occ_consistent(self.sq@, r@),
    {
        let mut occ = [0u64; 2];
        let mut s: usize = 0;
        proof {
            lemma_bits_ops(0, 0);
        }
        while s < 64
            invariant
                s <= 64,
                squares_valid(self.sq@),
                occ@.len() == 2,
                forall|c: int, i: int|
                    0 <= c < 2 && 0 <= i < 64 ==> (#[trigger] bit(occ@[c], i) <==> (i < s
                        && colored(self.sq@[i], c))),
            decreases 64 - s,
        {
            let p = self.sq[s];
            assert(valid_piece(self.sq@[s as int]));
            if p != EMPTY {
                let c = pcolor(p) as usize;
                let old = occ[c];
                proof {
                    lemma_bits_insert(old, s as u64);
                }
                occ[c] = old | (1u64 << s);
            }
            s = s + 1;
        }
        occ
    }

    /// Squares of each piece type, recomputed from the mailbox.
    pub fn compute_pieces(&self) -> (r: [u64; 7])
        requires
            squares_valid(self.sq@),
        ensures
            pieces_consistent(self.sq@, r@),
    {
        let mut t = [0u64; 7];
        let mut s: usize = 0;
        proof {
            lemma_bits_ops(0, 0);
        }
        while s < 64
            invariant
                s <= 64,
                squares_valid(self.sq@),
                t@.len() == 7,
                forall|k: int, i: int|
                    0 <= k < 7 && 0 <= i < 64 ==> (#[trigger] bit(t@[k], i) <==> (i < s
                        && self.sq@[i] != EMPTY && pt(self.sq@[i]) == k)),
            decreases 64 - s,
        {
            let p = self.sq[s];
            assert(valid_piece(self.sq@[s as int]));
            if p != EMPTY {
                let k = ptype(p) as usize;
                let old = t[k];
                proof {
                    lemma_bits_insert(old, s as u64);
                }
                t[k] = old | (1u64 << s);
            }
            s = s + 1;
        }
        t
    }

    /// The en-passant square when it matters for the key (see `ep_relevant`).
    pub fn ep_relevant(&self) -> (r: Option<u8>)
        requires
            squares_valid(self.sq@),
            self.stm <= 1,
        ensures
            r == ep_relevant(self@),
    {
        let e = match self.ep {
            Some(e) => e,
            None => {
                return None;
            },
        };
        let victim_rank: i8 = if self.stm == WHITE { 4 } else { 3 };
        let f = file_of(e);
        let pawn = make_piece(self.stm, PAWN);
        let nf = f - 1;
        if 0 <= nf && nf < 8 && self.sq[(victim_rank * 8 + nf) as usize] == pawn {
            return Some(e);
        }
        let nf = f + 1;
        if 0 <= nf && nf < 8 && self.sq[(victim_rank * 8 + nf) as usize] == pawn {
            return Some(e);
        }
        None
    }

    /// The Zobrist key recomputed from scratch.
    pub fn compute_key(&self) -> (r: u64)
        requires
            squares_valid(self.sq@),
            self.stm <= 1,
            self.castling <= 15,
        ensures
            r == key_of(self@),
    {
        let mut k: u64 = 0;
        let mut s: u8 = 0;
        while s < 64
            invariant
                s <= 64,
                squares_valid(self.sq@),
                k == pieces_key(self.sq@, s as int),
            decreases 64 - s,
        {
            let p = self.sq[s as usize];
            assert(valid_piece(self.sq@[s as int]));
            if p != EMPTY {
                k = k ^ piece_key(pcolor(p), ptype(p), s);
            } else {
                proof {
                    lemma_xor(k, 0, 0);
                }
            }
            s = s + 1;
        }
        k = k ^ castle_key(self.castling);
        match self.ep_relevant() {
            Some(e) => {
                proof {
                    crate::bits::lemma_u8_coords(e);
                }
                k = k ^ ep_file_key(e & 7);
            },
            None => {
                proof {
                    lemma_xor(k, 0, 0);
                }
            },
        }
        if self.stm == BLACK {
            k = k ^ STM_KEY;
        } else {
            proof {
                lemma_xor(k, 0, 0);
            }
        }
        k
    }
}

} // verus!
