//! Forsyth–Edwards Notation: reading a board from FEN text and writing it back.

use vstd::prelude::*;
use vstd::string::{StringExecFns, StrSliceExecFns};
use crate::board::{
    Board, Position, squares_valid, valid_piece, piece, pt, pc, make_piece, EMPTY, WHITE, BLACK,
    PAWN, KNIGHT, BISHOP, ROOK, QUEEN, KING,
};
use crate::text::{chars_of, split_words, words, parse_u16, parse_u16_spec};

verus! {

/// Piece type named by a FEN letter of either case; `EMPTY` for any other character.
pub open spec fn letter_type(c: char) -> u8 {
    if c == 'p' || c == 'P' {
        PAWN
    } else if c == 'n' || c == 'N' {
        KNIGHT
    } else if c == 'b' || c == 'B' {
        BISHOP
    } else if c == 'r' || c == 'R' {
        ROOK
    } else if c == 'q' || c == 'Q' {
        QUEEN
    } else if c == 'k' || c == 'K' {
        KING
    } else {
        EMPTY
    }
}

/// Colour of a FEN piece letter: white for ASCII capitals.
pub open spec fn letter_color(c: char) -> u8 {
    if 'A' <= c <= 'Z' {
        WHITE
    } else {
        BLACK
    }
}

/// Outcome of reading the placement field.
pub enum Placement {
    Placed { sq: Seq<u8>, king: Seq<u8> },
    BadPiece(char),
    BadBoard,
    /// The rank or file counter (an `i8`) would overflow.
    Overflow,
}

/// Reads the placement field `cs` from index `i`, rank `r` and file `f` on,
/// with squares `sq` and king squares `king` so far: `/` goes down a rank
/// to file 0, a digit `1`-`8` skips that many files, a piece letter is put
/// on the current square (kept as the king square of its colour for a
/// king) and moves one file on.
pub open spec fn scan_from(
    cs: Seq<char>,
    i: int,
    r: int,
    f: int,
    sq: Seq<u8>,
    king: Seq<u8>,
) -> Placement
    decreases cs.len() - i,
{
    if i < 0 || i >= cs.len() {
        Placement::Placed { sq, king }
    } else {
        let c = cs[i];
        if c == '/' {
            if r - 1 < -128 {
                Placement::Overflow
            } else {
                scan_from(cs, i + 1, r - 1, 0, sq, king)
            }
        } else if '1' <= c <= '8' {
            let nf = f + (c as int - '0' as int);
            if nf > 127 {
                Placement::Overflow
            } else {
                scan_from(cs, i + 1, r, nf, sq, king)
            }
        } else {
            let t = letter_type(c);
            if t == EMPTY {
                Placement::BadPiece(c)
            } else if r < 0 || f > 7 {
                Placement::BadBoard
            } else {
                let color = letter_color(c);
                let s = r * 8 + f;
                scan_from(
                    cs,
                    i + 1,
                    r,
                    f + 1,
                    sq.update(s, piece(color as int, t as int)),
                    if t == KING {
                        king.update(color as int, s as u8)
                    } else {
                        king
                    },
                )
            }
        }
    }
}

pub open spec fn empty_squares() -> Seq<u8> {
    Seq::new(64, |s: int| EMPTY)
}

/// The placement field read from rank 8, file a, on an empty board without kings.
pub open spec fn scan(cs: Seq<char>) -> Placement {
    scan_from(cs, 0, 7, 0, empty_squares(), seq![64u8, 64u8])
}

/// Castling right named by a character of the castling field.
pub open spec fn castle_bit(c: char) -> u8 {
    if c == 'K' {
        1
    } else if c == 'Q' {
        2
    } else if c == 'k' {
        4
    } else if c == 'q' {
        8
    } else {
        0
    }
}

/// The castling rights named by the first `n` characters of `cs`.
pub open spec fn castle_rights(cs: Seq<char>, n: int) -> u8
    decreases n,
{
    if n <= 0 {
        0
    } else {
        castle_rights(cs, n - 1) | castle_bit(cs[n - 1])
    }
}

/// The en-passant field: `Some(None)` for `-`, `Some(Some(square))` for a
/// letter and a digit (square = letter - 'a' + 8 * (digit - '1'), in `u8`
/// arithmetic that must not overflow); `None` where that arithmetic
/// overflows or the field is shorter than two bytes.
pub open spec fn ep_field(w: Seq<char>) -> Option<Option<u8>> {
    if w =~= seq!['-'] {
        Some(None)
    } else if w.len() >= 2 {
        let a = w[0] as u32 as int;
        let d = w[1] as u32 as int;
        if a < 128 && d < 128 && 97 <= a && 49 <= d && (d - 49) * 8 < 256 && (a - 97) + 8 * (d
            - 49) < 256 {
            Some(Some(((a - 97) + 8 * (d - 49)) as u8))
        } else {
            None
        }
    } else {
        None
    }
}

/// A counter field: its `u16` value, or `default` when it is not one.
pub open spec fn counter(w: Seq<char>, default: u16) -> u16 {
    match parse_u16_spec(w) {
        Some(v) => v,
        None => default,
    }
}

/// What reading FEN text gives.
pub enum FenParse {
    Parsed(Position),
    Error(Seq<char>),
    /// Reading it would panic (a counter overflows or the en-passant field is malformed).
    Panics,
}

/// Reads FEN text: at least four whitespace-separated fields (placement,
/// side to move, castling, en passant), then optional halfmove clock
/// (default 0) and fullmove number (default 1).
pub open spec fn parse_fen(fen: Seq<char>) -> FenParse {
    let parts = words(fen);
    if parts.len() < 4 {
        FenParse::Error("bad fen: "@ + fen)
    } else {
        match scan(parts[0]) {
            Placement::Overflow => FenParse::Panics,
            Placement::BadPiece(c) => FenParse::Error("bad piece "@.push(c)),
            Placement::BadBoard => FenParse::Error("bad fen board: "@ + fen),
            Placement::Placed { sq, king } => match ep_field(parts[3]) {
                None => FenParse::Panics,
                Some(ep) => FenParse::Parsed(
                    Position {
                        sq,
                        stm: if parts[1] =~= seq!['b'] {
                            BLACK
                        } else {
                            WHITE
                        },
                        castling: castle_rights(parts[2], parts[2].len() as int),
                        ep,
                        halfmove: if parts.len() > 4 {
                            counter(parts[4], 0)
                        } else {
                            0
                        },
                        fullmove: if parts.len() > 5 {
                            counter(parts[5], 1)
                        } else {
                            1
                        },
                        king,
                    },
                ),
            },
        }
    }
}

/// Exec counterpart of `Placement`.
pub enum PlacementResult {
    Placed([u8; 64], [u8; 2]),
    BadPiece(char),
    BadBoard,
    Overflow,
}

/// Piece type named by a FEN letter (see `letter_type`).
pub fn letter_type_of(c: char) -> (t: u8)
    ensures
        t == letter_type(c),
{
    if c == 'p' || c == 'P' {
        PAWN
    } else if c == 'n' || c == 'N' {
        KNIGHT
    } else if c == 'b' || c == 'B' {
        BISHOP
    } else if c == 'r' || c == 'R' {
        ROOK
    } else if c == 'q' || c == 'Q' {
        QUEEN
    } else if c == 'k' || c == 'K' {
        KING
    } else {
        EMPTY
    }
}

/// Reads the placement field (see `scan`).
pub fn place_pieces(w: &Vec<char>) -> (r: PlacementResult)
    ensures
        match r {
            PlacementResult::Placed(sq, king) => {
                &&& scan(w@) == (Placement::Placed { sq: sq@, king: king@ })
                &&& squares_valid(sq@)
                &&& king@[0] <= 64
                &&& king@[1] <= 64
            },
            PlacementResult::BadPiece(c) => scan(w@) == Placement::BadPiece(c),
            PlacementResult::BadBoard => scan(w@) == Placement::BadBoard,
            PlacementResult::Overflow => scan(w@) == Placement::Overflow,
        },
{
    let mut r: i8 = 7;
    let mut f: i8 = 0;
    let mut sq: [u8; 64] = [0u8; 64];
    let mut king: [u8; 2] = [64u8, 64u8];
    let mut i: usize = 0;
    assert(sq@ =~= empty_squares());
    assert(king@ =~= seq![64u8, 64u8]);
    while i < w.len()
        invariant
            i <= w@.len(),
            -128 <= r <= 7,
            0 <= f,
            sq@.len() == 64,
            king@.len() == 2,
            squares_valid(sq@),
            king@[0] <= 64,
            king@[1] <= 64,
            scan_from(w@, i as int, r as int, f as int, sq@, king@) == scan(w@),
        decreases w@.len() - i,
    {
        let c = w[i];
        if c == '/' {
            if r == -128 {
                return PlacementResult::Overflow;
            }
            r = r - 1;
            f = 0;
        } else if '1' <= c && c <= '8' {
            let d = ((c as u32) - 48) as i8;
            if f as i32 + d as i32 > 127 {
                return PlacementResult::Overflow;
            }
            f = f + d;
        } else {
            let t = letter_type_of(c);
            if t == EMPTY {
                return PlacementResult::BadPiece(c);
            }
            if r < 0 || f > 7 {
                return PlacementResult::BadBoard;
            }
            let color: u8 = if 'A' <= c && c <= 'Z' {
                WHITE
            } else {
                BLACK
            };
            let s = (r * 8 + f) as usize;
            let p = make_piece(color, t);
            let ghost old_sq = sq@;
            sq[s] = p;
            proof {
                assert(valid_piece(p));
                assert forall|k: int| 0 <= k < 64 implies #[trigger] valid_piece(sq@[k]) by {
                    if k != s {
                        assert(sq@[k] == old_sq[k]);
                    }
                }
            }
            if t == KING {
                king[color as usize] = s as u8;
            }
            f = f + 1;
        }
        i = i + 1;
    }
    PlacementResult::Placed(sq, king)
}

/// The castling rights named by the castling field (see `castle_rights`).
pub fn read_castling(w: &Vec<char>) -> (r: u8)
    ensures
        r == castle_rights(w@, w@.len() as int),
        r <= 15,
{
    let mut c: u8 = 0;
    let mut i: usize = 0;
    while i < w.len()
        invariant
            i <= w@.len(),
            c == castle_rights(w@, i as int),
            c <= 15,
        decreases w@.len() - i,
    {
        let ch = w[i];
        let bit: u8 = if ch == 'K' {
            1
        } else if ch == 'Q' {
            2
        } else if ch == 'k' {
            4
        } else if ch == 'q' {
            8
        } else {
            0
        };
        proof {
            crate::bits::lemma_u8_or(c, bit);
        }
        c = c | bit;
        i = i + 1;
    }
    c
}

/// The en-passant field (see `ep_field`).
pub fn read_ep(w: &Vec<char>) -> (r: Option<Option<u8>>)
    ensures
        r == ep_field(w@),
{
    if w.len() == 1 && w[0] == '-' {
        assert(w@ =~= seq!['-']);
        return Some(None);
    }
    assert(!(w@ =~= seq!['-']));
    if w.len() < 2 {
        return None;
    }
    let c0 = w[0];
    let c1 = w[1];
    let a = c0 as u32;
    let d = c1 as u32;
    if a < 128 && d < 128 && 97 <= a && 49 <= d && (d - 49) * 8 < 256 && (a - 97) + 8 * (d - 49)
        < 256 {
        Some(Some(((a - 97) + 8 * (d - 49)) as u8))
    } else {
        None
    }
}

impl Board {
    /// Reads FEN text (see `parse_fen`); `None` exactly where reading it
    /// would panic.
    pub fn from_fen_checked(fen: &str) -> (r: Option<Result<Board, String>>)
        ensures
            match r {
                None => parse_fen(fen@) is Panics,
                Some(Ok(b)) => b.wf() && parse_fen(fen@) == FenParse::Parsed(b@),
                Some(Err(e)) => parse_fen(fen@) == FenParse::Error(e@),
            },
    {
        let cs = chars_of(fen);
        let parts = split_words(&cs);
        proof {
            assert(cs@ == fen@);
        }
        if parts.len() < 4 {
            let mut e = String::from_str("bad fen: ");
            e.append(fen);
            return Some(Err(e));
        }
        assert(parts@[0]@ == words(fen@)[0]);
        let placed = place_pieces(&parts[0]);
        let (sq, king) = match placed {
            PlacementResult::Placed(sq, king) => (sq, king),
            PlacementResult::BadPiece(c) => {
                let mut e = String::from_str("bad piece ");
                crate::text::push_char(&mut e, c);
                return Some(Err(e));
            },
            PlacementResult::BadBoard => {
                let mut e = String::from_str("bad fen board: ");
                e.append(fen);
                return Some(Err(e));
            },
            PlacementResult::Overflow => {
                return None;
            },
        };
        assert(parts@[1]@ == words(fen@)[1]);
        assert(parts@[2]@ == words(fen@)[2]);
        assert(parts@[3]@ == words(fen@)[3]);
        let stm: u8 = if parts[1].len() == 1 && parts[1][0] == 'b' {
            assert(parts@[1]@ =~= seq!['b']);
            BLACK
        } else {
            assert(!(parts@[1]@ =~= seq!['b']));
            WHITE
        };
        let castling = read_castling(&parts[2]);
        let ep = match read_ep(&parts[3]) {
            Some(ep) => ep,
            None => {
                return None;
            },
        };
        let mut halfmove: u16 = 0;
        if parts.len() > 4 {
            assert(parts@[4]@ == words(fen@)[4]);
            halfmove = match parse_u16(&parts[4]) {
                Some(v) => v,
                None => 0,
            };
        }
        let mut fullmove: u16 = 1;
        if parts.len() > 5 {
            assert(parts@[5]@ == words(fen@)[5]);
            fullmove = match parse_u16(&parts[5]) {
                Some(v) => v,
                None => 1,
            };
        }
        let mut b = Board {
            sq,
            stm,
            castling,
            ep,
            halfmove,
            fullmove,
            key: 0,
            occ: [0u64; 2],
            pieces: [0u64; 7],
            king,
        };
        b.occ = b.compute_occ();
        b.pieces = b.compute_pieces();
        b.key = b.compute_key();
        Some(Ok(b))
    }

    /// Reads FEN text (see `parse_fen`), for text that does not make the
    /// reading panic.
    pub fn from_fen(fen: &str) -> (r: Result<Board, String>)
        requires
            !(parse_fen(fen@) is Panics),
        ensures
            match r {
                Ok(b) => b.wf() && parse_fen(fen@) == FenParse::Parsed(b@),
                Err(e) => parse_fen(fen@) == FenParse::Error(e@),
            },
    {
        match Board::from_fen_checked(fen) {
            Some(r) => r,
            None => {
                assert(false);
                Err(String::new())
            },
        }
    }
}

/// FEN letter of a piece code: by type p n b r q, any other type k;
/// capital for white.
pub open spec fn piece_char(p: u8) -> char {
    let white = pc(p) == WHITE as int;
    if pt(p) == PAWN as int {
        if white { 'P' } else { 'p' }
    } else if pt(p) == KNIGHT as int {
        if white { 'N' } else { 'n' }
    } else if pt(p) == BISHOP as int {
        if white { 'B' } else { 'b' }
    } else if pt(p) == ROOK as int {
        if white { 'R' } else { 'r' }
    } else if pt(p) == QUEEN as int {
        if white { 'Q' } else { 'q' }
    } else {
        if white { 'K' } else { 'k' }
    }
}

/// The digit for a run of `e` empty squares, if any.
pub open spec fn run(e: int) -> Seq<char> {
    if e > 0 {
        seq![crate::text::digit_char(e)]
    } else {
        seq![]
    }
}

/// Text for files a.. of rank `r` up to file `n`, and the number of empty
/// squares at its end not yet written.
pub open spec fn rank_prefix(sq: Seq<u8>, r: int, n: int) -> (Seq<char>, int)
    decreases n,
{
    if n <= 0 {
        (seq![], 0)
    } else {
        let (t, e) = rank_prefix(sq, r, n - 1);
        let p = sq[r * 8 + n - 1];
        if p == EMPTY {
            (t, e + 1)
        } else {
            (t + run(e) + seq![piece_char(p)], 0)
        }
    }
}

/// Text of rank `r`: pieces by letter, runs of empty squares by their count.
pub open spec fn rank_text(sq: Seq<u8>, r: int) -> Seq<char> {
    rank_prefix(sq, r, 8).0 + run(rank_prefix(sq, r, 8).1)
}

/// Text of the `k` ranks from rank 8 down, each but rank 1 followed by `/`.
pub open spec fn placement_text(sq: Seq<u8>, k: int) -> Seq<char>
    decreases k,
{
    if k <= 0 {
        seq![]
    } else {
        placement_text(sq, k - 1) + rank_text(sq, 8 - k) + if 8 - k > 0 {
            seq!['/']
        } else {
            seq![]
        }
    }
}

/// Letters of the castling rights present, in the order K Q k q.
pub open spec fn castle_letters(c: u8) -> Seq<char> {
    (if c & 1 != 0 { seq!['K'] } else { seq![] }) + (if c & 2 != 0 { seq!['Q'] } else { seq![] })
        + (if c & 4 != 0 { seq!['k'] } else { seq![] }) + (if c & 8 != 0 {
        seq!['q']
    } else {
        seq![]
    })
}

/// Text of an en-passant square: file letter and rank digit, or `-`.
pub open spec fn ep_text(ep: Option<u8>) -> Seq<char> {
    match ep {
        Some(e) => crate::movetext::square_text(e),
        None => seq!['-'],
    }
}

/// The FEN text of a position, given the text of its castling field.
pub open spec fn fen_with(pos: Position, castle: Seq<char>) -> Seq<char> {
    placement_text(pos.sq, 8) + seq![' '] + (if pos.stm == WHITE {
        seq!['w']
    } else {
        seq!['b']
    }) + seq![' '] + castle + seq![' '] + ep_text(pos.ep) + seq![' '] + crate::text::decimal(
        pos.halfmove as nat,
    ) + seq![' '] + crate::text::decimal(pos.fullmove as nat)
}

/// FEN text as `fen` writes it: castling `-` when no right bit is set at all.
pub open spec fn fen_text(pos: Position) -> Seq<char> {
    fen_with(pos, if pos.castling == 0 { seq!['-'] } else { castle_letters(pos.castling) })
}

/// FEN text as `to_fen` writes it: castling `-` when none of K Q k q is present.
pub open spec fn to_fen_text(pos: Position) -> Seq<char> {
    fen_with(
        pos,
        if castle_letters(pos.castling).len() == 0 {
            seq!['-']
        } else {
            castle_letters(pos.castling)
        },
    )
}

/// FEN letter of piece `p` (see `piece_char`).
pub fn piece_letter(p: u8) -> (ch: char)
    ensures
        ch == piece_char(p),
{
    let t = crate::board::ptype(p);
    let white = crate::board::pcolor(p) == WHITE;
    if t == PAWN {
        if white { 'P' } else { 'p' }
    } else if t == KNIGHT {
        if white { 'N' } else { 'n' }
    } else if t == BISHOP {
        if white { 'B' } else { 'b' }
    } else if t == ROOK {
        if white { 'R' } else { 'r' }
    } else if t == QUEEN {
        if white { 'Q' } else { 'q' }
    } else {
        if white { 'K' } else { 'k' }
    }
}

/// Appends the digit for a run of `e` empty squares, if any.
fn push_run(s: &mut String, e: u8)
    requires
        e <= 8,
    ensures
        final(s)@ == old(s)@ + run(e as int),
{
    if e > 0 {
        crate::text::push_char(s, (48u8 + e) as char);
    }
    assert(final(s)@ =~= old(s)@ + run(e as int));
}

/// Appends the text of rank `r` (see `rank_text`).
fn push_rank(s: &mut String, sq: &[u8; 64], r: usize)
    requires
        r < 8,
    ensures
        final(s)@ == old(s)@ + rank_text(sq@, r as int),
{
    let mut empty: u8 = 0;
    let mut f: usize = 0;
    while f < 8
        invariant
            f <= 8,
            r < 8,
            empty <= f,
            (empty as int) == rank_prefix(sq@, r as int, f as int).1,
            s@ == old(s)@ + rank_prefix(sq@, r as int, f as int).0,
        decreases 8 - f,
    {
        let p = sq[r * 8 + f];
        if p == EMPTY {
            empty = empty + 1;
        } else {
            let ghost before = s@;
            push_run(s, empty);
            empty = 0;
            crate::text::push_char(s, piece_letter(p));
            assert(s@ =~= before + run(rank_prefix(sq@, r as int, f as int).1) + seq![piece_char(p)]);
        }
        f = f + 1;
    }
    push_run(s, empty);
    assert(s@ =~= old(s)@ + rank_text(sq@, r as int));
}

impl Board {
    /// Appends the placement field.
    fn push_placement(&self, s: &mut String)
        ensures
            final(s)@ == old(s)@ + placement_text(self.sq@, 8),
    {
        let mut k: usize = 0;
        while k < 8
            invariant
                k <= 8,
                s@ == old(s)@ + placement_text(self.sq@, k as int),
            decreases 8 - k,
        {
            let r = 7 - k;
            push_rank(s, &self.sq, r);
            if r > 0 {
                crate::text::push_char(s, '/');
            }
            k = k + 1;
            assert(s@ =~= old(s)@ + placement_text(self.sq@, k as int));
        }
    }

    /// Appends the fields after the placement, given the castling field.
    fn push_tail(&self, s: &mut String, castle: &String)
        ensures
            final(s)@ == old(s)@ + (fen_with(self@, castle@).subrange(
                placement_text(self.sq@, 8).len() as int,
                fen_with(self@, castle@).len() as int,
            )),
    {
        let ghost s0 = s@;
        crate::text::push_char(s, ' ');
        crate::text::push_char(s, if self.stm == WHITE { 'w' } else { 'b' });
        crate::text::push_char(s, ' ');
        s.append(castle.as_str());
        crate::text::push_char(s, ' ');
        match self.ep {
            Some(e) => crate::movetext::push_square(s, e),
            None => crate::text::push_char(s, '-'),
        }
        crate::text::push_char(s, ' ');
        crate::text::push_decimal(s, self.halfmove);
        crate::text::push_char(s, ' ');
        crate::text::push_decimal(s, self.fullmove);
        let ghost full = fen_with(self@, castle@);
        let ghost head = placement_text(self.sq@, 8);
        assert(full.subrange(head.len() as int, full.len() as int) =~= s@.subrange(
            s0.len() as int,
            s@.len() as int,
        ));
        assert(s@ =~= s0 + full.subrange(head.len() as int, full.len() as int));
    }

    /// The letters of the castling rights present, K Q k q in this order.
    fn castle_string(&self) -> (c: String)
        ensures
            c@ == castle_letters(self.castling),
    {
        let mut c = String::new();
        let x = self.castling;
        if x & 1 != 0 {
            crate::text::push_char(&mut c, 'K');
        }
        if x & 2 != 0 {
            crate::text::push_char(&mut c, 'Q');
        }
        if x & 4 != 0 {
            crate::text::push_char(&mut c, 'k');
        }
        if x & 8 != 0 {
            crate::text::push_char(&mut c, 'q');
        }
        assert(c@ =~= castle_letters(x));
        c
    }

    /// FEN text of the board (see `fen_text`).
    pub fn fen(&self) -> (s: String)
        ensures
            s@ == fen_text(self@),
    {
        let mut s = String::new();
        self.push_placement(&mut s);
        let castle = if self.castling == 0 {
            let mut c = String::new();
            crate::text::push_char(&mut c, '-');
            c
        } else {
            self.castle_string()
        };
        proof {
            assert(castle@ =~= if self.castling == 0 {
                seq!['-']
            } else {
                castle_letters(self.castling)
            });
        }
        self.push_tail(&mut s, &castle);
        proof {
            let full = fen_with(self@, castle@);
            let head = placement_text(self.sq@, 8);
            assert(full.subrange(0, head.len() as int) =~= head);
            assert(full =~= head + full.subrange(head.len() as int, full.len() as int));
        }
        s
    }

    /// FEN text of the board (see `to_fen_text`); written back, `from_fen`
    /// reads the same position.
    pub fn to_fen(&self) -> (s: String)
        ensures
            s@ == to_fen_text(self@),
    {
        let mut s = String::new();
        self.push_placement(&mut s);
        let mut castle = self.castle_string();
        if castle.unicode_len() == 0 {
            crate::text::push_char(&mut castle, '-');
        }
        proof {
            assert(castle@ =~= if castle_letters(self.castling).len() == 0 {
                seq!['-']
            } else {
                castle_letters(self.castling)
            });
        }
        self.push_tail(&mut s, &castle);
        proof {
            let full = fen_with(self@, castle@);
            let head = placement_text(self.sq@, 8);
            assert(full.subrange(0, head.len() as int) =~= head);
            assert(full =~= head + full.subrange(head.len() as int, full.len() as int));
        }
        s
    }
}

/// Squares of the initial position.
pub open spec fn start_squares() -> Seq<u8> {
    seq![
        4u8, 2u8, 3u8, 5u8, 6u8, 3u8, 2u8, 4u8,
        1u8, 1u8, 1u8, 1u8, 1u8, 1u8, 1u8, 1u8,
        0u8, 0u8, 0u8, 0u8, 0u8, 0u8, 0u8, 0u8,
        0u8, 0u8, 0u8, 0u8, 0u8, 0u8, 0u8, 0u8,
        0u8, 0u8, 0u8, 0u8, 0u8, 0u8, 0u8, 0u8,
        0u8, 0u8, 0u8, 0u8, 0u8, 0u8, 0u8, 0u8,
        9u8, 9u8, 9u8, 9u8, 9u8, 9u8, 9u8, 9u8,
        12u8, 10u8, 11u8, 13u8, 14u8, 11u8, 10u8, 12u8,
    ]
}

/// The initial position: white to move, all castling rights, no
/// en-passant square, counters 0 and 1, kings on e1 and e8.
pub open spec fn start_position() -> Position {
    Position {
        sq: start_squares(),
        stm: WHITE,
        castling: 15,
        ep: None,
        halfmove: 0,
        fullmove: 1,
        king: seq![4u8, 60u8],
    }
}

impl Board {
    /// The initial position.
    pub fn startpos() -> (b: Board)
        ensures
            b.wf(),
            b@ == start_position(),
    {
        let sq: [u8; 64] = [
            4, 2, 3, 5, 6, 3, 2, 4,
        1, 1, 1, 1, 1, 1, 1, 1,
        0, 0, 0, 0, 0, 0, 0, 0,
        0, 0, 0, 0, 0, 0, 0, 0,
        0, 0, 0, 0, 0, 0, 0, 0,
        0, 0, 0, 0, 0, 0, 0, 0,
        9, 9, 9, 9, 9, 9, 9, 9,
        12, 10, 11, 13, 14, 11, 10, 12,
        ];
        assert(sq@ =~= start_squares());
        assert(squares_valid(sq@));
        let mut b = Board {
            sq,
            stm: WHITE,
            castling: 15,
            ep: None,
            halfmove: 0,
            fullmove: 1,
            key: 0,
            occ: [0u64; 2],
            pieces: [0u64; 7],
            king: [4u8, 60u8],
        };
        b.occ = b.compute_occ();
        b.pieces = b.compute_pieces();
        b.key = b.compute_key();
        assert(b.king@ =~= seq![4u8, 60u8]);
        b
    }
}

} // verus!
