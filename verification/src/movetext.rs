//! Moves in UCI long algebraic notation: from-square, to-square and an
//! optional promotion letter, such as `e2e4` or `e7e8q`.

use vstd::prelude::*;
use crate::board::{Move, KNIGHT, BISHOP, ROOK, QUEEN};
use crate::text::push_char;
use vstd::string::StringSliceAdditionalSpecFns;

verus! {

/// Text of square `s`: file letter (a + s % 8) and rank digit (1 + s / 8).
pub open spec fn square_text(s: u8) -> Seq<char> {
    seq![(97 + s % 8) as char, (49 + s / 8) as char]
}

/// The square named by a file byte `a`..`h` and a rank byte `1`..`8`.
pub open spec fn uci_square(f: u8, r: u8) -> Option<u8> {
    if 97 <= f <= 104 && 49 <= r <= 56 {
        Some(((f - 97) + 8 * (r - 49)) as u8)
    } else {
        None
    }
}

/// Promotion type named by the fifth byte, if any: n b r q; 0 otherwise.
pub open spec fn uci_promo(b: Seq<u8>) -> u8 {
    if b.len() > 4 {
        if b[4] == 110 {
            KNIGHT
        } else if b[4] == 98 {
            BISHOP
        } else if b[4] == 114 {
            ROOK
        } else if b[4] == 113 {
            QUEEN
        } else {
            0
        }
    } else {
        0
    }
}

/// The move written by the bytes `b`: two squares in the first four bytes,
/// then an optional promotion letter; anything after is ignored.
pub open spec fn parse_uci(b: Seq<u8>) -> Option<Move> {
    if b.len() < 4 {
        None
    } else {
        match (uci_square(b[0], b[1]), uci_square(b[2], b[3])) {
            (Some(from), Some(to)) => Some(Move { from, to, promo: uci_promo(b) }),
            _ => None,
        }
    }
}

/// Letter of a promotion type, none for any other value.
pub open spec fn promo_text(p: u8) -> Seq<char> {
    if p == KNIGHT {
        seq!['n']
    } else if p == BISHOP {
        seq!['b']
    } else if p == ROOK {
        seq!['r']
    } else if p == QUEEN {
        seq!['q']
    } else {
        seq![]
    }
}

/// UCI text of a move.
pub open spec fn uci_text(m: Move) -> Seq<char> {
    square_text(m.from) + square_text(m.to) + promo_text(m.promo)
}

fn square_of(f: u8, r: u8) -> (s: Option<u8>)
    ensures
        s == uci_square(f, r),
{
    if 97 <= f && f <= 104 && 49 <= r && r <= 56 {
        Some((f - 97) + 8 * (r - 49))
    } else {
        None
    }
}

/// Appends the text of square `s`.
pub fn push_square(out: &mut String, s: u8)
    ensures
        final(out)@ == old(out)@ + square_text(s),
{
    proof {
        crate::bits::lemma_u8_coords(s);
    }
    push_char(out, (97u8 + (s & 7)) as char);
    push_char(out, (49u8 + (s >> 3)) as char);
    assert(final(out)@ =~= old(out)@ + square_text(s));
}

impl Move {
    /// Reads a move in UCI notation (see `parse_uci`).
    pub fn from_uci(s: &str) -> (r: Option<Move>)
        ensures
            r == parse_uci(s.spec_bytes()),
    {
        let b = s.as_bytes();
        if b.len() < 4 {
            return None;
        }
        let promo: u8 = if b.len() > 4 {
            let c = b[4];
            if c == 110 {
                KNIGHT
            } else if c == 98 {
                BISHOP
            } else if c == 114 {
                ROOK
            } else if c == 113 {
                QUEEN
            } else {
                0
            }
        } else {
            0
        };
        let from = match square_of(b[0], b[1]) {
            Some(x) => x,
            None => {
                return None;
            },
        };
        let to = match square_of(b[2], b[3]) {
            Some(x) => x,
            None => {
                return None;
            },
        };
        Some(Move { from, to, promo })
    }

    /// The move in UCI notation (see `uci_text`).
    pub fn uci(&self) -> (s: String)
        ensures
            s@ == uci_text(*self),
    {
        let mut s = String::new();
        push_square(&mut s, self.from);
        push_square(&mut s, self.to);
        let p = self.promo;
        if p == KNIGHT {
            push_char(&mut s, 'n');
        } else if p == BISHOP {
            push_char(&mut s, 'b');
        } else if p == ROOK {
            push_char(&mut s, 'r');
        } else if p == QUEEN {
            push_char(&mut s, 'q');
        }
        assert(s@ =~= uci_text(*self));
        s
    }
}


/// The bytes of an ASCII text.
pub open spec fn text_bytes(cs: Seq<char>) -> Seq<u8> {
    cs.map_values(|c: char| c as u8)
}

/// Reading the UCI text written for a move gives the move back: its two
/// squares, and its promotion type (none, knight, bishop, rook or queen).
pub proof fn lemma_uci_roundtrip(m: Move)
    requires
        m.from < 64,
        m.to < 64,
        m.promo == 0 || KNIGHT <= m.promo <= QUEEN,
    ensures
        parse_uci(text_bytes(uci_text(m))) == Some(m),
{
    let t = uci_text(m);
    let b = text_bytes(t);
    assert(t.len() == 4 + promo_text(m.promo).len());
    assert(b.len() == t.len());
    assert(b[0] == 97 + m.from % 8 && b[1] == 49 + m.from / 8);
    assert(b[2] == 97 + m.to % 8 && b[3] == 49 + m.to / 8);
    assert(uci_square(b[0], b[1]) == Some(m.from));
    assert(uci_square(b[2], b[3]) == Some(m.to));
    if m.promo == 0 {
        assert(b.len() == 4);
    } else {
        assert(b.len() == 5);
        assert(b[4] == t[4] as u8);
    }
    assert(uci_promo(b) == m.promo);
}

/// Two moves with the same UCI text are the same move.
pub proof fn lemma_uci_text_injective(m1: Move, m2: Move)
    requires
        m1.from < 64 && m1.to < 64 && (m1.promo == 0 || KNIGHT <= m1.promo <= QUEEN),
        m2.from < 64 && m2.to < 64 && (m2.promo == 0 || KNIGHT <= m2.promo <= QUEEN),
        uci_text(m1) == uci_text(m2),
    ensures
        m1 == m2,
{
    lemma_uci_roundtrip(m1);
    lemma_uci_roundtrip(m2);
}

} // verus!
