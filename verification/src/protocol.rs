//! Pieces of the UCI protocol: the numeric arguments of `go`, and scores
//! in the `cp` / `mate` form of `info` lines.

use vstd::prelude::*;
use crate::text::{digits_value, all_digits, decimal, digit_char, push_char};
use crate::eval::{MATE, MATE_THRESHOLD};

verus! {

/// The digits of `cs`: without one leading sign.
pub open spec fn signed_digits(cs: Seq<char>) -> Seq<char> {
    if cs.len() > 0 && (cs[0] == '+' || cs[0] == '-') {
        cs.subrange(1, cs.len() as int)
    } else {
        cs
    }
}

/// `i64::from_str`: an optional sign, then one or more ASCII digits, of a
/// value that fits.
pub open spec fn parse_i64_spec(cs: Seq<char>) -> Option<i64> {
    let ds = signed_digits(cs);
    let v = digits_value(ds, ds.len() as int);
    if ds.len() == 0 || !all_digits(ds) {
        None
    } else if cs[0] == '-' {
        if v <= 0x8000_0000_0000_0000 {
            Some((-v) as i64)
        } else {
            None
        }
    } else if v <= 0x7fff_ffff_ffff_ffff {
        Some(v as i64)
    } else {
        None
    }
}

proof fn lemma_digits_grow(cs: Seq<char>, k: int, n: int)
    requires
        0 <= k <= n <= cs.len(),
        all_digits(cs),
    ensures
        0 <= digits_value(cs, k) <= digits_value(cs, n),
    decreases n,
{
    if n > 0 {
        if k < n {
            lemma_digits_grow(cs, k, n - 1);
        } else {
            lemma_digits_grow(cs, n - 1, n - 1);
        }
        assert('0' <= cs[n - 1] <= '9');
    }
}

/// Parses a signed 64-bit decimal (see `parse_i64_spec`).
pub fn parse_i64(cs: &Vec<char>) -> (r: Option<i64>)
    ensures
        r == parse_i64_spec(cs@),
{
    let n = cs.len();
    if n == 0 {
        return None;
    }
    let neg = cs[0] == '-';
    let start: usize = if cs[0] == '+' || cs[0] == '-' { 1 } else { 0 };
    let ghost ds = signed_digits(cs@);
    assert(ds =~= cs@.subrange(start as int, n as int));
    if start == n {
        return None;
    }
    let limit: u128 = if neg { 0x8000_0000_0000_0000 } else { 0x7fff_ffff_ffff_ffff };
    let mut v: u128 = 0;
    let mut i: usize = start;
    while i < n
        invariant
            start <= i <= n,
            start < n,
            n == cs@.len(),
            ds == cs@.subrange(start as int, n as int),
            ds == signed_digits(cs@),
            all_digits(ds.subrange(0, i - start)),
            v as int == digits_value(ds, i - start),
            v <= limit,
            neg == (cs@[0] == '-'),
            limit == (if neg { 0x8000_0000_0000_0000u128 } else { 0x7fff_ffff_ffff_ffffu128 }),
        decreases n - i,
    {
        let c = cs[i];
        if !('0' <= c && c <= '9') {
            assert(!all_digits(ds)) by {
                assert(ds[i - start] == c);
            }
            return None;
        }
        let d = ((c as u32) - ('0' as u32)) as u128;
        assert(digits_value(ds, i - start + 1) == v * 10 + d);
        if v * 10 + d > limit {
            proof {
                if all_digits(ds) {
                    lemma_digits_grow(ds, i - start + 1, ds.len() as int);
                    assert(digits_value(ds, ds.len() as int) > limit);
                    assert(ds.len() > 0);
                    if neg {
                        assert(cs@[0] == '-');
                    } else {
                        assert(cs@[0] != '-');
                    }
                }
            }
            return None;
        }
        proof {
            assert forall|j: int| 0 <= j < i + 1 - start implies '0' <= #[trigger] ds.subrange(
                0,
                i + 1 - start,
            )[j] <= '9' by {
                if j < i - start {
                    assert(ds.subrange(0, i + 1 - start)[j] == ds.subrange(0, i - start)[j]);
                }
            }
        }
        v = v * 10 + d;
        i = i + 1;
    }
    assert(ds.subrange(0, n - start) =~= ds);
    if neg {
        if v == 0x8000_0000_0000_0000 {
            Some(i64::MIN)
        } else {
            Some(-(v as i64))
        }
    } else {
        Some(v as i64)
    }
}

/// The numeric arguments of `go` that the engine reads.
#[derive(Clone, Copy, PartialEq, Eq, Debug, Structural)]
pub struct GoArgs {
    pub depth: Option<i64>,
    pub movetime: Option<i64>,
    pub wtime: Option<i64>,
    pub btime: Option<i64>,
    pub winc: Option<i64>,
    pub binc: Option<i64>,
    pub movestogo: Option<i64>,
    pub nodes: Option<i64>,
}

/// The argument a token names: depth 0, movetime 1, wtime 2, btime 3,
/// winc 4, binc 5, movestogo 6, nodes 7.
pub open spec fn arg_key(t: Seq<char>) -> Option<int> {
    if t == seq!['d', 'e', 'p', 't', 'h'] {
        Some(0)
    } else if t == seq!['m', 'o', 'v', 'e', 't', 'i', 'm', 'e'] {
        Some(1)
    } else if t == seq!['w', 't', 'i', 'm', 'e'] {
        Some(2)
    } else if t == seq!['b', 't', 'i', 'm', 'e'] {
        Some(3)
    } else if t == seq!['w', 'i', 'n', 'c'] {
        Some(4)
    } else if t == seq!['b', 'i', 'n', 'c'] {
        Some(5)
    } else if t == seq!['m', 'o', 'v', 'e', 's', 't', 'o', 'g', 'o'] {
        Some(6)
    } else if t == seq!['n', 'o', 'd', 'e', 's'] {
        Some(7)
    } else {
        None
    }
}

/// `g` with argument `k` set to `v`.
pub open spec fn with_arg(g: GoArgs, k: int, v: i64) -> GoArgs {
    if k == 0 {
        GoArgs { depth: Some(v), ..g }
    } else if k == 1 {
        GoArgs { movetime: Some(v), ..g }
    } else if k == 2 {
        GoArgs { wtime: Some(v), ..g }
    } else if k == 3 {
        GoArgs { btime: Some(v), ..g }
    } else if k == 4 {
        GoArgs { winc: Some(v), ..g }
    } else if k == 5 {
        GoArgs { binc: Some(v), ..g }
    } else if k == 6 {
        GoArgs { movestogo: Some(v), ..g }
    } else {
        GoArgs { nodes: Some(v), ..g }
    }
}

/// Reads the tokens from `i` on: a token naming an argument takes the next
/// token as its value when it reads as a number (a later value replaces an
/// earlier one; a value that does not read is passed over); any other
/// token is passed over.
pub open spec fn go_from(ts: Seq<Seq<char>>, i: int, g: GoArgs) -> GoArgs
    decreases ts.len() - i,
{
    if i >= ts.len() {
        g
    } else {
        match arg_key(ts[i]) {
            Some(k) => if i + 1 < ts.len() {
                match parse_i64_spec(ts[i + 1]) {
                    Some(v) => go_from(ts, i + 2, with_arg(g, k, v)),
                    None => go_from(ts, i + 2, g),
                }
            } else {
                g
            },
            None => go_from(ts, i + 1, g),
        }
    }
}

/// No argument given.
pub open spec fn no_args() -> GoArgs {
    GoArgs {
        depth: None,
        movetime: None,
        wtime: None,
        btime: None,
        winc: None,
        binc: None,
        movestogo: None,
        nodes: None,
    }
}

/// The argument a token names (see `arg_key`).
fn token_key(t: &Vec<char>) -> (r: Option<u8>)
    ensures
        match r {
            Some(k) => arg_key(t@) == Some(k as int),
            None => arg_key(t@) is None,
        },
{
    let n = t.len();
    if n == 5 && t[0] == 'd' && t[1] == 'e' && t[2] == 'p' && t[3] == 't' && t[4] == 'h' {
        assert(t@ =~= seq!['d', 'e', 'p', 't', 'h']);
        return Some(0);
    }
    if n == 8 && t[0] == 'm' && t[1] == 'o' && t[2] == 'v' && t[3] == 'e' && t[4] == 't' && t[5] == 'i'
        && t[6] == 'm' && t[7] == 'e' {
        assert(t@ =~= seq!['m', 'o', 'v', 'e', 't', 'i', 'm', 'e']);
        return Some(1);
    }
    if n == 5 && t[0] == 'w' && t[1] == 't' && t[2] == 'i' && t[3] == 'm' && t[4] == 'e' {
        assert(t@ =~= seq!['w', 't', 'i', 'm', 'e']);
        return Some(2);
    }
    if n == 5 && t[0] == 'b' && t[1] == 't' && t[2] == 'i' && t[3] == 'm' && t[4] == 'e' {
        assert(t@ =~= seq!['b', 't', 'i', 'm', 'e']);
        return Some(3);
    }
    if n == 4 && t[0] == 'w' && t[1] == 'i' && t[2] == 'n' && t[3] == 'c' {
        assert(t@ =~= seq!['w', 'i', 'n', 'c']);
        return Some(4);
    }
    if n == 4 && t[0] == 'b' && t[1] == 'i' && t[2] == 'n' && t[3] == 'c' {
        assert(t@ =~= seq!['b', 'i', 'n', 'c']);
        return Some(5);
    }
    if n == 9 && t[0] == 'm' && t[1] == 'o' && t[2] == 'v' && t[3] == 'e' && t[4] == 's' && t[5] == 't'
        && t[6] == 'o' && t[7] == 'g' && t[8] == 'o' {
        assert(t@ =~= seq!['m', 'o', 'v', 'e', 's', 't', 'o', 'g', 'o']);
        return Some(6);
    }
    if n == 5 && t[0] == 'n' && t[1] == 'o' && t[2] == 'd' && t[3] == 'e' && t[4] == 's' {
        assert(t@ =~= seq!['n', 'o', 'd', 'e', 's']);
        return Some(7);
    }
    proof {
        if t@ == seq!['d', 'e', 'p', 't', 'h'] {
            assert(t@[0] == 'd');
        }
        if t@ == seq!['m', 'o', 'v', 'e', 't', 'i', 'm', 'e'] {
            assert(t@[0] == 'm');
        }
        if t@ == seq!['w', 't', 'i', 'm', 'e'] {
            assert(t@[0] == 'w');
        }
        if t@ == seq!['b', 't', 'i', 'm', 'e'] {
            assert(t@[0] == 'b');
        }
        if t@ == seq!['w', 'i', 'n', 'c'] {
            assert(t@[0] == 'w');
        }
        if t@ == seq!['b', 'i', 'n', 'c'] {
            assert(t@[0] == 'b');
        }
        if t@ == seq!['m', 'o', 'v', 'e', 's', 't', 'o', 'g', 'o'] {
            assert(t@[0] == 'm');
        }
        if t@ == seq!['n', 'o', 'd', 'e', 's'] {
            assert(t@[0] == 'n');
        }
    }
    None
}

/// The numeric arguments of a `go` command (its tokens after `go`; see
/// `go_from`).
pub fn parse_go(tokens: &Vec<Vec<char>>) -> (g: GoArgs)
    ensures
        g == go_from(tokens@.map_values(|t: Vec<char>| t@), 0, no_args()),
{
    let ghost ts = tokens@.map_values(|t: Vec<char>| t@);
    let mut g = GoArgs {
        depth: None,
        movetime: None,
        wtime: None,
        btime: None,
        winc: None,
        binc: None,
        movestogo: None,
        nodes: None,
    };
    let n = tokens.len();
    let mut i: usize = 0;
    while i < n
        invariant
            n == tokens@.len(),
            ts == tokens@.map_values(|t: Vec<char>| t@),
            i <= n,
            go_from(ts, i as int, g) == go_from(ts, 0, no_args()),
        decreases n - i,
    {
        assert(ts[i as int] == tokens[i as int]@);
        match token_key(&tokens[i]) {
            Some(k) => {
                if i + 1 < n {
                    assert(ts[i + 1] == tokens[i + 1]@);
                    match parse_i64(&tokens[i + 1]) {
                        Some(v) => {
                            if k == 0 {
                                g.depth = Some(v);
                            } else if k == 1 {
                                g.movetime = Some(v);
                            } else if k == 2 {
                                g.wtime = Some(v);
                            } else if k == 3 {
                                g.btime = Some(v);
                            } else if k == 4 {
                                g.winc = Some(v);
                            } else if k == 5 {
                                g.binc = Some(v);
                            } else if k == 6 {
                                g.movestogo = Some(v);
                            } else {
                                g.nodes = Some(v);
                            }
                        },
                        None => {},
                    }
                    i = i + 2;
                } else {
                    i = n;
                }
            },
            None => {
                i = i + 1;
            },
        }
    }
    g
}

/// A score as `info` gives it: `mate N` (moves, negative when being mated)
/// for a score of size at least `MATE_THRESHOLD`, `cp X` otherwise.
pub open spec fn score_text(score: int) -> Seq<char> {
    let size = if score < 0 { -score } else { score };
    if size >= MATE_THRESHOLD {
        let plies = MATE - size;
        let mm = if (plies + 1) / 2 > 1 { (plies + 1) / 2 } else { 1 };
        seq!['m', 'a', 't', 'e', ' '] + signed_text(if score > 0 { mm } else { -mm })
    } else {
        seq!['c', 'p', ' '] + signed_text(score)
    }
}

/// Decimal text of an integer, with `-` in front when negative.
pub open spec fn signed_text(v: int) -> Seq<char> {
    if v < 0 {
        seq!['-'] + decimal((-v) as nat)
    } else {
        decimal(v as nat)
    }
}

/// Appends the decimal representation of `n`.
fn push_decimal32(s: &mut String, n: u32)
    ensures
        final(s)@ == old(s)@ + decimal(n as nat),
    decreases n,
{
    if n >= 10 {
        push_decimal32(s, n / 10);
    }
    let d = (n % 10) as u8;
    push_char(s, (48u8 + d) as char);
    proof {
        if n >= 10 {
            assert(decimal(n as nat) == decimal((n / 10) as nat).push(digit_char((n % 10) as int)));
        }
    }
    assert(final(s)@ =~= old(s)@ + decimal(n as nat));
}

/// Appends `v` in decimal, with `-` in front when negative.
fn push_signed(s: &mut String, v: i32)
    requires
        v != i32::MIN,
    ensures
        final(s)@ == old(s)@ + signed_text(v as int),
{
    if v < 0 {
        push_char(s, '-');
        push_decimal32(s, (-v) as u32);
        assert(final(s)@ =~= old(s)@ + signed_text(v as int));
    } else {
        push_decimal32(s, v as u32);
    }
}

/// The score in `info` form (see `score_text`).
pub fn score_string(score: i32) -> (s: String)
    requires
        score != i32::MIN,
    ensures
        s@ == score_text(score as int),
{
    let mut s = String::new();
    let size = if score < 0 { -score } else { score };
    if size >= MATE_THRESHOLD {
        let plies = MATE - size;
        let half = (plies + 1) / 2;
        let mm = if half > 1 { half } else { 1 };
        push_char(&mut s, 'm');
        push_char(&mut s, 'a');
        push_char(&mut s, 't');
        push_char(&mut s, 'e');
        push_char(&mut s, ' ');
        push_signed(&mut s, if score > 0 { mm } else { -mm });
    } else {
        push_char(&mut s, 'c');
        push_char(&mut s, 'p');
        push_char(&mut s, ' ');
        push_signed(&mut s, score);
    }
    assert(s@ =~= score_text(score as int));
    s
}

/// Words joined with single spaces.
pub open spec fn joined(ws: Seq<Seq<char>>) -> Seq<char>
    decreases ws.len(),
{
    if ws.len() == 0 {
        seq![]
    } else if ws.len() == 1 {
        ws[0]
    } else {
        joined(ws.drop_last()) + seq![' '] + ws.last()
    }
}

/// Where a `position` command takes the board from.
#[derive(Clone, Copy, PartialEq, Eq, Debug, Structural)]
pub enum PositionFrom {
    /// No source named: the board stays as it is.
    Keep,
    /// `startpos`.
    Start,
    /// `fen` and up to six FEN fields.
    Fen,
}

/// A `position` command, read: where the board comes from, the FEN text
/// (for `Fen`), and the move texts after `moves`.
pub struct PositionArgs {
    pub from: PositionFrom,
    pub fen: Vec<char>,
    pub moves: Vec<Vec<char>>,
}

/// The position of the token after the source: 1 after `startpos`, 7 (or
/// the end) after `fen` and its fields, 0 without a source.
pub open spec fn after_source(ts: Seq<Seq<char>>) -> int {
    if ts.len() > 0 && ts[0] == seq!['s', 't', 'a', 'r', 't', 'p', 'o', 's'] {
        1
    } else if ts.len() > 0 && ts[0] == seq!['f', 'e', 'n'] {
        if ts.len() < 7 {
            ts.len() as int
        } else {
            7
        }
    } else {
        0
    }
}

/// The source a `position` command names.
pub open spec fn source_of(ts: Seq<Seq<char>>) -> PositionFrom {
    if ts.len() > 0 && ts[0] == seq!['s', 't', 'a', 'r', 't', 'p', 'o', 's'] {
        PositionFrom::Start
    } else if ts.len() > 0 && ts[0] == seq!['f', 'e', 'n'] {
        PositionFrom::Fen
    } else {
        PositionFrom::Keep
    }
}

/// The move texts of a `position` command: the tokens after `moves`, when
/// `moves` follows the source.
pub open spec fn moves_of(ts: Seq<Seq<char>>) -> Seq<Seq<char>> {
    let i = after_source(ts);
    if i < ts.len() && ts[i] == seq!['m', 'o', 'v', 'e', 's'] {
        ts.subrange(i + 1, ts.len() as int)
    } else {
        seq![]
    }
}

/// Is the token the word `w`?
fn is_word(t: &Vec<char>, w: &Vec<char>) -> (r: bool)
    ensures
        r == (t@ == w@),
{
    if t.len() != w.len() {
        return false;
    }
    let mut i: usize = 0;
    while i < t.len()
        invariant
            t@.len() == w@.len(),
            i <= t@.len(),
            forall|j: int| 0 <= j < i ==> t@[j] == w@[j],
        decreases t@.len() - i,
    {
        if t[i] != w[i] {
            return false;
        }
        i = i + 1;
    }
    assert(t@ =~= w@);
    true
}

/// Reads a `position` command (its tokens after `position`).
pub fn parse_position(tokens: &Vec<Vec<char>>) -> (r: PositionArgs)
    ensures
        r.from == source_of(tokens@.map_values(|t: Vec<char>| t@)),
        r.from == PositionFrom::Fen ==> r.fen@ == joined(
            tokens@.map_values(|t: Vec<char>| t@).subrange(1, after_source(tokens@.map_values(|t: Vec<char>| t@))),
        ),
        r.moves@.map_values(|t: Vec<char>| t@) == moves_of(tokens@.map_values(|t: Vec<char>| t@)),
{
    let ghost ts = tokens@.map_values(|t: Vec<char>| t@);
    let startpos: Vec<char> = vec!['s', 't', 'a', 'r', 't', 'p', 'o', 's'];
    let fen_word: Vec<char> = vec!['f', 'e', 'n'];
    let moves_word: Vec<char> = vec!['m', 'o', 'v', 'e', 's'];
    let n = tokens.len();
    let mut from = PositionFrom::Keep;
    let mut fen: Vec<char> = Vec::new();
    let mut i: usize = 0;
    if n > 0 && is_word(&tokens[0], &startpos) {
        assert(ts[0] == tokens@[0]@);
        from = PositionFrom::Start;
        i = 1;
    } else if n > 0 && is_word(&tokens[0], &fen_word) {
        assert(ts[0] == tokens@[0]@);
        from = PositionFrom::Fen;
        let end: usize = if n < 7 { n } else { 7 };
        let mut k: usize = 1;
        while k < end
            invariant
                1 <= k <= end,
                end <= n,
                n == tokens@.len(),
                ts == tokens@.map_values(|t: Vec<char>| t@),
                fen@ == joined(ts.subrange(1, k as int)),
            decreases end - k,
        {
            assert(ts.subrange(1, k as int + 1).drop_last() =~= ts.subrange(1, k as int));
            assert(ts[k as int] == tokens@[k as int]@);
            if k > 1 {
                fen.push(' ');
            }
            let mut c: usize = 0;
            let ghost base = fen@;
            while c < tokens[k].len()
                invariant
                    k < n,
                    n == tokens@.len(),
                    c <= tokens@[k as int]@.len(),
                    fen@ == base + tokens@[k as int]@.subrange(0, c as int),
                decreases tokens@[k as int]@.len() - c,
            {
                fen.push(tokens[k][c]);
                c = c + 1;
                assert(fen@ =~= base + tokens@[k as int]@.subrange(0, c as int));
            }
            assert(tokens@[k as int]@.subrange(0, c as int) =~= tokens@[k as int]@);
            proof {
                if k > 1 {
                    assert(fen@ =~= joined(ts.subrange(1, k as int)) + seq![' '] + ts[k as int]);
                } else {
                    assert(ts.subrange(1, 2) =~= seq![ts[1]]);
                    assert(fen@ =~= ts[1]);
                }
            }
            k = k + 1;
        }
        i = end;
    } else {
        proof {
            if n > 0 {
                assert(ts[0] == tokens@[0]@);
            }
        }
    }
    assert(i as int == after_source(ts));
    let mut moves: Vec<Vec<char>> = Vec::new();
    if i < n && is_word(&tokens[i], &moves_word) {
        assert(ts[i as int] == tokens@[i as int]@);
        let mut k: usize = i + 1;
        while k < n
            invariant
                i < n,
                i + 1 <= k <= n,
                n == tokens@.len(),
                ts == tokens@.map_values(|t: Vec<char>| t@),
                moves@.map_values(|t: Vec<char>| t@) == ts.subrange(i + 1, k as int),
            decreases n - k,
        {
            let w = tokens[k].clone();
            assert(w@ == tokens@[k as int]@);
            let ghost before = moves@;
            moves.push(w);
            assert(moves@.map_values(|t: Vec<char>| t@) =~= before.map_values(|t: Vec<char>| t@).push(tokens@[k as int]@));
            assert(ts.subrange(i + 1, k as int + 1) =~= ts.subrange(i + 1, k as int).push(ts[k as int]));
            k = k + 1;
        }
    } else {
        proof {
            if i < n {
                assert(ts[i as int] == tokens@[i as int]@);
            }
        }
        assert(moves@.map_values(|t: Vec<char>| t@) =~= Seq::<Seq<char>>::empty());
    }
    PositionArgs { from, fen, moves }
}

} // verus!
