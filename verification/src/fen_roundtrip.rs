//! Reading back written FEN: the text `fen` writes for a sound position
//! reads back as that very position.

use vstd::prelude::*;
use crate::text::{
    decimal, digit_char, digits_value, all_digits, unsigned_digits, parse_u16_spec, is_ws,
    words, words_from,
};
use crate::fen::{castle_rights, castle_bit, castle_letters, ep_field, ep_text, counter};
use crate::movetext::square_text;
use crate::fen::{
    parse_fen, fen_text, to_fen_text, fen_with, FenParse,
    scan_from, scan, letter_type, letter_color, piece_char, run, rank_prefix, rank_text,
    placement_text, empty_squares, Placement,
};
use crate::board::{Board, Position, EMPTY, KING, WHITE, BLACK, pc, pt, piece, valid_piece, squares_valid};
use crate::attacks::{file, rank};
use crate::makemove::kings_tracked;

verus! {

proof fn lemma_digits_prefix(cs: Seq<char>, x: Seq<char>, n: int)
    requires
        0 <= n <= cs.len(),
    ensures
        digits_value(cs + x, n) == digits_value(cs, n),
    decreases n,
{
    if n > 0 {
        lemma_digits_prefix(cs, x, n - 1);
        assert((cs + x)[n - 1] == cs[n - 1]);
    }
}

/// The decimal text of `n`: digits only, of value `n`.
proof fn lemma_decimal(n: nat)
    ensures
        decimal(n).len() >= 1,
        all_digits(decimal(n)),
        digits_value(decimal(n), decimal(n).len() as int) == n,
        decimal(n)[0] != '+',
    decreases n,
{
    if n >= 10 {
        lemma_decimal(n / 10);
        let ds = decimal(n / 10);
        let d = digit_char((n % 10) as int);
        assert(decimal(n) == ds.push(d));
        assert(ds.push(d) =~= ds + seq![d]);
        lemma_digits_prefix(ds, seq![d], ds.len() as int);
        assert(ds.push(d)[ds.len() as int] == d);
        assert(d as int - '0' as int == n % 10);
        let L = ds.len() as int;
        assert(digits_value(ds.push(d), L + 1) == digits_value(ds.push(d), L) * 10 + (ds.push(d)[L] as int - '0' as int));
        assert(digits_value(ds.push(d), L) == digits_value(ds, L)) by {
            lemma_digits_prefix(ds, seq![d], L);
        }
        assert((n / 10) * 10 + n % 10 == n);
        assert forall|i: int| 0 <= i < ds.push(d).len() implies '0' <= #[trigger] ds.push(d)[i] <= '9' by {
            if i < ds.len() {
                assert(ds.push(d)[i] == ds[i]);
            }
        }
    } else {
        let d = digit_char(n as int);
        assert(decimal(n) == seq![d]);
        assert(d as int - '0' as int == n);
        assert(digits_value(seq![d], 1) == digits_value(seq![d], 0) * 10 + (seq![d][0] as int - '0' as int));
    }
}

/// A written counter reads back.
pub proof fn lemma_counter_roundtrip(n: u16, default: u16)
    ensures
        counter(decimal(n as nat), default) == n,
{
    lemma_decimal(n as nat);
    assert(unsigned_digits(decimal(n as nat)) == decimal(n as nat));
}

/// A written en-passant field reads back.
pub proof fn lemma_ep_roundtrip(ep: Option<u8>)
    ensures
        ep_field(ep_text(ep)) == Some(ep),
{
    match ep {
        Some(e) => {
            let w = square_text(e);
            assert(w.len() == 2);
            assert(!(w =~= seq!['-'])) by {
                assert(w.len() != 1);
            }
            assert(w[0] as u32 as int == 97 + e % 8);
            assert(w[1] as u32 as int == 49 + e / 8);
        },
        None => {
            assert(ep_text(ep) =~= seq!['-']);
        },
    }
}

proof fn lemma_castle_push(cs: Seq<char>, c: char)
    ensures
        castle_rights(cs.push(c), cs.len() as int + 1) == castle_rights(cs, cs.len() as int) | castle_bit(c),
{
    lemma_castle_prefix(cs, seq![c], cs.len() as int);
    assert(cs.push(c) =~= cs + seq![c]);
}

proof fn lemma_castle_prefix(cs: Seq<char>, x: Seq<char>, n: int)
    requires
        0 <= n <= cs.len(),
    ensures
        castle_rights(cs + x, n) == castle_rights(cs, n),
    decreases n,
{
    if n > 0 {
        lemma_castle_prefix(cs, x, n - 1);
        assert((cs + x)[n - 1] == cs[n - 1]);
    }
}

/// A written castling field reads back.
pub proof fn lemma_castle_roundtrip(c: u8)
    requires
        c <= 15,
    ensures
        c == 0 ==> castle_rights(seq!['-'], 1) == c,
        c != 0 ==> castle_rights(castle_letters(c), castle_letters(c).len() as int) == c,
        c != 0 ==> castle_letters(c).len() > 0,
{
    assert(castle_rights(seq!['-'], 1) == castle_rights(seq!['-'], 0) | castle_bit('-'));
    crate::bits::lemma_u8_or(0, 0);
    let l1: Seq<char> = if c & 1 != 0 { seq!['K'] } else { seq![] };
    let l2: Seq<char> = if c & 2 != 0 { seq!['Q'] } else { seq![] };
    let l3: Seq<char> = if c & 4 != 0 { seq!['k'] } else { seq![] };
    let l4: Seq<char> = if c & 8 != 0 { seq!['q'] } else { seq![] };
    let b1: u8 = if c & 1 != 0 { 1 } else { 0 };
    let b2: u8 = if c & 2 != 0 { 2 } else { 0 };
    let b3: u8 = if c & 4 != 0 { 4 } else { 0 };
    let b4: u8 = if c & 8 != 0 { 8 } else { 0 };
    let s0: Seq<char> = seq![];
    let s1 = s0 + l1;
    let s2 = s1 + l2;
    let s3 = s2 + l3;
    let s4 = s3 + l4;
    assert(castle_letters(c) == s4);
    assert(castle_rights(s1, s1.len() as int) == (0u8 | b1)) by {
        if c & 1 != 0 {
            assert(s1 =~= s0.push('K'));
            lemma_castle_push(s0, 'K');
        } else {
            assert(s1 =~= s0);
            crate::bits::lemma_u8_or(0, 0);
        }
    }
    assert(castle_rights(s2, s2.len() as int) == ((0u8 | b1) | b2)) by {
        if c & 2 != 0 {
            assert(s2 =~= s1.push('Q'));
            lemma_castle_push(s1, 'Q');
        } else {
            assert(s2 =~= s1);
            let x = 0u8 | b1;
            crate::bits::lemma_u8_or(x, 0);
        }
    }
    assert(castle_rights(s3, s3.len() as int) == (((0u8 | b1) | b2) | b3)) by {
        if c & 4 != 0 {
            assert(s3 =~= s2.push('k'));
            lemma_castle_push(s2, 'k');
        } else {
            assert(s3 =~= s2);
            let x = (0u8 | b1) | b2;
            crate::bits::lemma_u8_or(x, 0);
        }
    }
    assert(castle_rights(s4, s4.len() as int) == ((((0u8 | b1) | b2) | b3) | b4)) by {
        if c & 8 != 0 {
            assert(s4 =~= s3.push('q'));
            lemma_castle_push(s3, 'q');
        } else {
            assert(s4 =~= s3);
            let x = ((0u8 | b1) | b2) | b3;
            crate::bits::lemma_u8_or(x, 0);
        }
    }
    assert(((((0u8 | b1) | b2) | b3) | b4) == c) by (bit_vector)
        requires
            c <= 15,
            b1 == (if c & 1 != 0 { 1u8 } else { 0u8 }),
            b2 == (if c & 2 != 0 { 2u8 } else { 0u8 }),
            b3 == (if c & 4 != 0 { 4u8 } else { 0u8 }),
            b4 == (if c & 8 != 0 { 8u8 } else { 0u8 }),
    ;
    if c != 0 {
        assert(c & 1 != 0 || c & 2 != 0 || c & 4 != 0 || c & 8 != 0) by (bit_vector)
            requires
                c <= 15,
                c != 0,
        ;
    }
}

/// Every character is printable ASCII other than the space.
pub open spec fn printable(s: Seq<char>) -> bool {
    forall|i: int| 0 <= i < s.len() ==> 33 <= #[trigger] s[i] as int <= 126
}

proof fn lemma_printable_concat(a: Seq<char>, b: Seq<char>)
    requires
        printable(a),
        printable(b),
    ensures
        printable(a + b),
{
    assert forall|i: int| 0 <= i < (a + b).len() implies 33 <= #[trigger] (a + b)[i] as int <= 126 by {
        if i < a.len() {
            assert((a + b)[i] == a[i]);
        } else {
            assert((a + b)[i] == b[i - a.len()]);
        }
    }
}

proof fn lemma_words_suffix(x: Seq<char>, b: Seq<char>, j: int, cur: Seq<char>, acc: Seq<Seq<char>>)
    requires
        0 <= j <= b.len(),
    ensures
        words_from(x + b, x.len() + j, cur, acc) == words_from(b, j, cur, acc),
    decreases b.len() - j,
{
    if j < b.len() {
        assert((x + b)[x.len() + j] == b[j]);
        if is_ws(b[j]) {
            lemma_words_suffix(x, b, j + 1, seq![], if cur.len() > 0 { acc.push(cur) } else { acc });
        } else {
            lemma_words_suffix(x, b, j + 1, cur.push(b[j]), acc);
        }
    }
}

proof fn lemma_words_run(cs: Seq<char>, i: int, k: int, cur: Seq<char>, acc: Seq<Seq<char>>)
    requires
        0 <= i,
        0 <= k,
        i + k <= cs.len(),
        forall|m: int| i <= m < i + k ==> !is_ws(#[trigger] cs[m]),
    ensures
        words_from(cs, i, cur, acc) == words_from(cs, i + k, cur + cs.subrange(i, i + k), acc),
    decreases k,
{
    if k == 0 {
        assert(cur + cs.subrange(i, i) =~= cur);
    } else {
        assert(!is_ws(cs[i]));
        lemma_words_run(cs, i + 1, k - 1, cur.push(cs[i]), acc);
        assert(cur.push(cs[i]) + cs.subrange(i + 1, i + k) =~= cur + cs.subrange(i, i + k));
    }
}

proof fn lemma_no_ws(a: Seq<char>)
    requires
        printable(a),
    ensures
        forall|m: int| 0 <= m < a.len() ==> !is_ws(#[trigger] a[m]),
{
    assert forall|m: int| 0 <= m < a.len() implies !is_ws(#[trigger] a[m]) by {
        assert(33 <= a[m] as int <= 126);
    }
}

/// A printable field followed by a space: it is the next word.
proof fn lemma_words_field(a: Seq<char>, b: Seq<char>, acc: Seq<Seq<char>>)
    requires
        a.len() > 0,
        printable(a),
    ensures
        words_from(a + seq![' '] + b, 0, seq![], acc) == words_from(b, 0, seq![], acc.push(a)),
{
    let cs = a + seq![' '] + b;
    lemma_no_ws(a);
    assert forall|m: int| 0 <= m < a.len() implies !is_ws(#[trigger] cs[m]) by {
        assert(cs[m] == a[m]);
    }
    lemma_words_run(cs, 0, a.len() as int, seq![], acc);
    assert(seq![] + cs.subrange(0, a.len() as int) =~= a);
    assert(cs[a.len() as int] == ' ');
    assert(is_ws(' '));
    assert(words_from(cs, a.len() as int, a, acc) == words_from(cs, a.len() as int + 1, seq![], acc.push(a)));
    assert(cs =~= (a + seq![' ']) + b);
    lemma_words_suffix(a + seq![' '], b, 0, seq![], acc.push(a));
}

/// A printable last field: it is the last word.
proof fn lemma_words_last(a: Seq<char>, acc: Seq<Seq<char>>)
    requires
        a.len() > 0,
        printable(a),
    ensures
        words_from(a, 0, seq![], acc) == acc.push(a),
{
    lemma_no_ws(a);
    lemma_words_run(a, 0, a.len() as int, seq![], acc);
    assert(seq![] + a.subrange(0, a.len() as int) =~= a);
}

/// Words of six printable fields joined by single spaces.
pub proof fn lemma_words_six(f: Seq<Seq<char>>)
    requires
        f.len() == 6,
        forall|i: int| 0 <= i < 6 ==> #[trigger] f[i].len() > 0 && printable(f[i]),
    ensures
        words(f[0] + seq![' '] + f[1] + seq![' '] + f[2] + seq![' '] + f[3] + seq![' '] + f[4] + seq![' '] + f[5]) == f,
{
    let sp: Seq<char> = seq![' '];
    let t5 = f[5];
    let t4 = f[4] + sp + t5;
    let t3 = f[3] + sp + t4;
    let t2 = f[2] + sp + t3;
    let t1 = f[1] + sp + t2;
    let t0 = f[0] + sp + t1;
    assert(f[0] + sp + f[1] + sp + f[2] + sp + f[3] + sp + f[4] + sp + f[5] =~= t0);
    assert(f[0].len() > 0 && printable(f[0]));
    assert(f[1].len() > 0 && printable(f[1]));
    assert(f[2].len() > 0 && printable(f[2]));
    assert(f[3].len() > 0 && printable(f[3]));
    assert(f[4].len() > 0 && printable(f[4]));
    assert(f[5].len() > 0 && printable(f[5]));
    let e: Seq<Seq<char>> = seq![];
    lemma_words_field(f[0], t1, e);
    lemma_words_field(f[1], t2, e.push(f[0]));
    lemma_words_field(f[2], t3, e.push(f[0]).push(f[1]));
    lemma_words_field(f[3], t4, e.push(f[0]).push(f[1]).push(f[2]));
    lemma_words_field(f[4], t5, e.push(f[0]).push(f[1]).push(f[2]).push(f[3]));
    lemma_words_last(f[5], e.push(f[0]).push(f[1]).push(f[2]).push(f[3]).push(f[4]));
    assert(e.push(f[0]).push(f[1]).push(f[2]).push(f[3]).push(f[4]).push(f[5]) =~= f);
}

/// `base` with the pieces of rank `r` of `sq` on files below `n` put on it.
pub open spec fn fill(base: Seq<u8>, sq: Seq<u8>, r: int, n: int) -> Seq<u8>
    decreases n,
{
    if n <= 0 {
        base
    } else {
        let b = fill(base, sq, r, n - 1);
        let p = sq[r * 8 + n - 1];
        if p != EMPTY {
            b.update(r * 8 + n - 1, p)
        } else {
            b
        }
    }
}

/// King squares `kb` updated by the kings of rank `r` of `sq` on files below `n`.
pub open spec fn kfill(kb: Seq<u8>, sq: Seq<u8>, r: int, n: int) -> Seq<u8>
    decreases n,
{
    if n <= 0 {
        kb
    } else {
        let k = kfill(kb, sq, r, n - 1);
        let p = sq[r * 8 + n - 1];
        if p != EMPTY && pt(p) == KING as int {
            k.update(pc(p), (r * 8 + n - 1) as u8)
        } else {
            k
        }
    }
}

/// The empty board with the ranks 8 down to `8 - k` of `sq` put on it.
pub open spec fn fills(sq: Seq<u8>, k: int) -> Seq<u8>
    decreases k,
{
    if k <= 0 {
        empty_squares()
    } else {
        fill(fills(sq, k - 1), sq, 8 - k, 8)
    }
}

/// King squares after the ranks 8 down to `8 - k` of `sq`.
pub open spec fn kfills(sq: Seq<u8>, k: int) -> Seq<u8>
    decreases k,
{
    if k <= 0 {
        seq![64u8, 64u8]
    } else {
        kfill(kfills(sq, k - 1), sq, 8 - k, 8)
    }
}

proof fn lemma_scan_suffix(x: Seq<char>, y: Seq<char>, j: int, r: int, f: int, sq: Seq<u8>, king: Seq<u8>)
    requires
        0 <= j <= y.len(),
    ensures
        scan_from(x + y, x.len() + j, r, f, sq, king) == scan_from(y, j, r, f, sq, king),
    decreases y.len() - j,
{
    if j < y.len() {
        assert((x + y)[x.len() + j] == y[j]);
        let c = y[j];
        if c == '/' {
            lemma_scan_suffix(x, y, j + 1, r - 1, 0, sq, king);
        } else if '1' <= c <= '8' {
            lemma_scan_suffix(x, y, j + 1, r, f + (c as int - '0' as int), sq, king);
        } else {
            let t = letter_type(c);
            if t != EMPTY && !(r < 0 || f > 7) {
                let color = letter_color(c);
                let s = r * 8 + f;
                lemma_scan_suffix(
                    x,
                    y,
                    j + 1,
                    r,
                    f + 1,
                    sq.update(s, piece(color as int, t as int)),
                    if t == KING { king.update(color as int, s as u8) } else { king },
                );
            }
        }
    }
}

/// Letter facts of a piece code.
proof fn lemma_piece_char(p: u8)
    requires
        valid_piece(p),
        p != EMPTY,
    ensures
        piece_char(p) != '/',
        !('1' <= piece_char(p) <= '8'),
        letter_type(piece_char(p)) as int == pt(p),
        letter_color(piece_char(p)) as int == pc(p),
        piece(pc(p), pt(p)) == p,
        33 <= piece_char(p) as int <= 126,
{
}

/// Digit facts of a run length.
proof fn lemma_run_digit(e: int)
    requires
        1 <= e <= 8,
    ensures
        digit_char(e) != '/',
        '1' <= digit_char(e) <= '8',
        digit_char(e) as int - '0' as int == e,
        33 <= digit_char(e) as int <= 126,
{
}

proof fn lemma_rank_prefix(sq: Seq<u8>, r: int, n: int, y: Seq<char>, base: Seq<u8>, kb: Seq<u8>)
    requires
        0 <= r < 8,
        0 <= n <= 8,
        squares_valid(sq),
    ensures
        0 <= rank_prefix(sq, r, n).1 <= n,
        printable(rank_prefix(sq, r, n).0),
        scan_from(rank_prefix(sq, r, n).0 + y, 0, r, 0, base, kb) == scan_from(
            y,
            0,
            r,
            n - rank_prefix(sq, r, n).1,
            fill(base, sq, r, n),
            kfill(kb, sq, r, n),
        ),
    decreases n,
{
    if n == 0 {
        assert(rank_prefix(sq, r, 0).0 + y =~= y);
    } else {
        lemma_rank_prefix(sq, r, n - 1, y, base, kb);
        let (t, e) = rank_prefix(sq, r, n - 1);
        let p = sq[r * 8 + n - 1];
        assert(valid_piece(p));
        if p == EMPTY {
        } else {
            let pch = piece_char(p);
            lemma_piece_char(p);
            let rest = seq![pch] + y;
            lemma_rank_prefix(sq, r, n - 1, run(e) + rest, base, kb);
            assert(rank_prefix(sq, r, n).0 + y =~= t + (run(e) + rest));
            let bf = fill(base, sq, r, n - 1);
            let kf = kfill(kb, sq, r, n - 1);
            assert(scan_from(rest, 0, r, n - 1, bf, kf) == scan_from(rest, 1, r, n, bf.update(r * 8 + n - 1, p), kfill(kb, sq, r, n)));
            lemma_scan_suffix(seq![pch], y, 0, r, n, bf.update(r * 8 + n - 1, p), kfill(kb, sq, r, n));
            if e > 0 {
                lemma_run_digit(e);
                assert(run(e) == seq![digit_char(e)]);
                lemma_scan_suffix(run(e), rest, 0, r, n - 1, bf, kf);
                assert((run(e) + rest)[0] == digit_char(e));
                assert(scan_from(run(e) + rest, 0, r, n - 1 - e, bf, kf) == scan_from(run(e) + rest, 1, r, n - 1, bf, kf));
            } else {
                assert(run(e) + rest =~= rest);
            }
            lemma_printable_concat(t, run(e));
            lemma_printable_concat(t + run(e), seq![pch]);
        }
    }
}

proof fn lemma_rank_text(sq: Seq<u8>, r: int, y: Seq<char>, base: Seq<u8>, kb: Seq<u8>)
    requires
        0 <= r < 8,
        squares_valid(sq),
    ensures
        printable(rank_text(sq, r)),
        rank_text(sq, r).len() > 0,
        scan_from(rank_text(sq, r) + y, 0, r, 0, base, kb) == scan_from(y, 0, r, 8, fill(base, sq, r, 8), kfill(kb, sq, r, 8)),
{
    let (t, e) = rank_prefix(sq, r, 8);
    lemma_rank_prefix(sq, r, 8, run(e) + y, base, kb);
    assert(rank_text(sq, r) + y =~= t + (run(e) + y));
    let bf = fill(base, sq, r, 8);
    let kf = kfill(kb, sq, r, 8);
    if e > 0 {
        lemma_run_digit(e);
        assert((run(e) + y)[0] == digit_char(e));
        lemma_scan_suffix(run(e), y, 0, r, 8, bf, kf);
        assert(scan_from(run(e) + y, 0, r, 8 - e, bf, kf) == scan_from(run(e) + y, 1, r, 8, bf, kf));
        assert(printable(run(e)));
    } else {
        assert(run(e) + y =~= y);
        assert(run(e) =~= seq![]);
        assert(printable(run(e)));
    }
    lemma_printable_concat(t, run(e));
    lemma_rank_len(sq, r, 8);
}

proof fn lemma_rank_len(sq: Seq<u8>, r: int, n: int)
    requires
        0 <= n <= 8,
    ensures
        n > 0 ==> rank_prefix(sq, r, n).0.len() + rank_prefix(sq, r, n).1 > 0,
        rank_prefix(sq, r, n).1 >= 0,
    decreases n,
{
    if n > 0 {
        lemma_rank_len(sq, r, n - 1);
    }
}

proof fn lemma_placement(sq: Seq<u8>, k: int, y: Seq<char>)
    requires
        0 <= k <= 8,
        squares_valid(sq),
    ensures
        printable(placement_text(sq, k)),
        k > 0 ==> placement_text(sq, k).len() > 0,
        scan_from(placement_text(sq, k) + y, 0, 7, 0, empty_squares(), seq![64u8, 64u8])
            == scan_from(y, 0, if k < 8 { 7 - k } else { 0 }, if k < 8 { 0 } else { 8 }, fills(sq, k), kfills(sq, k)),
    decreases k,
{
    if k == 0 {
        assert(placement_text(sq, 0) + y =~= y);
    } else {
        let r = 8 - k;
        let sl: Seq<char> = if r > 0 { seq!['/'] } else { seq![] };
        lemma_placement(sq, k - 1, rank_text(sq, r) + (sl + y));
        assert(placement_text(sq, k) + y =~= placement_text(sq, k - 1) + (rank_text(sq, r) + (sl + y)));
        lemma_rank_text(sq, r, sl + y, fills(sq, k - 1), kfills(sq, k - 1));
        if r > 0 {
            assert((sl + y)[0] == '/');
            lemma_scan_suffix(sl, y, 0, r - 1, 0, fills(sq, k), kfills(sq, k));
        } else {
            assert(sl + y =~= y);
        }
        assert(printable(sl));
        lemma_printable_concat(placement_text(sq, k - 1), rank_text(sq, r));
        lemma_printable_concat(placement_text(sq, k - 1) + rank_text(sq, r), sl);
    }
}

proof fn lemma_fill(base: Seq<u8>, sq: Seq<u8>, r: int, n: int)
    requires
        0 <= r < 8,
        0 <= n <= 8,
        base.len() == 64,
    ensures
        fill(base, sq, r, n).len() == 64,
        forall|s: int| 0 <= s < 64 ==> #[trigger] fill(base, sq, r, n)[s] == if rank(s) == r && file(s) < n && sq[s] != EMPTY {
            sq[s]
        } else {
            base[s]
        },
    decreases n,
{
    if n > 0 {
        lemma_fill(base, sq, r, n - 1);
        let q = r * 8 + n - 1;
        assert(rank(q) == r && file(q) == n - 1);
        assert forall|s: int| 0 <= s < 64 implies #[trigger] fill(base, sq, r, n)[s] == if rank(s) == r && file(s) < n && sq[s] != EMPTY {
            sq[s]
        } else {
            base[s]
        } by {
            if s == q {
            } else {
                assert(!(rank(s) == r && file(s) == n - 1)) by {
                    if rank(s) == r && file(s) == n - 1 {
                        assert(s == rank(s) * 8 + file(s));
                    }
                }
            }
        }
    }
}

proof fn lemma_fills(sq: Seq<u8>, k: int)
    requires
        0 <= k <= 8,
    ensures
        fills(sq, k).len() == 64,
        forall|s: int| 0 <= s < 64 ==> #[trigger] fills(sq, k)[s] == if rank(s) >= 8 - k && sq[s] != EMPTY {
            sq[s]
        } else {
            EMPTY
        },
    decreases k,
{
    if k > 0 {
        lemma_fills(sq, k - 1);
        lemma_fill(fills(sq, k - 1), sq, 8 - k, 8);
        assert forall|s: int| 0 <= s < 64 implies #[trigger] fills(sq, k)[s] == if rank(s) >= 8 - k && sq[s] != EMPTY {
            sq[s]
        } else {
            EMPTY
        } by {
            assert(0 <= file(s) < 8);
            assert(fills(sq, k - 1)[s] == if rank(s) >= 8 - (k - 1) && sq[s] != EMPTY { sq[s] } else { EMPTY });
        }
    } else {
        assert forall|s: int| 0 <= s < 64 implies #[trigger] fills(sq, k)[s] == EMPTY by {
        }
    }
}

/// Every king of a colour stands on that colour's king square.
pub open spec fn kings_on_squares(sq: Seq<u8>, king: Seq<u8>) -> bool {
    forall|s: int|
        0 <= s < 64 ==> (#[trigger] sq[s] == piece(0, KING as int) ==> king[0] == s) && (sq[s]
            == piece(1, KING as int) ==> king[1] == s)
}

/// The king square of colour `c` holds its king and lies on rank `r`
/// before file `n`.
pub open spec fn king_seen(sq: Seq<u8>, king: Seq<u8>, c: int, r: int, n: int) -> bool {
    king[c] < 64 && sq[king[c] as int] == piece(c, KING as int) && rank(king[c] as int) == r && file(king[c] as int) < n
}

proof fn lemma_kfill(kb: Seq<u8>, sq: Seq<u8>, r: int, n: int, king: Seq<u8>)
    requires
        0 <= r < 8,
        0 <= n <= 8,
        kb.len() == 2,
        king.len() == 2,
        squares_valid(sq),
        kings_on_squares(sq, king),
    ensures
        kfill(kb, sq, r, n).len() == 2,
        forall|c: int| 0 <= c < 2 ==> #[trigger] kfill(kb, sq, r, n)[c] == if king_seen(sq, king, c, r, n) {
            king[c]
        } else {
            kb[c]
        },
    decreases n,
{
    if n > 0 {
        lemma_kfill(kb, sq, r, n - 1, king);
        let q = r * 8 + n - 1;
        let p = sq[q];
        assert(valid_piece(p));
        assert(rank(q) == r && file(q) == n - 1);
        assert forall|c: int| 0 <= c < 2 implies #[trigger] kfill(kb, sq, r, n)[c] == if king_seen(sq, king, c, r, n) {
            king[c]
        } else {
            kb[c]
        } by {
            if king[c] < 64 && king[c] as int == q {
                assert(king_seen(sq, king, c, r, n) == (sq[q] == piece(c, KING as int)));
            } else {
                assert(king_seen(sq, king, c, r, n) == king_seen(sq, king, c, r, n - 1)) by {
                    if king[c] < 64 && rank(king[c] as int) == r && file(king[c] as int) == n - 1 {
                        assert(king[c] as int == rank(king[c] as int) * 8 + file(king[c] as int));
                    }
                }
            }
            if p != EMPTY && pt(p) == KING as int {
                assert(p == piece(pc(p), KING as int));
                assert(pc(p) == 0 || pc(p) == 1);
                assert(king[pc(p)] == q);
            }
        }
    }
}

proof fn lemma_kfills(sq: Seq<u8>, k: int, king: Seq<u8>)
    requires
        0 <= k <= 8,
        king.len() == 2,
        squares_valid(sq),
        kings_on_squares(sq, king),
    ensures
        kfills(sq, k).len() == 2,
        forall|c: int| 0 <= c < 2 ==> #[trigger] kfills(sq, k)[c] == if king[c] < 64 && sq[king[c] as int] == piece(c, KING as int) && rank(king[c] as int) >= 8 - k {
            king[c]
        } else {
            64
        },
    decreases k,
{
    if k > 0 {
        lemma_kfills(sq, k - 1, king);
        lemma_kfill(kfills(sq, k - 1), sq, 8 - k, 8, king);
        assert forall|c: int| 0 <= c < 2 implies #[trigger] kfills(sq, k)[c] == if king[c] < 64 && sq[king[c] as int] == piece(c, KING as int) && rank(king[c] as int) >= 8 - k {
            king[c]
        } else {
            64
        } by {
            if king[c] < 64 {
                assert(0 <= file(king[c] as int) < 8);
            }
        }
    } else {
        assert(kfills(sq, 0) =~= seq![64u8, 64u8]);
    }
}

/// Each king square holds that colour's king or is 64 (none), and no other
/// square holds a king of that colour.
pub open spec fn kings_exact(pos: Position) -> bool {
    &&& kings_tracked(pos)
    &&& pos.king.len() == 2
    &&& forall|c: int| 0 <= c < 2 ==> (#[trigger] pos.king[c] == 64 || (pos.king[c] < 64 && pos.sq[pos.king[c] as int] == piece(c, KING as int)))
}

/// A sound position: valid squares, side to move, castling rights, king
/// squares that match the board.
pub open spec fn fen_sound(pos: Position) -> bool {
    &&& squares_valid(pos.sq)
    &&& pos.stm <= 1
    &&& pos.castling <= 15
    &&& kings_exact(pos)
}

/// Reading the FEN text written for a position with valid squares, side to
/// move and castling rights gives the position back, its king squares taken
/// from the board (the last king of each colour in reading order), both as
/// `fen` and as `to_fen` write it.
pub proof fn lemma_fen_roundtrip_kings(pos: Position)
    requires
        squares_valid(pos.sq),
        pos.stm <= 1,
        pos.castling <= 15,
        pos.king.len() == 2,
    ensures
        parse_fen(fen_text(pos)) == FenParse::Parsed(Position { king: kfills(pos.sq, 8), ..pos }),
        parse_fen(to_fen_text(pos)) == FenParse::Parsed(Position { king: kfills(pos.sq, 8), ..pos }),
{
    lemma_castle_roundtrip(pos.castling);
    let castle: Seq<char> = if pos.castling == 0 { seq!['-'] } else { castle_letters(pos.castling) };
    assert(fen_text(pos) == fen_with(pos, castle));
    if pos.castling == 0 {
        let z = pos.castling;
        assert(z & 1 == 0 && z & 2 == 0 && z & 4 == 0 && z & 8 == 0) by (bit_vector)
            requires
                z == 0,
        ;
        assert(castle_letters(z).len() == 0);
    }
    assert(to_fen_text(pos) == fen_with(pos, castle));
    let pl = placement_text(pos.sq, 8);
    let st: Seq<char> = if pos.stm == WHITE { seq!['w'] } else { seq!['b'] };
    let ep = ep_text(pos.ep);
    let hm = decimal(pos.halfmove as nat);
    let fm = decimal(pos.fullmove as nat);
    let f = seq![pl, st, castle, ep, hm, fm];
    let sp: Seq<char> = seq![' '];
    assert(fen_with(pos, castle) =~= f[0] + sp + f[1] + sp + f[2] + sp + f[3] + sp + f[4] + sp + f[5]);
    lemma_placement(pos.sq, 8, seq![]);
    assert(pl + seq![] =~= pl);
    lemma_decimal(pos.halfmove as nat);
    lemma_decimal(pos.fullmove as nat);
    assert(printable(st));
    assert(printable(castle)) by {
        assert forall|i: int| 0 <= i < castle.len() implies 33 <= #[trigger] castle[i] as int <= 126 by {
            let c = pos.castling;
            let l1: Seq<char> = if c & 1 != 0 { seq!['K'] } else { seq![] };
            let l2: Seq<char> = if c & 2 != 0 { seq!['Q'] } else { seq![] };
            let l3: Seq<char> = if c & 4 != 0 { seq!['k'] } else { seq![] };
            let l4: Seq<char> = if c & 8 != 0 { seq!['q'] } else { seq![] };
            if c != 0 {
                assert(castle == l1 + l2 + l3 + l4);
                let x = castle[i];
                assert(x == 'K' || x == 'Q' || x == 'k' || x == 'q') by {
                    if i < l1.len() {
                        assert(castle[i] == l1[i]);
                    } else if i < l1.len() + l2.len() {
                        assert(castle[i] == l2[i - l1.len()]);
                    } else if i < l1.len() + l2.len() + l3.len() {
                        assert(castle[i] == l3[i - l1.len() - l2.len()]);
                    } else {
                        assert(castle[i] == l4[i - l1.len() - l2.len() - l3.len()]);
                    }
                }
            }
        }
    }
    assert(printable(ep) && ep.len() > 0) by {
        match pos.ep {
            Some(e) => {
                assert(ep == square_text(e));
            },
            None => {
            },
        }
    }
    assert(printable(hm)) by {
        assert forall|i: int| 0 <= i < hm.len() implies 33 <= #[trigger] hm[i] as int <= 126 by {
            assert('0' <= hm[i] <= '9');
        }
    }
    assert(printable(fm)) by {
        assert forall|i: int| 0 <= i < fm.len() implies 33 <= #[trigger] fm[i] as int <= 126 by {
            assert('0' <= fm[i] <= '9');
        }
    }
    assert forall|i: int| 0 <= i < 6 implies #[trigger] f[i].len() > 0 && printable(f[i]) by {
    }
    lemma_words_six(f);
    let parts = words(fen_with(pos, castle));
    assert(parts == f);
    lemma_fills(pos.sq, 8);
    assert(fills(pos.sq, 8) =~= pos.sq) by {
        assert forall|s: int| 0 <= s < 64 implies #[trigger] fills(pos.sq, 8)[s] == pos.sq[s] by {
            assert(0 <= rank(s) < 8);
        }
    }
    assert(scan(parts[0]) == (Placement::Placed { sq: pos.sq, king: kfills(pos.sq, 8) }));
    lemma_ep_roundtrip(pos.ep);
    lemma_counter_roundtrip(pos.halfmove, 0);
    lemma_counter_roundtrip(pos.fullmove, 1);
    if pos.stm == WHITE {
        assert(parts[1][0] == 'w');
        assert(!(parts[1] =~= seq!['b']));
    } else {
        assert(parts[1] =~= seq!['b']);
    }
    assert(castle_rights(parts[2], parts[2].len() as int) == pos.castling);
}

/// Reading the FEN text written for a sound position gives the position
/// back, both as `fen` and as `to_fen` write it.
pub proof fn lemma_fen_roundtrip(pos: Position)
    requires
        fen_sound(pos),
    ensures
        parse_fen(fen_text(pos)) == FenParse::Parsed(pos),
        parse_fen(to_fen_text(pos)) == FenParse::Parsed(pos),
{
    lemma_fen_roundtrip_kings(pos);
    lemma_kfills(pos.sq, 8, pos.king);
    assert(kfills(pos.sq, 8) =~= pos.king) by {
        assert forall|c: int| 0 <= c < 2 implies #[trigger] kfills(pos.sq, 8)[c] == pos.king[c] by {
            assert(pos.king[c] == 64 || (pos.king[c] < 64 && pos.sq[pos.king[c] as int] == piece(c, KING as int)));
            if pos.king[c] < 64 {
                assert(0 <= rank(pos.king[c] as int) < 8);
            }
        }
    }
    assert(Position { king: kfills(pos.sq, 8), ..pos } == pos);
}

/// Any sound board is read back from the FEN text it writes with the same
/// squares, side to move, castling rights, en-passant square, counters,
/// bitboards and key; only the king squares are taken from the board.
pub proof fn lemma_board_fen_roundtrip_any(b: Board, back: Board)
    requires
        b.wf(),
        back.wf(),
        parse_fen(fen_text(b@)) == FenParse::Parsed(back@) || parse_fen(to_fen_text(b@)) == FenParse::Parsed(back@),
    ensures
        back == (Board { king: back.king, ..b }),
        back.king@ == kfills(b.sq@, 8),
{
    lemma_fen_roundtrip_kings(b@);
    let b2 = Board { king: back.king, ..b };
    assert(back@ == Position { king: kfills(b@.sq, 8), ..b@ });
    assert(b2@ =~= back@);
    assert(crate::board::key_of(b2@) == crate::board::key_of(b@));
    crate::makemove::lemma_board_ext(back, b2);
}

/// A sound board whose king squares match its kings is read back from the
/// FEN text it writes as exactly the same board: any sound board that reads
/// the text back equals it.
pub proof fn lemma_board_fen_roundtrip(b: Board, back: Board)
    requires
        b.wf(),
        kings_exact(b@),
        back.wf(),
        parse_fen(fen_text(b@)) == FenParse::Parsed(back@) || parse_fen(to_fen_text(b@)) == FenParse::Parsed(back@),
    ensures
        back == b,
{
    lemma_fen_roundtrip(b@);
    crate::makemove::lemma_board_ext(back, b);
}

} // verus!
