//! Text helpers: characters of a string, Unicode whitespace, splitting into
//! words, unsigned 16-bit decimal parsing and printing.

use vstd::prelude::*;
use vstd::string::StrSliceExecFns;

verus! {

/// The characters of `s`.
pub fn chars_of(s: &str) -> (out: Vec<char>)
    ensures
        out@ == s@,
{
    let n = s.unicode_len();
    let mut out: Vec<char> = Vec::new();
    let mut i: usize = 0;
    while i < n
        invariant
            i <= n,
            n == s@.len(),
            out@ == s@.subrange(0, i as int),
        decreases n - i,
    {
        let c = s.get_char(i);
        out.push(c);
        i = i + 1;
        assert(out@ =~= s@.subrange(0, i as int));
    }
    assert(out@ =~= s@);
    out
}

/// `String::push`: appends the character `c`.
#[verifier::external_body]
pub(crate) fn push_char(s: &mut String, c: char)
    ensures
        final(s)@ == old(s)@.push(c),
{
    s.push(c);
}

/// `char::is_whitespace`: the Unicode White_Space property.
pub open spec fn is_ws(c: char) -> bool {
    let u = c as int;
    (9 <= u <= 13) || u == 32 || u == 0x85 || u == 0xA0 || u == 0x1680 || (0x2000 <= u <= 0x200A)
        || u == 0x2028 || u == 0x2029 || u == 0x202F || u == 0x205F || u == 0x3000
}

pub fn is_whitespace(c: char) -> (r: bool)
    ensures
        r == is_ws(c),
{
    let u = c as u32;
    (9 <= u && u <= 13) || u == 32 || u == 0x85 || u == 0xA0 || u == 0x1680 || (0x2000 <= u && u
        <= 0x200A) || u == 0x2028 || u == 0x2029 || u == 0x202F || u == 0x205F || u == 0x3000
}

/// Words of `cs` from index `i` on, given the word `cur` being read and the
/// words `acc` already complete (as `str::split_whitespace`).
pub open spec fn words_from(cs: Seq<char>, i: int, cur: Seq<char>, acc: Seq<Seq<char>>) -> Seq<
    Seq<char>,
>
    decreases cs.len() - i,
{
    if i >= cs.len() {
        if cur.len() > 0 {
            acc.push(cur)
        } else {
            acc
        }
    } else if is_ws(cs[i]) {
        words_from(cs, i + 1, seq![], if cur.len() > 0 { acc.push(cur) } else { acc })
    } else {
        words_from(cs, i + 1, cur.push(cs[i]), acc)
    }
}

/// The maximal runs of non-whitespace characters of `cs`, in order.
pub open spec fn words(cs: Seq<char>) -> Seq<Seq<char>> {
    words_from(cs, 0, seq![], seq![])
}

/// Splits `cs` into words (see `words`).
pub fn split_words(cs: &Vec<char>) -> (out: Vec<Vec<char>>)
    ensures
        out@.len() == words(cs@).len(),
        forall|j: int| 0 <= j < out@.len() ==> #[trigger] out@[j]@ == words(cs@)[j],
{
    let mut out: Vec<Vec<char>> = Vec::new();
    let mut cur: Vec<char> = Vec::new();
    let mut i: usize = 0;
    let ghost mut acc: Seq<Seq<char>> = seq![];
    while i < cs.len()
        invariant
            i <= cs@.len(),
            out@.len() == acc.len(),
            forall|j: int| 0 <= j < acc.len() ==> #[trigger] out@[j]@ == acc[j],
            words_from(cs@, i as int, cur@, acc) == words(cs@),
        decreases cs@.len() - i,
    {
        let c = cs[i];
        let ghost old_cur = cur@;
        let ghost old_acc = acc;
        if is_whitespace(c) {
            if cur.len() > 0 {
                proof {
                    acc = acc.push(cur@);
                }
                out.push(cur);
                cur = Vec::new();
            }
            assert(cur@ =~= seq![]);
        } else {
            cur.push(c);
        }
        assert(words_from(cs@, i as int, old_cur, old_acc) == words_from(
            cs@,
            i + 1,
            cur@,
            acc,
        ));
        i = i + 1;
    }
    if cur.len() > 0 {
        proof {
            acc = acc.push(cur@);
        }
        out.push(cur);
    }
    out
}

/// Decimal value of the first `n` characters of `cs`.
pub open spec fn digits_value(cs: Seq<char>, n: int) -> int
    decreases n,
{
    if n <= 0 {
        0
    } else {
        digits_value(cs, n - 1) * 10 + (cs[n - 1] as int - '0' as int)
    }
}

pub open spec fn all_digits(cs: Seq<char>) -> bool {
    forall|i: int| 0 <= i < cs.len() ==> '0' <= #[trigger] cs[i] <= '9'
}

/// The digits of `cs`: without one leading `+`.
pub open spec fn unsigned_digits(cs: Seq<char>) -> Seq<char> {
    if cs.len() > 0 && cs[0] == '+' {
        cs.subrange(1, cs.len() as int)
    } else {
        cs
    }
}

/// `u16::from_str`: an optional `+`, then one or more ASCII digits, of value
/// at most 65535.
pub open spec fn parse_u16_spec(cs: Seq<char>) -> Option<u16> {
    let ds = unsigned_digits(cs);
    if ds.len() == 0 || !all_digits(ds) || digits_value(ds, ds.len() as int) > 0xffff {
        None
    } else {
        Some(digits_value(ds, ds.len() as int) as u16)
    }
}

proof fn lemma_digits_mono(cs: Seq<char>, k: int, n: int)
    requires
        0 <= k <= n <= cs.len(),
        all_digits(cs),
    ensures
        digits_value(cs, k) <= digits_value(cs, n),
        digits_value(cs, k) >= 0,
    decreases n - k,
{
    if k < n {
        lemma_digits_mono(cs, k, n - 1);
        assert('0' <= cs[n - 1] <= '9');
    } else {
        lemma_digits_nonneg(cs, k);
    }
}

proof fn lemma_digits_nonneg(cs: Seq<char>, n: int)
    requires
        0 <= n <= cs.len(),
        all_digits(cs),
    ensures
        digits_value(cs, n) >= 0,
    decreases n,
{
    if n > 0 {
        lemma_digits_nonneg(cs, n - 1);
        assert('0' <= cs[n - 1] <= '9');
    }
}

/// Parses an unsigned 16-bit decimal (see `parse_u16_spec`).
pub fn parse_u16(cs: &Vec<char>) -> (r: Option<u16>)
    ensures
        r == parse_u16_spec(cs@),
{
    let n = cs.len();
    let mut i: usize = 0;
    if n > 0 && cs[0] == '+' {
        i = 1;
    }
    let start = i;
    let ghost ds = unsigned_digits(cs@);
    assert(ds =~= cs@.subrange(start as int, n as int));
    if start == n {
        return None;
    }
    let mut v: u32 = 0;
    while i < n
        invariant
            start <= i <= n,
            start < n,
            n == cs@.len(),
            ds == cs@.subrange(start as int, n as int),
            ds == unsigned_digits(cs@),
            all_digits(ds.subrange(0, i - start)),
            v as int == digits_value(ds, i - start),
            v <= 0xffff,
        decreases n - i,
    {
        let c = cs[i];
        if !('0' <= c && c <= '9') {
            assert(!all_digits(ds)) by {
                assert(ds[i - start] == c);
            }
            return None;
        }
        let d = (c as u32) - ('0' as u32);
        if v * 10 + d > 0xffff {
            proof {
                if all_digits(ds) {
                    lemma_digits_mono(ds, i - start + 1, ds.len() as int);
                    assert(digits_value(ds, i - start + 1) == v * 10 + d);
                }
            }
            return None;
        }
        proof {
            assert(digits_value(ds, i - start + 1) == v * 10 + d);
            assert forall|j: int| 0 <= j < i + 1 - start implies '0' <= #[trigger] ds.subrange(
                0,
                i + 1 - start,
            )[j] <= '9' by {
                if j < i - start {
                    assert(ds.subrange(0, i + 1 - start)[j] == ds.subrange(0, i - start)[j]);
                }
            }
        }
        v = v * 10 + d;
        i = i + 1;
    }
    assert(ds.subrange(0, n - start) =~= ds);
    Some(v as u16)
}

/// Decimal representation of `n`.
pub open spec fn decimal(n: nat) -> Seq<char>
    decreases n,
{
    if n < 10 {
        seq![digit_char(n as int)]
    } else {
        decimal(n / 10).push(digit_char((n % 10) as int))
    }
}

pub open spec fn digit_char(d: int) -> char {
    ('0' as int + d) as char
}

/// Appends the decimal representation of `n`.
pub fn push_decimal(s: &mut String, n: u16)
    ensures
        final(s)@ == old(s)@ + decimal(n as nat),
    decreases n,
{
    if n >= 10 {
        push_decimal(s, n / 10);
    }
    let d = (n % 10) as u8;
    push_char(s, (48u8 + d) as char);
    proof {
        if n >= 10 {
            assert(decimal(n as nat) == decimal((n / 10) as nat).push(digit_char((n % 10) as int)));
        }
    }
    assert(final(s)@ =~= old(s)@ + decimal(n as nat));
}

} // verus!
