//! Matching a line of text against a fixed format of hexadecimal fields and
//! literal characters, the way a `sscanf`-style format such as
//! `"{u8:x}{u8:x}:{u16:x}"` is matched.
//!
//! A hexadecimal field is an optional `+`, an optional `0x` or `0X`, then one
//! up to a maximum number of hexadecimal digits (either case). Fields follow
//! each other without separators, so the digits of a run are shared out
//! among consecutive fields: each field takes as many digits as it can such
//! that the rest of the format still matches (leftmost-first, greedy).
use vstd::prelude::*;
use crate::text::{
    decimal, is_ascii_digit, lemma_decimal_parses_back, lemma_digits_of, lemma_usize_decimal_len,
    all_hex_digits, digit_value_of, digits_value, is_hex_digit, is_hex_digit_char, parse_usize_range,
    parse_usize_text, unsigned_body,
};

verus! {

/// One element of a format.
#[derive(Clone, Copy, Debug, PartialEq, Eq)]
pub enum Piece {
    /// A hexadecimal field of at most this many digits.
    Hex(usize),
    /// A literal character.
    Lit(char),
}

/// The formats handled here: fields of 1 to 4 digits, and no literal `x` or
/// `X` (which would make an optional `0x` prefix ambiguous).
pub open spec fn wf_format(pat: Seq<Piece>) -> bool {
    forall|i: int|
        0 <= i < pat.len() ==> match #[trigger] pat[i] {
            Piece::Hex(n) => 1 <= n <= 4,
            Piece::Lit(c) => c != 'x' && c != 'X',
        }
}

/// The digits of a field: the text after an optional `+` and an optional
/// `0x` or `0X`.
pub open spec fn field_body(s: Seq<char>) -> Seq<char> {
    let a = unsigned_body(s);
    if a.len() >= 2 && a[0] == '0' && (a[1] == 'x' || a[1] == 'X') {
        a.skip(2)
    } else {
        a
    }
}

/// The values of the fields when the whole of `s` matches `pat`, else `None`.
pub open spec fn scan(pat: Seq<Piece>, s: Seq<char>) -> Option<Seq<nat>>
    decreases pat.len() * 2 + 1, 0nat,
{
    if pat.len() == 0 {
        if s.len() == 0 {
            Some(seq![])
        } else {
            None
        }
    } else {
        match pat[0] {
            Piece::Lit(c) => if s.len() > 0 && s[0] == c {
                scan(pat.drop_first(), s.drop_first())
            } else {
                None
            },
            Piece::Hex(n) => scan_digits(pat.drop_first(), field_body(s), n as nat),
        }
    }
}

/// A field whose digits start `b` takes `k` of them if that lets `rest`
/// match what follows, else fewer.
pub open spec fn scan_digits(rest: Seq<Piece>, b: Seq<char>, k: nat) -> Option<Seq<nat>>
    decreases rest.len() * 2 + 2, k,
{
    if k == 0 {
        None
    } else if k <= b.len() && all_hex_digits(b.take(k as int)) && scan(
        rest,
        b.skip(k as int),
    ) is Some {
        Some(seq![digits_value(b.take(k as int), 16)] + scan(rest, b.skip(k as int))->Some_0)
    } else {
        scan_digits(rest, b, (k - 1) as nat)
    }
}

/// The number of fields of a format.
pub open spec fn field_count(pat: Seq<Piece>) -> nat
    decreases pat.len(),
{
    if pat.len() == 0 {
        0
    } else {
        (if pat[0] is Hex {
            1nat
        } else {
            0nat
        }) + field_count(pat.drop_first())
    }
}

/// A match yields one value for each field of the format.
pub proof fn lemma_scan_len(pat: Seq<Piece>, s: Seq<char>)
    ensures
        scan(pat, s) matches Some(v) ==> v.len() == field_count(pat),
    decreases pat.len() * 2 + 1, 0nat,
{
    if pat.len() > 0 {
        match pat[0] {
            Piece::Lit(c) => {
                if s.len() > 0 && s[0] == c {
                    lemma_scan_len(pat.drop_first(), s.drop_first());
                }
            },
            Piece::Hex(n) => {
                lemma_scan_digits_len(pat.drop_first(), field_body(s), n as nat);
            },
        }
    }
}

proof fn lemma_scan_digits_len(rest: Seq<Piece>, b: Seq<char>, k: nat)
    ensures
        scan_digits(rest, b, k) matches Some(v) ==> v.len() == field_count(rest) + 1,
    decreases rest.len() * 2 + 2, k,
{
    if k > 0 {
        lemma_scan_len(rest, b.skip(k as int));
        lemma_scan_digits_len(rest, b, (k - 1) as nat);
    }
}

pub open spec fn as_nats(v: Seq<u64>) -> Seq<nat> {
    v.map_values(|x: u64| x as nat)
}

pub open spec fn pow16(j: nat) -> nat
    decreases j,
{
    if j == 0 {
        1
    } else {
        16 * pow16((j - 1) as nat)
    }
}

/// The value of the hexadecimal digits `s[lo..hi]`.
fn hex_value(s: &Vec<char>, lo: usize, hi: usize) -> (r: u64)
    requires
        lo <= hi <= s.len(),
        hi - lo <= 4,
        all_hex_digits(s@.subrange(lo as int, hi as int)),
    ensures
        r as nat == digits_value(s@.subrange(lo as int, hi as int), 16),
        r < 0x10000,
{
    let ghost t = s@.subrange(lo as int, hi as int);
    let mut acc: u64 = 0;
    let mut i = lo;
    while i < hi
        invariant
            lo <= i <= hi <= s.len(),
            hi - lo <= 4,
            t == s@.subrange(lo as int, hi as int),
            all_hex_digits(t),
            acc as nat == digits_value(t.take(i - lo), 16),
            acc < pow16((i - lo) as nat),
        decreases hi - i,
    {
        assert(t[i - lo] == s@[i as int]);
        let d = digit_value_of(s[i]);
        assert(t.take(i - lo + 1).drop_last() =~= t.take(i - lo));
        assert(pow16((i - lo + 1) as nat) == 16 * pow16((i - lo) as nat));
        assert(pow16((i - lo) as nat) <= 4096) by {
            reveal_with_fuel(pow16, 5);
        }
        acc = acc * 16 + d as u64;
        i = i + 1;
    }
    assert(t.take(hi - lo) =~= t);
    assert(pow16((hi - lo) as nat) <= 65536) by {
        reveal_with_fuel(pow16, 5);
    }
    acc
}

/// Matches `s[si..hi]` against the pieces of `pat` from `pi` on.
fn scan_from(pat: &Vec<Piece>, pi: usize, s: &Vec<char>, si: usize, hi: usize) -> (r: Option<
    Vec<u64>,
>)
    requires
        pi <= pat.len(),
        si <= hi <= s.len(),
        wf_format(pat@),
    ensures
        match r {
            Some(v) => scan(pat@.skip(pi as int), s@.subrange(si as int, hi as int)) == Some(
                as_nats(v@),
            ),
            None => scan(pat@.skip(pi as int), s@.subrange(si as int, hi as int)) is None,
        },
    decreases (pat.len() - pi) * 2 + 1, 0nat,
{
    let ghost p = pat@.skip(pi as int);
    let ghost t = s@.subrange(si as int, hi as int);
    if pi == pat.len() {
        if si == hi {
            let v: Vec<u64> = Vec::new();
            assert(as_nats(v@) =~= seq![]);
            return Some(v);
        } else {
            return None;
        }
    }
    assert(p[0] == pat@[pi as int]);
    assert(p.drop_first() =~= pat@.skip(pi + 1));
    match pat[pi] {
        Piece::Lit(c) => {
            if si < hi && s[si] == c {
                assert(t.drop_first() =~= s@.subrange(si + 1, hi as int));
                scan_from(pat, pi + 1, s, si + 1, hi)
            } else {
                None
            }
        },
        Piece::Hex(n) => {
            let mut b = si;
            if b < hi && s[b] == '+' {
                b = b + 1;
            }
            let ghost a = s@.subrange(b as int, hi as int);
            assert(unsigned_body(t) =~= a);
            if hi - b >= 2 && s[b] == '0' && (s[b + 1] == 'x' || s[b + 1] == 'X') {
                assert(a.skip(2) =~= s@.subrange(b + 2, hi as int));
                b = b + 2;
            }
            assert(field_body(t) =~= s@.subrange(b as int, hi as int));
            scan_digits_from(pat, pi + 1, s, b, hi, n)
        },
    }
}

/// Tries the field whose digits start at `s[b]` with `k`, then fewer, digits,
/// the pieces of `pat` from `pi` on matching what follows.
fn scan_digits_from(pat: &Vec<Piece>, pi: usize, s: &Vec<char>, b: usize, hi: usize, k: usize)
    -> (r: Option<Vec<u64>>)
    requires
        pi <= pat.len(),
        b <= hi <= s.len(),
        k <= 4,
        wf_format(pat@),
    ensures
        match r {
            Some(v) => scan_digits(pat@.skip(pi as int), s@.subrange(b as int, hi as int), k as nat)
                == Some(as_nats(v@)),
            None => scan_digits(
                pat@.skip(pi as int),
                s@.subrange(b as int, hi as int),
                k as nat,
            ) is None,
        },
    decreases (pat.len() - pi) * 2 + 2, k,
{
    let ghost rest = pat@.skip(pi as int);
    let ghost t = s@.subrange(b as int, hi as int);
    if k == 0 {
        return None;
    }
    if k <= hi - b {
        assert(t.take(k as int) =~= s@.subrange(b as int, b + k));
        assert(t.skip(k as int) =~= s@.subrange(b + k, hi as int));
        let mut all = true;
        let mut j = b;
        while j < b + k
            invariant
                b <= j <= b + k <= hi <= s.len(),
                all <==> all_hex_digits(s@.subrange(b as int, j as int)),
            decreases b + k - j,
        {
            let h = is_hex_digit_char(s[j]);
            proof {
                let u = s@.subrange(b as int, j + 1);
                if all && h {
                    assert forall|q: int| 0 <= q < u.len() implies is_hex_digit(#[trigger] u[q]) by {
                        if q < j - b {
                            assert(u[q] == s@.subrange(b as int, j as int)[q]);
                        }
                    }
                }
                if !h {
                    assert(u[j - b] == s@[j as int]);
                }
                if !all {
                    let w = choose|q: int|
                        0 <= q < j - b && !is_hex_digit(#[trigger] s@.subrange(b as int, j as int)[q]);
                    assert(u[w] == s@.subrange(b as int, j as int)[w]);
                }
            }
            all = all && h;
            j = j + 1;
        }
        if all {
            let tail = scan_from(pat, pi, s, b + k, hi);
            match tail {
                Some(mut v) => {
                    let x = hex_value(s, b, b + k);
                    let ghost old_v = v@;
                    v.insert(0, x);
                    assert(as_nats(v@) =~= seq![x as nat] + as_nats(old_v));
                    return Some(v);
                },
                None => {},
            }
        }
    }
    scan_digits_from(pat, pi, s, b, hi, k - 1)
}

/// The format of an IPv4 endpoint in `/proc/net`: four byte fields, a colon,
/// and a port field (`"{u8:x}{u8:x}{u8:x}{u8:x}:{u16:x}"`).
pub open spec fn endpoint4_format() -> Seq<Piece> {
    seq![
        Piece::Hex(2),
        Piece::Hex(2),
        Piece::Hex(2),
        Piece::Hex(2),
        Piece::Lit(':'),
        Piece::Hex(4),
    ]
}

/// The format of an IPv6 endpoint in `/proc/net`: eight 16-bit fields, a
/// colon, and a port field.
pub open spec fn endpoint6_format() -> Seq<Piece> {
    seq![
        Piece::Hex(4),
        Piece::Hex(4),
        Piece::Hex(4),
        Piece::Hex(4),
        Piece::Hex(4),
        Piece::Hex(4),
        Piece::Hex(4),
        Piece::Hex(4),
        Piece::Lit(':'),
        Piece::Hex(4),
    ]
}

/// A single byte field (`"{u8:x}"`).
pub open spec fn byte_format() -> Seq<Piece> {
    seq![Piece::Hex(2)]
}

pub proof fn lemma_format_field_counts()
    ensures
        field_count(endpoint4_format()) == 5,
        field_count(endpoint6_format()) == 9,
        field_count(byte_format()) == 1,
{
    reveal_with_fuel(field_count, 11);
    assert(endpoint4_format().drop_first() =~= seq![Piece::Hex(2), Piece::Hex(2), Piece::Hex(2), Piece::Lit(':'), Piece::Hex(4)]);
}

pub fn endpoint4_pieces() -> (r: Vec<Piece>)
    ensures
        r@ == endpoint4_format(),
        wf_format(r@),
{
    let r = vec![
        Piece::Hex(2),
        Piece::Hex(2),
        Piece::Hex(2),
        Piece::Hex(2),
        Piece::Lit(':'),
        Piece::Hex(4),
    ];
    assert(r@ =~= endpoint4_format());
    r
}

pub fn endpoint6_pieces() -> (r: Vec<Piece>)
    ensures
        r@ == endpoint6_format(),
        wf_format(r@),
{
    let r = vec![
        Piece::Hex(4),
        Piece::Hex(4),
        Piece::Hex(4),
        Piece::Hex(4),
        Piece::Hex(4),
        Piece::Hex(4),
        Piece::Hex(4),
        Piece::Hex(4),
        Piece::Lit(':'),
        Piece::Hex(4),
    ];
    assert(r@ =~= endpoint6_format());
    r
}

pub fn byte_pieces() -> (r: Vec<Piece>)
    ensures
        r@ == byte_format(),
        wf_format(r@),
{
    let r = vec![Piece::Hex(2)];
    assert(r@ =~= byte_format());
    r
}

/// Matches the whole of `s[lo..hi]` against `pat`.
pub fn scan_range(pat: &Vec<Piece>, s: &Vec<char>, lo: usize, hi: usize) -> (r: Option<Vec<u64>>)
    requires
        lo <= hi <= s.len(),
        wf_format(pat@),
    ensures
        match r {
            Some(v) => scan(pat@, s@.subrange(lo as int, hi as int)) == Some(as_nats(v@)),
            None => scan(pat@, s@.subrange(lo as int, hi as int)) is None,
        },
{
    assert(pat@.skip(0) =~= pat@);
    scan_from(pat, 0, s, lo, hi)
}

/// What a `{usize}` field accepts: an optional `+`, then 1 to 20 digits whose
/// value fits in a `usize`.
pub open spec fn scan_usize(s: Seq<char>) -> Option<nat> {
    if unsigned_body(s).len() <= 20 {
        parse_usize_text(s)
    } else {
        None
    }
}

/// The decimal text of every number that fits in a `usize` reads back as
/// that number in a `{usize}` field.
pub proof fn lemma_scan_usize_decimal(n: nat)
    requires
        n <= usize::MAX,
    ensures
        scan_usize(decimal(n)) == Some(n),
        scan_usize(seq!['+'] + decimal(n)) == Some(n),
{
    lemma_usize_decimal_len(n);
    lemma_decimal_parses_back(n);
    lemma_digits_of(n, 10);
    let d = decimal(n);
    assert(is_ascii_digit(d[0]));
    assert(unsigned_body(d) == d);
    assert(unsigned_body(seq!['+'] + d) =~= d);
}

/// Matches the whole of `s[lo..hi]` against a `{usize}` field.
pub fn scan_usize_range(s: &Vec<char>, lo: usize, hi: usize) -> (r: Option<usize>)
    requires
        lo <= hi <= s.len(),
    ensures
        match r {
            Some(v) => scan_usize(s@.subrange(lo as int, hi as int)) == Some(v as nat),
            None => scan_usize(s@.subrange(lo as int, hi as int)) is None,
        },
{
    let ghost t = s@.subrange(lo as int, hi as int);
    let body_len = if lo < hi && s[lo] == '+' {
        hi - lo - 1
    } else {
        hi - lo
    };
    assert(unsigned_body(t).len() == body_len);
    if body_len > 20 {
        return None;
    }
    parse_usize_range(s, lo, hi)
}

} // verus!
