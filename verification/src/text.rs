//! Character-level building blocks: whitespace splitting, decimal and
//! hexadecimal digits, and the text form of unsigned numbers.
use vstd::prelude::*;

verus! {

broadcast use vstd::string::group_string_axioms;

// ---------------------------------------------------------------------------
// Characters and digits
// ---------------------------------------------------------------------------

/// The characters that `char::is_whitespace` accepts: those with the Unicode
/// `White_Space` property.
pub open spec fn is_space(c: char) -> bool {
    let u = c as u32;
    ||| 0x09 <= u <= 0x0D
    ||| u == 0x20
    ||| u == 0x85
    ||| u == 0xA0
    ||| u == 0x1680
    ||| 0x2000 <= u <= 0x200A
    ||| u == 0x2028
    ||| u == 0x2029
    ||| u == 0x202F
    ||| u == 0x205F
    ||| u == 0x3000
}

pub open spec fn is_ascii_digit(c: char) -> bool {
    '0' <= c <= '9'
}

pub open spec fn is_hex_digit(c: char) -> bool {
    ||| '0' <= c <= '9'
    ||| 'a' <= c <= 'f'
    ||| 'A' <= c <= 'F'
}

/// The value of a hexadecimal (or decimal) digit.
pub open spec fn digit_value(c: char) -> nat {
    if '0' <= c <= '9' {
        (c as int - '0' as int) as nat
    } else if 'a' <= c <= 'f' {
        (c as int - 'a' as int + 10) as nat
    } else {
        (c as int - 'A' as int + 10) as nat
    }
}

/// The lower-case character of a digit below 16.
pub open spec fn digit_char(d: nat) -> char {
    if d < 10 {
        (d + 48) as char
    } else {
        (d + 87) as char
    }
}

pub open spec fn all_ascii_digits(s: Seq<char>) -> bool {
    forall|i: int| 0 <= i < s.len() ==> is_ascii_digit(#[trigger] s[i])
}

pub open spec fn all_hex_digits(s: Seq<char>) -> bool {
    forall|i: int| 0 <= i < s.len() ==> is_hex_digit(#[trigger] s[i])
}

/// The number that a digit sequence spells in base `base`, most significant
/// digit first.
pub open spec fn digits_value(s: Seq<char>, base: nat) -> nat
    decreases s.len(),
{
    if s.len() == 0 {
        0
    } else {
        digits_value(s.drop_last(), base) * base + digit_value(s.last())
    }
}

/// The digits of `n` in base `base` (10 or 16), lower case, with no leading
/// zero: what `format!("{}", n)` and `format!("{:x}", n)` write.
pub open spec fn digits_of(n: nat, base: nat) -> Seq<char>
    recommends
        base == 10 || base == 16,
    decreases n,
{
    if base < 2 || n < base {
        seq![digit_char(n)]
    } else {
        proof {
            assert(n / base < n) by (nonlinear_arith)
                requires
                    base >= 2,
                    n >= base,
            ;
        }
        digits_of(n / base, base).push(digit_char(n % base))
    }
}

pub open spec fn decimal(n: nat) -> Seq<char> {
    digits_of(n, 10)
}

pub open spec fn lower_hex(n: nat) -> Seq<char> {
    digits_of(n, 16)
}

// ---------------------------------------------------------------------------
// Unsigned decimal numbers in text
// ---------------------------------------------------------------------------

/// The text after an optional leading `+`.
pub open spec fn unsigned_body(s: Seq<char>) -> Seq<char> {
    if s.len() > 0 && s[0] == '+' {
        s.drop_first()
    } else {
        s
    }
}

/// What `str::parse::<usize>` accepts and returns: an optional `+`, then one
/// or more ASCII digits whose value fits in a `usize`.
pub open spec fn parse_usize_text(s: Seq<char>) -> Option<nat> {
    let d = unsigned_body(s);
    if d.len() > 0 && all_ascii_digits(d) && digits_value(d, 10) <= usize::MAX {
        Some(digits_value(d, 10))
    } else {
        None
    }
}

// ---------------------------------------------------------------------------
// Splitting into words
// ---------------------------------------------------------------------------

/// The maximal runs of non-whitespace characters of `s`, in order: what
/// `str::split_whitespace` yields.
pub open spec fn split_words(s: Seq<char>) -> Seq<Seq<char>>
    decreases s.len(),
{
    if s.len() == 0 {
        seq![]
    } else {
        let prev = split_words(s.drop_last());
        let c = s.last();
        if is_space(c) {
            prev
        } else if s.len() >= 2 && !is_space(s[s.len() - 2]) {
            prev.update(prev.len() - 1, prev.last().push(c))
        } else {
            prev.push(seq![c])
        }
    }
}

/// The parts of `parts` with `sep` between each two of them.
pub open spec fn join(parts: Seq<Seq<char>>, sep: Seq<char>) -> Seq<char>
    decreases parts.len(),
{
    if parts.len() == 0 {
        seq![]
    } else if parts.len() == 1 {
        parts[0]
    } else {
        join(parts.drop_last(), sep) + sep + parts.last()
    }
}

/// Joining `n` parts with a one-character separator gives at least `n - 1`
/// characters.
pub proof fn lemma_join_len(parts: Seq<Seq<char>>, sep: Seq<char>)
    requires
        sep.len() == 1,
    ensures
        join(parts, sep).len() + 1 >= parts.len(),
    decreases parts.len(),
{
    if parts.len() > 1 {
        lemma_join_len(parts.drop_last(), sep);
    }
}

/// The pieces of `s` between the occurrences of `c` (empty pieces included):
/// what `str::split(c)` yields.
pub open spec fn split_on(s: Seq<char>, c: char) -> Seq<Seq<char>>
    decreases s.len(),
{
    if s.len() == 0 {
        seq![seq![]]
    } else {
        let p = split_on(s.drop_last(), c);
        if s.last() == c {
            p.push(seq![])
        } else {
            p.update(p.len() - 1, p.last().push(s.last()))
        }
    }
}

pub open spec fn free_of(s: Seq<char>, c: char) -> bool {
    forall|j: int| 0 <= j < s.len() ==> #[trigger] s[j] != c
}

pub proof fn lemma_split_on_nonempty(s: Seq<char>, c: char)
    ensures
        split_on(s, c).len() >= 1,
    decreases s.len(),
{
    if s.len() > 0 {
        lemma_split_on_nonempty(s.drop_last(), c);
    }
}

/// A text without the separator is one piece.
pub proof fn lemma_split_on_free(y: Seq<char>, c: char)
    requires
        free_of(y, c),
    ensures
        split_on(y, c) == seq![y],
    decreases y.len(),
{
    if y.len() == 0 {
        assert(y =~= Seq::<char>::empty());
        assert(split_on(y, c) =~= seq![y]);
    } else {
        let y1 = y.drop_last();
        assert(free_of(y1, c)) by {
            assert forall|j: int| 0 <= j < y1.len() implies #[trigger] y1[j] != c by {
                assert(y1[j] == y[j]);
            }
        }
        lemma_split_on_free(y1, c);
        assert(y.last() == y[y.len() - 1]);
        assert(y.last() != c);
        assert(y1.push(y.last()) =~= y);
        let p = split_on(y1, c);
        assert(p.update(p.len() - 1, p.last().push(y.last())) =~= seq![y]);
    }
}

/// Splitting at a separator splits the two sides apart.
pub proof fn lemma_split_on_concat(x: Seq<char>, y: Seq<char>, c: char)
    ensures
        split_on(x + seq![c] + y, c) == split_on(x, c) + split_on(y, c),
    decreases y.len(),
{
    let t = x + seq![c] + y;
    if y.len() == 0 {
        assert(t.drop_last() =~= x);
        assert(split_on(x, c).push(seq![]) =~= split_on(x, c) + split_on(y, c));
    } else {
        let y1 = y.drop_last();
        let d = y.last();
        lemma_split_on_concat(x, y1, c);
        assert(t.drop_last() =~= x + seq![c] + y1);
        assert(t.last() == d);
        lemma_split_on_nonempty(y1, c);
        lemma_split_on_nonempty(x, c);
        let px = split_on(x, c);
        let py = split_on(y1, c);
        if d == c {
            assert((px + py).push(seq![]) =~= px + py.push(seq![]));
        } else {
            let q = px + py;
            assert(q.last() == py.last());
            assert(q.update(q.len() - 1, q.last().push(d)) =~= px + py.update(
                py.len() - 1,
                py.last().push(d),
            ));
        }
    }
}

/// Joining pieces that do not contain the separator and splitting the result
/// gives the pieces back.
pub proof fn lemma_split_on_join(parts: Seq<Seq<char>>, c: char)
    requires
        parts.len() >= 1,
        forall|i: int| 0 <= i < parts.len() ==> free_of(#[trigger] parts[i], c),
    ensures
        split_on(join(parts, seq![c]), c) == parts,
    decreases parts.len(),
{
    if parts.len() == 1 {
        lemma_split_on_free(parts[0], c);
        assert(seq![parts[0]] =~= parts);
    } else {
        let init = parts.drop_last();
        assert forall|i: int| 0 <= i < init.len() implies free_of(#[trigger] init[i], c) by {
            assert(init[i] == parts[i]);
        }
        lemma_split_on_join(init, c);
        assert(free_of(parts[parts.len() - 1], c));
        lemma_split_on_free(parts.last(), c);
        lemma_split_on_concat(join(init, seq![c]), parts.last(), c);
        assert(init + seq![parts.last()] =~= parts);
    }
}

pub open spec fn pow10(k: nat) -> nat
    decreases k,
{
    if k == 0 {
        1
    } else {
        10 * pow10((k - 1) as nat)
    }
}

/// A number below `10^k` has at most `k` decimal digits.
pub proof fn lemma_decimal_len(n: nat, k: nat)
    requires
        k >= 1,
        n < pow10(k),
    ensures
        decimal(n).len() <= k,
    decreases k,
{
    if n >= 10 {
        assert(k >= 2) by {
            if k == 1 {
                reveal_with_fuel(pow10, 2);
                assert(pow10(1) == 10);
            }
        }
        let p = pow10((k - 1) as nat);
        assert(n / 10 < p) by (nonlinear_arith)
            requires
                n < 10 * p,
        ;
        lemma_decimal_len(n / 10, (k - 1) as nat);
        assert(decimal(n) == decimal(n / 10).push(digit_char(n % 10)));
    }
}

/// Every number that fits in a `usize` has at most 20 decimal digits.
pub proof fn lemma_usize_decimal_len(n: nat)
    requires
        n <= usize::MAX,
    ensures
        decimal(n).len() <= 20,
{
    reveal_with_fuel(pow10, 21);
    assert(pow10(20) == 100000000000000000000);
    assert(usize::MAX <= 18446744073709551615);
    lemma_decimal_len(n, 20);
}

/// A space after a text adds no word.
proof fn lemma_split_words_space(y: Seq<char>)
    ensures
        split_words(y.push(' ')) == split_words(y),
{
    assert(y.push(' ').drop_last() =~= y);
}

/// After an empty text or one that ends in whitespace, a non-empty run of
/// non-whitespace characters is one more word.
proof fn lemma_split_words_append_word(y: Seq<char>, w: Seq<char>)
    requires
        y.len() == 0 || is_space(y.last()),
        w.len() > 0,
        forall|j: int| 0 <= j < w.len() ==> !is_space(#[trigger] w[j]),
    ensures
        split_words(y + w) == split_words(y).push(w),
    decreases w.len(),
{
    let t = y + w;
    if w.len() == 1 {
        assert(t.drop_last() =~= y);
        assert(t.last() == w[0]);
        if t.len() >= 2 {
            assert(t[t.len() - 2] == y.last());
        }
        assert(seq![w[0]] =~= w);
    } else {
        let w1 = w.drop_last();
        lemma_split_words_append_word(y, w1);
        assert(t.drop_last() =~= y + w1);
        assert(t[t.len() - 2] == w1.last());
        assert(w1.last() == w[w.len() - 2]);
        assert(t.last() == w.last());
        let prev = split_words(y).push(w1);
        assert(w1.push(w.last()) =~= w);
        assert(prev.last() == w1);
        assert(prev.update(prev.len() - 1, prev.last().push(w.last())) =~= split_words(y).push(w));
    }
}

/// Joining words (non-empty, without whitespace) with spaces and splitting
/// the result gives the words back.
pub proof fn lemma_split_join_words(ws: Seq<Seq<char>>)
    requires
        forall|i: int| 0 <= i < ws.len() ==> #[trigger] ws[i].len() > 0,
        forall|i: int, j: int|
            0 <= i < ws.len() && 0 <= j < ws[i].len() ==> !is_space(#[trigger] ws[i][j]),
    ensures
        split_words(join(ws, seq![' '])) == ws,
    decreases ws.len(),
{
    if ws.len() == 0 {
        assert(split_words(join(ws, seq![' '])) =~= ws);
    } else if ws.len() == 1 {
        let w = ws[0];
        assert(Seq::<char>::empty() + w =~= w);
        assert forall|j: int| 0 <= j < w.len() implies !is_space(#[trigger] w[j]) by {
            assert(ws[0][j] == w[j]);
        }
        lemma_split_words_append_word(Seq::<char>::empty(), w);
        assert(Seq::<Seq<char>>::empty().push(w) =~= ws);
    } else {
        let init = ws.drop_last();
        let w = ws.last();
        assert forall|i: int, j: int|
            0 <= i < init.len() && 0 <= j < init[i].len() implies !is_space(#[trigger] init[i][j]) by {
            assert(init[i] == ws[i]);
        }
        assert forall|i: int| 0 <= i < init.len() implies #[trigger] init[i].len() > 0 by {
            assert(init[i] == ws[i]);
        }
        lemma_split_join_words(init);
        let y = join(init, seq![' ']);
        lemma_split_words_space(y);
        assert(y + seq![' '] =~= y.push(' '));
        assert forall|j: int| 0 <= j < w.len() implies !is_space(#[trigger] w[j]) by {
            assert(ws[ws.len() - 1][j] == w[j]);
        }
        lemma_split_words_append_word(y.push(' '), w);
        assert(ws.len() - 1 >= 0 && ws[ws.len() - 1] == w);
        assert(init.push(w) =~= ws);
    }
}

/// Splitting the space-joined words of a text gives the same words.
pub proof fn lemma_resplit_words(s: Seq<char>)
    ensures
        split_words(join(split_words(s), seq![' '])) == split_words(s),
{
    lemma_split_words_shape(s);
    lemma_split_join_words(split_words(s));
}

// ---------------------------------------------------------------------------
// Lemmas
// ---------------------------------------------------------------------------

pub proof fn lemma_digit_char(d: nat)
    requires
        d < 16,
    ensures
        is_hex_digit(digit_char(d)),
        digit_value(digit_char(d)) == d,
        d < 10 ==> is_ascii_digit(digit_char(d)),
{
}

/// The digits of a number are digits of the base, and they spell the number.
pub proof fn lemma_digits_of(n: nat, base: nat)
    requires
        base == 10 || base == 16,
    ensures
        digits_of(n, base).len() >= 1,
        all_hex_digits(digits_of(n, base)),
        base == 10 ==> all_ascii_digits(digits_of(n, base)),
        digits_value(digits_of(n, base), base) == n,
    decreases n,
{
    if n < base {
        lemma_digit_char(n);
        let s = digits_of(n, base);
        assert(s == seq![digit_char(n)]);
        assert(s.drop_last() =~= Seq::<char>::empty());
        assert(digits_value(s, base) == digits_value(s.drop_last(), base) * base + digit_value(
            s.last(),
        ));
    } else {
        assert(n / base < n) by (nonlinear_arith)
            requires
                base >= 2,
                n >= base,
        ;
        lemma_digits_of(n / base, base);
        let s = digits_of(n, base);
        assert(s == digits_of(n / base, base).push(digit_char(n % base)));
        assert(s.drop_last() =~= digits_of(n / base, base));
        assert((n / base) * base + n % base == n && n % base < base) by (nonlinear_arith)
            requires
                base >= 2,
        ;
        lemma_digit_char(n % base);
        assert(s.last() == digit_char(n % base));
        assert(digits_value(s, base) == digits_value(s.drop_last(), base) * base + digit_value(
            s.last(),
        ));
    }
}

/// Two numbers have the same decimal text exactly when they are equal.
pub proof fn lemma_decimal_injective(a: nat, b: nat)
    ensures
        decimal(a) == decimal(b) <==> a == b,
{
    lemma_digits_of(a, 10);
    lemma_digits_of(b, 10);
}

/// The decimal text of a number that fits in a `usize` parses back to it.
pub proof fn lemma_decimal_parses_back(n: nat)
    requires
        n <= usize::MAX,
    ensures
        parse_usize_text(decimal(n)) == Some(n),
{
    lemma_digits_of(n, 10);
    let d = decimal(n);
    assert(is_ascii_digit(d[0]));
    assert(unsigned_body(d) == d);
}

/// Appending a digit never lowers the value.
pub proof fn lemma_digits_value_prefix(s: Seq<char>, k: int, base: nat)
    requires
        0 <= k <= s.len(),
        base >= 1,
    ensures
        digits_value(s.take(k), base) <= digits_value(s, base),
    decreases s.len() - k,
{
    if k < s.len() {
        let t = s.take(k + 1);
        assert(t.drop_last() =~= s.take(k));
        assert(digits_value(s.take(k), base) <= digits_value(s.take(k), base) * base)
            by (nonlinear_arith)
            requires
                base >= 1,
        ;
        lemma_digits_value_prefix(s, k + 1, base);
    } else {
        assert(s.take(k) =~= s);
    }
}

/// Every word of `split_words` is non-empty and holds no whitespace.
pub proof fn lemma_split_words_shape(s: Seq<char>)
    ensures
        forall|i: int|
            0 <= i < split_words(s).len() ==> #[trigger] split_words(s)[i].len() > 0,
        forall|i: int, j: int|
            0 <= i < split_words(s).len() && 0 <= j < split_words(s)[i].len() ==> !is_space(
                #[trigger] split_words(s)[i][j],
            ),
        s.len() > 0 && !is_space(s.last()) ==> split_words(s).len() > 0,
    decreases s.len(),
{
    if s.len() > 0 {
        let t = s.drop_last();
        lemma_split_words_shape(t);
        let prev = split_words(t);
        let c = s.last();
        if !is_space(c) {
            if s.len() >= 2 && !is_space(s[s.len() - 2]) {
                assert(t.last() == s[s.len() - 2]);
                let w = split_words(s);
                assert(w.len() == prev.len());
                assert forall|i: int, j: int|
                    0 <= i < w.len() && 0 <= j < w[i].len() implies !is_space(#[trigger] w[i][j]) by {
                    if i == prev.len() - 1 {
                        if j < prev.last().len() {
                            assert(w[i][j] == prev[i][j]);
                        }
                    } else {
                        assert(w[i] == prev[i]);
                    }
                }
                assert forall|i: int| 0 <= i < w.len() implies #[trigger] w[i].len() > 0 by {
                    if i != prev.len() - 1 {
                        assert(w[i] == prev[i]);
                    }
                }
            } else {
                let w = split_words(s);
                assert forall|i: int, j: int|
                    0 <= i < w.len() && 0 <= j < w[i].len() implies !is_space(#[trigger] w[i][j]) by {
                    if i < prev.len() {
                        assert(w[i] == prev[i]);
                    }
                }
                assert forall|i: int| 0 <= i < w.len() implies #[trigger] w[i].len() > 0 by {
                    if i < prev.len() {
                        assert(w[i] == prev[i]);
                    }
                }
            }
        }
    }
}

// ---------------------------------------------------------------------------
// Executable helpers
// ---------------------------------------------------------------------------

/// Collects the characters of `s` into a vector.
pub fn chars_of(s: &str) -> (v: Vec<char>)
    ensures
        v@ == s@,
{
    let mut v: Vec<char> = Vec::new();
    for c in iter: s.chars()
        invariant
            v@ == iter.seq().take(iter.index()),
    {
        v.push(c);
    }
    v
}

/// Whether `c` is whitespace in the sense of `char::is_whitespace`.
pub fn is_space_char(c: char) -> (r: bool)
    ensures
        r == is_space(c),
{
    let u = c as u32;
    (0x09 <= u && u <= 0x0D) || u == 0x20 || u == 0x85 || u == 0xA0 || u == 0x1680 || (0x2000
        <= u && u <= 0x200A) || u == 0x2028 || u == 0x2029 || u == 0x202F || u == 0x205F || u
        == 0x3000
}

pub fn is_ascii_digit_char(c: char) -> (r: bool)
    ensures
        r == is_ascii_digit(c),
{
    '0' <= c && c <= '9'
}

pub fn is_hex_digit_char(c: char) -> (r: bool)
    ensures
        r == is_hex_digit(c),
{
    ('0' <= c && c <= '9') || ('a' <= c && c <= 'f') || ('A' <= c && c <= 'F')
}

pub fn digit_value_of(c: char) -> (r: u32)
    requires
        is_hex_digit(c),
    ensures
        r == digit_value(c),
        r < 16,
        is_ascii_digit(c) ==> r < 10,
{
    if '0' <= c && c <= '9' {
        (c as u32) - ('0' as u32)
    } else if 'a' <= c && c <= 'f' {
        (c as u32) - ('a' as u32) + 10
    } else {
        (c as u32) - ('A' as u32) + 10
    }
}

/// The one-character string of a digit below 16.
pub fn digit_str(d: u64) -> (r: &'static str)
    requires
        d < 16,
    ensures
        r@ == seq![digit_char(d as nat)],
{
    proof {
        reveal_strlit("0");
        reveal_strlit("1");
        reveal_strlit("2");
        reveal_strlit("3");
        reveal_strlit("4");
        reveal_strlit("5");
        reveal_strlit("6");
        reveal_strlit("7");
        reveal_strlit("8");
        reveal_strlit("9");
        reveal_strlit("a");
        reveal_strlit("b");
        reveal_strlit("c");
        reveal_strlit("d");
        reveal_strlit("e");
        reveal_strlit("f");
    }
    let r = if d == 0 {
        "0"
    } else if d == 1 {
        "1"
    } else if d == 2 {
        "2"
    } else if d == 3 {
        "3"
    } else if d == 4 {
        "4"
    } else if d == 5 {
        "5"
    } else if d == 6 {
        "6"
    } else if d == 7 {
        "7"
    } else if d == 8 {
        "8"
    } else if d == 9 {
        "9"
    } else if d == 10 {
        "a"
    } else if d == 11 {
        "b"
    } else if d == 12 {
        "c"
    } else if d == 13 {
        "d"
    } else if d == 14 {
        "e"
    } else {
        "f"
    };
    assert(r@ =~= seq![digit_char(d as nat)]);
    r
}

/// Appends the digits of `n` in base `base` (10 or 16) to `out`.
pub fn push_digits(out: &mut String, n: u64, base: u64)
    requires
        base == 10 || base == 16,
    ensures
        final(out)@ == old(out)@ + digits_of(n as nat, base as nat),
    decreases n,
{
    if n >= base {
        push_digits(out, n / base, base);
    }
    out.append(digit_str(n % base));
    proof {
        if n >= base {
            assert(digits_of(n as nat, base as nat) == digits_of((n / base) as nat, base as nat).push(
                digit_char((n % base) as nat),
            ));
        }
    }
    assert(out@ =~= old(out)@ + digits_of(n as nat, base as nat));
}

/// The decimal text of `n`, as `format!("{}", n)` writes it.
pub fn decimal_string(n: u64) -> (r: String)
    ensures
        r@ == decimal(n as nat),
{
    let mut r = String::new();
    push_digits(&mut r, n, 10);
    assert(r@ =~= decimal(n as nat));
    r
}

/// Parses `s[lo..hi]` as `str::parse::<usize>` does.
pub fn parse_usize_range(s: &Vec<char>, lo: usize, hi: usize) -> (r: Option<usize>)
    requires
        lo <= hi <= s.len(),
    ensures
        match r {
            Some(v) => parse_usize_text(s@.subrange(lo as int, hi as int)) == Some(v as nat),
            None => parse_usize_text(s@.subrange(lo as int, hi as int)) is None,
        },
{
    let ghost t = s@.subrange(lo as int, hi as int);
    let start = if lo < hi && s[lo] == '+' {
        lo + 1
    } else {
        lo
    };
    let ghost d = s@.subrange(start as int, hi as int);
    assert(unsigned_body(t) =~= d);
    if start == hi {
        return None;
    }
    let mut acc: usize = 0;
    let mut i = start;
    while i < hi
        invariant
            lo <= start <= i <= hi <= s.len(),
            d == s@.subrange(start as int, hi as int),
            t == s@.subrange(lo as int, hi as int),
            unsigned_body(t) == d,
            all_ascii_digits(d.take(i - start)),
            acc as nat == digits_value(d.take(i - start), 10),
        decreases hi - i,
    {
        let c = s[i];
        if !is_ascii_digit_char(c) {
            assert(d[i - start] == c);
            return None;
        }
        let dv = digit_value_of(c);
        assert(d.take(i - start + 1).drop_last() =~= d.take(i - start));
        assert(d.take(i - start + 1).last() == c);
        assert(all_ascii_digits(d.take(i - start + 1)));
        assert(digits_value(d.take(i - start + 1), 10) == acc * 10 + dv);
        let m = acc.checked_mul(10);
        if m.is_none() {
            proof {
                lemma_value_past_max(d, (i - start + 1) as int);
            }
            return None;
        }
        let m = m.unwrap();
        let a = m.checked_add(dv as usize);
        if a.is_none() {
            proof {
                lemma_value_past_max(d, (i - start + 1) as int);
            }
            return None;
        }
        acc = a.unwrap();
        i = i + 1;
    }
    assert(d.take(hi - start) =~= d);
    Some(acc)
}

/// Once a prefix of the digits exceeds `usize::MAX`, the text does not parse.
proof fn lemma_value_past_max(d: Seq<char>, k: int)
    requires
        0 <= k <= d.len(),
        digits_value(d.take(k), 10) > usize::MAX,
    ensures
        all_ascii_digits(d) ==> digits_value(d, 10) > usize::MAX,
{
    lemma_digits_value_prefix(d, k, 10);
}

/// The words of `s`, as index ranges into `s`.
pub fn word_bounds(s: &Vec<char>) -> (r: Vec<(usize, usize)>)
    ensures
        r.len() == split_words(s@).len(),
        forall|k: int|
            0 <= k < r.len() ==> {
                &&& (#[trigger] r[k]).0 <= r[k].1 <= s.len()
                &&& s@.subrange(r[k].0 as int, r[k].1 as int) == split_words(s@)[k]
            },
{
    let mut r: Vec<(usize, usize)> = Vec::new();
    let ghost mut done: Seq<Seq<char>> = seq![];
    let mut in_word = false;
    let mut start: usize = 0;
    let mut i: usize = 0;
    while i < s.len()
        invariant
            i <= s.len(),
            r.len() == done.len(),
            forall|k: int|
                0 <= k < r.len() ==> {
                    &&& (#[trigger] r[k]).0 <= r[k].1 <= s.len()
                    &&& s@.subrange(r[k].0 as int, r[k].1 as int) == done[k]
                },
            in_word <==> (i > 0 && !is_space(s@[i - 1])),
            in_word ==> start < i,
            in_word ==> split_words(s@.take(i as int)) == done.push(
                s@.subrange(start as int, i as int),
            ),
            !in_word ==> split_words(s@.take(i as int)) == done,
        decreases s.len() - i,
    {
        let c = s[i];
        let ghost prefix = s@.take(i + 1);
        assert(prefix.drop_last() =~= s@.take(i as int));
        assert(prefix.last() == c);
        if is_space_char(c) {
            if in_word {
                r.push((start, i));
                proof {
                    done = done.push(s@.subrange(start as int, i as int));
                }
            }
            in_word = false;
        } else {
            if in_word {
                assert(prefix[prefix.len() - 2] == s@[i - 1]);
                assert(s@.subrange(start as int, i as int).push(c) =~= s@.subrange(
                    start as int,
                    i + 1,
                ));
            } else {
                start = i;
                in_word = true;
                assert(seq![c] =~= s@.subrange(i as int, i + 1));
            }
        }
        i = i + 1;
    }
    assert(s@.take(s.len() as int) =~= s@);
    if in_word {
        r.push((start, s.len()));
        proof {
            done = done.push(s@.subrange(start as int, s.len() as int));
        }
    }
    r
}

} // verus!
