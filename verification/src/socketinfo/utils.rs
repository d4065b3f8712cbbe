//! Text utilities.
use vstd::prelude::*;
use vstd::string::StringSliceAdditionalSpecFns;
use vstd::utf8::{decode_utf8, encode_utf8, is_char_boundary};
use crate::text::{chars_of, parse_usize_range, parse_usize_text, split_words, word_bounds};

verus! {

broadcast use vstd::string::group_string_axioms;

/// The words of `buffer`: its maximal runs of non-whitespace characters, in
/// order.
pub fn split_text_by_words(buffer: &str) -> (r: Vec<&str>)
    ensures
        r.len() == split_words(buffer@).len(),
        forall|i: int| 0 <= i < r.len() ==> (#[trigger] r[i])@ == split_words(buffer@)[i],
{
    let chars = chars_of(buffer);
    let bounds = word_bounds(&chars);
    let mut words: Vec<&str> = Vec::new();
    let mut k: usize = 0;
    while k < bounds.len()
        invariant
            k <= bounds.len(),
            chars@ == buffer@,
            bounds.len() == split_words(chars@).len(),
            forall|j: int|
                0 <= j < bounds.len() ==> {
                    &&& (#[trigger] bounds[j]).0 <= bounds[j].1 <= chars.len()
                    &&& chars@.subrange(bounds[j].0 as int, bounds[j].1 as int) == split_words(
                        chars@,
                    )[j]
                },
            words.len() == k,
            forall|j: int| 0 <= j < k ==> (#[trigger] words[j])@ == split_words(buffer@)[j],
        decreases bounds.len() - k,
    {
        let b = bounds[k];
        words.push(buffer.substring_char(b.0, b.1));
        k = k + 1;
    }
    words
}

/// Whether `text` reads as a `usize`: an optional `+`, then one or more
/// ASCII digits whose value fits.
pub fn isdigit(text: &&str) -> (r: bool)
    ensures
        r == (parse_usize_text((*text)@) is Some),
{
    let chars = chars_of(*text);
    assert(chars@.subrange(0, chars.len() as int) =~= chars@);
    parse_usize_range(&chars, 0, chars.len()).is_some()
}

/// The UTF-8 length of `s`.
pub open spec fn utf8_len(s: Seq<char>) -> nat {
    encode_utf8(s).len()
}

/// The first `new_len` bytes of `str` (all of it when it is shorter), as
/// `String::truncate` leaves them. `new_len` must fall on a character
/// boundary when it is inside the string.
pub fn truncate(str: &String, new_len: usize) -> (r: String)
    requires
        utf8_len(str@) <= usize::MAX,
        new_len >= utf8_len(str@) || is_char_boundary(encode_utf8(str@), new_len as int),
    ensures
        new_len >= utf8_len(str@) ==> r@ == str@,
        new_len < utf8_len(str@) ==> encode_utf8(r@) == encode_utf8(str@).take(new_len as int),
        r@ == str@.take(r@.len() as int),
{
    broadcast use vstd::utf8::encode_utf8_valid_utf8, vstd::utf8::encode_utf8_decode_utf8;

    let s = str.as_str();
    if new_len >= s.len() {
        String::from_str(s)
    } else {
        let (head, _tail) = s.split_at(new_len);
        let r = String::from_str(head);
        proof {
            let bytes = encode_utf8(str@);
            assert(s.spec_bytes() == bytes);
            assert(head.spec_bytes() == encode_utf8(r@));
            assert(encode_utf8(r@) =~= bytes.subrange(0, new_len as int));
            assert(bytes.take(new_len as int) =~= bytes.subrange(0, new_len as int));
            vstd::utf8::decode_utf8_split(bytes, new_len as int);
            assert(decode_utf8(encode_utf8(r@)) == r@);
            assert(str@ =~= r@ + decode_utf8(bytes.subrange(new_len as int, bytes.len() as int)));
            assert(str@.take(r@.len() as int) =~= r@);
        }
        r
    }
}

/// The characters of `s` with each NUL character replaced by a space.
pub open spec fn printable(s: Seq<char>) -> Seq<char> {
    s.map_values(|c: char| if c == '\0' { ' ' } else { c })
}

/// Cleaning keeps the length, leaves no NUL character, and cleaning twice is
/// cleaning once.
pub proof fn lemma_printable(s: Seq<char>)
    ensures
        printable(s).len() == s.len(),
        forall|i: int| 0 <= i < s.len() ==> #[trigger] printable(s)[i] != '\0',
        printable(printable(s)) == printable(s),
{
    assert(printable(printable(s)) =~= printable(s));
}

/// `dirty_string` with each NUL character replaced by a space.
pub fn remove_non_printable_chars(dirty_string: &String) -> (r: String)
    ensures
        r@ == printable(dirty_string@),
{
    let s = dirty_string.as_str();
    let chars = chars_of(s);
    proof {
        reveal_strlit(" ");
    }
    let mut out = String::new();
    let mut run_start: usize = 0;
    let mut i: usize = 0;
    while i < chars.len()
        invariant
            run_start <= i <= chars.len(),
            chars@ == s@,
            s@ == dirty_string@,
            out@ == printable(s@.take(run_start as int)),
            forall|j: int| run_start <= j < i ==> chars@[j] != '\0',
        decreases chars.len() - i,
    {
        if chars[i] == '\0' {
            let ghost before = out@;
            proof {
                reveal_strlit(" ");
            }
            out.append(s.substring_char(run_start, i));
            out.append(" ");
            assert(out@ =~= before + s@.subrange(run_start as int, i as int) + seq![' ']);
            assert(before.len() == run_start);
            assert(out@ =~= printable(s@.take(i + 1))) by {
                assert forall|j: int| 0 <= j < i + 1 implies out@[j] == printable(s@.take(i + 1))[j] by {
                    if j < run_start {
                        assert(out@[j] == before[j]);
                        assert(before[j] == printable(s@.take(run_start as int))[j]);
                    } else if j < i {
                        assert(out@[j] == s@[j]);
                        assert(chars@[j] != '\0');
                    }
                }
            }
            run_start = i + 1;
        }
        i = i + 1;
    }
    let ghost before = out@;
    out.append(s.substring_char(run_start, chars.len()));
    assert(out@ =~= before + s@.subrange(run_start as int, s@.len() as int));
    assert(before.len() == run_start);
    assert(out@ =~= printable(s@)) by {
        assert forall|j: int| 0 <= j < s@.len() implies out@[j] == printable(s@)[j] by {
            if j < run_start {
                assert(out@[j] == before[j]);
                assert(before[j] == printable(s@.take(run_start as int))[j]);
            } else {
                assert(out@[j] == s@[j]);
                assert(chars@[j] != '\0');
            }
        }
    }
    out
}

} // verus!
