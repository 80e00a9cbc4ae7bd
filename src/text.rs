//! Character classes, the name sanitizer and small string utilities.
use vstd::prelude::*;

verus! {

/// Whether `c` is an ASCII decimal digit, as `char::is_digit(10)` decides.
pub open spec fn is_decimal_digit(c: char) -> bool {
    '0' <= c && c <= '9'
}

/// The characters with the Unicode `White_Space` property.
pub open spec fn is_white_space(c: char) -> bool {
    ('\u{9}' <= c && c <= '\u{d}') || c == ' ' || c == '\u{85}' || c == '\u{a0}' || c
        == '\u{1680}' || ('\u{2000}' <= c && c <= '\u{200a}') || c == '\u{2028}' || c
        == '\u{2029}' || c == '\u{202f}' || c == '\u{205f}' || c == '\u{3000}'
}

/// Whether `c` has the Unicode `Alphabetic` property.
pub uninterp spec fn alphabetic(c: char) -> bool;

/// Whether the sanitizer lets `c` through unchanged.
pub open spec fn is_kept(c: char) -> bool {
    is_white_space(c) || is_decimal_digit(c) || alphabetic(c)
}

/// `s` with every character that is not whitespace, a decimal digit or a
/// letter replaced by a space.
pub open spec fn sanitized(s: Seq<char>) -> Seq<char> {
    Seq::new(s.len(), |i: int| if is_kept(s[i]) { s[i] } else { ' ' })
}

/// `s` without its leading whitespace.
pub open spec fn trim_start(s: Seq<char>) -> Seq<char>
    decreases s.len(),
{
    if s.len() > 0 && is_white_space(s[0]) {
        trim_start(s.drop_first())
    } else {
        s
    }
}

/// `s` without its trailing whitespace.
pub open spec fn trim_end(s: Seq<char>) -> Seq<char>
    decreases s.len(),
{
    if s.len() > 0 && is_white_space(s.last()) {
        trim_end(s.drop_last())
    } else {
        s
    }
}

/// `s` without leading or trailing whitespace.
pub open spec fn trimmed(s: Seq<char>) -> Seq<char> {
    trim_end(trim_start(s))
}

/// `s` with each pair of spaces, taken left to right without overlap,
/// replaced by one space.
pub open spec fn collapse_pairs(s: Seq<char>) -> Seq<char>
    decreases s.len(),
{
    if s.len() >= 2 && s[0] == ' ' && s[1] == ' ' {
        seq![' '] + collapse_pairs(s.subrange(2, s.len() as int))
    } else if s.len() > 0 {
        seq![s[0]] + collapse_pairs(s.drop_first())
    } else {
        s
    }
}

/// The strings of `parts` written one after another.
pub open spec fn concat_all(parts: Seq<Seq<char>>) -> Seq<char>
    decreases parts.len(),
{
    if parts.len() == 0 {
        Seq::empty()
    } else {
        concat_all(parts.drop_last()) + parts.last()
    }
}

/// The strings of `parts` with `sep` between each two.
pub open spec fn join_with(parts: Seq<Seq<char>>, sep: Seq<char>) -> Seq<char>
    decreases parts.len(),
{
    if parts.len() == 0 {
        Seq::empty()
    } else if parts.len() == 1 {
        parts[0]
    } else {
        join_with(parts.drop_last(), sep) + sep + parts.last()
    }
}

/// Relies on `char::is_whitespace`: true exactly for the `White_Space` characters.
#[verifier::external_body]
fn char_is_whitespace(c: char) -> (r: bool)
    ensures
        r == is_white_space(c),
{
    c.is_whitespace()
}

/// Relies on `char::is_alphabetic`: the Unicode `Alphabetic` property.
#[verifier::external_body]
fn char_is_alphabetic(c: char) -> (r: bool)
    ensures
        r == alphabetic(c),
{
    c.is_alphabetic()
}

/// Relies on `char::is_digit` with radix 10: true exactly for `'0'` to `'9'`.
#[verifier::external_body]
fn char_is_decimal(c: char) -> (r: bool)
    ensures
        r == is_decimal_digit(c),
{
    c.is_digit(10)
}

/// Relies on `str::trim`: removes leading and trailing `White_Space` characters.
#[verifier::external_body]
pub(crate) fn trim_str(s: &str) -> (r: String)
    ensures
        r@ == trimmed(s@),
{
    s.trim().to_string()
}

/// Copies a string slice into an owned string.
pub(crate) fn owned(s: &str) -> (r: String)
    ensures
        r@ == s@,
{
    String::from_str(s)
}

/// Replaces, in place, every character of `name` that is not whitespace, a
/// decimal digit or a letter by a space. The length in characters is kept.
pub fn strip_name(name: &mut String)
    ensures
        final(name)@ == sanitized(old(name)@),
        final(name)@.len() == old(name)@.len(),
{
    let src: &str = name.as_str();
    let n = src.unicode_len();
    let mut out = String::new();
    let mut i: usize = 0;
    while i < n
        invariant
            n == src@.len(),
            i <= n,
            out@ == sanitized(src@).subrange(0, i as int),
        decreases n - i,
    {
        let c = src.get_char(i);
        if char_is_whitespace(c) || char_is_decimal(c) || char_is_alphabetic(c) {
            out.append(src.substring_char(i, i + 1));
        } else {
            out.append(" ");
            proof {
                reveal_strlit(" ");
            }
        }
        proof {
            assert(sanitized(src@).subrange(0, i + 1) =~= sanitized(src@).subrange(0, i as int)
                + seq![sanitized(src@)[i as int]]);
        }
        i = i + 1;
    }
    proof {
        assert(out@ =~= sanitized(src@));
    }
    *name = out;
}

/// Replaces each pair of spaces in `s`, left to right and without overlap,
/// by a single space.
pub fn collapse_double_spaces(s: &str) -> (r: String)
    ensures
        r@ == collapse_pairs(s@),
{
    let n = s.unicode_len();
    let mut out = String::new();
    let mut i: usize = 0;
    proof {
        assert(s@.subrange(0, n as int) =~= s@);
    }
    while i < n
        invariant
            n == s@.len(),
            i <= n,
            out@ + collapse_pairs(s@.subrange(i as int, n as int)) == collapse_pairs(s@),
        decreases n - i,
    {
        let rest = Ghost(s@.subrange(i as int, n as int));
        let c = s.get_char(i);
        if c == ' ' && i + 1 < n && s.get_char(i + 1) == ' ' {
            out.append(" ");
            proof {
                reveal_strlit(" ");
                assert(rest@.subrange(2, rest@.len() as int) =~= s@.subrange(i + 2, n as int));
                assert(out@ + collapse_pairs(s@.subrange(i + 2, n as int)) =~= collapse_pairs(
                    s@,
                ));
            }
            i = i + 2;
        } else {
            out.append(s.substring_char(i, i + 1));
            proof {
                assert(rest@.drop_first() =~= s@.subrange(i + 1, n as int));
                assert(out@ + collapse_pairs(s@.subrange(i + 1, n as int)) =~= collapse_pairs(
                    s@,
                ));
            }
            i = i + 1;
        }
    }
    proof {
        assert(s@.subrange(n as int, n as int) =~= Seq::<char>::empty());
        assert(out@ =~= collapse_pairs(s@));
    }
    out
}

/// The strings of `parts` written one after another.
pub fn concat_strings(parts: &Vec<String>) -> (r: String)
    ensures
        r@ == concat_all(parts.deep_view()),
{
    let mut out = String::new();
    let mut i: usize = 0;
    while i < parts.len()
        invariant
            i <= parts.len(),
            out@ == concat_all(parts.deep_view().subrange(0, i as int)),
        decreases parts.len() - i,
    {
        out.append(parts[i].as_str());
        proof {
            assert(parts.deep_view().subrange(0, i + 1).drop_last() =~= parts.deep_view().subrange(
                0,
                i as int,
            ));
        }
        i = i + 1;
    }
    proof {
        assert(parts.deep_view().subrange(0, i as int) =~= parts.deep_view());
    }
    out
}

/// The strings of `parts` with `sep` between each two.
pub fn join_strings(parts: &Vec<String>, sep: &str) -> (r: String)
    ensures
        r@ == join_with(parts.deep_view(), sep@),
{
    let mut out = String::new();
    let mut i: usize = 0;
    while i < parts.len()
        invariant
            i <= parts.len(),
            out@ == join_with(parts.deep_view().subrange(0, i as int), sep@),
        decreases parts.len() - i,
    {
        if i > 0 {
            out.append(sep);
        }
        out.append(parts[i].as_str());
        proof {
            assert(parts.deep_view().subrange(0, i + 1).drop_last() =~= parts.deep_view().subrange(
                0,
                i as int,
            ));
            if i == 0 {
                assert(parts.deep_view().subrange(0, 1)[0] == parts.deep_view()[0]);
            }
        }
        i = i + 1;
    }
    proof {
        assert(parts.deep_view().subrange(0, i as int) =~= parts.deep_view());
    }
    out
}

/// Sanitizing twice gives what sanitizing once gives: a space is itself
/// whitespace, so the second pass changes nothing.
pub proof fn lemma_sanitize_idempotent(s: Seq<char>)
    ensures
        sanitized(sanitized(s)) == sanitized(s),
{
    assert(is_white_space(' '));
    assert(sanitized(sanitized(s)) =~= sanitized(s));
}

/// Sanitizing keeps the length, and each character of the result is either
/// the character in the same place, where that one is kept, or a space.
pub proof fn lemma_sanitize_shape(s: Seq<char>)
    ensures
        sanitized(s).len() == s.len(),
        forall|i: int|
            0 <= i < s.len() ==> #[trigger] sanitized(s)[i] == (if is_kept(s[i]) {
                s[i]
            } else {
                ' '
            }),
{
}

} // verus!
