//! Case-insensitive alternation over literal strings, searched with `regex`.
use vstd::prelude::*;

verus! {

/// What `regex::escape` makes of a literal: a pattern that matches it verbatim.
pub uninterp spec fn escaped(s: Seq<char>) -> Seq<char>;

/// Whether `regex::Regex::new` accepts a pattern.
pub uninterp spec fn pattern_compiles(pattern: Seq<char>) -> bool;

/// The successive non-overlapping matches of a pattern in a text, as
/// `regex::Regex::find_iter` yields them.
pub uninterp spec fn pattern_hits(pattern: Seq<char>, text: Seq<char>) -> Seq<Seq<char>>;

/// The pieces of a text between the matches of a pattern, as
/// `regex::Regex::split` yields them.
pub uninterp spec fn pattern_gaps(pattern: Seq<char>, text: Seq<char>) -> Seq<Seq<char>>;

/// Each literal of `lits`, escaped.
pub open spec fn escaped_all(lits: Seq<Seq<char>>) -> Seq<Seq<char>> {
    Seq::new(lits.len(), |i: int| escaped(lits[i]))
}

/// The case-insensitive pattern that matches any one of `lits` as literal text.
pub open spec fn alternation(lits: Seq<Seq<char>>) -> Seq<char> {
    seq!['(', '?', 'i', ')', '('] + crate::text::join_with(escaped_all(lits), seq!['|']) + seq![
        ')',
    ]
}

/// The result of searching `text` with `pattern`: `None` where the pattern
/// does not compile, else the pieces between matches and the matches.
pub open spec fn search(pattern: Seq<char>, text: Seq<char>) -> Option<
    (Seq<Seq<char>>, Seq<Seq<char>>),
> {
    if pattern_compiles(pattern) {
        Some((pattern_gaps(pattern, text), pattern_hits(pattern, text)))
    } else {
        None
    }
}

/// Relies on `regex::escape`: the literal with every meta character escaped.
#[verifier::external_body]
fn escape_literal(s: &str) -> (r: String)
    ensures
        r@ == escaped(s@),
{
    regex::escape(s)
}

/// Relies on `regex::Regex::new`, `regex::Regex::split` and
/// `regex::Regex::find_iter`: compiles `pattern` and cuts `text` at its
/// matches, giving the pieces between them and the matches, in order.
#[verifier::external_body]
fn split_at_matches(pattern: &str, text: &str) -> (r: Option<(Vec<String>, Vec<String>)>)
    ensures
        r is Some == pattern_compiles(pattern@),
        r matches Some((gaps, hits)) ==> gaps.deep_view() == pattern_gaps(pattern@, text@)
            && hits.deep_view() == pattern_hits(pattern@, text@),
{
    match regex::Regex::new(pattern) {
        Ok(re) => Some((
            re.split(text).map(|s| s.to_string()).collect(),
            re.find_iter(text).map(|m| m.as_str().to_string()).collect(),
        )),
        Err(_) => None,
    }
}

/// A compiled-on-demand matcher for any one of a list of literal strings,
/// case-insensitively and anywhere in a text.
pub struct Matcher {
    pattern: String,
}

impl Matcher {
    /// The pattern this matcher searches with.
    pub closed spec fn pattern(&self) -> Seq<char> {
        self.pattern@
    }

    /// Builds the matcher for `lits`; each literal is matched as plain text.
    pub fn new(lits: &Vec<String>) -> (r: Matcher)
        ensures
            r.pattern() == alternation(lits.deep_view()),
    {
        let mut body = String::new();
        let mut parts: Vec<String> = Vec::new();
        let mut i: usize = 0;
        while i < lits.len()
            invariant
                i <= lits.len(),
                parts.deep_view() == escaped_all(lits.deep_view().subrange(0, i as int)),
            decreases lits.len() - i,
        {
            let e = escape_literal(lits[i].as_str());
            let ghost prev = parts.deep_view();
            parts.push(e);
            proof {
                assert(lits.deep_view()[i as int] == lits@[i as int]@);
                assert(parts.deep_view() =~= prev.push(e@));
                assert(parts.deep_view() =~= escaped_all(lits.deep_view().subrange(0, i + 1)));
            }
            i = i + 1;
        }
        proof {
            assert(lits.deep_view().subrange(0, i as int) =~= lits.deep_view());
        }
        body.append("(?i)(");
        let joined = crate::text::join_strings(&parts, "|");
        body.append(joined.as_str());
        body.append(")");
        proof {
            reveal_strlit("(?i)(");
            reveal_strlit("|");
            reveal_strlit(")");
            assert("(?i)("@ =~= seq!['(', '?', 'i', ')', '(']);
            assert("|"@ =~= seq!['|']);
            assert(")"@ =~= seq![')']);
            assert(body@ =~= alternation(lits.deep_view()));
        }
        Matcher { pattern: body }
    }

    /// Searches `text`: `None` where the pattern does not compile, else the
    /// pieces of `text` between matches and the matches themselves.
    pub fn split(&self, text: &str) -> (r: Option<(Vec<String>, Vec<String>)>)
        ensures
            r is Some == search(self.pattern(), text@) is Some,
            r matches Some((gaps, hits)) ==> search(self.pattern(), text@) == Some(
                (gaps.deep_view(), hits.deep_view()),
            ),
    {
        split_at_matches(self.pattern.as_str(), text)
    }

    /// Whether at least one of the literals occurs in `text`.
    pub fn is_match(&self, text: &str) -> (r: bool)
        ensures
            r == (search(self.pattern(), text@) matches Some((_, hits)) && hits.len() > 0),
    {
        match self.split(text) {
            Some((_, hits)) => hits.len() > 0,
            None => false,
        }
    }
}

/// Builds the case-insensitive alternation over `vals`, each matched as
/// literal text.
pub fn get_regex(vals: &Vec<String>) -> (r: Matcher)
    ensures
        r.pattern() == alternation(vals.deep_view()),
{
    Matcher::new(vals)
}

} // verus!
