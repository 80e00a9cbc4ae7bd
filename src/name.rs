//! The instrument catalog, the classifier and the name synthesizer.
use vstd::prelude::*;

use crate::matcher::{alternation, get_regex, search};
use crate::text::{
    collapse_double_spaces, concat_all, concat_strings, join_strings, join_with, owned,
    collapse_pairs, trim_str, trimmed,
};

verus! {

/// A canonical keyword and the other spellings that stand for it.
pub struct Keyword {
    pub name: String,
    pub aliases: Vec<String>,
}

/// The mathematical value of a [`Keyword`].
pub struct KeywordView {
    pub name: Seq<char>,
    pub aliases: Seq<Seq<char>>,
}

impl View for Keyword {
    type V = KeywordView;

    open spec fn view(&self) -> KeywordView {
        KeywordView { name: self.name@, aliases: self.aliases.deep_view() }
    }
}

/// An entry of the catalog: a prefix, keywords, descriptors and the matches
/// that never count as keywords.
pub struct Instrument {
    pub prefix: String,
    pub keywords: Vec<Keyword>,
    pub descriptors: Vec<String>,
    pub invalid_names: Vec<String>,
}

/// The mathematical value of an [`Instrument`].
pub struct InstrumentView {
    pub prefix: Seq<char>,
    pub keywords: Seq<KeywordView>,
    pub descriptors: Seq<Seq<char>>,
    pub invalid_names: Seq<Seq<char>>,
}

impl View for Instrument {
    type V = InstrumentView;

    open spec fn view(&self) -> InstrumentView {
        InstrumentView {
            prefix: self.prefix@,
            keywords: self.keywords@.map_values(|k: Keyword| k@),
            descriptors: self.descriptors.deep_view(),
            invalid_names: self.invalid_names.deep_view(),
        }
    }
}

impl KeywordView {
    /// The aliases followed by the canonical name.
    pub open spec fn spellings(&self) -> Seq<Seq<char>> {
        self.aliases.push(self.name)
    }
}

/// The views of a list of instruments.
pub open spec fn catalog_view(insts: Seq<Instrument>) -> Seq<InstrumentView> {
    insts.map_values(|i: Instrument| i@)
}

/// Every spelling of every keyword, keyword by keyword.
pub open spec fn keyword_literals(kws: Seq<KeywordView>) -> Seq<Seq<char>>
    decreases kws.len(),
{
    if kws.len() == 0 {
        Seq::empty()
    } else {
        keyword_literals(kws.drop_last()) + kws.last().spellings()
    }
}

/// The pattern that finds the keywords of `inst`.
pub open spec fn keyword_pattern(inst: InstrumentView) -> Seq<char> {
    alternation(keyword_literals(inst.keywords))
}

/// Whether some keyword of `inst` occurs in `name`.
pub open spec fn instrument_matches(inst: InstrumentView, name: Seq<char>) -> bool {
    search(keyword_pattern(inst), name) matches Some((_, hits)) && hits.len() > 0
}

/// The position of the first instrument of `insts` that matches `name`.
pub open spec fn first_match(insts: Seq<InstrumentView>, name: Seq<char>) -> Option<int>
    decreases insts.len(),
{
    if insts.len() == 0 {
        None
    } else {
        match first_match(insts.drop_last(), name) {
            Some(i) => Some(i),
            None => if instrument_matches(insts.last(), name) {
                Some(insts.len() - 1)
            } else {
                None
            },
        }
    }
}

/// The canonical name of the first keyword that lists `alias` among its aliases.
pub open spec fn alias_owner(kws: Seq<KeywordView>, alias: Seq<char>) -> Option<Seq<char>>
    decreases kws.len(),
{
    if kws.len() == 0 {
        None
    } else if kws[0].aliases.contains(alias) {
        Some(kws[0].name)
    } else {
        alias_owner(kws.drop_first(), alias)
    }
}

/// The canonical names of the keywords, in order.
pub open spec fn canonical_names(kws: Seq<KeywordView>) -> Seq<Seq<char>> {
    kws.map_values(|k: KeywordView| k.name)
}

/// The keyword token that a match stands for: itself where it is a canonical
/// name, else the owner of the alias; `None` where it is neither.
pub open spec fn canonical_of(inst: InstrumentView, hit: Seq<char>) -> Option<Seq<char>> {
    if canonical_names(inst.keywords).contains(hit) {
        Some(hit)
    } else {
        alias_owner(inst.keywords, hit)
    }
}

/// Whether a keyword match takes part in the new name.
pub open spec fn counts(inst: InstrumentView, hit: Seq<char>) -> bool {
    hit.len() > 0 && !inst.invalid_names.contains(hit)
}

/// The keyword tokens for `hits`: each match that counts, made canonical, kept
/// once, in the order of first occurrence; `None` where a match that counts
/// belongs to no keyword.
pub open spec fn resolved(inst: InstrumentView, hits: Seq<Seq<char>>) -> Option<Seq<Seq<char>>>
    decreases hits.len(),
{
    if hits.len() == 0 {
        Some(Seq::empty())
    } else {
        match resolved(inst, hits.drop_last()) {
            None => None,
            Some(prev) => {
                let h = hits.last();
                if !counts(inst, h) {
                    Some(prev)
                } else {
                    match canonical_of(inst, h) {
                        None => None,
                        Some(c) => if prev.contains(c) {
                            Some(prev)
                        } else {
                            Some(prev.push(c))
                        },
                    }
                }
            },
        }
    }
}

/// The non-empty strings of `s`, in order.
pub open spec fn non_empty(s: Seq<Seq<char>>) -> Seq<Seq<char>>
    decreases s.len(),
{
    if s.len() == 0 {
        Seq::empty()
    } else if s.last().len() > 0 {
        non_empty(s.drop_last()).push(s.last())
    } else {
        non_empty(s.drop_last())
    }
}

/// `[s]` where `s` is not empty, else nothing.
pub open spec fn optional_token(s: Seq<char>) -> Seq<Seq<char>> {
    if s.len() > 0 {
        seq![s]
    } else {
        Seq::empty()
    }
}

/// The tokens of the new name: keyword tokens, then descriptor matches in the
/// order found, then the leftover text.
pub open spec fn name_tokens(
    inst: InstrumentView,
    hits: Seq<Seq<char>>,
    descriptor_hits: Seq<Seq<char>>,
    leftover: Seq<char>,
) -> Option<Seq<Seq<char>>> {
    match resolved(inst, hits) {
        None => None,
        Some(t) => Some(t + non_empty(descriptor_hits) + optional_token(leftover)),
    }
}

/// `"<prefix> - <tokens joined by spaces>"`, trimmed.
pub open spec fn composed(prefix: Seq<char>, tokens: Seq<Seq<char>>) -> Seq<char> {
    trimmed(prefix + seq![' ', '-', ' '] + join_with(tokens, seq![' ']))
}

/// The new name for a sanitized `name` classified under `inst`.
pub open spec fn new_name_of(inst: InstrumentView, name: Seq<char>) -> Option<Seq<char>> {
    match search(keyword_pattern(inst), name) {
        None => None,
        Some((gaps, hits)) => if hits.len() == 0 {
            None
        } else {
            let rest = collapse_pairs(concat_all(gaps));
            match search(alternation(inst.descriptors), rest) {
                None => None,
                Some((dgaps, dhits)) => match name_tokens(
                    inst,
                    hits,
                    dhits,
                    trimmed(concat_all(dgaps)),
                ) {
                    None => None,
                    Some(t) => Some(composed(inst.prefix, t)),
                },
            }
        },
    }
}

/// The new name for a raw file stem: sanitized, classified by the first
/// matching instrument, then synthesized.
pub open spec fn renamed(file_name: Seq<char>, insts: Seq<InstrumentView>) -> Option<Seq<char>> {
    let s = crate::text::sanitized(file_name);
    match first_match(insts, s) {
        None => None,
        Some(i) => new_name_of(insts[i], s),
    }
}

/// Whether `v` holds a string equal to `s`.
fn contains_str(v: &Vec<String>, s: &str) -> (r: bool)
    ensures
        r == v.deep_view().contains(s@),
{
    let t = owned(s);
    let mut i: usize = 0;
    while i < v.len()
        invariant
            i <= v.len(),
            t@ == s@,
            forall|j: int| 0 <= j < i ==> v.deep_view()[j] != s@,
        decreases v.len() - i,
    {
        proof {
            assert(v.deep_view()[i as int] == v@[i as int]@);
        }
        if v[i] == t {
            return true;
        }
        i = i + 1;
    }
    false
}

impl Keyword {
    /// A keyword with the given canonical name and aliases.
    pub fn new(name: String, aliases: Vec<String>) -> (r: Keyword)
        ensures
            r@ == (KeywordView { name: name@, aliases: aliases.deep_view() }),
    {
        Keyword { name, aliases }
    }

    /// The aliases followed by the canonical name.
    pub fn as_vec(&self) -> (r: Vec<String>)
        ensures
            r.deep_view() == self@.spellings(),
    {
        let mut r: Vec<String> = Vec::new();
        let mut i: usize = 0;
        while i < self.aliases.len()
            invariant
                i <= self.aliases.len(),
                r.deep_view() == self.aliases.deep_view().subrange(0, i as int),
            decreases self.aliases.len() - i,
        {
            let ghost prev = r.deep_view();
            r.push(self.aliases[i].clone());
            proof {
                assert(r.deep_view() =~= prev.push(self.aliases@[i as int]@));
                assert(r.deep_view() =~= self.aliases.deep_view().subrange(0, i + 1));
            }
            i = i + 1;
        }
        let ghost prev = r.deep_view();
        r.push(self.name.clone());
        proof {
            assert(r.deep_view() =~= prev.push(self.name@));
            assert(self.aliases.deep_view().subrange(0, i as int) =~= self.aliases.deep_view());
        }
        r
    }
}

/// Every spelling of every keyword of `inst`, keyword by keyword.
fn instrument_literals(inst: &Instrument) -> (r: Vec<String>)
    ensures
        r.deep_view() == keyword_literals(inst@.keywords),
{
    let mut r: Vec<String> = Vec::new();
    let mut i: usize = 0;
    while i < inst.keywords.len()
        invariant
            i <= inst.keywords.len(),
            r.deep_view() == keyword_literals(inst@.keywords.subrange(0, i as int)),
        decreases inst.keywords.len() - i,
    {
        let mut more = inst.keywords[i].as_vec();
        let ghost prev = r.deep_view();
        let ghost added = more.deep_view();
        r.append(&mut more);
        proof {
            assert(r.deep_view() =~= prev + added);
            assert(inst@.keywords.subrange(0, i + 1).drop_last() =~= inst@.keywords.subrange(
                0,
                i as int,
            ));
        }
        i = i + 1;
    }
    proof {
        assert(inst@.keywords.subrange(0, i as int) =~= inst@.keywords);
    }
    r
}

/// The first instrument of `instruments`, in catalog order, of which some
/// keyword occurs in `name`; `None` where there is none.
pub fn instrument_from_str<'a>(name: &str, instruments: &'a Vec<Instrument>) -> (r: Option<
    &'a Instrument,
>)
    ensures
        r is Some == first_match(catalog_view(instruments@), name@) is Some,
        r matches Some(x) ==> x@ == catalog_view(instruments@)[first_match(
            catalog_view(instruments@),
            name@,
        )->0],
{
    let ghost all = catalog_view(instruments@);
    let mut i: usize = 0;
    while i < instruments.len()
        invariant
            i <= instruments.len(),
            all == catalog_view(instruments@),
            first_match(all.subrange(0, i as int), name@) is None,
        decreases instruments.len() - i,
    {
        let lits = instrument_literals(&instruments[i]);
        let m = get_regex(&lits);
        proof {
            assert(all.subrange(0, i + 1).drop_last() =~= all.subrange(0, i as int));
            assert(all[i as int] == instruments@[i as int]@);
        }
        if m.is_match(name) {
            proof {
                lemma_first_match_extends(all, name@, i + 1);
            }
            return Some(&instruments[i]);
        }
        i = i + 1;
    }
    proof {
        assert(all.subrange(0, i as int) =~= all);
    }
    None
}

/// A match in a prefix of the catalog is the match in the whole catalog.
proof fn lemma_first_match_extends(insts: Seq<InstrumentView>, name: Seq<char>, k: int)
    requires
        0 <= k <= insts.len(),
        first_match(insts.subrange(0, k), name) is Some,
    ensures
        first_match(insts, name) == first_match(insts.subrange(0, k), name),
    decreases insts.len() - k,
{
    if k < insts.len() {
        assert(insts.subrange(0, k + 1).drop_last() =~= insts.subrange(0, k));
        lemma_first_match_extends(insts, name, k + 1);
    } else {
        assert(insts.subrange(0, k) =~= insts);
    }
}

/// Classification takes the first instrument in catalog order whose keywords
/// occur in the name, whatever later instruments also match; where none
/// matches there is no result.
pub proof fn lemma_first_instrument_wins(insts: Seq<InstrumentView>, name: Seq<char>)
    ensures
        first_match(insts, name) matches Some(i) ==> 0 <= i < insts.len() && instrument_matches(
            insts[i],
            name,
        ) && forall|j: int| 0 <= j < i ==> !instrument_matches(#[trigger] insts[j], name),
        first_match(insts, name) is None ==> forall|j: int|
            0 <= j < insts.len() ==> !instrument_matches(#[trigger] insts[j], name),
    decreases insts.len(),
{
    if insts.len() > 0 {
        lemma_first_instrument_wins(insts.drop_last(), name);
        assert forall|j: int| 0 <= j < insts.len() - 1 implies insts[j] == insts.drop_last()[j] by {}
    }
}

/// The canonical name of the first keyword of `instrument` that lists `alias`
/// among its aliases.
pub fn keyword_from_alias(alias: &str, instrument: &Instrument) -> (r: Option<String>)
    ensures
        r is Some == alias_owner(instrument@.keywords, alias@) is Some,
        r matches Some(n) ==> alias_owner(instrument@.keywords, alias@) == Some(n@),
{
    let ghost kws = instrument@.keywords;
    let mut i: usize = 0;
    proof {
        assert(kws.subrange(0, kws.len() as int) =~= kws);
    }
    while i < instrument.keywords.len()
        invariant
            i <= instrument.keywords.len(),
            kws == instrument@.keywords,
            alias_owner(kws, alias@) == alias_owner(
                kws.subrange(i as int, kws.len() as int),
                alias@,
            ),
        decreases instrument.keywords.len() - i,
    {
        let ghost rest = kws.subrange(i as int, kws.len() as int);
        proof {
            assert(rest[0] == instrument.keywords@[i as int]@);
            assert(rest.drop_first() =~= kws.subrange(i + 1, kws.len() as int));
        }
        if contains_str(&instrument.keywords[i].aliases, alias) {
            return Some(instrument.keywords[i].name.clone());
        }
        i = i + 1;
    }
    None
}

/// Whether `hit` is the canonical name of a keyword of `inst`.
fn is_canonical_name(inst: &Instrument, hit: &str) -> (r: bool)
    ensures
        r == canonical_names(inst@.keywords).contains(hit@),
{
    let ghost names = canonical_names(inst@.keywords);
    let t = owned(hit);
    let mut i: usize = 0;
    while i < inst.keywords.len()
        invariant
            i <= inst.keywords.len(),
            t@ == hit@,
            names == canonical_names(inst@.keywords),
            names.len() == inst.keywords.len(),
            forall|j: int| 0 <= j < i ==> names[j] != hit@,
        decreases inst.keywords.len() - i,
    {
        proof {
            assert(names[i as int] == inst.keywords@[i as int].name@);
        }
        if inst.keywords[i].name == t {
            return true;
        }
        i = i + 1;
    }
    false
}

/// The keyword tokens for the keyword matches `hits`: matches that are empty
/// or listed as invalid are dropped, aliases become their canonical name, and
/// each token is kept once, in the order of its first occurrence. `None` where
/// a match that counts is neither a canonical name nor an alias.
pub fn resolve_keywords(inst: &Instrument, hits: &Vec<String>) -> (r: Option<Vec<String>>)
    ensures
        r is Some == resolved(inst@, hits.deep_view()) is Some,
        r matches Some(t) ==> resolved(inst@, hits.deep_view()) == Some(t.deep_view()),
{
    let mut out: Vec<String> = Vec::new();
    let mut i: usize = 0;
    while i < hits.len()
        invariant
            i <= hits.len(),
            resolved(inst@, hits.deep_view().subrange(0, i as int)) == Some(out.deep_view()),
        decreases hits.len() - i,
    {
        let ghost prev = out.deep_view();
        let h: &str = hits[i].as_str();
        proof {
            assert(hits.deep_view().subrange(0, i + 1).drop_last() =~= hits.deep_view().subrange(
                0,
                i as int,
            ));
            assert(hits.deep_view().subrange(0, i + 1).last() == h@);
        }
        let valid = h.unicode_len() > 0 && !contains_str(&inst.invalid_names, h);
        if valid {
            let c = if is_canonical_name(inst, h) {
                owned(h)
            } else {
                match keyword_from_alias(h, inst) {
                    Some(n) => n,
                    None => {
                        proof {
                            assert(resolved(inst@, hits.deep_view().subrange(0, i + 1)) is None);
                            lemma_resolved_none_stays(inst@, hits.deep_view(), i + 1);
                        }
                        return None;
                    },
                }
            };
            if !contains_str(&out, c.as_str()) {
                out.push(c);
                proof {
                    assert(out.deep_view() =~= prev.push(c@));
                }
            }
        }
        i = i + 1;
    }
    proof {
        assert(hits.deep_view().subrange(0, i as int) =~= hits.deep_view());
    }
    Some(out)
}

/// Once the resolution fails for a prefix of the matches, it fails for all.
proof fn lemma_resolved_none_stays(inst: InstrumentView, hits: Seq<Seq<char>>, k: int)
    requires
        0 <= k <= hits.len(),
        resolved(inst, hits.subrange(0, k)) is None,
    ensures
        resolved(inst, hits) is None,
    decreases hits.len() - k,
{
    if k < hits.len() {
        assert(hits.subrange(0, k + 1).drop_last() =~= hits.subrange(0, k));
        lemma_resolved_none_stays(inst, hits, k + 1);
    } else {
        assert(hits.subrange(0, k) =~= hits);
    }
}

/// The new name from the outcome of both searches: the keyword matches
/// `hits`, the descriptor matches `descriptor_hits` and the trimmed text left
/// over after both were taken out. `None` where a keyword match belongs to no
/// keyword.
pub fn compose_name(
    inst: &Instrument,
    hits: &Vec<String>,
    descriptor_hits: &Vec<String>,
    leftover: &str,
) -> (r: Option<String>)
    ensures
        r is Some == name_tokens(inst@, hits.deep_view(), descriptor_hits.deep_view(), leftover@) is Some,
        r matches Some(s) ==> Some(s@) == (match name_tokens(
            inst@,
            hits.deep_view(),
            descriptor_hits.deep_view(),
            leftover@,
        ) {
            Some(t) => Some(composed(inst@.prefix, t)),
            None => None,
        }),
{
    let mut tokens = match resolve_keywords(inst, hits) {
        Some(t) => t,
        None => {
            return None;
        },
    };
    let ghost kw = tokens.deep_view();
    let mut i: usize = 0;
    while i < descriptor_hits.len()
        invariant
            i <= descriptor_hits.len(),
            tokens.deep_view() == kw + non_empty(descriptor_hits.deep_view().subrange(0, i as int)),
        decreases descriptor_hits.len() - i,
    {
        let ghost prev = tokens.deep_view();
        proof {
            assert(descriptor_hits.deep_view().subrange(0, i + 1).drop_last()
                =~= descriptor_hits.deep_view().subrange(0, i as int));
            assert(descriptor_hits.deep_view().subrange(0, i + 1).last()
                == descriptor_hits@[i as int]@);
        }
        if descriptor_hits[i].as_str().unicode_len() > 0 {
            tokens.push(descriptor_hits[i].clone());
            proof {
                assert(tokens.deep_view() =~= prev.push(descriptor_hits@[i as int]@));
            }
        }
        i = i + 1;
    }
    proof {
        assert(descriptor_hits.deep_view().subrange(0, i as int) =~= descriptor_hits.deep_view());
    }
    let ghost before = tokens.deep_view();
    if leftover.unicode_len() > 0 {
        tokens.push(owned(leftover));
        proof {
            assert(tokens.deep_view() =~= before + optional_token(leftover@));
        }
    } else {
        proof {
            assert(tokens.deep_view() =~= before + optional_token(leftover@));
        }
    }
    let mut whole = inst.prefix.clone();
    whole.append(" - ");
    let joined = join_strings(&tokens, " ");
    whole.append(joined.as_str());
    proof {
        reveal_strlit(" - ");
        reveal_strlit(" ");
        assert(" - "@ =~= seq![' ', '-', ' ']);
        assert(" "@ =~= seq![' ']);
        assert(tokens.deep_view() =~= kw + non_empty(descriptor_hits.deep_view()) + optional_token(
            leftover@,
        ));
    }
    Some(trim_str(whole.as_str()))
}

/// Rewrites the sanitized `name` under `inst` as
/// `"<prefix> - <keywords> <descriptors> <leftover>"`. `None` where no keyword
/// of `inst` occurs in `name`, where a keyword match belongs to no keyword, or
/// where a pattern does not compile.
pub fn get_new_name(name: &str, inst: &Instrument) -> (r: Option<String>)
    ensures
        r is Some == new_name_of(inst@, name@) is Some,
        r matches Some(s) ==> new_name_of(inst@, name@) == Some(s@),
{
    let keywords = instrument_literals(inst);
    let keyword_regex = get_regex(&keywords);
    let (gaps, hits) = match keyword_regex.split(name) {
        Some(p) => p,
        None => {
            return None;
        },
    };
    if hits.len() == 0 {
        return None;
    }
    let rest = collapse_double_spaces(concat_strings(&gaps).as_str());
    let descriptors_regex = get_regex(&inst.descriptors);
    let (dgaps, dhits) = match descriptors_regex.split(rest.as_str()) {
        Some(p) => p,
        None => {
            return None;
        },
    };
    let leftover = trim_str(concat_strings(&dgaps).as_str());
    compose_name(inst, &hits, &dhits, leftover.as_str())
}

/// Sanitizes `file_name`, picks the first instrument whose keywords occur in
/// it and synthesizes the new name under that instrument.
pub fn get_name(file_name: &str, instruments: &Vec<Instrument>) -> (r: Option<String>)
    ensures
        r is Some == renamed(file_name@, catalog_view(instruments@)) is Some,
        r matches Some(s) ==> renamed(file_name@, catalog_view(instruments@)) == Some(s@),
{
    let mut file_str = owned(file_name);
    crate::text::strip_name(&mut file_str);
    match instrument_from_str(file_str.as_str(), instruments) {
        None => None,
        Some(inst) => get_new_name(file_str.as_str(), inst),
    }
}

/// Synthesis depends on the sanitized name and the instrument alone: equal
/// inputs give equal results.
pub proof fn lemma_synthesis_deterministic(
    name1: Seq<char>,
    inst1: InstrumentView,
    name2: Seq<char>,
    inst2: InstrumentView,
)
    requires
        name1 == name2,
        inst1 == inst2,
    ensures
        new_name_of(inst1, name1) == new_name_of(inst2, name2),
{
}

/// Every keyword token is the canonical name of a keyword, never alias text
/// (unless that text is itself a canonical name), and every match that counts
/// is represented by the canonical name it resolves to.
pub proof fn lemma_aliases_resolve(inst: InstrumentView, hits: Seq<Seq<char>>)
    ensures
        resolved(inst, hits) matches Some(t) ==> (forall|k: int|
            0 <= k < t.len() ==> canonical_names(inst.keywords).contains(#[trigger] t[k])) && (
        forall|j: int|
            0 <= j < hits.len() && counts(inst, #[trigger] hits[j]) ==> (canonical_of(
                inst,
                hits[j],
            ) is Some && t.contains(canonical_of(inst, hits[j])->0))),
    decreases hits.len(),
{
    if hits.len() > 0 {
        let prev_hits = hits.drop_last();
        lemma_aliases_resolve(inst, prev_hits);
        if let Some(t) = resolved(inst, hits) {
            let prev = resolved(inst, prev_hits)->0;
            let h = hits.last();
            if counts(inst, h) {
                let c = canonical_of(inst, h)->0;
                lemma_canonical_is_name(inst, h);
                assert(t.contains(c)) by {
                    if !prev.contains(c) {
                        assert(t[t.len() - 1] == c);
                    }
                }
            }
            assert forall|j: int| 0 <= j < hits.len() && counts(inst, #[trigger] hits[j]) implies (canonical_of(
                inst,
                hits[j],
            ) is Some && t.contains(canonical_of(inst, hits[j])->0)) by {
                if j < hits.len() - 1 {
                    assert(hits[j] == prev_hits[j]);
                    let c = canonical_of(inst, hits[j])->0;
                    let k = choose|k: int| 0 <= k < prev.len() && prev[k] == c;
                    if t != prev {
                        assert(t[k] == c);
                    }
                }
            }
            assert forall|k: int| 0 <= k < t.len() implies canonical_names(inst.keywords).contains(
                #[trigger] t[k],
            ) by {
                if k < prev.len() && t != prev {
                    assert(t[k] == prev[k]);
                }
            }
        }
    }
}

/// What a match resolves to is a canonical name.
proof fn lemma_canonical_is_name(inst: InstrumentView, hit: Seq<char>)
    ensures
        canonical_of(inst, hit) matches Some(c) ==> canonical_names(inst.keywords).contains(c),
{
    if !canonical_names(inst.keywords).contains(hit) {
        lemma_alias_owner_is_name(inst.keywords, hit);
    }
}

/// The owner of an alias is one of the keywords' canonical names.
proof fn lemma_alias_owner_is_name(kws: Seq<KeywordView>, alias: Seq<char>)
    ensures
        alias_owner(kws, alias) matches Some(c) ==> canonical_names(kws).contains(c),
    decreases kws.len(),
{
    if kws.len() > 0 && !kws[0].aliases.contains(alias) {
        lemma_alias_owner_is_name(kws.drop_first(), alias);
        if let Some(c) = alias_owner(kws.drop_first(), alias) {
            let k = choose|k: int| 0 <= k < kws.len() - 1 && canonical_names(kws.drop_first())[k] == c;
            assert(canonical_names(kws)[k + 1] == c);
        }
    } else if kws.len() > 0 {
        assert(canonical_names(kws)[0] == kws[0].name);
    }
}

/// Each keyword token appears once, however often the keyword or its aliases
/// occur among the matches.
pub proof fn lemma_keywords_deduplicated(inst: InstrumentView, hits: Seq<Seq<char>>)
    ensures
        resolved(inst, hits) matches Some(t) ==> t.no_duplicates(),
    decreases hits.len(),
{
    if hits.len() > 0 {
        lemma_keywords_deduplicated(inst, hits.drop_last());
    }
}

/// In the tokens of a new name the descriptor matches follow all keyword
/// tokens, in the order in which they were found in the remainder.
pub proof fn lemma_descriptor_order(
    inst: InstrumentView,
    hits: Seq<Seq<char>>,
    descriptor_hits: Seq<Seq<char>>,
    leftover: Seq<char>,
)
    ensures
        name_tokens(inst, hits, descriptor_hits, leftover) matches Some(t) ==> ({
            let k = resolved(inst, hits)->0.len() as int;
            let d = non_empty(descriptor_hits);
            t.subrange(0, k) == resolved(inst, hits)->0 && t.subrange(k, k + d.len() as int) == d
        }),
{
    if let Some(t) = name_tokens(inst, hits, descriptor_hits, leftover) {
        let kw = resolved(inst, hits)->0;
        let d = non_empty(descriptor_hits);
        assert(t.subrange(0, kw.len() as int) =~= kw);
        assert(t.subrange(kw.len() as int, kw.len() + d.len() as int) =~= d);
    }
}

/// The descriptor tokens are the non-empty descriptor matches in the order
/// found: a match found before another comes before it.
pub proof fn lemma_non_empty_keeps_order(s: Seq<Seq<char>>)
    ensures
        non_empty(s).len() <= s.len(),
        forall|k: int| 0 <= k < non_empty(s).len() ==> (#[trigger] non_empty(s)[k]).len() > 0
            && s.contains(non_empty(s)[k]),
    decreases s.len(),
{
    if s.len() > 0 {
        lemma_non_empty_keeps_order(s.drop_last());
        assert forall|k: int| 0 <= k < non_empty(s).len() implies (#[trigger] non_empty(s)[k]).len() > 0
            && s.contains(non_empty(s)[k]) by {
            if k < non_empty(s.drop_last()).len() {
                assert(non_empty(s)[k] == non_empty(s.drop_last())[k]);
                let j = choose|j: int| 0 <= j < s.len() - 1 && s.drop_last()[j] == non_empty(s)[k];
                assert(s[j] == non_empty(s)[k]);
            } else {
                assert(s[s.len() - 1] == non_empty(s)[k]);
            }
        }
    }
}

} // verus!
