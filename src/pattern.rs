//! Compiled regular expressions, through the `regex` crate.
use vstd::prelude::*;

verus! {

#[verifier::external_type_specification]
#[verifier::external_body]
pub struct ExRegex(regex::Regex);

#[verifier::external_type_specification]
#[verifier::external_body]
pub struct ExRegexSet(regex::RegexSet);

#[verifier::external_type_specification]
#[verifier::external_body]
pub struct ExRegexError(regex::Error);

/// `regex::Regex`'s `Clone`: a copy of a compiled expression; nothing is stated of it.
pub assume_specification[ <regex::Regex as core::clone::Clone>::clone ](r: &regex::Regex) -> regex::Regex;

/// Whether `regex::Regex::new` accepts `p`.
pub uninterp spec fn pattern_compiles(p: Seq<char>) -> bool;

/// What `regex::Regex::captures` finds of `p` in `t`: for each group of `p`, the whole match
/// first, the character range it matched if it took part.
pub uninterp spec fn pattern_captures(p: Seq<char>, t: Seq<char>) -> Option<Seq<Option<(int, int)>>>;

/// What `regex::Regex::captures_iter` finds of `p` in `t`: the groups of each successive match.
pub uninterp spec fn pattern_all_captures(p: Seq<char>, t: Seq<char>) -> Seq<Seq<Option<(int, int)>>>;

/// What `regex::Regex::capture_names` gives for `p`: the name of each group, if it has one.
pub uninterp spec fn pattern_group_names(p: Seq<char>) -> Seq<Option<Seq<char>>>;

/// Whether `regex::RegexSet::new` accepts the patterns `ps` together.
pub uninterp spec fn pattern_set_compiles(ps: Seq<Seq<char>>) -> bool;

/// Every range lies within a text of length `n`.
pub open spec fn spans_within(g: Seq<Option<(int, int)>>, n: int) -> bool {
    forall|k: int|
        0 <= k < g.len() ==> match #[trigger] g[k] {
            Some(r) => 0 <= r.0 <= r.1 <= n,
            None => true,
        }
}

pub open spec fn span_views(v: Seq<Option<(usize, usize)>>) -> Seq<Option<(int, int)>> {
    v.map_values(
        |g: Option<(usize, usize)>|
            match g {
                Some(r) => Some((r.0 as int, r.1 as int)),
                None => None,
            },
    )
}

pub open spec fn name_views(v: Seq<Option<String>>) -> Seq<Option<Seq<char>>> {
    v.map_values(
        |g: Option<String>|
            match g {
                Some(s) => Some(s@),
                None => None,
            },
    )
}

/// A regular expression together with the pattern it was compiled from.
#[derive(Clone, Debug)]
pub struct Pattern {
    source: String,
    regex: regex::Regex,
}

impl View for Pattern {
    type V = Seq<char>;

    closed spec fn view(&self) -> Seq<char> {
        self.source@
    }
}

impl Pattern {
    /// Relies on `regex::Regex::new`: compiles `p`, keeping the pattern text beside it.
    #[verifier::external_body]
    pub(crate) fn new(p: &str) -> (r: Result<Pattern, regex::Error>)
        ensures
            r is Ok <==> pattern_compiles(p@),
            r matches Ok(m) ==> m@ == p@,
    {
        regex::Regex::new(p).map(|regex| Pattern { source: p.to_string(), regex })
    }

    /// Relies on `regex::Regex`'s `Clone`: a second handle on the same compiled expression.
    #[verifier::external_body]
    pub(crate) fn duplicate(&self) -> (r: Pattern)
        ensures
            r@ == self@,
    {
        Pattern { source: self.source.clone(), regex: self.regex.clone() }
    }

    /// The pattern text.
    pub fn as_str(&self) -> (r: &str)
        ensures
            r@ == self@,
    {
        self.source.as_str()
    }

    /// Relies on `regex::Regex::captures`: the groups of the leftmost-first match in `t`, as
    /// character ranges; there is one entry per group and the whole match is always there.
    #[verifier::external_body]
    pub(crate) fn captures(&self, t: &str) -> (r: Option<Vec<Option<(usize, usize)>>>)
        ensures
            r is None <==> pattern_captures(self@, t@) is None,
            r matches Some(g) ==> span_views(g@) == pattern_captures(self@, t@)->0,
            r matches Some(g) ==> g@.len() == pattern_group_names(self@).len() && g@.len() > 0
                && g@[0] is Some,
            r matches Some(g) ==> spans_within(span_views(g@), t@.len() as int),
    {
        self.regex.captures(t).map(
            |c|
                c.iter().map(|m| m.map(|m| (t[..m.start()].chars().count(), t[..m.end()].chars().count()))).collect()
        )
    }

    /// Relies on `regex::Regex::captures_iter`: the groups of each successive non-overlapping
    /// match in `t`, as character ranges.
    #[verifier::external_body]
    pub(crate) fn all_captures(&self, t: &str) -> (r: Vec<Vec<Option<(usize, usize)>>>)
        ensures
            r@.len() == pattern_all_captures(self@, t@).len(),
            forall|k: int|
                0 <= k < r@.len() ==> span_views(#[trigger] r@[k]@) == pattern_all_captures(
                    self@,
                    t@,
                )[k],
            forall|k: int|
                0 <= k < r@.len() ==> r@[k]@.len() == pattern_group_names(self@).len()
                    && spans_within(span_views(#[trigger] r@[k]@), t@.len() as int),
    {
        self.regex.captures_iter(t).map(
            |c|
                c.iter().map(|m| m.map(|m| (t[..m.start()].chars().count(), t[..m.end()].chars().count()))).collect()
        ).collect()
    }

    /// Relies on `regex::Regex::capture_names`: the name of each group, the whole match first.
    #[verifier::external_body]
    pub(crate) fn group_names(&self) -> (r: Vec<Option<String>>)
        ensures
            name_views(r@) == pattern_group_names(self@),
    {
        self.regex.capture_names().map(|n| n.map(|s| s.to_string())).collect()
    }
}

/// Relies on `regex::Error`'s `Display`: a description of why a pattern was refused.
#[verifier::external_body]
pub(crate) fn error_text(e: &regex::Error) -> String {
    e.to_string()
}

/// Several patterns compiled into one matcher that tells which of them match.
pub struct PatternSet {
    sources: Vec<String>,
    set: regex::RegexSet,
}

pub open spec fn string_views(v: Seq<String>) -> Seq<Seq<char>> {
    v.map_values(|s: String| s@)
}

impl View for PatternSet {
    type V = Seq<Seq<char>>;

    closed spec fn view(&self) -> Seq<Seq<char>> {
        string_views(self.sources@)
    }
}

impl PatternSet {
    /// Relies on `regex::RegexSet::new`: compiles the patterns together, keeping their text.
    #[verifier::external_body]
    pub(crate) fn new(ps: &Vec<String>) -> (r: Result<PatternSet, regex::Error>)
        ensures
            r is Ok <==> pattern_set_compiles(string_views(ps@)),
            r matches Ok(m) ==> m@ == string_views(ps@),
    {
        regex::RegexSet::new(ps).map(|set| PatternSet { sources: ps.clone(), set })
    }

    /// Relies on `regex::RegexSet::matches`: the indexes, ascending, of the patterns that match
    /// somewhere in `t`.
    #[verifier::external_body]
    pub(crate) fn matches(&self, t: &str) -> (r: Vec<usize>)
        ensures
            forall|k: int| 0 <= k < r@.len() ==> r@[k] < self@.len(),
            forall|j: int, k: int| 0 <= j < k < r@.len() ==> r@[j] < r@[k],
            forall|i: int|
                0 <= i < self@.len() ==> (r@.contains(i as usize) <==> pattern_captures(
                    #[trigger] self@[i],
                    t@,
                ) is Some),
    {
        self.set.matches(t).into_iter().collect()
    }
}

} // verus!
