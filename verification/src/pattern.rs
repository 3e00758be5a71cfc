//! Matching lines against the patterns of the text format.

use vstd::prelude::*;
use vstd::string::*;

verus! {

/// Whether `pattern` is a regular expression that `Regex::new` compiles.
pub uninterp spec fn regex_compiles(pattern: Seq<char>) -> bool;

/// What the expression compiled from `pattern` captures in `text`, as
/// `Regex::captures` finds it: `None` where it matches nowhere in `text`;
/// else the groups of the leftmost match, the whole match first, each `None`
/// where the group took no part in the match.
pub uninterp spec fn regex_captures_of(pattern: Seq<char>, text: Seq<char>) -> Option<
    Seq<Option<Seq<char>>>,
>;

/// What `pattern` captures in `text`: nothing where it does not compile,
/// else what the compiled expression captures.
pub open spec fn captures_in(pattern: Seq<char>, text: Seq<char>) -> Option<
    Seq<Option<Seq<char>>>,
> {
    if regex_compiles(pattern) {
        regex_captures_of(pattern, text)
    } else {
        None
    }
}

/// The groups of a match, as texts.
pub open spec fn groups_of(v: Seq<Option<String>>) -> Seq<Option<Seq<char>>> {
    v.map_values(
        |g: Option<String>|
            match g {
                Some(s) => Some(s@),
                None => None,
            },
    )
}

/// The result of a match, as texts.
pub open spec fn captures_of(r: Option<Vec<Option<String>>>) -> Option<Seq<Option<Seq<char>>>> {
    match r {
        Some(v) => Some(groups_of(v@)),
        None => None,
    }
}

/// A compiled regular expression of the `regex` crate.
#[verifier::external_type_specification]
#[verifier::external_body]
pub struct ExRegex(regex::Regex);

/// The text that a compiled expression was compiled from: what
/// `Regex::as_str` gives.
pub uninterp spec fn regex_source(re: regex::Regex) -> Seq<char>;

/// Calls `regex::Regex::new`, and gives `None` where it fails. Whether it
/// succeeds depends on the pattern alone and has the name `regex_compiles`;
/// a compiled expression keeps the text it was compiled from.
#[verifier::external_body]
pub(crate) fn regex_compile(pattern: &str) -> (r: Option<regex::Regex>)
    ensures
        r is Some == regex_compiles(pattern@),
        r matches Some(re) ==> regex_source(re) == pattern@,
{
    regex::Regex::new(pattern).ok()
}

/// Calls `Regex::captures` on `text` and hands out the groups of the
/// leftmost match as texts. The result depends on the expression and the
/// text alone; the contract gives it the name `regex_captures_of` and says
/// no more of it.
#[verifier::external_body]
pub(crate) fn regex_captures(re: &regex::Regex, text: &str) -> (r: Option<Vec<Option<String>>>)
    ensures
        captures_of(r) == regex_captures_of(regex_source(*re), text@),
{
    let caps = re.captures(text)?;
    Some(caps.iter().map(|m| m.map(|x| x.as_str().to_string())).collect())
}

/// A pattern, compiled once and matched many times.
pub struct Pattern {
    source: String,
    compiled: Option<regex::Regex>,
}

impl Pattern {
    #[verifier::type_invariant]
    spec fn inv(self) -> bool {
        match self.compiled {
            Some(re) => regex_source(re) == self.source@ && regex_compiles(self.source@),
            None => !regex_compiles(self.source@),
        }
    }

    /// The text of the pattern.
    pub closed spec fn source(&self) -> Seq<char> {
        self.source@
    }

    /// Compiles a pattern.
    pub fn new(source: &str) -> (r: Pattern)
        ensures
            r.source() == source@,
    {
        Pattern { source: String::from_str(source), compiled: regex_compile(source) }
    }

    /// What the pattern captures in `text`.
    pub fn captures(&self, text: &str) -> (r: Option<Vec<Option<String>>>)
        ensures
            captures_of(r) == captures_in(self.source(), text@),
    {
        proof {
            use_type_invariant(self);
        }
        match &self.compiled {
            Some(re) => regex_captures(re, text),
            None => None,
        }
    }
}

/// The text of group `i`: empty where the match has no such group or the
/// group took no part in it.
pub open spec fn group_text(groups: Seq<Option<Seq<char>>>, i: int) -> Seq<char> {
    if 0 <= i < groups.len() {
        match groups[i] {
            Some(s) => s,
            None => Seq::empty(),
        }
    } else {
        Seq::empty()
    }
}

/// Whether group `i` took part in the match.
pub open spec fn group_present(groups: Seq<Option<Seq<char>>>, i: int) -> bool {
    0 <= i < groups.len() && groups[i] is Some
}

/// The text of group `i`.
pub fn group(groups: &Vec<Option<String>>, i: usize) -> (r: String)
    ensures
        r@ == group_text(groups_of(groups@), i as int),
{
    if i < groups.len() {
        match &groups[i] {
            Some(s) => s.clone(),
            None => String::new(),
        }
    } else {
        String::new()
    }
}

/// Whether group `i` took part in the match.
pub fn has_group(groups: &Vec<Option<String>>, i: usize) -> (r: bool)
    ensures
        r == group_present(groups_of(groups@), i as int),
{
    i < groups.len() && groups[i].is_some()
}

} // verus!
