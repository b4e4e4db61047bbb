//! Regular expressions.
//!
//! Matching is the work of the `regex` crate. An expression is held in a [`Pattern`], which is made
//! from its text alone, with no options, so what it matches depends on the text alone:
//! [`regex_found`] names whether a text matches another.
use crate::bytes::{utf8, utf8_text};
use regex::{Regex, RegexSet};
use vstd::prelude::*;

verus! {

/// `regex::Regex`, a compiled regular expression.
#[verifier::external_type_specification]
#[verifier::external_body]
pub struct ExRegex(Regex);

/// The text that a regular expression was compiled from.
pub uninterp spec fn regex_source(re: Regex) -> Seq<char>;

/// Whether a pattern, compiled with no options, matches somewhere in a text.
pub uninterp spec fn regex_found(pattern: Seq<char>, text: Seq<char>) -> bool;

/// `Regex::as_str`: the text that the expression was compiled from.
pub assume_specification[ Regex::as_str ](re: &Regex) -> (r: &str)
    ensures
        r@ == regex_source(*re),
;

/// `Regex::clone`: an expression compiled from the same text.
pub assume_specification[ <Regex as Clone>::clone ](re: &Regex) -> (r: Regex)
    ensures
        regex_source(r) == regex_source(*re),
;

/// A regular expression compiled from a text with no options.
#[derive(Debug)]
pub struct Pattern {
    regex: Regex,
}

/// `Regex::new`: where it succeeds, the expression is that of the text. Which texts it accepts is
/// left unsaid: it refuses a text that is not well formed, and one whose compiled form takes more
/// bytes than a limit allows, which it may on one machine and not on another.
#[verifier::external_body]
fn compile(text: &str) -> (r: Option<Pattern>)
    ensures
        r matches Some(p) ==> p.source() == text@,
{
    match Regex::new(text) {
        Ok(regex) => Some(Pattern { regex }),
        Err(_) => None,
    }
}

/// `Regex::is_match`, of an expression compiled with no options: whether its text matches somewhere
/// in another.
#[verifier::external_body]
fn is_found(pattern: &Pattern, text: &str) -> (r: bool)
    ensures
        r == regex_found(pattern.source(), text@),
{
    pattern.regex.is_match(text)
}

/// A text that came back from compiling without a pattern.
pub closed spec fn is_refused(text: Seq<char>) -> bool {
    exists|s: &str| s@ == text && #[trigger] call_ensures(compile, (s,), None::<Pattern>)
}

impl Pattern {
    /// The text of the pattern.
    pub closed spec fn source(&self) -> Seq<char> {
        regex_source(self.regex)
    }

    /// The pattern with a text, where the text is accepted.
    pub fn new(text: &str) -> (r: Option<Pattern>)
        ensures
            r matches Some(p) ==> p.source() == text@,
            r is None ==> is_refused(text@),
    {
        let r = compile(text);
        assert(call_ensures(compile, (text,), r));
        r
    }

    /// The text of the pattern.
    pub fn as_str(&self) -> (r: &str)
        ensures
            r@ == self.source(),
    {
        self.regex.as_str()
    }

    /// Whether the pattern matches somewhere in a text.
    pub fn is_match(&self, text: &str) -> (r: bool)
        ensures
            r == regex_found(self.source(), text@),
    {
        is_found(self, text)
    }
}

impl Clone for Pattern {
    fn clone(&self) -> (r: Self)
        ensures
            r.source() == self.source(),
    {
        Pattern { regex: self.regex.clone() }
    }
}

/// `regex::RegexSet`, regular expressions that are searched for at once.
#[verifier::external_type_specification]
#[verifier::external_body]
pub struct ExRegexSet(RegexSet);

/// The texts that the expressions of a set were compiled from.
pub uninterp spec fn set_sources(s: RegexSet) -> Seq<Seq<char>>;

/// Regular expressions compiled from texts with no options.
#[derive(Debug)]
pub struct PatternSet {
    set: RegexSet,
}

/// The texts of a list.
pub open spec fn texts_view(texts: Seq<String>) -> Seq<Seq<char>> {
    texts.map_values(|s: String| s@)
}

/// `RegexSet::new`: where it succeeds, the expressions are those of the texts, in their order.
/// Which texts it accepts is left unsaid, as for [`Pattern`].
#[verifier::external_body]
fn compile_set(texts: &Vec<String>) -> (r: Option<PatternSet>)
    ensures
        r matches Some(p) ==> set_sources(p.set) == texts_view(texts@),
{
    match RegexSet::new(texts) {
        Ok(set) => Some(PatternSet { set }),
        Err(_) => None,
    }
}

/// `RegexSet::empty`: no expressions.
#[verifier::external_body]
fn no_patterns() -> (r: PatternSet)
    ensures
        set_sources(r.set) == Seq::<Seq<char>>::empty(),
{
    PatternSet { set: RegexSet::empty() }
}

/// `RegexSet::matches`, of expressions compiled with no options: the places of those that match
/// somewhere in a text, in order.
#[verifier::external_body]
fn all_found(patterns: &PatternSet, text: &str) -> (r: Vec<usize>)
    ensures
        forall|i: int, j: int| 0 <= i < j < r@.len() ==> r@[i] < r@[j],
        forall|i: int|
            0 <= i < r@.len() ==> {
                &&& #[trigger] r@[i] < set_sources(patterns.set).len()
                &&& regex_found(set_sources(patterns.set)[r@[i] as int], text@)
            },
        forall|k: int|
            0 <= k < set_sources(patterns.set).len() && regex_found(
                #[trigger] set_sources(patterns.set)[k],
                text@,
            ) ==> exists|i: int| 0 <= i < r@.len() && #[trigger] r@[i] == k,
{
    patterns.set.matches(text).iter().collect()
}

/// Texts that came back from compiling them together without patterns.
pub closed spec fn are_refused(texts: Seq<Seq<char>>) -> bool {
    exists|v: Vec<String>|
        texts_view(v@) == texts && #[trigger] call_ensures(compile_set, (&v,), None::<PatternSet>)
}

impl PatternSet {
    /// The texts of the patterns.
    pub closed spec fn sources(&self) -> Seq<Seq<char>> {
        set_sources(self.set)
    }

    /// The patterns with some texts, where these are accepted.
    pub fn new(texts: &Vec<String>) -> (r: Option<PatternSet>)
        ensures
            r matches Some(p) ==> p.sources() == texts_view(texts@),
            r is None ==> are_refused(texts_view(texts@)),
    {
        let r = compile_set(texts);
        assert(call_ensures(compile_set, (texts,), r));
        r
    }

    /// No patterns.
    pub fn empty() -> (r: PatternSet)
        ensures
            r.sources() == Seq::<Seq<char>>::empty(),
    {
        no_patterns()
    }

    /// The places of the patterns that match somewhere in a text, in order.
    pub fn matches(&self, text: &str) -> (r: Vec<usize>)
        ensures
            forall|i: int, j: int| 0 <= i < j < r@.len() ==> r@[i] < r@[j],
            forall|i: int|
                0 <= i < r@.len() ==> {
                    &&& #[trigger] r@[i] < self.sources().len()
                    &&& regex_found(self.sources()[r@[i] as int], text@)
                },
            forall|k: int|
                0 <= k < self.sources().len() && regex_found(
                    #[trigger] self.sources()[k],
                    text@,
                ) ==> exists|i: int| 0 <= i < r@.len() && #[trigger] r@[i] == k,
    {
        all_found(self, text)
    }
}

/// Whether the bytes are the encoding of a text that the pattern matches.
pub open spec fn regex_accepts(pattern: Seq<char>, v: Seq<u8>) -> bool {
    vstd::utf8::valid_utf8(v) && regex_found(pattern, vstd::utf8::decode_utf8(v))
}

/// Whether the bytes are the encoding of a text that the expression matches.
pub fn regex_accepts_bytes(re: &Pattern, v: &[u8]) -> (r: bool)
    ensures
        r == regex_accepts(re.source(), v@),
{
    match utf8_text(v) {
        Some(text) => {
            proof {
                vstd::utf8::encode_utf8_decode_utf8(text@);
                vstd::utf8::encode_utf8_valid_utf8(text@);
            }
            re.is_match(text)
        },
        None => false,
    }
}

} // verus!
