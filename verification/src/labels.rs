//! Labels, and the predicates by which series are selected.
use crate::bytes::{bytes_contain, bytes_equal, bytes_start_with, contains_bytes, starts_with, utf8};
use crate::regexp::{is_refused, regex_accepts, regex_accepts_bytes, Pattern};
use vstd::prelude::*;

verus! {

/// A name and a value that describe a series.
#[derive(Debug, Clone, PartialEq, Eq, Hash)]
pub struct Label {
    pub name: String,
    pub value: String,
}

impl Label {
    /// The label with this name and value.
    pub fn new(name: &str, value: &str) -> (r: Label)
        ensures
            r.name@ == name@,
            r.value@ == value@,
    {
        Label { name: name.to_owned(), value: value.to_owned() }
    }
}

/// What a label's value is held against.
#[derive(Debug, Clone)]
pub enum PredicateValue {
    Empty,
    String(String),
    List(Vec<String>),
}

/// A regular expression over label values.
#[derive(Debug, Clone)]
pub struct RegexMatcher {
    pub regex: Pattern,
    /// What every value that the expression matches starts with, where that is known.
    pub prefix: Option<String>,
}

/// A test on the value of a label.
#[derive(Debug, Clone)]
pub enum PredicateMatch {
    Equal(PredicateValue),
    NotEqual(PredicateValue),
    RegexEqual(RegexMatcher),
    RegexNotEqual(RegexMatcher),
    StartsWith(PredicateValue),
    NotStartsWith(PredicateValue),
    Contains(PredicateValue),
    NotContains(PredicateValue),
    MatchAll,
    MatchNone,
}

/// The kinds of tests that a filter can be created for.
#[derive(Debug, Clone, Copy, PartialEq, Eq, Structural)]
pub enum MatchOp {
    Equal,
    NotEqual,
    RegexEqual,
    RegexNotEqual,
    StartsWith,
    NotStartsWith,
    Contains,
    NotContains,
}

/// A test on the value of one label.
#[derive(Debug, Clone)]
pub struct LabelFilter {
    pub label: String,
    pub matcher: PredicateMatch,
}

/// A list of filters, all of which must hold.
pub type FilterList = Vec<LabelFilter>;

/// What selects series: filters that must all hold, or lists of filters of which one must hold.
#[derive(Debug, Clone)]
pub enum SeriesSelector {
    And(FilterList),
    Or(Vec<FilterList>),
}

/// Why a filter cannot be created.
#[derive(Debug, Clone, Copy, PartialEq, Eq, Structural)]
pub enum FilterError {
    /// A prefix test was given an empty prefix.
    EmptyPrefix,
    /// A containment test was given an empty text.
    EmptyNeedle,
    /// The regular expression was not accepted.
    InvalidRegex,
}

impl FilterError {
    /// The message that describes the error.
    pub fn to_text(&self) -> (r: String)
        ensures
            r@ == filter_error_text(*self),
    {
        match self {
            FilterError::EmptyPrefix => "starts with matcher does not allow empty values".to_owned(),
            FilterError::EmptyNeedle => "contains matcher does not allow empty values".to_owned(),
            FilterError::InvalidRegex => "invalid regular expression".to_owned(),
        }
    }
}

/// The message of each error.
pub open spec fn filter_error_text(e: FilterError) -> Seq<char> {
    match e {
        FilterError::EmptyPrefix => "starts with matcher does not allow empty values"@,
        FilterError::EmptyNeedle => "contains matcher does not allow empty values"@,
        FilterError::InvalidRegex => "invalid regular expression"@,
    }
}

/// A list holds a text with these bytes.
pub open spec fn list_has(values: Seq<String>, v: Seq<u8>) -> bool {
    exists|i: int| 0 <= i < values.len() && utf8(#[trigger] values[i]@) == v
}

/// A list holds a text that the bytes start with.
pub open spec fn list_has_prefix(values: Seq<String>, v: Seq<u8>) -> bool {
    exists|i: int| 0 <= i < values.len() && starts_with(v, utf8(#[trigger] values[i]@))
}

/// A list holds a text that occurs in the bytes.
pub open spec fn list_has_part(values: Seq<String>, v: Seq<u8>) -> bool {
    exists|i: int| 0 <= i < values.len() && contains_bytes(v, utf8(#[trigger] values[i]@))
}

/// The value is one of those listed; nothing listed stands for the empty value.
pub open spec fn value_equals(p: PredicateValue, v: Seq<u8>) -> bool {
    match p {
        PredicateValue::Empty => v.len() == 0,
        PredicateValue::String(s) => utf8(s@) == v,
        PredicateValue::List(l) => if l@.len() == 0 {
            v.len() == 0
        } else {
            list_has(l@, v)
        },
    }
}

/// The value starts with one of the texts.
pub open spec fn value_starts_with(p: PredicateValue, v: Seq<u8>) -> bool {
    match p {
        PredicateValue::Empty => false,
        PredicateValue::String(s) => starts_with(v, utf8(s@)),
        PredicateValue::List(l) => list_has_prefix(l@, v),
    }
}

/// One of the texts occurs in the value.
pub open spec fn value_contains(p: PredicateValue, v: Seq<u8>) -> bool {
    match p {
        PredicateValue::Empty => false,
        PredicateValue::String(s) => contains_bytes(v, utf8(s@)),
        PredicateValue::List(l) => list_has_part(l@, v),
    }
}

/// The test holds of the value (the empty value is that of an absent label).
pub open spec fn matcher_accepts(m: PredicateMatch, v: Seq<u8>) -> bool {
    match m {
        PredicateMatch::Equal(p) => value_equals(p, v),
        PredicateMatch::NotEqual(p) => !value_equals(p, v),
        PredicateMatch::RegexEqual(re) => regex_accepts(re.regex.source(), v),
        PredicateMatch::RegexNotEqual(re) => !regex_accepts(re.regex.source(), v),
        PredicateMatch::StartsWith(p) => value_starts_with(p, v),
        PredicateMatch::NotStartsWith(p) => !value_starts_with(p, v),
        PredicateMatch::Contains(p) => value_contains(p, v),
        PredicateMatch::NotContains(p) => !value_contains(p, v),
        PredicateMatch::MatchAll => true,
        PredicateMatch::MatchNone => false,
    }
}

/// The test is the negation of another.
pub open spec fn is_negative(m: PredicateMatch) -> bool {
    m is NotEqual || m is RegexNotEqual || m is NotStartsWith || m is NotContains
}

/// The test that holds exactly where this one does not.
pub open spec fn inverse_matcher(m: PredicateMatch) -> PredicateMatch {
    match m {
        PredicateMatch::Equal(p) => PredicateMatch::NotEqual(p),
        PredicateMatch::NotEqual(p) => PredicateMatch::Equal(p),
        PredicateMatch::RegexEqual(re) => PredicateMatch::RegexNotEqual(re),
        PredicateMatch::RegexNotEqual(re) => PredicateMatch::RegexEqual(re),
        PredicateMatch::StartsWith(p) => PredicateMatch::NotStartsWith(p),
        PredicateMatch::NotStartsWith(p) => PredicateMatch::StartsWith(p),
        PredicateMatch::Contains(p) => PredicateMatch::NotContains(p),
        PredicateMatch::NotContains(p) => PredicateMatch::Contains(p),
        PredicateMatch::MatchAll => PredicateMatch::MatchNone,
        PredicateMatch::MatchNone => PredicateMatch::MatchAll,
    }
}

/// How much work a test is: constants first, then lookups, scans and regular expressions.
pub open spec fn matcher_cost(m: PredicateMatch) -> int {
    match m {
        PredicateMatch::MatchAll => 0,
        PredicateMatch::MatchNone => 0,
        PredicateMatch::Equal(_) => 1,
        PredicateMatch::NotEqual(_) => 1,
        PredicateMatch::StartsWith(_) => 2,
        PredicateMatch::NotStartsWith(_) => 2,
        PredicateMatch::Contains(_) => 3,
        PredicateMatch::NotContains(_) => 3,
        PredicateMatch::RegexEqual(_) => 4,
        PredicateMatch::RegexNotEqual(_) => 4,
    }
}

/// Nothing is asked for: no value, an empty text or an empty list.
pub open spec fn value_is_empty(p: PredicateValue) -> bool {
    match p {
        PredicateValue::Empty => true,
        PredicateValue::String(s) => s@.len() == 0,
        PredicateValue::List(l) => l@.len() == 0,
    }
}

/// The test names no value to hold against.
pub open spec fn matcher_is_empty(m: PredicateMatch) -> bool {
    match m {
        PredicateMatch::Equal(p) => value_is_empty(p),
        PredicateMatch::NotEqual(p) => value_is_empty(p),
        PredicateMatch::StartsWith(p) => value_is_empty(p),
        PredicateMatch::NotStartsWith(p) => value_is_empty(p),
        PredicateMatch::Contains(p) => value_is_empty(p),
        PredicateMatch::NotContains(p) => value_is_empty(p),
        PredicateMatch::RegexEqual(re) => re.regex.source().len() == 0,
        PredicateMatch::RegexNotEqual(re) => re.regex.source().len() == 0,
        PredicateMatch::MatchAll => false,
        PredicateMatch::MatchNone => false,
    }
}

/// The pattern of a regular expression test.
pub open spec fn matcher_regex_text(m: PredicateMatch) -> Option<Seq<char>> {
    match m {
        PredicateMatch::RegexEqual(re) => Some(re.regex.source()),
        PredicateMatch::RegexNotEqual(re) => Some(re.regex.source()),
        _ => None,
    }
}

/// A test and its inverse never agree.
pub proof fn law_inverse_negates(m: PredicateMatch, v: Seq<u8>)
    ensures
        matcher_accepts(inverse_matcher(m), v) == !matcher_accepts(m, v),
        inverse_matcher(inverse_matcher(m)) == m,
{
}

impl PredicateValue {
    /// Whether the value is one of those listed.
    #[verifier::loop_isolation(false)]
    pub fn matches(&self, v: &[u8]) -> (r: bool)
        ensures
            r == value_equals(*self, v@),
    {
        match self {
            PredicateValue::Empty => v.len() == 0,
            PredicateValue::String(s) => bytes_equal(s.as_str().as_bytes(), v),
            PredicateValue::List(l) => {
                if l.len() == 0 {
                    return v.len() == 0;
                }
                let mut i: usize = 0;
                while i < l.len()
                    invariant
                        i <= l.len(),
                        forall|j: int| 0 <= j < i ==> utf8((#[trigger] l@[j])@) != v@,
                    decreases l.len() - i,
                {
                    if bytes_equal(l[i].as_str().as_bytes(), v) {
                        assert(utf8(l@[i as int]@) == v@);
                        return true;
                    }
                    i += 1;
                }
                false
            },
        }
    }

    /// Whether the value starts with one of the texts.
    #[verifier::loop_isolation(false)]
    pub fn matches_starts_with_any(&self, v: &[u8]) -> (r: bool)
        ensures
            r == value_starts_with(*self, v@),
    {
        match self {
            PredicateValue::Empty => false,
            PredicateValue::String(s) => bytes_start_with(v, s.as_str().as_bytes()),
            PredicateValue::List(l) => {
                let mut i: usize = 0;
                while i < l.len()
                    invariant
                        i <= l.len(),
                        forall|j: int|
                            0 <= j < i ==> !starts_with(v@, utf8((#[trigger] l@[j])@)),
                    decreases l.len() - i,
                {
                    if bytes_start_with(v, l[i].as_str().as_bytes()) {
                        assert(starts_with(v@, utf8(l@[i as int]@)));
                        return true;
                    }
                    i += 1;
                }
                false
            },
        }
    }

    /// Whether one of the texts occurs in the value.
    #[verifier::loop_isolation(false)]
    pub fn matches_contains_any(&self, v: &[u8]) -> (r: bool)
        ensures
            r == value_contains(*self, v@),
    {
        match self {
            PredicateValue::Empty => false,
            PredicateValue::String(s) => bytes_contain(v, s.as_str().as_bytes()),
            PredicateValue::List(l) => {
                let mut i: usize = 0;
                while i < l.len()
                    invariant
                        i <= l.len(),
                        forall|j: int|
                            0 <= j < i ==> !contains_bytes(v@, utf8((#[trigger] l@[j])@)),
                    decreases l.len() - i,
                {
                    if bytes_contain(v, l[i].as_str().as_bytes()) {
                        assert(contains_bytes(v@, utf8(l@[i as int]@)));
                        return true;
                    }
                    i += 1;
                }
                false
            },
        }
    }

    /// Whether nothing is asked for.
    pub fn is_empty(&self) -> (r: bool)
        ensures
            r == value_is_empty(*self),
    {
        match self {
            PredicateValue::Empty => true,
            PredicateValue::String(s) => s.as_str().is_empty(),
            PredicateValue::List(l) => l.len() == 0,
        }
    }
}

impl RegexMatcher {
    /// The matcher for a pattern, where the pattern is accepted.
    pub fn new(pattern: &str) -> (r: Result<RegexMatcher, FilterError>)
        ensures
            r matches Ok(m) ==> m.regex.source() == pattern@ && m.prefix is None,
            r matches Err(e) ==> e == FilterError::InvalidRegex && is_refused(pattern@),
    {
        RegexMatcher::from_compiled(Pattern::new(pattern))
    }

    /// The matcher for an expression, if a pattern gave one.
    pub fn from_compiled(compiled: Option<Pattern>) -> (r: Result<RegexMatcher, FilterError>)
        ensures
            r == match compiled {
                Some(regex) => Ok::<RegexMatcher, FilterError>(
                    RegexMatcher { regex, prefix: None },
                ),
                None => Err(FilterError::InvalidRegex),
            },
    {
        match compiled {
            Some(regex) => Ok(RegexMatcher { regex, prefix: None }),
            None => Err(FilterError::InvalidRegex),
        }
    }

    /// Whether the expression matches the value.
    pub fn is_match(&self, v: &[u8]) -> (r: bool)
        ensures
            r == regex_accepts(self.regex.source(), v@),
    {
        regex_accepts_bytes(&self.regex, v)
    }
}

impl PredicateMatch {
    /// Whether the test holds of the value.
    pub fn matches(&self, v: &[u8]) -> (r: bool)
        ensures
            r == matcher_accepts(*self, v@),
    {
        match self {
            PredicateMatch::Equal(p) => p.matches(v),
            PredicateMatch::NotEqual(p) => !p.matches(v),
            PredicateMatch::RegexEqual(re) => re.is_match(v),
            PredicateMatch::RegexNotEqual(re) => !re.is_match(v),
            PredicateMatch::StartsWith(p) => p.matches_starts_with_any(v),
            PredicateMatch::NotStartsWith(p) => !p.matches_starts_with_any(v),
            PredicateMatch::Contains(p) => p.matches_contains_any(v),
            PredicateMatch::NotContains(p) => !p.matches_contains_any(v),
            PredicateMatch::MatchAll => true,
            PredicateMatch::MatchNone => false,
        }
    }

    /// Whether the test names no value to hold against.
    pub fn is_empty(&self) -> (r: bool)
        ensures
            r == matcher_is_empty(*self),
    {
        match self {
            PredicateMatch::Equal(p) => p.is_empty(),
            PredicateMatch::NotEqual(p) => p.is_empty(),
            PredicateMatch::StartsWith(p) => p.is_empty(),
            PredicateMatch::NotStartsWith(p) => p.is_empty(),
            PredicateMatch::Contains(p) => p.is_empty(),
            PredicateMatch::NotContains(p) => p.is_empty(),
            PredicateMatch::RegexEqual(re) => re.regex.as_str().is_empty(),
            PredicateMatch::RegexNotEqual(re) => re.regex.as_str().is_empty(),
            PredicateMatch::MatchAll => false,
            PredicateMatch::MatchNone => false,
        }
    }

    /// Whether the test is the negation of another.
    pub fn is_negative(&self) -> (r: bool)
        ensures
            r == is_negative(*self),
    {
        match self {
            PredicateMatch::NotEqual(_) => true,
            PredicateMatch::RegexNotEqual(_) => true,
            PredicateMatch::NotStartsWith(_) => true,
            PredicateMatch::NotContains(_) => true,
            _ => false,
        }
    }

    /// How much work the test is.
    pub fn cost(&self) -> (r: u8)
        ensures
            r == matcher_cost(*self),
    {
        match self {
            PredicateMatch::MatchAll => 0,
            PredicateMatch::MatchNone => 0,
            PredicateMatch::Equal(_) => 1,
            PredicateMatch::NotEqual(_) => 1,
            PredicateMatch::StartsWith(_) => 2,
            PredicateMatch::NotStartsWith(_) => 2,
            PredicateMatch::Contains(_) => 3,
            PredicateMatch::NotContains(_) => 3,
            PredicateMatch::RegexEqual(_) => 4,
            PredicateMatch::RegexNotEqual(_) => 4,
        }
    }
}

impl LabelFilter {
    /// The filter that wants exactly this value.
    pub fn equals(label: String, value: &str) -> (r: LabelFilter)
        ensures
            r.label == label,
            r.matcher matches PredicateMatch::Equal(PredicateValue::String(s)) && s@ == value@,
    {
        LabelFilter { label, matcher: PredicateMatch::Equal(PredicateValue::String(value.to_owned())) }
    }

    /// The filter that wants any value but this.
    pub fn not_equals(label: String, value: &str) -> (r: LabelFilter)
        ensures
            r.label == label,
            r.matcher matches PredicateMatch::NotEqual(PredicateValue::String(s)) && s@ == value@,
    {
        LabelFilter {
            label,
            matcher: PredicateMatch::NotEqual(PredicateValue::String(value.to_owned())),
        }
    }

    /// The filter of the given kind. A prefix or containment test on nothing is refused; so is a
    /// regular expression that does not compile.
    pub fn create(op: MatchOp, label: &str, value: &str) -> (r: Result<LabelFilter, FilterError>)
        ensures
            refusal(op, value@) is Some ==> r == Err::<LabelFilter, FilterError>(
                refusal(op, value@)->0,
            ),
            r matches Err(e) ==> refusal(op, value@) == Some(e) || (needs_regex(op) && is_refused(
                value@,
            ) && e == FilterError::InvalidRegex),
            r matches Ok(f) ==> {
                &&& f.label@ == label@
                &&& created_for(op, value@, f.matcher)
            },
    {
        let compiled = match op {
            MatchOp::RegexEqual => Pattern::new(value),
            MatchOp::RegexNotEqual => Pattern::new(value),
            _ => None,
        };
        LabelFilter::with_compiled(op, label, value, compiled)
    }

    /// The filter of the given kind, with what compiling its value as a regular expression gave.
    /// Tests that are no regular expressions do without.
    pub fn with_compiled(op: MatchOp, label: &str, value: &str, compiled: Option<Pattern>) -> (r:
        Result<LabelFilter, FilterError>)
        requires
            compiled matches Some(re) ==> re.source() == value@,
        ensures
            match r {
                Ok(f) => {
                    &&& refusal(op, value@) is None
                    &&& needs_regex(op) ==> compiled is Some
                    &&& f.label@ == label@
                    &&& created_for(op, value@, f.matcher)
                },
                Err(e) => refusal(op, value@) == Some(e) || (refusal(op, value@) is None
                    && needs_regex(op) && compiled is None && e == FilterError::InvalidRegex),
            },
    {
        let matcher = match op {
            MatchOp::Equal => PredicateMatch::Equal(PredicateValue::String(value.to_owned())),
            MatchOp::NotEqual => PredicateMatch::NotEqual(PredicateValue::String(value.to_owned())),
            MatchOp::RegexEqual => match RegexMatcher::from_compiled(compiled) {
                Ok(re) => PredicateMatch::RegexEqual(re),
                Err(e) => return Err(e),
            },
            MatchOp::RegexNotEqual => match RegexMatcher::from_compiled(compiled) {
                Ok(re) => PredicateMatch::RegexNotEqual(re),
                Err(e) => return Err(e),
            },
            MatchOp::StartsWith => {
                if value.is_empty() {
                    return Err(FilterError::EmptyPrefix);
                }
                PredicateMatch::StartsWith(PredicateValue::String(value.to_owned()))
            },
            MatchOp::NotStartsWith => {
                if value.is_empty() {
                    return Err(FilterError::EmptyPrefix);
                }
                PredicateMatch::NotStartsWith(PredicateValue::String(value.to_owned()))
            },
            MatchOp::Contains => {
                if value.is_empty() {
                    return Err(FilterError::EmptyNeedle);
                }
                PredicateMatch::Contains(PredicateValue::String(value.to_owned()))
            },
            MatchOp::NotContains => {
                if value.is_empty() {
                    return Err(FilterError::EmptyNeedle);
                }
                PredicateMatch::NotContains(PredicateValue::String(value.to_owned()))
            },
        };
        Ok(LabelFilter { label: label.to_owned(), matcher })
    }

    /// Whether the filter accepts the value.
    pub fn matches(&self, v: &[u8]) -> (r: bool)
        ensures
            r == matcher_accepts(self.matcher, v@),
    {
        self.matcher.matches(v)
    }

    /// Whether the filter accepts a series without the label.
    pub fn matches_empty(&self) -> (r: bool)
        ensures
            r == matcher_accepts(self.matcher, Seq::<u8>::empty()),
    {
        let none: Vec<u8> = Vec::new();
        self.matcher.matches(none.as_slice())
    }

    /// Whether the filter is the negation of another.
    pub fn is_negative_matcher(&self) -> (r: bool)
        ensures
            r == is_negative(self.matcher),
    {
        self.matcher.is_negative()
    }
}

/// The test is of this kind and holds against this value.
pub open spec fn created_for(op: MatchOp, value: Seq<char>, m: PredicateMatch) -> bool {
    match op {
        MatchOp::Equal => m matches PredicateMatch::Equal(PredicateValue::String(s)) && s@ == value,
        MatchOp::NotEqual => m matches PredicateMatch::NotEqual(PredicateValue::String(s)) && s@
            == value,
        MatchOp::RegexEqual => m matches PredicateMatch::RegexEqual(re) && re.regex.source()
            == value,
        MatchOp::RegexNotEqual => m matches PredicateMatch::RegexNotEqual(re) && re.regex.source() == value,
        MatchOp::StartsWith => m matches PredicateMatch::StartsWith(PredicateValue::String(s)) && s@
            == value,
        MatchOp::NotStartsWith => m matches PredicateMatch::NotStartsWith(
            PredicateValue::String(s),
        ) && s@ == value,
        MatchOp::Contains => m matches PredicateMatch::Contains(PredicateValue::String(s)) && s@
            == value,
        MatchOp::NotContains => m matches PredicateMatch::NotContains(PredicateValue::String(s))
            && s@ == value,
    }
}

/// Whether a test holds values against a regular expression.
pub open spec fn needs_regex(op: MatchOp) -> bool {
    op == MatchOp::RegexEqual || op == MatchOp::RegexNotEqual
}

/// Why a test is refused whatever a regular expression would be.
pub open spec fn refusal(op: MatchOp, value: Seq<char>) -> Option<FilterError> {
    if value.len() > 0 {
        None
    } else {
        match op {
            MatchOp::StartsWith | MatchOp::NotStartsWith => Some(FilterError::EmptyPrefix),
            MatchOp::Contains | MatchOp::NotContains => Some(FilterError::EmptyNeedle),
            _ => None,
        }
    }
}

} // verus!
