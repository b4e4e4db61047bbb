//! Which names and values a search takes, and how well each matches.
//!
//! A score is held as the bits of its IEEE 754 representation. How similar two texts are, the
//! caller tells; what follows from it is decided here.
use crate::bytes::{bytes_contain, contains_bytes, utf8};
use crate::index::label_search::PERFECT_SCORE;
use crate::sample::{is_nan, order_value, value_is_nan, value_order};
use crate::text::{chars_equal, chars_of, chars_small, small_text};
use vstd::prelude::*;

verus! {

/// How the similarity of texts is measured.
#[derive(Debug, Clone, Copy, PartialEq, Eq, Structural)]
pub enum FuzzyAlgorithm {
    JaroWinkler,
    Subsequence,
    NoOp,
}

/// The name of an algorithm.
pub open spec fn algorithm_name(a: FuzzyAlgorithm) -> Seq<char> {
    match a {
        FuzzyAlgorithm::JaroWinkler => "jarowinkler"@,
        FuzzyAlgorithm::Subsequence => "subsequence"@,
        FuzzyAlgorithm::NoOp => "noop"@,
    }
}

/// A name in small letters is that of an algorithm.
pub open spec fn names_algorithm(s: Seq<char>, a: FuzzyAlgorithm) -> bool {
    s == algorithm_name(a) || (a == FuzzyAlgorithm::JaroWinkler && s == "jaro-winkler"@)
}

impl FuzzyAlgorithm {
    /// The name of an algorithm.
    pub fn name(&self) -> (r: &'static str)
        ensures
            r@ == algorithm_name(*self),
    {
        match self {
            FuzzyAlgorithm::JaroWinkler => "jarowinkler",
            FuzzyAlgorithm::Subsequence => "subsequence",
            FuzzyAlgorithm::NoOp => "noop",
        }
    }

    /// The algorithm with a name, whatever the case of its letters.
    pub fn from_name(value: &str) -> (r: Option<FuzzyAlgorithm>)
        ensures
            match r {
                Some(a) => names_algorithm(small_text(value@), a),
                None => forall|a: FuzzyAlgorithm| !#[trigger] names_algorithm(
                    small_text(value@),
                    a,
                ),
            },
    {
        let chars = chars_of(value);
        let wanted = chars_small(chars.as_slice());
        let first = chars_of("jarowinkler");
        let second = chars_of("jaro-winkler");
        let third = chars_of("subsequence");
        let fourth = chars_of("noop");
        if chars_equal(wanted.as_slice(), first.as_slice()) || chars_equal(
            wanted.as_slice(),
            second.as_slice(),
        ) {
            return Some(FuzzyAlgorithm::JaroWinkler);
        }
        if chars_equal(wanted.as_slice(), third.as_slice()) {
            return Some(FuzzyAlgorithm::Subsequence);
        }
        if chars_equal(wanted.as_slice(), fourth.as_slice()) {
            return Some(FuzzyAlgorithm::NoOp);
        }
        None
    }
}

impl Default for FuzzyAlgorithm {
    fn default() -> (r: Self)
        ensures
            r == FuzzyAlgorithm::JaroWinkler,
    {
        FuzzyAlgorithm::JaroWinkler
    }
}

/// The characters of a text.
pub type Text = Seq<char>;

/// Decides whether a name or a value is taken, and how well it matches.
pub trait FuzzyFilter {
    /// Whether a text is taken, and its score.
    spec fn verdict(&self, value: Text) -> (bool, u64);

    /// Whether a text is taken, and its score, which is a number.
    fn accept(&self, value: &str) -> (r: (bool, u64))
        ensures
            r == self.verdict(value@),
            !is_nan(r.1),
    ;
}

/// Takes everything.
#[derive(Debug, Clone, Copy, PartialEq, Eq, Structural)]
pub struct NoOpSearchMatcher;

impl FuzzyFilter for NoOpSearchMatcher {
    open spec fn verdict(&self, value: Seq<char>) -> (bool, u64) {
        (true, PERFECT_SCORE)
    }

    fn accept(&self, value: &str) -> (r: (bool, u64)) {
        (true, PERFECT_SCORE)
    }
}

/// A pattern, and how the similarity to it is measured.
#[derive(Debug, Clone, PartialEq, Eq)]
pub enum SimilarityMatcher {
    JaroWinkler(String),
    Subsequence(String),
    NoOp(NoOpSearchMatcher),
}

/// The algorithm of a matcher.
pub open spec fn matcher_algorithm(m: SimilarityMatcher) -> FuzzyAlgorithm {
    match m {
        SimilarityMatcher::JaroWinkler(_) => FuzzyAlgorithm::JaroWinkler,
        SimilarityMatcher::Subsequence(_) => FuzzyAlgorithm::Subsequence,
        SimilarityMatcher::NoOp(_) => FuzzyAlgorithm::NoOp,
    }
}

/// The pattern of a matcher, where it has one.
pub open spec fn matcher_pattern(m: SimilarityMatcher) -> Option<Seq<char>> {
    match m {
        SimilarityMatcher::JaroWinkler(p) => Some(p@),
        SimilarityMatcher::Subsequence(p) => Some(p@),
        SimilarityMatcher::NoOp(_) => None,
    }
}

impl SimilarityMatcher {
    /// A matcher for a pattern.
    pub fn new(pattern: &str, algorithm: FuzzyAlgorithm) -> (r: Self)
        ensures
            matcher_algorithm(r) == algorithm,
            matcher_pattern(r) == if algorithm == FuzzyAlgorithm::NoOp {
                None
            } else {
                Some(pattern@)
            },
    {
        match algorithm {
            FuzzyAlgorithm::JaroWinkler => SimilarityMatcher::JaroWinkler(pattern.to_owned()),
            FuzzyAlgorithm::Subsequence => SimilarityMatcher::Subsequence(pattern.to_owned()),
            FuzzyAlgorithm::NoOp => SimilarityMatcher::NoOp(NoOpSearchMatcher),
        }
    }
}

impl Default for SimilarityMatcher {
    fn default() -> (r: Self)
        ensures
            r == SimilarityMatcher::NoOp(NoOpSearchMatcher),
    {
        SimilarityMatcher::NoOp(NoOpSearchMatcher)
    }
}

/// A text in small letters, as `str::to_lowercase` makes it.
pub uninterp spec fn lower_text(text: Seq<char>) -> Seq<char>;

/// `str::to_lowercase`: the text in small letters, by the tables of Unicode.
#[verifier::external_body]
fn lowercase(text: &str) -> (r: String)
    ensures
        r@ == lower_text(text@),
{
    text.to_lowercase()
}

/// A text as it is compared.
pub open spec fn compared(text: Seq<char>, case_sensitive: bool) -> Seq<char> {
    if case_sensitive {
        text
    } else {
        lower_text(text)
    }
}

/// A text as it is compared.
pub fn normalize(text: &str, case_sensitive: bool) -> (r: String)
    ensures
        r@ == compared(text@, case_sensitive),
{
    if case_sensitive {
        text.to_owned()
    } else {
        lowercase(text)
    }
}

/// Takes what is similar enough to a pattern.
#[derive(Debug, Clone, PartialEq, Eq)]
pub struct SimilarityFilter {
    pub matcher: SimilarityMatcher,
    /// The least score that is taken.
    pub threshold: u64,
    pub case_sensitive: bool,
}

/// Whether a score is taken: one that is a number and no smaller than the threshold.
pub open spec fn reaches(score: u64, threshold: u64) -> bool {
    !is_nan(score) && !is_nan(threshold) && value_order(score) >= value_order(threshold)
}

impl SimilarityFilter {
    /// A filter that tells capital letters from small ones.
    pub fn new(pattern: &str, algorithm: FuzzyAlgorithm, threshold: u64) -> (r: Self)
        ensures
            matcher_algorithm(r.matcher) == algorithm,
            matcher_pattern(r.matcher) == if algorithm == FuzzyAlgorithm::NoOp {
                None
            } else {
                Some(pattern@)
            },
            r.threshold == threshold,
            r.case_sensitive,
    {
        SimilarityFilter::new_with_case_sensitivity(pattern, algorithm, threshold, true)
    }

    /// A filter.
    pub fn new_with_case_sensitivity(
        pattern: &str,
        algorithm: FuzzyAlgorithm,
        threshold: u64,
        case_sensitive: bool,
    ) -> (r: Self)
        ensures
            matcher_algorithm(r.matcher) == algorithm,
            matcher_pattern(r.matcher) == if algorithm == FuzzyAlgorithm::NoOp {
                None
            } else {
                Some(compared(pattern@, case_sensitive))
            },
            r.threshold == threshold,
            r.case_sensitive == case_sensitive,
    {
        let normalized = normalize(pattern, case_sensitive);
        SimilarityFilter {
            matcher: SimilarityMatcher::new(normalized.as_str(), algorithm),
            threshold,
            case_sensitive,
        }
    }

    /// The text that the pattern is held against.
    pub fn candidate(&self, value: &str) -> (r: String)
        ensures
            r@ == compared(value@, self.case_sensitive),
    {
        normalize(value, self.case_sensitive)
    }

    /// What becomes of a text with a score.
    pub fn judge(&self, score: u64) -> (r: (bool, u64))
        ensures
            r == (reaches(score, self.threshold), score),
    {
        let taken: bool = !value_is_nan(score) && !value_is_nan(self.threshold) && order_value(
            score,
        ) >= order_value(self.threshold);
        (taken, score)
    }
}

impl Default for SimilarityFilter {
    fn default() -> (r: Self)
        ensures
            r.matcher == SimilarityMatcher::NoOp(NoOpSearchMatcher),
            r.threshold == 0,
            !r.case_sensitive,
    {
        SimilarityFilter {
            matcher: SimilarityMatcher::default(),
            threshold: 0,
            case_sensitive: false,
        }
    }
}

/// Takes names that hold one of some terms, or that are similar enough to one of them.
#[derive(Debug, Clone, PartialEq, Eq)]
pub struct LabelNameSearchFilter {
    /// A filter for each term, where similarity counts.
    pub similarity_filters: Vec<SimilarityFilter>,
    /// The terms, where a name has to hold one of them.
    pub substring_terms: Option<Vec<String>>,
    pub case_sensitive: bool,
}

/// A text holds one of some terms.
pub open spec fn holds_term(text: Seq<char>, terms: Seq<String>) -> bool {
    exists|i: int| 0 <= i < terms.len() && contains_bytes(utf8(text), utf8((#[trigger] terms[i])@))
}

/// The larger of two scores; one that is no number does not count.
pub open spec fn larger_score(a: u64, b: u64) -> u64 {
    if is_nan(b) || (!is_nan(a) && value_order(a) >= value_order(b)) {
        a
    } else {
        b
    }
}

/// The largest of some scores and 0.
pub open spec fn best_score(scores: Seq<u64>) -> u64
    decreases scores.len(),
{
    if scores.len() == 0 {
        0
    } else {
        larger_score(best_score(scores.drop_last()), scores.last())
    }
}

impl LabelNameSearchFilter {
    /// A filter for terms. Without a threshold a name has to hold one of them.
    pub fn new(
        terms: Vec<String>,
        algorithm: FuzzyAlgorithm,
        fuzz_threshold: u64,
        case_sensitive: bool,
    ) -> (r: Self)
        ensures
            r.case_sensitive == case_sensitive,
            value_order(fuzz_threshold) == 0 ==> r.similarity_filters@.len() == 0
                && r.substring_terms is Some && is_compared(
                terms@,
                r.substring_terms->0@,
                case_sensitive,
            ),
            value_order(fuzz_threshold) != 0 ==> r.substring_terms is None
                && r.similarity_filters@.len() == terms@.len() && forall|i: int|
                0 <= i < terms@.len() ==> is_filter_for(
                    #[trigger] r.similarity_filters@[i],
                    compared(terms@[i]@, case_sensitive),
                    algorithm,
                    fuzz_threshold,
                    case_sensitive,
                ),
    {
        let mut normalized: Vec<String> = Vec::new();
        let mut i: usize = 0;
        while i < terms.len()
            invariant
                i <= terms@.len(),
                normalized@.len() == i,
                forall|k: int|
                    0 <= k < i ==> (#[trigger] normalized@[k])@ == compared(
                        terms@[k]@,
                        case_sensitive,
                    ),
            decreases terms.len() - i,
        {
            normalized.push(normalize(terms[i].as_str(), case_sensitive));
            i += 1;
        }
        if order_value(fuzz_threshold) == 0 {
            return LabelNameSearchFilter {
                similarity_filters: Vec::new(),
                substring_terms: Some(normalized),
                case_sensitive,
            };
        }
        let mut filters: Vec<SimilarityFilter> = Vec::new();
        let mut i: usize = 0;
        while i < normalized.len()
            invariant
                i <= normalized@.len(),
                normalized@.len() == terms@.len(),
                forall|k: int|
                    0 <= k < normalized@.len() ==> (#[trigger] normalized@[k])@ == compared(
                        terms@[k]@,
                        case_sensitive,
                    ),
                filters@.len() == i,
                forall|k: int|
                    0 <= k < i ==> is_filter_for(
                        #[trigger] filters@[k],
                        compared(terms@[k]@, case_sensitive),
                        algorithm,
                        fuzz_threshold,
                        case_sensitive,
                    ),
            decreases normalized.len() - i,
        {
            filters.push(
                SimilarityFilter {
                    matcher: SimilarityMatcher::new(normalized[i].as_str(), algorithm),
                    threshold: fuzz_threshold,
                    case_sensitive,
                },
            );
            i += 1;
        }
        LabelNameSearchFilter { similarity_filters: filters, substring_terms: None, case_sensitive }
    }

    /// What becomes of a name where it has to hold a term; nothing is said where similarity
    /// counts.
    pub fn accept_substring(&self, value: &str) -> (r: Option<(bool, u64)>)
        ensures
            r == match self.substring_terms {
                None => None,
                Some(terms) => Some(
                    if holds_term(compared(value@, self.case_sensitive), terms@) {
                        (true, PERFECT_SCORE)
                    } else {
                        (false, 0u64)
                    },
                ),
            },
    {
        match &self.substring_terms {
            None => None,
            Some(terms) => {
                let text = normalize(value, self.case_sensitive);
                let mut i: usize = 0;
                while i < terms.len()
                    invariant
                        i <= terms@.len(),
                        text@ == compared(value@, self.case_sensitive),
                        self.substring_terms == Some(*terms),
                        forall|k: int|
                            0 <= k < i ==> !contains_bytes(utf8(text@), utf8((#[trigger] terms@[k])@)),
                    decreases terms.len() - i,
                {
                    if bytes_contain(text.as_str().as_bytes(), terms[i].as_str().as_bytes()) {
                        assert(contains_bytes(utf8(text@), utf8(terms@[i as int]@)));
                        return Some((true, PERFECT_SCORE));
                    }
                    i += 1;
                }
                Some((false, 0))
            },
        }
    }

    /// What becomes of a name with these scores, one for each filter.
    pub fn judge(&self, scores: &Vec<u64>) -> (r: (bool, u64))
        requires
            scores@.len() == self.similarity_filters@.len(),
        ensures
            r.1 == best_score(scores@),
            r.0 == exists|i: int|
                0 <= i < scores@.len() && reaches(
                    #[trigger] scores@[i],
                    self.similarity_filters@[i].threshold,
                ),
    {
        let mut accepted: bool = false;
        let mut best: u64 = 0;
        let mut i: usize = 0;
        assert(scores@.take(0) =~= Seq::<u64>::empty());
        while i < scores.len()
            invariant
                i <= scores@.len(),
                scores@.len() == self.similarity_filters@.len(),
                best == best_score(scores@.take(i as int)),
                accepted == exists|k: int|
                    0 <= k < i && reaches(
                        #[trigger] scores@[k],
                        self.similarity_filters@[k].threshold,
                    ),
            decreases scores.len() - i,
        {
            let (taken, score) = self.similarity_filters[i].judge(scores[i]);
            assert(scores@.take(i + 1).drop_last() =~= scores@.take(i as int));
            if !(value_is_nan(score) || (!value_is_nan(best) && order_value(best) >= order_value(
                score,
            ))) {
                best = score;
            }
            if taken {
                assert(reaches(scores@[i as int], self.similarity_filters@[i as int].threshold));
                accepted = true;
            }
            i += 1;
        }
        assert(scores@.take(i as int) =~= scores@);
        (accepted, best)
    }
}

/// The second list holds the texts of the first as they are compared.
pub open spec fn is_compared(terms: Seq<String>, out: Seq<String>, case_sensitive: bool) -> bool {
    &&& out.len() == terms.len()
    &&& forall|i: int|
        0 <= i < terms.len() ==> (#[trigger] out[i])@ == compared(terms[i]@, case_sensitive)
}

/// A filter with these parts.
pub open spec fn is_filter_for(
    f: SimilarityFilter,
    pattern: Seq<char>,
    algorithm: FuzzyAlgorithm,
    threshold: u64,
    case_sensitive: bool,
) -> bool {
    &&& matcher_algorithm(f.matcher) == algorithm
    &&& matcher_pattern(f.matcher) == if algorithm == FuzzyAlgorithm::NoOp {
        None
    } else {
        Some(pattern)
    }
    &&& f.threshold == threshold
    &&& f.case_sensitive == case_sensitive
}

} // verus!
