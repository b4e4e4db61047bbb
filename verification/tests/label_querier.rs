//! Searching labels.
use valkey_timeseries::error::TsdbError;
use valkey_timeseries::index::label_filter::{
    normalize, FuzzyAlgorithm, FuzzyFilter, NoOpSearchMatcher, SimilarityFilter, SimilarityMatcher,
    Text,
};
use valkey_timeseries::index::label_querier::{
    collect_label_names, collect_label_values, DefaultLabelQuerier,
};
use valkey_timeseries::index::label_scan::{collect_unscoped_label_values, get_label_cardinality};
use valkey_timeseries::index::label_search::{
    collect_limited, collect_limited_with_heap, normalize_limit, LabelQueryResult, LabelSearchResult, SearchHints,
    SearchResultOrdering, SortBy, SEARCH_RESULT_DEFAULT_LIMIT, SEARCH_RESULT_LIMIT_MAX,
};
use valkey_timeseries::index::label_top::collect_unscoped_label_names;
use valkey_timeseries::labels::Label;
use valkey_timeseries::postings::Postings;

struct StaticScoreFilter;

impl FuzzyFilter for StaticScoreFilter {
    fn verdict(&self, _value: Text) -> (bool, u64) {
        unreachable!("only proofs speak of it")
    }

    fn accept(&self, value: &str) -> (bool, u64) {
        let (taken, score) = match value {
            "us-east" => (true, 0.9f64),
            "us-west" => (true, 0.9),
            "eu-west" => (true, 0.4),
            _ => (false, 0.0),
        };
        (taken, score.to_bits())
    }
}

struct StaticNameScoreFilter;

impl FuzzyFilter for StaticNameScoreFilter {
    fn verdict(&self, _value: Text) -> (bool, u64) {
        unreachable!("only proofs speak of it")
    }

    fn accept(&self, value: &str) -> (bool, u64) {
        let (taken, score) = match value {
            "alpha" => (true, 0.9f64),
            "beta" => (true, 0.9),
            "gamma" => (true, 0.4),
            _ => (false, 0.0),
        };
        (taken, score.to_bits())
    }
}

fn jaro(a: &[char], b: &[char]) -> f64 {
    if a == b {
        return 1.0;
    }
    if a.is_empty() || b.is_empty() {
        return 0.0;
    }
    let reach = (a.len().max(b.len()) / 2).saturating_sub(1);
    let mut taken = vec![false; b.len()];
    let mut matched_a = Vec::new();
    for (i, c) in a.iter().enumerate() {
        let from = i.saturating_sub(reach);
        let to = (i + reach + 1).min(b.len());
        for j in from..to {
            if !taken[j] && b[j] == *c {
                taken[j] = true;
                matched_a.push(*c);
                break;
            }
        }
    }
    let matched_b: Vec<char> = (0..b.len()).filter(|j| taken[*j]).map(|j| b[j]).collect();
    let m = matched_a.len() as f64;
    if m == 0.0 {
        return 0.0;
    }
    let moved = matched_a.iter().zip(&matched_b).filter(|(x, y)| x != y).count() as f64 / 2.0;
    (m / a.len() as f64 + m / b.len() as f64 + (m - moved) / m) / 3.0
}

/// How similar two texts are, by the algorithm of a filter.
fn similarity(matcher: &SimilarityMatcher, value: &str) -> f64 {
    let text: Vec<char> = value.chars().collect();
    match matcher {
        SimilarityMatcher::JaroWinkler(pattern) => {
            let pattern: Vec<char> = pattern.chars().collect();
            let base = jaro(&pattern, &text);
            let common = pattern.iter().zip(&text).take(4).take_while(|(x, y)| x == y).count();
            base + common as f64 * 0.1 * (1.0 - base)
        }
        SimilarityMatcher::Subsequence(pattern) => {
            let mut rest = text.iter();
            let found = pattern.chars().all(|c| rest.any(|x| *x == c));
            if found && !text.is_empty() {
                pattern.chars().count() as f64 / text.len() as f64
            } else {
                0.0
            }
        }
        SimilarityMatcher::NoOp(_) => 1.0,
    }
}

fn accept(filter: &SimilarityFilter, value: &str) -> (bool, f64) {
    let score = similarity(&filter.matcher, &filter.candidate(value));
    let (taken, bits) = filter.judge(score.to_bits());
    (taken, f64::from_bits(bits))
}

fn build_label_values_postings() -> Postings {
    let mut postings = Postings::default();
    postings.add_posting_for_label_value(1, "region", "us-east");
    postings.add_posting_for_label_value(2, "region", "us-west");
    postings.add_posting_for_label_value(3, "region", "eu-west");
    // Distractor label to verify prefix scoping.
    postings.add_posting_for_label_value(4, "service", "api");
    postings
}

fn values(result: LabelQueryResult) -> Vec<String> {
    result.results.into_iter().map(|r| r.value).collect()
}

#[test]
fn similarity_filter_defaults_to_case_sensitive() {
    let filter = SimilarityFilter::new("node", FuzzyAlgorithm::JaroWinkler, (1.0f64).to_bits());
    let (accepted, score) = accept(&filter, "node");
    assert!(accepted);
    assert_eq!(1.0, score);
}

#[test]
fn similarity_filter_case_sensitive_rejects_case_mismatch() {
    let filter = SimilarityFilter::new_with_case_sensitivity(
        "NoDe",
        FuzzyAlgorithm::JaroWinkler,
        (1.0f64).to_bits(),
        true,
    );

    let (accepted, score) = accept(&filter, "node");
    assert!(!accepted);
    assert!(score < 1.0);
}

#[test]
fn similarity_filter_case_insensitive_accepts_case_mismatch() {
    let filter = SimilarityFilter::new_with_case_sensitivity(
        "NoDe",
        FuzzyAlgorithm::JaroWinkler,
        (1.0f64).to_bits(),
        false,
    );

    let (accepted, score) = accept(&filter, "node");
    assert!(accepted);
    assert_eq!(1.0, score);
}

#[test]
fn collect_unscoped_label_values_orders_ascending() {
    let postings = build_label_values_postings();
    let hints = SearchHints {
        limit: 10,
        order_by: SearchResultOrdering::ValueAsc,
        include_meta: false,
    };

    let result = collect_unscoped_label_values(&postings, "region", &hints, &NoOpSearchMatcher);

    assert!(!result.has_more);
    assert_eq!(values(result), vec!["eu-west", "us-east", "us-west"]);
}

#[test]
fn collect_unscoped_label_values_orders_descending() {
    let postings = build_label_values_postings();
    let hints = SearchHints {
        limit: 10,
        order_by: SearchResultOrdering::ValueDesc,
        include_meta: false,
    };

    let result = collect_unscoped_label_values(&postings, "region", &hints, &NoOpSearchMatcher);

    assert!(!result.has_more);
    assert_eq!(values(result), vec!["us-west", "us-east", "eu-west"]);
}

fn build_label_names_postings() -> Postings {
    let mut postings = Postings::default();
    postings.add_posting_for_label_value(1, "alpha", "alpha");
    postings.add_posting_for_label_value(2, "beta", "beta");
    postings.add_posting_for_label_value(3, "gamma", "gamma");
    postings.add_posting_for_label_value(4, "service", "api");
    postings
}

fn build_label_names_metric_index_postings() -> Postings {
    let mut postings = Postings::default();
    postings.add_posting_for_label_value(1, "alpha", "a");
    postings.add_posting_for_label_value(2, "beta", "b");
    postings.add_posting_for_label_value(3, "gamma", "g");
    postings.add_posting_for_label_value(4, "service", "api");
    postings
}

#[test]
fn collect_unscoped_label_names_orders_ascending() {
    let postings = build_label_names_metric_index_postings();
    let hints = SearchHints {
        limit: 10,
        order_by: SearchResultOrdering::ValueAsc,
        include_meta: false,
    };

    let result = collect_unscoped_label_names(&postings, &hints, &NoOpSearchMatcher);

    assert!(!result.has_more);
    let values: Vec<String> = result.results.into_iter().map(|r| r.value).collect();
    assert_eq!(values, vec!["alpha", "beta", "gamma", "service"]);
}

#[test]
fn collect_unscoped_label_names_orders_descending() {
    let postings = build_label_names_metric_index_postings();
    let hints = SearchHints {
        limit: 10,
        order_by: SearchResultOrdering::ValueDesc,
        include_meta: false,
    };

    let result = collect_unscoped_label_names(&postings, &hints, &NoOpSearchMatcher);

    assert!(!result.has_more);
    let values: Vec<String> = result.results.into_iter().map(|r| r.value).collect();
    assert_eq!(values, vec!["service", "gamma", "beta", "alpha"]);
}

#[test]
fn collect_unscoped_label_values_sets_has_more_when_truncated() {
    let postings = build_label_values_postings();
    // limit of 2 when there are 3 region values → has_more must be true
    let hints = SearchHints {
        limit: 2,
        order_by: SearchResultOrdering::ValueAsc,
        include_meta: false,
    };

    let result = collect_unscoped_label_values(&postings, "region", &hints, &NoOpSearchMatcher);

    assert!(result.has_more);
    assert_eq!(result.results.len(), 2);
}

fn build_label_names_cardinality_postings() -> Postings {
    let mut postings = Postings::default();
    // label 'b' -> cardinality 1
    postings.add_posting_for_label_value(1, "beta", "b");
    // label 'a' -> cardinality 2
    postings.add_posting_for_label_value(2, "alpha", "a");
    postings.add_posting_for_label_value(3, "alpha", "a");
    // label 'c' -> cardinality 3
    postings.add_posting_for_label_value(4, "gamma", "c");
    postings.add_posting_for_label_value(5, "gamma", "c");
    postings.add_posting_for_label_value(6, "gamma", "c");
    postings
}

fn build_label_values_cardinality_postings() -> Postings {
    let mut postings = Postings::default();
    // us-east -> cardinality 1
    postings.add_posting_for_label_value(1, "region", "us-east");
    // us-west -> cardinality 2
    postings.add_posting_for_label_value(2, "region", "us-west");
    postings.add_posting_for_label_value(3, "region", "us-west");
    // eu-west -> cardinality 3
    postings.add_posting_for_label_value(4, "region", "eu-west");
    postings.add_posting_for_label_value(5, "region", "eu-west");
    postings.add_posting_for_label_value(6, "region", "eu-west");
    postings
}

#[test]
fn collect_unscoped_label_names_cardinality_orders_ascending() {
    let postings = build_label_names_cardinality_postings();
    let hints = SearchHints {
        limit: 10,
        order_by: SearchResultOrdering::CardinalityAsc,
        include_meta: false,
    };

    let result = collect_unscoped_label_names(&postings, &hints, &NoOpSearchMatcher);

    assert!(!result.has_more);
    let values: Vec<String> = result.results.into_iter().map(|r| r.value).collect();
    // cardinalities: beta=1, alpha=2, gamma=3 -> ascending by cardinality
    assert_eq!(values, vec!["beta", "alpha", "gamma"]);
}

#[test]
fn collect_unscoped_label_names_cardinality_sets_has_more_when_truncated() {
    let postings = build_label_names_cardinality_postings();
    // limit of 2 when there are 3 label names -> has_more must be true
    let hints = SearchHints {
        limit: 2,
        order_by: SearchResultOrdering::CardinalityAsc,
        include_meta: false,
    };

    let result = collect_unscoped_label_names(&postings, &hints, &NoOpSearchMatcher);

    assert!(result.has_more);
    assert_eq!(result.results.len(), 2);
    let values: Vec<String> = result.results.into_iter().map(|r| r.value).collect();
    assert_eq!(values, vec!["beta", "alpha"]);
}

#[test]
fn collect_unscoped_label_names_score_orders_descending_with_ties() {
    let postings = build_label_names_postings();
    let hints = SearchHints {
        limit: 2,
        order_by: SearchResultOrdering::ScoreDesc,
        include_meta: false,
    };

    let result = collect_unscoped_label_names(&postings, &hints, &StaticNameScoreFilter);

    assert!(result.has_more);
    assert_eq!(values(result), vec!["alpha", "beta"]);
}

#[test]
fn collect_unscoped_label_names_score_truncation_keeps_best_tie() {
    let postings = build_label_names_postings();
    let hints = SearchHints {
        limit: 1,
        order_by: SearchResultOrdering::ScoreDesc,
        include_meta: false,
    };

    let result = collect_unscoped_label_names(&postings, &hints, &StaticNameScoreFilter);

    assert!(result.has_more);
    assert_eq!(values(result), vec!["alpha"]);
}

#[test]
fn collect_unscoped_label_names_cardinality_desc_replaces_worst_candidate() {
    let postings = build_label_names_cardinality_postings();
    let hints = SearchHints {
        limit: 1,
        order_by: SearchResultOrdering::CardinalityDesc,
        include_meta: false,
    };

    let result = collect_unscoped_label_names(&postings, &hints, &NoOpSearchMatcher);

    assert!(result.has_more);
    assert_eq!(values(result), vec!["gamma"]);
}

#[test]
fn collect_unscoped_label_values_score_orders_descending_with_ties() {
    let postings = build_label_values_postings();
    let hints = SearchHints {
        limit: 2,
        order_by: SearchResultOrdering::ScoreDesc,
        include_meta: false,
    };

    let result = collect_unscoped_label_values(&postings, "region", &hints, &StaticScoreFilter);

    assert!(result.has_more);
    assert_eq!(values(result), vec!["us-east", "us-west"]);
}

#[test]
fn collect_unscoped_label_values_cardinality_orders_descending_with_limit() {
    let postings = build_label_values_cardinality_postings();
    let hints = SearchHints {
        limit: 2,
        order_by: SearchResultOrdering::CardinalityDesc,
        include_meta: false,
    };

    let result = collect_unscoped_label_values(&postings, "region", &hints, &NoOpSearchMatcher);

    assert!(result.has_more);
    assert_eq!(values(result), vec!["eu-west", "us-west"]);
}

#[test]
fn jaro_winkler_transposition_matches() {
    // 'metirc' is a transposition of 'metric'
    let filter = SimilarityFilter::new_with_case_sensitivity(
        "metirc",
        FuzzyAlgorithm::JaroWinkler,
        (0.5f64).to_bits(),
        false,
    );
    let (accepted, score) = accept(&filter, "metric");
    assert!((0.0..=1.0).contains(&score));
    assert!(
        accepted,
        "Expected 'metric' to match 'metirc' with JaroWinkler (score={})",
        score
    );
}

#[test]
fn subsequence_basic_match() {
    let filter = SimilarityFilter::new_with_case_sensitivity(
        "nde",
        FuzzyAlgorithm::Subsequence,
        (0.3f64).to_bits(),
        false,
    );
    let (accepted, score) = accept(&filter, "node");
    assert!((0.0..=1.0).contains(&score));
    assert!(
        accepted,
        "Expected 'node' to match subsequence 'nde' (score={})",
        score
    );
}

#[test]
fn label_query_result_merge_from_coalesces_duplicates() {
    let mut left = LabelQueryResult::new(
        vec![
            LabelSearchResult {
                value: "a".into(),
                score: (0.5f64).to_bits(),
                cardinality: 2,
            },
            LabelSearchResult {
                value: "c".into(),
                score: (0.1f64).to_bits(),
                cardinality: 1,
            },
        ],
        false,
    );

    let right = LabelQueryResult::new(
        vec![
            LabelSearchResult {
                value: "a".into(),
                score: (0.9f64).to_bits(),
                cardinality: 3,
            },
            LabelSearchResult {
                value: "b".into(),
                score: (0.7f64).to_bits(),
                cardinality: 4,
            },
        ],
        true,
    );

    left.merge_from(right, SearchResultOrdering::ValueAsc, 10);

    assert!(left.has_more);
    assert_eq!(left.results.len(), 3);
    assert_eq!(left.results[0].value, "a");
    assert_eq!(f64::from_bits(left.results[0].score), 0.9);
    assert_eq!(left.results[0].cardinality, 5);
}

#[test]
fn label_query_result_merge_from_sets_has_more_when_truncated() {
    let mut left = LabelQueryResult::new(
        vec![LabelSearchResult {
            value: "a".into(),
            score: (0.1f64).to_bits(),
            cardinality: 1,
        }],
        false,
    );

    let right = LabelQueryResult::new(
        vec![
            LabelSearchResult {
                value: "b".into(),
                score: (0.2f64).to_bits(),
                cardinality: 1,
            },
            LabelSearchResult {
                value: "c".into(),
                score: (0.3f64).to_bits(),
                cardinality: 1,
            },
        ],
        false,
    );

    left.merge_from(right, SearchResultOrdering::ValueAsc, 2);

    assert!(left.has_more);
    assert_eq!(values(left), vec!["a", "b"]);
}

#[test]
fn collect_limited_with_heap_returns_sorted_results() {
    let items = vec![
        LabelSearchResult {
            value: "c".to_string(),
            score: (0.5f64).to_bits(),
            cardinality: 3,
        },
        LabelSearchResult {
            value: "a".to_string(),
            score: (0.9f64).to_bits(),
            cardinality: 1,
        },
        LabelSearchResult {
            value: "b".to_string(),
            score: (0.7f64).to_bits(),
            cardinality: 2,
        },
    ];

    // Test ValueAsc
    let result = collect_limited_with_heap(
        items.clone(),
        SearchResultOrdering::ValueAsc,
        10,
    );
    assert_eq!(values(result), vec!["a", "b", "c"]);

    // Test ValueDesc
    let result = collect_limited_with_heap(
        items.clone(),
        SearchResultOrdering::ValueDesc,
        10,
    );
    assert_eq!(values(result), vec!["c", "b", "a"]);

    // Test ScoreDesc
    let result = collect_limited_with_heap(
        items.clone(),
        SearchResultOrdering::ScoreDesc,
        10,
    );
    assert_eq!(values(result), vec!["a", "b", "c"]);

    // Test CardinalityAsc
    let result = collect_limited_with_heap(
        items.clone(),
        SearchResultOrdering::CardinalityAsc,
        10,
    );
    assert_eq!(values(result), vec!["a", "b", "c"]);

    // Test CardinalityDesc
    let result = collect_limited_with_heap(
        items.clone(),
        SearchResultOrdering::CardinalityDesc,
        10,
    );
    assert_eq!(values(result), vec!["c", "b", "a"]);
}

/// Of many results the best ones are kept, in order.
#[test]
fn the_best_results_are_kept() {
    let items: Vec<LabelSearchResult> = (0..6u64)
        .map(|i| LabelSearchResult {
            value: format!("v{i}"),
            score: (i as f64).to_bits(),
            cardinality: 10 - i,
        })
        .collect();
    let best = collect_limited_with_heap(items.clone(), SearchResultOrdering::ScoreDesc, 2);
    assert!(best.has_more);
    assert_eq!(values(best), vec!["v5", "v4"]);
    let best = collect_limited_with_heap(items.clone(), SearchResultOrdering::CardinalityAsc, 2);
    assert_eq!(values(best), vec!["v5", "v4"]);
    let all = collect_limited_with_heap(items, SearchResultOrdering::ValueAsc, 6);
    assert!(!all.has_more);
    assert_eq!(all.results.len(), 6);
}

/// A limit of 0 stands for the usual one.
#[test]
fn limits_are_normalized() {
    assert_eq!(normalize_limit(0), SEARCH_RESULT_DEFAULT_LIMIT);
    assert_eq!(normalize_limit(5), 5);
    assert_eq!(normalize_limit(usize::MAX), SEARCH_RESULT_LIMIT_MAX);
}

/// Orders and algorithms have names.
#[test]
fn names_of_orders_and_algorithms() {
    for s in [SortBy::Value, SortBy::Score, SortBy::Cardinality] {
        assert_eq!(SortBy::from_name(s.name()), Some(s));
    }
    assert_eq!(SortBy::from_name("nothing"), None);
    for a in [
        FuzzyAlgorithm::JaroWinkler,
        FuzzyAlgorithm::Subsequence,
        FuzzyAlgorithm::NoOp,
    ] {
        assert_eq!(FuzzyAlgorithm::from_name(a.name()), Some(a));
    }
    assert_eq!(FuzzyAlgorithm::from_name("nothing"), None);
}

/// Letters are made small where their case does not count.
#[test]
fn texts_are_normalized() {
    assert_eq!(normalize("NoDe", true), "NoDe");
    assert_eq!(normalize("NoDe", false), "node");
    assert_eq!(normalize("STRASSE Ä", false), "strasse ä");
}

/// The labels of some series only.
#[test]
fn labels_of_selected_series() {
    let postings = build_label_values_postings();
    let hints = SearchHints {
        limit: 10,
        order_by: SearchResultOrdering::ValueAsc,
        include_meta: false,
    };
    let series = vec![vec![Label::new("region", "us-east"), Label::new("zone", "z")]];
    let names = collect_label_names(&postings, Some(&series), &hints, &NoOpSearchMatcher);
    assert_eq!(values(names), vec!["region", "zone"]);
    let found = collect_label_values(&postings, "region", Some(&series), &hints, &NoOpSearchMatcher);
    assert_eq!(values(found), vec!["us-east"]);
    let all = collect_label_values(&postings, "region", None, &hints, &NoOpSearchMatcher);
    assert_eq!(values(all), vec!["eu-west", "us-east", "us-west"]);
}

/// A caller that may not read everything is told so.
#[test]
fn queries_need_permission() {
    let postings = build_label_values_postings();
    let querier = DefaultLabelQuerier;
    assert_eq!(
        querier.get_label_names(false, &postings, None, None, &NoOpSearchMatcher).err(),
        Some(TsdbError::PermissionsError)
    );
    let names = querier
        .get_label_names(true, &postings, None, None, &NoOpSearchMatcher)
        .unwrap();
    assert_eq!(values(names), vec!["region", "service"]);
}

/// A limit of 0 keeps all results of a list.
#[test]
fn no_limit_keeps_everything() {
    let items: Vec<LabelSearchResult> =
        (0..150).map(|i| LabelSearchResult::new(format!("v{i:03}"), 0)).collect();
    let all = collect_limited(items.clone(), 0);
    assert!(!all.has_more);
    assert_eq!(all.results.len(), 150);
    assert_eq!(all.results[149].value, "v149");
    let some = collect_limited(items, 149);
    assert!(some.has_more);
    assert_eq!(some.results.len(), 149);
}

/// Scans do not count ids that are marked for removal.
#[test]
fn scans_hide_marked_ids() {
    let mut postings = Postings::default();
    postings.add_posting_for_label_value(1, "host", "a");
    postings.add_posting_for_label_value(2, "host", "a");
    postings.add_posting_for_label_value(2, "host", "b");
    postings.add_posting_for_label_value(2, "rack", "r1");
    assert_eq!(get_label_cardinality(&postings, "host"), 3);
    postings.mark_id_as_stale(2);
    assert_eq!(get_label_cardinality(&postings, "host"), 1);
    let hints = SearchHints::default();
    let filter = NoOpSearchMatcher;
    assert_eq!(values(collect_unscoped_label_names(&postings, &hints, &filter)), vec!["host"]);
    let found = collect_unscoped_label_values(&postings, "host", &hints, &filter);
    assert_eq!(found.results[0].cardinality, 1);
    assert_eq!(values(found), vec!["a"]);
}

/// Of two results that are equally good the first one is kept, and a limit of 0 keeps none.
#[test]
fn equally_good_results_stay_in_order() {
    let item = |value: &str, cardinality: u64| LabelSearchResult {
        value: value.to_string(),
        score: (0.5f64).to_bits(),
        cardinality,
    };
    let items = vec![item("b", 1), item("a", 2), item("a", 1), item("c", 9), item("a", 3)];
    let best = collect_limited_with_heap(items.clone(), SearchResultOrdering::ScoreDesc, 2);
    assert!(best.has_more);
    assert_eq!(best.results, vec![item("a", 2), item("a", 1)]);
    let none = collect_limited_with_heap(items, SearchResultOrdering::CardinalityDesc, 0);
    assert!(none.has_more);
    assert!(none.results.is_empty());
}
