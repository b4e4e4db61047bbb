//! Looking after the indexes: sweeps, events, deletions and counts.
use valkey_timeseries::aggregation::PickAggregator;
use valkey_timeseries::error::TsdbError;
use valkey_timeseries::index::bulk_build::BulkBuild;
use valkey_timeseries::index::databases::Databases;
use valkey_timeseries::index::events::{
    flush_event_handler, handle_key_move, handle_key_restore, loading_event_handler,
    remove_timeseries_for_key, KeyAction, KeyEvents, LoadingAction, LoadingEvent, RestorePlan,
};
use valkey_timeseries::index::ids::IdGenerator;
use valkey_timeseries::index::load::{needs_repair, needs_sweep, LoadStats, LoadWindow};
use valkey_timeseries::index::memory::index_memory_usage;
use valkey_timeseries::index::migration::{AtomicSlotMigrationEvent, SlotMigrations};
use valkey_timeseries::index::slots::{calculate_hash_slot, SlotSet};
use valkey_timeseries::index::sweep::Reconciliation;
use valkey_timeseries::labels::{
    FilterError, Label, LabelFilter, MatchOp, PredicateMatch, PredicateValue, SeriesSelector,
};
use valkey_timeseries::multi_del::{batch_size_for, sum_up_deletions, BatchFetch, KeyOutcome};
use valkey_timeseries::postings::Postings;
use valkey_timeseries::querier::{
    count_matched_series, count_plan, count_series_in_range, ids_by_selectors,
    query_labels_distinct, resolve_series_keys, CountError, CountOutcome, CountPlan,
    MetaDateRangeFilter,
};
use valkey_timeseries::sample::Sample;
use valkey_timeseries::series::store::{RoundingStrategy, TimeSeries, ValueOps};

fn indexed(n: u64) -> Postings {
    let mut postings = Postings::new();
    for id in 1..=n {
        let labels = vec![Label::new("job", "web"), Label::new("id", &format!("{id}"))];
        postings.index_labels(id, &labels, format!("ts:{id}").as_bytes());
    }
    postings
}

fn select(label: &str, value: &str) -> SeriesSelector {
    SeriesSelector::And(vec![LabelFilter::equals(label.to_string(), value)])
}

/// A sweep looks at every id once, and marks those without a series.
#[test]
fn a_sweep_marks_dangling_ids() {
    let mut postings = indexed(600);
    let mut sweep = Reconciliation::new();
    let mut seen = 0;
    while sweep.cursor.is_some() {
        let window = sweep.window(&postings);
        seen += window.len();
        let alive: Vec<bool> = window.iter().map(|(id, _)| id % 3 != 0).collect();
        sweep.absorb(&mut postings, &window, &alive);
    }
    assert_eq!(seen, 600);
    assert_eq!(sweep.checked, 600);
    assert_eq!(sweep.dangling, 200);
    assert_eq!(postings.count(), 400);
    assert!(postings.stale_ids.contains(3) && !postings.stale_ids.contains(4));
}

/// An index that tells the same as what came in needs no sweep.
#[test]
fn when_a_sweep_is_needed() {
    let some = LoadStats::default().observe(Some(5));
    assert!(!needs_sweep(&some, &some));
    assert!(needs_sweep(&LoadStats::default(), &some));
    let unknown = some.observe(None);
    assert!(needs_sweep(&unknown, &unknown));
    assert!(needs_repair(1, 2));
    assert!(!needs_repair(2, 2));
}

/// Series are fetched in batches, round after round, until a batch is full.
#[test]
fn batches_of_series_to_delete() {
    let mut postings = indexed(5);
    let mut fetch = BatchFetch::new(vec![1, 2, 3, 4, 5], 2);
    let mut opened = Vec::new();
    let mut rounds = 0;
    fetch.next_batch();
    while !fetch.is_complete() {
        let keys = fetch.next_round(&postings);
        let outcomes: Vec<KeyOutcome> = keys
            .iter()
            .map(|(id, _)| if *id == 1 { KeyOutcome::Missing } else { KeyOutcome::Opened })
            .collect();
        for (k, o) in keys.iter().zip(&outcomes) {
            if *o == KeyOutcome::Opened {
                opened.push(k.0);
            }
        }
        fetch.absorb(&keys, &outcomes);
        rounds += 1;
        assert!(rounds < 10);
    }
    assert_eq!(opened, vec![2, 3]);
    fetch.mark_stale(&mut postings);
    assert!(postings.stale_ids.contains(1));
    assert!(!postings.stale_ids.contains(2));
}

/// Deletions add up, and the series that lost samples are told.
#[test]
fn deletions_add_up() {
    assert_eq!(sum_up_deletions(&vec![Some(2), None, Some(0), Some(5)]), (7, vec![0, 3]));
    assert!(batch_size_for(1000, 4) > 0);
}

/// A key is renamed, moved or restored in one or two events.
#[test]
fn events_of_keys() {
    let mut events = KeyEvents::new();
    assert_eq!(events.generic_key_events_handler("rename_from", b"old", 0), KeyAction::Rest);
    assert_eq!(
        events.generic_key_events_handler("rename_to", b"new", 0),
        KeyAction::Rename(b"old".to_vec())
    );
    assert_eq!(events.generic_key_events_handler("move_from", b"k", 3), KeyAction::Rest);
    assert_eq!(events.generic_key_events_handler("move_to", b"k", 4), KeyAction::Move(3));
    assert_eq!(events.generic_key_events_handler("restore", b"k", 0), KeyAction::Restore);
    assert_eq!(events.generic_key_events_handler("copy_to", b"k", 0), KeyAction::Copy);
    assert_eq!(events.generic_key_events_handler("unheard_of", b"k", 0), KeyAction::Rest);
}

/// What becomes of a key that comes from outside.
#[test]
fn keys_from_outside() {
    let mut migrations = SlotMigrations::new();
    let mut window = LoadWindow::new();
    let mut bulk = BulkBuild::new();
    let plan = |m: &SlotMigrations, w: &LoadWindow, b: &BulkBuild| {
        handle_key_restore(m, w, b, 0, b"{a}1")
    };
    assert_eq!(plan(&migrations, &window, &bulk), RestorePlan::Index);
    let action = loading_event_handler(&mut window, &mut bulk, LoadingEvent::RdbStarted);
    assert!(matches!(action, LoadingAction::Rest));
    assert_eq!(plan(&migrations, &window, &bulk), RestorePlan::Gather);
    window.note_preloaded(0);
    assert_eq!(plan(&migrations, &window, &bulk), RestorePlan::Skip);
    let action = loading_event_handler(&mut window, &mut bulk, LoadingEvent::Ended);
    assert!(matches!(action, LoadingAction::Finish(lists, dbs, _) if lists.is_empty() && dbs == vec![0]));
    let slot = calculate_hash_slot(b"{a}1");
    let slots = SlotSet::of_ranges(&vec![(slot, slot)]);
    let _ = migrations.slot_migration_event_handler(AtomicSlotMigrationEvent::ImportStarted, &slots);
    assert_eq!(plan(&migrations, &window, &bulk), RestorePlan::Delay);
}

/// Databases are exchanged, cleared and preloaded as a whole.
#[test]
fn databases_as_a_whole() {
    let mut databases = Databases::new();
    databases.put(0, indexed(2));
    databases.put(5, indexed(3));
    assert_eq!(databases.db_list(), vec![0, 5]);
    assert_eq!(index_memory_usage(&databases).series_count, 5);
    assert_eq!(index_memory_usage(&databases).db_count, 2);
    databases.swap_timeseries_index_dbs(0, 5);
    assert_eq!(databases.get(0).unwrap().count(), 3);
    assert_eq!(databases.get(5).unwrap().count(), 2);
    databases.preload(vec![(7, indexed(4))]);
    assert_eq!(databases.get(7).unwrap().count(), 4);
    flush_event_handler(&mut databases, &mut SlotMigrations::new(), 5);
    assert_eq!(databases.take(5).count(), 0);
    flush_event_handler(&mut databases, &mut SlotMigrations::new(), -1);
    assert_eq!(databases.take(0).count(), 0);
}

/// A key that moves leaves one index for the other.
#[test]
fn keys_move_between_databases() {
    let mut databases = Databases::new();
    databases.put(0, indexed(2));
    let labels = vec![Label::new("job", "web"), Label::new("id", "1")];
    let mut generator = IdGenerator::with_epoch(1);
    let given = handle_key_move(&mut databases, &mut generator, 1, &labels, b"ts:1", 0, 3);
    assert_eq!(given, Some(1));
    assert!(!databases.get(0).unwrap().has_id(1));
    assert!(databases.get(3).unwrap().has_id(1));

    // Another series has the id there: the one that moves gets a new one.
    let labels = vec![Label::new("job", "web"), Label::new("id", "2")];
    databases.put(4, indexed(2));
    let given = handle_key_move(&mut databases, &mut generator, 2, &labels, b"other", 9, 4);
    assert!(given.is_some() && given != Some(2));
    assert_eq!(databases.get(4).unwrap().get_key_by_id(2).unwrap().as_slice(), b"ts:2");
    assert_eq!(databases.get(4).unwrap().count(), 3);
}

/// A key whose id belongs to another one is not taken out.
#[test]
fn only_the_owner_is_taken_out() {
    let mut postings = indexed(2);
    let labels = vec![Label::new("job", "web"), Label::new("id", "1")];
    assert!(!remove_timeseries_for_key(&mut postings, 1, &labels, b"other"));
    assert!(postings.has_id(1));
    assert!(remove_timeseries_for_key(&mut postings, 1, &labels, b"ts:1"));
    assert!(!postings.has_id(1));
}

/// The ids that selectors select, and their keys.
#[test]
fn ids_and_keys_of_selectors() {
    let mut postings = indexed(3);
    let ids = ids_by_selectors(&postings, &vec![select("job", "web")]).unwrap();
    assert_eq!(ids, vec![1, 2, 3]);
    postings.mark_id_as_stale(2);
    let ids = ids_by_selectors(&postings, &vec![select("job", "web")]).unwrap();
    assert_eq!(ids, vec![1, 3]);
    let (keys, unknown) = resolve_series_keys(&postings, &vec![1, 2, 3]);
    assert_eq!(keys, vec![(1, b"ts:1".to_vec()), (3, b"ts:3".to_vec())]);
    assert_eq!(unknown, vec![2]);
}

/// How series are counted, and when a count is refused.
#[test]
fn counts_of_series() {
    assert_eq!(count_plan(false, false, true), Ok(CountPlan::Index));
    assert_eq!(count_plan(false, false, false), Err(CountError::AllKeysPermission));
    assert_eq!(count_plan(true, false, true), Err(CountError::MissingMatcher));
    assert_eq!(count_plan(false, true, false), Ok(CountPlan::Postings));
    assert_eq!(count_plan(true, true, false), Ok(CountPlan::Series));
    let postings = indexed(4);
    let matchers = vec![select("id", "2")];
    assert!(matches!(
        count_matched_series(&postings, false, &matchers, false),
        CountOutcome::Counted(1)
    ));
    assert!(matches!(
        count_matched_series(&postings, false, &vec![], true),
        CountOutcome::Counted(4)
    ));
    assert!(matches!(
        count_matched_series(&postings, true, &matchers, false),
        CountOutcome::NeedsSeries
    ));
}

/// Series are counted by when they have samples.
#[test]
fn series_in_a_range() {
    let ops = ValueOps {
        sum: |a: u64, _b: u64| a,
        round: |_how: RoundingStrategy, v: u64| v,
        close: |_a: u64, _b: u64, _d: u64| false,
    };
    let mut early: TimeSeries<PickAggregator> = TimeSeries::new(1, 4096);
    let mut late: TimeSeries<PickAggregator> = TimeSeries::new(2, 4096);
    assert!(early.add(10, 1, None, &ops).is_ok());
    assert!(late.add(100, 1, None, &ops).is_ok());
    let all = vec![&early, &late];
    let range = |exclude: bool| MetaDateRangeFilter { start: 0, end: 50, exclude };
    assert_eq!(count_series_in_range(&all, None), 2);
    assert_eq!(count_series_in_range(&all, Some(&range(false))), 1);
    assert_eq!(count_series_in_range(&all, Some(&range(true))), 1);
    assert_eq!(early.get_sample(10), Ok(Some(Sample::new(10, 1))));
}

/// The names of labels, and the values of one, each once and in order.
#[test]
fn distinct_labels() {
    let series = vec![
        vec![Label::new("b", "2"), Label::new("a", "1")],
        vec![Label::new("a", "1"), Label::new("c", "3")],
    ];
    assert_eq!(query_labels_distinct(&series, None), vec!["a", "b", "c"]);
    assert_eq!(query_labels_distinct(&series, Some("a")), vec!["1"]);
    assert!(query_labels_distinct(&series, Some("z")).is_empty());
}

/// A filter is refused where its text cannot be used.
#[test]
fn filters_that_are_refused() {
    let error = |op: MatchOp, v: &str| LabelFilter::create(op, "l", v).err();
    assert_eq!(error(MatchOp::StartsWith, ""), Some(FilterError::EmptyPrefix));
    assert_eq!(error(MatchOp::Contains, ""), Some(FilterError::EmptyNeedle));
    assert_eq!(error(MatchOp::RegexEqual, "[a"), Some(FilterError::InvalidRegex));
    assert!(error(MatchOp::Equal, "").is_none());
}

/// A regular expression matches anywhere in a value, unless it says otherwise.
#[test]
fn regexes_match_values() {
    let mut postings = Postings::new();
    for (id, v) in [(1, "server-1"), (2, "server-22"), (3, "my-server-1")] {
        postings.index_labels(id, &vec![Label::new("host", v)], v.as_bytes());
    }
    let filter = LabelFilter::create(MatchOp::RegexEqual, "host", "^server-[0-9]$").unwrap();
    let found = postings.postings_for_filter(&filter).unwrap();
    assert_eq!(found.iter().collect::<Vec<u64>>(), vec![1]);
    let filter = LabelFilter::create(MatchOp::RegexEqual, "host", "server-1").unwrap();
    let found = postings.postings_for_filter(&filter).unwrap();
    assert_eq!(found.iter().collect::<Vec<u64>>(), vec![1, 3]);
    let filter = LabelFilter::create(MatchOp::RegexNotEqual, "host", "^server-.*").unwrap();
    let found = postings.postings_for_label_filters(&vec![filter]).unwrap();
    assert_eq!(found.iter().collect::<Vec<u64>>(), vec![3]);
}

/// Filters that select nothing by themselves are refused.
#[test]
fn selectors_need_a_filter() {
    let postings = indexed(2);
    let all = LabelFilter {
        label: "job".to_string(),
        matcher: PredicateMatch::NotEqual(PredicateValue::String("x".to_string())),
    };
    let found = postings.postings_for_label_filters(&vec![all]).unwrap();
    assert_eq!(found.cardinality(), 2);
    let nothing = LabelFilter { label: String::new(), matcher: PredicateMatch::MatchAll };
    let other = LabelFilter::equals("job".to_string(), "web");
    assert_eq!(
        ids_by_selectors(&postings, &vec![SeriesSelector::And(vec![nothing, other])]).err(),
        Some(TsdbError::MissingFilter)
    );
}
