//! What becomes of the events of the server.
use crate::bytes::{bytes_copy, bytes_equal};
use crate::index::bulk_build::{is_drained, BulkBuild};
use crate::index::databases::{empty_state, Databases};
use crate::index::ids::IdGenerator;
use crate::index::load::{dbs_differ, stats_map, LoadStats, LoadWindow};
use crate::index::migration::{
    collides, import_id, index_imported_series, series_indexed, state_of, SlotMigrations,
};
use crate::labels::Label;
use crate::postings::laws::IndexState;
use crate::postings::mutation::{label_keys, labels_nul_free, without_postings, BulkIndexEntry};
use crate::postings::{Postings, SeriesRef};
use crate::text::text_equal;
use vstd::prelude::*;

verus! {

/// What is to be done after something happened to a key.
#[derive(Debug, Clone, PartialEq, Eq)]
pub enum KeyAction {
    /// Nothing.
    Rest,
    /// The key came from outside: index it, or see to it that it is indexed.
    Restore,
    /// The key came from another database.
    Move(i32),
    /// The key had another name.
    Rename(Vec<u8>),
    /// The key is a copy.
    Copy,
}

/// What was told of a key before what happens to it: a move and a renaming come in two parts.
pub struct KeyEvents {
    rename_from: Vec<u8>,
    move_from: i32,
}

impl KeyEvents {
    /// The old name of a key that is being renamed; empty where there is none.
    pub closed spec fn old_key(&self) -> Seq<u8> {
        self.rename_from@
    }

    /// The database that a key is being moved from; -1 where there is none.
    pub closed spec fn old_db(&self) -> i32 {
        self.move_from
    }

    /// Nothing was told.
    pub fn new() -> (r: Self)
        ensures
            r.old_key() == Seq::<u8>::empty(),
            r.old_db() == -1,
    {
        KeyEvents { rename_from: Vec::new(), move_from: -1 }
    }

    /// Takes note of an event of a key, and tells what is to be done.
    pub fn generic_key_events_handler(&mut self, event: &str, key: &[u8], db: i32) -> (r: KeyAction)
        ensures
            if event@ == "loaded"@ || event@ == "restore"@ {
                r is Restore && final(self).old_key() == old(self).old_key() && final(self).old_db()
                    == old(self).old_db()
            } else if event@ == "move_from"@ {
                r is Rest && final(self).old_key() == old(self).old_key() && final(self).old_db()
                    == db
            } else if event@ == "move_to"@ {
                &&& final(self).old_key() == old(self).old_key()
                &&& final(self).old_db() == -1
                &&& if old(self).old_db() == -1 {
                    r is Rest
                } else {
                    r == KeyAction::Move(old(self).old_db())
                }
            } else if event@ == "rename_from"@ {
                r is Rest && final(self).old_key() == key@ && final(self).old_db() == old(
                    self,
                ).old_db()
            } else if event@ == "rename_to"@ {
                &&& final(self).old_key() == Seq::<u8>::empty()
                &&& final(self).old_db() == old(self).old_db()
                &&& if old(self).old_key().len() == 0 {
                    r is Rest
                } else {
                    r is Rename && r->Rename_0@ == old(self).old_key()
                }
            } else if event@ == "copy_to"@ {
                r is Copy && final(self).old_key() == old(self).old_key() && final(self).old_db()
                    == old(self).old_db()
            } else {
                r is Rest && final(self).old_key() == old(self).old_key() && final(self).old_db()
                    == old(self).old_db()
            },
    {
        if text_equal(event, "loaded") || text_equal(event, "restore") {
            KeyAction::Restore
        } else if text_equal(event, "move_from") {
            self.move_from = db;
            KeyAction::Rest
        } else if text_equal(event, "move_to") {
            let old_db: i32 = self.move_from;
            self.move_from = -1;
            if old_db == -1 {
                KeyAction::Rest
            } else {
                KeyAction::Move(old_db)
            }
        } else if text_equal(event, "rename_from") {
            self.rename_from = bytes_copy(key);
            KeyAction::Rest
        } else if text_equal(event, "rename_to") {
            let mut old_key: Vec<u8> = Vec::new();
            std::mem::swap(&mut old_key, &mut self.rename_from);
            if old_key.len() == 0 {
                assert(old_key@ =~= Seq::<u8>::empty());
                KeyAction::Rest
            } else {
                KeyAction::Rename(old_key)
            }
        } else if text_equal(event, "copy_to") {
            KeyAction::Copy
        } else {
            KeyAction::Rest
        }
    }
}

impl Default for KeyEvents {
    fn default() -> (r: Self)
        ensures
            r.old_key() == Seq::<u8>::empty(),
            r.old_db() == -1,
    {
        KeyEvents::new()
    }
}

/// What becomes of a key that came from outside.
#[derive(Debug, Clone, Copy, PartialEq, Eq, Structural)]
pub enum RestorePlan {
    /// It waits for the import that it belongs to.
    Delay,
    /// Its index came from a snapshot.
    Skip,
    /// It is gathered, to be indexed in bulk.
    Gather,
    /// It is indexed now.
    Index,
}

/// What becomes of a key that came from outside.
pub fn handle_key_restore(
    migrations: &SlotMigrations,
    window: &LoadWindow,
    bulk: &BulkBuild,
    db: i32,
    key: &[u8],
) -> (r: RestorePlan)
    ensures
        r == if migrations.importing().contains(crate::index::slots::slot_of(key@)) {
            RestorePlan::Delay
        } else if window.is_open() && window.ready().contains(db) {
            RestorePlan::Skip
        } else if bulk.is_open() && !bulk.is_degraded() {
            RestorePlan::Gather
        } else {
            RestorePlan::Index
        },
{
    if migrations.is_key_in_slot_import(key) {
        RestorePlan::Delay
    } else if window.should_skip_load_indexing(db) {
        RestorePlan::Skip
    } else if bulk.is_buffering() {
        RestorePlan::Gather
    } else {
        RestorePlan::Index
    }
}

/// What happens to a load.
#[derive(Debug, Clone, Copy, PartialEq, Eq, Structural)]
pub enum LoadingEvent {
    RdbStarted,
    ReplStarted,
    AofStarted,
    Ended,
    Failed,
}

/// What is to be done after something happened to a load.
pub enum LoadingAction {
    /// Nothing.
    Rest,
    /// Index what was gathered; then hold the indexes of the databases that came from a snapshot
    /// against what came in.
    Finish(Vec<(i32, Vec<BulkIndexEntry>)>, Vec<i32>, Vec<(i32, LoadStats)>),
    /// Clear the indexes of the databases that came from a snapshot.
    Discard(Vec<i32>),
}

/// Takes note of what happens to a load.
pub fn loading_event_handler(
    window: &mut LoadWindow,
    bulk: &mut BulkBuild,
    event: LoadingEvent,
) -> (r: LoadingAction)
    requires
        old(window).wf(),
    ensures
        final(window).wf(),
        match event {
            LoadingEvent::Ended => {
                &&& r is Finish
                &&& old(bulk).is_open() ==> is_drained(old(bulk).gathered(), r->Finish_0@)
                &&& !old(bulk).is_open() ==> r->Finish_0@.len() == 0
                &&& r->Finish_1@.to_set() == old(window).ready()
                &&& r->Finish_1@.len() > 0 ==> stats_map(r->Finish_2@) == old(window).loaded()
                &&& dbs_differ(r->Finish_2@)
                &&& !final(window).is_open()
                &&& final(window).ready() == Set::<i32>::empty()
                &&& !final(bulk).is_open()
            },
            LoadingEvent::Failed => {
                &&& r is Discard
                &&& r->Discard_0@.to_set() == old(window).ready()
                &&& !final(window).is_open()
                &&& final(window).ready() == Set::<i32>::empty()
                &&& final(window).loaded() == Map::<i32, LoadStats>::empty()
                &&& !final(bulk).is_open()
                &&& final(bulk).gathered() == Map::<i32, Seq<BulkIndexEntry>>::empty()
            },
            _ => {
                &&& r is Rest
                &&& final(window).is_open()
                &&& final(window).ready() == Set::<i32>::empty()
                &&& final(window).loaded() == Map::<i32, LoadStats>::empty()
                &&& final(bulk).is_open() == (event != LoadingEvent::AofStarted)
                &&& !final(bulk).is_degraded()
                &&& final(bulk).gathered() == Map::<i32, Seq<BulkIndexEntry>>::empty()
            },
        },
{
    match event {
        LoadingEvent::RdbStarted | LoadingEvent::ReplStarted => {
            window.on_loading_started();
            bulk.on_load_started(false);
            LoadingAction::Rest
        },
        LoadingEvent::AofStarted => {
            window.on_loading_started();
            bulk.on_load_started(true);
            LoadingAction::Rest
        },
        LoadingEvent::Ended => {
            let lists = bulk.on_load_ended();
            let (dbs, stats) = window.on_loading_ended();
            LoadingAction::Finish(lists, dbs, stats)
        },
        LoadingEvent::Failed => {
            bulk.on_load_failed();
            LoadingAction::Discard(window.on_loading_failed())
        },
    }
}

/// A database was emptied, or all of them (-1): its index is cleared, and no key of it waits any
/// more.
pub fn flush_event_handler(databases: &mut Databases, migrations: &mut SlotMigrations, db: i32)
    requires
        old(databases).wf(),
    ensures
        final(databases).wf(),
        final(migrations).importing() == old(migrations).importing(),
        if db == -1 {
            &&& forall|d: i32| #[trigger] final(databases).state(d) == empty_state()
            &&& final(migrations).queues() == Map::<i32, Seq<Seq<u8>>>::empty()
        } else {
            &&& final(databases).state(db) == empty_state()
            &&& final(databases).same_but(*old(databases), db)
            &&& final(migrations).queues() == old(migrations).queues().remove(db)
        },
{
    if db == -1 {
        databases.clear_all_timeseries_indexes();
        migrations.clear_delayed_keys_map();
    } else {
        databases.clear_timeseries_index(db);
        migrations.clear_delayed_keys_in_db(db);
    }
}

/// The state of an index after a series was taken out, where it stands under a key.
pub open spec fn state_without(
    s: IndexState,
    id: u64,
    labels: Seq<Label>,
    key: Seq<u8>,
) -> IndexState {
    if s.keys.contains_key(id) && s.keys[id] == key {
        IndexState {
            terms: without_postings(s.terms, label_keys(labels), id),
            keys: s.keys.remove(id),
            all: s.all.remove(id),
            stale: s.stale,
            pass: s.pass,
        }
    } else {
        s
    }
}

/// Takes a series out of an index, if it stands under a key there. Tells whether it did.
pub fn remove_timeseries_for_key(
    postings: &mut Postings,
    id: SeriesRef,
    labels: &Vec<Label>,
    key: &[u8],
) -> (r: bool)
    requires
        old(postings).wf(),
    ensures
        final(postings).wf(),
        r == (old(postings).keys().contains_key(id) && old(postings).keys()[id] == key@),
        state_of(final(postings)) == state_without(state_of(old(postings)), id, labels@, key@),
{
    let here: bool = match postings.get_key_by_id(id) {
        Some(k) => bytes_equal(k.as_slice(), key),
        None => false,
    };
    if here {
        let _ = postings.remove_labels(id, labels);
    }
    here
}

/// The state of a database after a key was taken out of one of them.
pub open spec fn state_after_leaving(
    databases: Databases,
    db: i32,
    old_db: i32,
    id: u64,
    labels: Seq<Label>,
    key: Seq<u8>,
) -> IndexState {
    if db == old_db {
        state_without(databases.state(db), id, labels, key)
    } else {
        databases.state(db)
    }
}

/// Takes a key that was moved out of the index of the database that it came from, and indexes it
/// for the one that it went to. Where another series has its id there, it gets a new one. Gives
/// the id, unless the ids have run out.
pub fn handle_key_move(
    databases: &mut Databases,
    generator: &mut IdGenerator,
    id: SeriesRef,
    labels: &Vec<Label>,
    key: &[u8],
    old_db: i32,
    new_db: i32,
) -> (r: Option<SeriesRef>)
    requires
        old(databases).wf(),
        labels_nul_free(labels@),
    ensures
        final(databases).wf(),
        ({
            let before = state_after_leaving(*old(databases), new_db, old_db, id, labels@, key@);
            &&& r == import_id(before.keys, old(generator).last(), id, key@)
            &&& final(databases).state(new_db) == match r {
                Some(given) => series_indexed(before, given, labels@, key@),
                None => before,
            }
            &&& final(generator).last() == if collides(before.keys, id, key@) {
                match r {
                    Some(given) => given,
                    None => u64::MAX,
                }
            } else {
                old(generator).last()
            }
        }),
        forall|d: i32|
            d != new_db ==> #[trigger] final(databases).state(d) == state_after_leaving(
                *old(databases),
                d,
                old_db,
                id,
                labels@,
                key@,
            ),
{
    let mut from = databases.take(old_db);
    let ghost s1 = *databases;
    let _ = remove_timeseries_for_key(&mut from, id, labels, key);
    databases.put(old_db, from);
    let ghost s2 = *databases;
    let mut to = databases.take(new_db);
    let ghost s3 = *databases;
    let given = index_imported_series(&mut to, generator, id, labels, key);
    databases.put(new_db, to);
    proof {
        assert forall|d: i32| #[trigger] s2.state(d) == state_after_leaving(
            *old(databases),
            d,
            old_db,
            id,
            labels@,
            key@,
        ) by {
            if d != old_db {
                assert(s1.state(d) == old(databases).state(d));
            }
        }
        assert forall|d: i32| d != new_db implies #[trigger] databases.state(d)
            == state_after_leaving(*old(databases), d, old_db, id, labels@, key@) by {
            assert(databases.state(d) == s3.state(d));
            assert(s3.state(d) == s2.state(d));
        }
    }
    given
}

} // verus!
