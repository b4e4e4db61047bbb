//! Slots that move from one node to another.
//!
//! On the node that gets them, a key that comes in is not indexed before the import that it belongs
//! to is complete: until then it may still be taken back. On the node that gives them away, the
//! index forgets their keys once the export is complete.
use crate::bytes::{bytes_copy, bytes_equal};
use crate::index::databases::{dbs_of, lists_dbs};
use crate::index::ids::IdGenerator;
use crate::index::slots::{calculate_hash_slot, slot_of, slots_of, SlotSet};
use crate::index::sweep::window_from;
use crate::labels::Label;
use crate::postings::laws::IndexState;
use crate::postings::mutation::{labels_nul_free, series_postings, with_postings};
use crate::postings::stale::{lemma_push_contains, pass_without};
use crate::postings::{Postings, SeriesRef};
use std::collections::BTreeMap;
use vstd::prelude::*;

verus! {

/// How many ids or keys are worked on at a time.
pub const BATCH_SIZE: usize = 256;

/// Whether a server moves slots as a whole: one that is part of a cluster, from version 9.0.0 on.
pub fn supports_atomic_slot_migration(clustered: bool, version: Option<(u8, u8, u8)>) -> (r: bool)
    ensures
        r == (clustered && (match version {
            Some(v) => v.0 >= 9,
            None => false,
        })),
{
    if !clustered {
        return false;
    }
    match version {
        None => false,
        Some((major, _, _)) => major >= 9,
    }
}

/// What happens to slots that move.
#[derive(Debug, Clone, Copy, PartialEq, Eq, Structural)]
pub enum AtomicSlotMigrationEvent {
    ImportStarted,
    ExportStarted,
    ImportAborted,
    ExportAborted,
    ImportCompleted,
    ExportCompleted,
}

/// The event that a number of the server stands for, where one is acted on.
pub fn migration_event(sub_event: u64) -> (r: Option<AtomicSlotMigrationEvent>)
    ensures
        r == if sub_event == 0 {
            Some(AtomicSlotMigrationEvent::ImportStarted)
        } else if sub_event == 2 {
            Some(AtomicSlotMigrationEvent::ImportAborted)
        } else if sub_event == 4 {
            Some(AtomicSlotMigrationEvent::ImportCompleted)
        } else if sub_event == 5 {
            Some(AtomicSlotMigrationEvent::ExportCompleted)
        } else {
            None
        },
{
    match sub_event {
        0 => Some(AtomicSlotMigrationEvent::ImportStarted),
        2 => Some(AtomicSlotMigrationEvent::ImportAborted),
        4 => Some(AtomicSlotMigrationEvent::ImportCompleted),
        5 => Some(AtomicSlotMigrationEvent::ExportCompleted),
        _ => None,
    }
}

/// What is to be done after an event.
#[derive(Debug, Clone, PartialEq, Eq)]
pub enum MigrationAction {
    /// Nothing.
    Rest,
    /// Index the keys of the slots that are queued for these databases.
    IndexQueued(Vec<i32>),
    /// Take the keys of the slots out of the index of every database.
    Retire,
}

/// Keys, as bytes.
pub open spec fn key_views(keys: Seq<Vec<u8>>) -> Seq<Seq<u8>> {
    keys.map_values(|k: Vec<u8>| k@)
}

/// The keys that belong to some slots.
pub open spec fn keys_in(keys: Seq<Seq<u8>>, slots: Set<u16>) -> Seq<Seq<u8>> {
    keys.filter(|k: Seq<u8>| slots.contains(slot_of(k)))
}

/// The keys that belong to none of some slots.
pub open spec fn keys_outside(keys: Seq<Seq<u8>>, slots: Set<u16>) -> Seq<Seq<u8>> {
    keys.filter(|k: Seq<u8>| !slots.contains(slot_of(k)))
}

/// Queues without the keys of some slots. The queues themselves stay.
pub open spec fn queues_outside(queues: Map<i32, Seq<Seq<u8>>>, slots: Set<u16>) -> Map<
    i32,
    Seq<Seq<u8>>,
> {
    queues.map_values(|keys: Seq<Seq<u8>>| keys_outside(keys, slots))
}

/// The slots that are being imported, and the keys that wait for their import to be complete.
pub struct SlotMigrations {
    importing: SlotSet,
    delayed: BTreeMap<i32, Vec<Vec<u8>>>,
}

impl SlotMigrations {
    /// The slots that are being imported.
    pub closed spec fn importing(&self) -> Set<u16> {
        slots_of(self.importing)
    }

    /// The keys that wait, for each database.
    pub closed spec fn queues(&self) -> Map<i32, Seq<Seq<u8>>> {
        self.delayed@.map_values(|keys: Vec<Vec<u8>>| key_views(keys@))
    }

    /// No import, and nothing that waits.
    pub fn new() -> (r: Self)
        ensures
            r.importing() == Set::<u16>::empty(),
            r.queues() == Map::<i32, Seq<Seq<u8>>>::empty(),
    {
        let r = SlotMigrations { importing: SlotSet::new(), delayed: BTreeMap::new() };
        assert(r.queues() =~= Map::<i32, Seq<Seq<u8>>>::empty());
        r
    }

    /// Forgets all keys that wait.
    pub fn clear_delayed_keys_map(&mut self)
        ensures
            final(self).importing() == old(self).importing(),
            final(self).queues() == Map::<i32, Seq<Seq<u8>>>::empty(),
    {
        self.delayed.clear();
        assert(self.queues() =~= Map::<i32, Seq<Seq<u8>>>::empty());
    }

    /// Forgets the keys of a database that wait.
    pub fn clear_delayed_keys_in_db(&mut self, db: i32)
        ensures
            final(self).importing() == old(self).importing(),
            final(self).queues() == old(self).queues().remove(db),
    {
        let ghost before = self.delayed@;
        let _ = self.delayed.remove(&db);
        assert(self.delayed@ == before.remove(db));
        assert(self.queues() =~= old(self).queues().remove(db));
    }

    /// Lets a key wait.
    pub fn add_delayed_indexing_key(&mut self, db: i32, key: &[u8])
        ensures
            final(self).importing() == old(self).importing(),
            final(self).queues() == old(self).queues().insert(
                db,
                (if old(self).queues().contains_key(db) {
                    old(self).queues()[db]
                } else {
                    Seq::empty()
                }).push(key@),
            ),
    {
        let ghost before = self.delayed@;
        let mut keys: Vec<Vec<u8>> = match self.delayed.remove(&db) {
            Some(keys) => keys,
            None => Vec::new(),
        };
        let ghost was = key_views(keys@);
        proof {
            assert(self.delayed@ == before.remove(db));
            if before.contains_key(db) {
                assert(keys == before[db]);
                assert(old(self).queues()[db] == was);
            } else {
                assert(was =~= Seq::<Seq<u8>>::empty());
            }
        }
        keys.push(bytes_copy(key));
        assert(key_views(keys@) =~= was.push(key@));
        self.delayed.insert(db, keys);
        assert(self.delayed@ == before.remove(db).insert(db, keys));
        assert(self.queues() =~= old(self).queues().insert(db, was.push(key@)));
    }

    /// Takes the keys of a database out that wait for some slots.
    pub fn take_delayed_keys_in_slots(&mut self, db: i32, slots: &SlotSet) -> (r: Vec<Vec<u8>>)
        ensures
            final(self).importing() == old(self).importing(),
            old(self).queues().contains_key(db) ==> key_views(r@) == keys_in(
                old(self).queues()[db],
                slots_of(*slots),
            ) && final(self).queues() == old(self).queues().insert(
                db,
                keys_outside(old(self).queues()[db], slots_of(*slots)),
            ),
            !old(self).queues().contains_key(db) ==> r@.len() == 0 && final(self).queues() == old(
                self,
            ).queues(),
    {
        let ghost before = self.delayed@;
        let ghost queues0 = self.queues();
        let mut keys: Vec<Vec<u8>> = match self.delayed.remove(&db) {
            Some(keys) => keys,
            None => {
                assert(self.delayed@ =~= before);
                return Vec::new();
            },
        };
        proof {
            assert(before.contains_key(db) && keys == before[db]);
            assert(queues0[db] == key_views(keys@));
        }
        let ghost all = keys@;
        let ghost inside = |k: Seq<u8>| slots_of(*slots).contains(slot_of(k));
        let ghost outside = |k: Seq<u8>| !slots_of(*slots).contains(slot_of(k));
        let mut taken: Vec<Vec<u8>> = Vec::new();
        let mut kept: Vec<Vec<u8>> = Vec::new();
        let ghost mut i: int = 0;
        proof {
            assert(key_views(all).take(0) =~= Seq::<Seq<u8>>::empty());
            reveal(Seq::filter);
            assert(all.skip(0) =~= all);
        }
        while keys.len() > 0
            invariant
                0 <= i <= all.len(),
                keys@ == all.skip(i),
                inside == (|k: Seq<u8>| slots_of(*slots).contains(slot_of(k))),
                outside == (|k: Seq<u8>| !slots_of(*slots).contains(slot_of(k))),
                key_views(taken@) == key_views(all).take(i).filter(inside),
                key_views(kept@) == key_views(all).take(i).filter(outside),
            decreases keys.len(),
        {
            let key: Vec<u8> = keys.remove(0);
            proof {
                assert(key == all[i]);
                assert(keys@ =~= all.skip(i + 1));
                assert(key_views(all).take(i + 1).drop_last() =~= key_views(all).take(i));
                assert(key_views(all).take(i + 1).last() == key@);
                reveal(Seq::filter);
            }
            let ghost taken0 = taken@;
            let ghost kept0 = kept@;
            let ghost view = key@;
            if slots.contains(calculate_hash_slot(key.as_slice())) {
                taken.push(key);
                assert(key_views(taken@) =~= key_views(taken0).push(view));
            } else {
                kept.push(key);
                assert(key_views(kept@) =~= key_views(kept0).push(view));
            }
            proof {
                i = i + 1;
            }
        }
        proof {
            assert(key_views(all).take(i) =~= key_views(all));
        }
        let ghost rest = key_views(kept@);
        self.delayed.insert(db, kept);
        proof {
            assert(self.delayed@ == before.remove(db).insert(db, kept));
            assert(self.queues() =~= queues0.insert(db, rest));
        }
        taken
    }

    /// Forgets the keys that wait for some slots, in every database.
    pub fn discard_delayed_keys_in_slots(&mut self, slots: &SlotSet)
        ensures
            final(self).importing() == old(self).importing(),
            final(self).queues() == queues_outside(old(self).queues(), slots_of(*slots)),
    {
        let dbs = dbs_of(&self.delayed);
        let ghost queues0 = self.queues();
        let ghost set = slots_of(*slots);
        let mut i: usize = 0;
        while i < dbs.len()
            invariant
                i <= dbs@.len(),
                set == slots_of(*slots),
                self.importing() == old(self).importing(),
                lists_dbs(queues0.dom(), dbs@),
                self.queues().dom() == queues0.dom(),
                forall|k: int|
                    0 <= k < i ==> self.queues()[#[trigger] dbs@[k]] == keys_outside(
                        queues0[dbs@[k]],
                        set,
                    ),
                forall|k: int|
                    i <= k < dbs@.len() ==> self.queues()[#[trigger] dbs@[k]] == queues0[dbs@[k]],
            decreases dbs.len() - i,
        {
            let db: i32 = dbs[i];
            let ghost before = self.queues();
            assert(queues0.dom().contains(dbs@[i as int]));
            let _ = self.take_delayed_keys_in_slots(db, slots);
            proof {
                assert(self.queues().dom() =~= queues0.dom());
                assert forall|k: int| 0 <= k < dbs@.len() && k != i implies self.queues()[
                    #[trigger] dbs@[k]] == before[dbs@[k]] by {
                    assert(dbs@[k] != dbs@[i as int]);
                }
            }
            i += 1;
        }
        proof {
            let goal = queues_outside(queues0, set);
            assert forall|db: i32| self.queues().contains_key(db) implies self.queues()[db]
                == goal[db] by {
                assert(queues0.dom().contains(db));
                assert(dbs@.contains(db));
                let k = choose|k: int| 0 <= k < dbs@.len() && dbs@[k] == db;
                assert(self.queues()[dbs@[k]] == keys_outside(queues0[dbs@[k]], set));
            }
            assert(self.queues() =~= goal);
        }
    }

    /// Whether a key belongs to a slot that is being imported.
    pub fn is_key_in_slot_import(&self, key: &[u8]) -> (r: bool)
        ensures
            r == self.importing().contains(slot_of(key@)),
    {
        !self.importing.is_empty() && self.importing.contains(calculate_hash_slot(key))
    }

    /// Ends the import of some slots.
    pub fn remove_importing_slots(&mut self, slots: &SlotSet)
        ensures
            final(self).importing() == old(self).importing().difference(slots_of(*slots)),
            final(self).queues() == old(self).queues(),
    {
        self.importing.remove(slots);
    }

    /// The databases that keys wait for, in order.
    pub fn delayed_dbs(&self) -> (r: Vec<i32>)
        ensures
            lists_dbs(self.queues().dom(), r@),
    {
        assert(self.queues().dom() =~= self.delayed@.dom());
        dbs_of(&self.delayed)
    }

    /// Takes note of an event, and tells what is to be done about it.
    pub fn slot_migration_event_handler(
        &mut self,
        event: AtomicSlotMigrationEvent,
        slots: &SlotSet,
    ) -> (r: MigrationAction)
        ensures
            match event {
                AtomicSlotMigrationEvent::ImportStarted => {
                    &&& r is Rest
                    &&& final(self).importing() == old(self).importing().union(slots_of(*slots))
                    &&& final(self).queues() == old(self).queues()
                },
                AtomicSlotMigrationEvent::ImportCompleted => {
                    &&& r is IndexQueued
                    &&& lists_dbs(old(self).queues().dom(), r->IndexQueued_0@)
                    &&& final(self).importing() == old(self).importing().difference(
                        slots_of(*slots),
                    )
                    &&& final(self).queues() == old(self).queues()
                },
                AtomicSlotMigrationEvent::ImportAborted => {
                    &&& r is Rest
                    &&& final(self).importing() == old(self).importing().difference(
                        slots_of(*slots),
                    )
                    &&& final(self).queues() == queues_outside(
                        old(self).queues(),
                        slots_of(*slots),
                    )
                },
                AtomicSlotMigrationEvent::ExportCompleted => {
                    &&& r is Retire
                    &&& final(self).importing() == old(self).importing()
                    &&& final(self).queues() == old(self).queues()
                },
                _ => {
                    &&& r is Rest
                    &&& final(self).importing() == old(self).importing()
                    &&& final(self).queues() == old(self).queues()
                },
            },
    {
        match event {
            AtomicSlotMigrationEvent::ExportCompleted => MigrationAction::Retire,
            AtomicSlotMigrationEvent::ImportStarted => {
                self.importing.extend(slots);
                MigrationAction::Rest
            },
            AtomicSlotMigrationEvent::ImportCompleted => {
                self.remove_importing_slots(slots);
                MigrationAction::IndexQueued(self.delayed_dbs())
            },
            AtomicSlotMigrationEvent::ImportAborted => {
                self.remove_importing_slots(slots);
                self.discard_delayed_keys_in_slots(slots);
                MigrationAction::Rest
            },
            _ => MigrationAction::Rest,
        }
    }
}

impl Default for SlotMigrations {
    fn default() -> (r: Self)
        ensures
            r.importing() == Set::<u16>::empty(),
            r.queues() == Map::<i32, Seq<Seq<u8>>>::empty(),
    {
        SlotMigrations::new()
    }
}

/// Imports of different slots do not get in each other's way: whatever happens to one, the keys of
/// the other go on waiting, in their order.
pub proof fn law_imports_apart(keys: Seq<Seq<u8>>, first: Set<u16>, second: Set<u16>)
    requires
        first.disjoint(second),
    ensures
        keys_in(keys_outside(keys, first), second) == keys_in(keys, second),
    decreases keys.len(),
{
    reveal(Seq::filter);
    if keys.len() > 0 {
        law_imports_apart(keys.drop_last(), first, second);
        let rest = keys_outside(keys.drop_last(), first);
        if !first.contains(slot_of(keys.last())) {
            assert(rest.push(keys.last()).drop_last() =~= rest);
        }
    }
}

/// The ids whose keys belong to some slots.
pub open spec fn ids_in_slots(names: Map<u64, Seq<u8>>, slots: Set<u16>) -> Set<u64> {
    Set::new(|id: u64| names.contains_key(id) && slots.contains(slot_of(names[id])))
}

/// The ids of a set before a cursor.
pub open spec fn ids_before(ids: Set<u64>, cursor: int) -> Set<u64> {
    Set::new(|id: u64| ids.contains(id) && id < cursor)
}

/// The ids of a window whose keys belong to some slots.
fn window_in_slots(postings: &Postings, window: &Vec<u64>, slots: &SlotSet) -> (r: Vec<SeriesRef>)
    requires
        forall|i: int| 0 <= i < window@.len() ==> postings.keys().contains_key(
            #[trigger] window@[i],
        ),
        forall|i: int, j: int| 0 <= i < j < window@.len() ==> window@[i] < window@[j],
    ensures
        forall|id: u64| #[trigger]
            r@.contains(id) == (window@.contains(id) && slots_of(*slots).contains(
                slot_of(postings.keys()[id]),
            )),
        forall|i: int, j: int| 0 <= i < j < r@.len() ==> r@[i] < r@[j],
{
    let mut out: Vec<SeriesRef> = Vec::new();
    let mut i: usize = 0;
    while i < window.len()
        invariant
            i <= window@.len(),
            forall|i: int| 0 <= i < window@.len() ==> postings.keys().contains_key(
                #[trigger] window@[i],
            ),
            forall|i: int, j: int| 0 <= i < j < window@.len() ==> window@[i] < window@[j],
            forall|id: u64| #[trigger]
                out@.contains(id) == (window@.take(i as int).contains(id) && slots_of(
                    *slots,
                ).contains(slot_of(postings.keys()[id]))),
            forall|k: int, j: int| 0 <= k < j < out@.len() ==> out@[k] < out@[j],
            out@.len() > 0 ==> i > 0 && out@.last() <= window@[i - 1],
        decreases window.len() - i,
    {
        let id: u64 = window[i];
        let ghost before = out@;
        assert(postings.keys().contains_key(window@[i as int]));
        match postings.get_key_by_id(id) {
            Some(key) => {
                if slots.contains(calculate_hash_slot(key.as_slice())) {
                    out.push(id);
                }
            },
            None => {},
        }
        proof {
            let done = window@.take(i as int);
            let more = window@.take(i + 1);
            assert(more =~= done.push(id));
            assert forall|x: u64| #[trigger] out@.contains(x) == (more.contains(x) && slots_of(
                *slots,
            ).contains(slot_of(postings.keys()[x]))) by {
                lemma_push_contains(done, id, x);
                lemma_push_contains(before, id, x);
                assert(before.contains(x) == (done.contains(x) && slots_of(*slots).contains(
                    slot_of(postings.keys()[x]),
                )));
            }
        }
        i += 1;
    }
    assert(window@.take(i as int) =~= window@);
    out
}

/// Takes the keys of slots that have moved away out of an index: their ids are marked for removal.
/// Gives their number.
pub fn remove_non_owned_keys(postings: &mut Postings, source_slots: &SlotSet) -> (r: usize)
    requires
        old(postings).wf(),
    ensures
        final(postings).wf(),
        r == ids_in_slots(old(postings).keys(), slots_of(*source_slots)).len(),
        final(postings).terms() == old(postings).terms(),
        final(postings).keys() == old(postings).keys().remove_keys(
            ids_in_slots(old(postings).keys(), slots_of(*source_slots)),
        ),
        final(postings).all() == old(postings).all().difference(
            ids_in_slots(old(postings).keys(), slots_of(*source_slots)),
        ),
        final(postings).stale() == old(postings).stale().union(
            ids_in_slots(old(postings).keys(), slots_of(*source_slots)),
        ),
        final(postings).stale_ids.retiring() == pass_without(
            old(postings).stale_ids.retiring(),
            ids_in_slots(old(postings).keys(), slots_of(*source_slots)),
        ),
{
    let ghost names = postings.keys();
    let ghost slots = slots_of(*source_slots);
    let ghost leaving = ids_in_slots(names, slots);
    let total: usize = postings.count();
    let mut deleted: usize = 0;
    let mut cursor: Option<u64> = Some(0);
    proof {
        assert(ids_before(leaving, 0) =~= Set::<u64>::empty());
        assert(postings.keys() =~= names.remove_keys(Set::<u64>::empty()));
        assert(postings.all() =~= old(postings).all().difference(Set::<u64>::empty()));
        assert(postings.stale() =~= old(postings).stale().union(Set::<u64>::empty()));
        if let Some(p) = postings.stale_ids.retiring() {
            assert(p =~= p.difference(Set::<u64>::empty()));
        }
        assert(names.dom() =~= old(postings).id_to_key@.dom());
    }
    while cursor.is_some()
        invariant
            postings.wf(),
            names == old(postings).keys(),
            names.dom().finite(),
            total == names.dom().len(),
            slots == slots_of(*source_slots),
            leaving == ids_in_slots(names, slots),
            postings.terms() == old(postings).terms(),
            postings.keys() == names.remove_keys(ids_before(leaving, cursor_at(cursor))),
            postings.all() == old(postings).all().difference(
                ids_before(leaving, cursor_at(cursor)),
            ),
            postings.stale() == old(postings).stale().union(
                ids_before(leaving, cursor_at(cursor)),
            ),
            postings.stale_ids.retiring() == pass_without(
                old(postings).stale_ids.retiring(),
                ids_before(leaving, cursor_at(cursor)),
            ),
            ids_before(leaving, cursor_at(cursor)).finite(),
            deleted == ids_before(leaving, cursor_at(cursor)).len(),
        decreases
                u64::MAX + 1 - cursor_at(cursor),
                if cursor is Some {
                    1int
                } else {
                    0int
                },
    {
        let from: u64 = match cursor {
            Some(c) => c,
            None => 0,
        };
        let window = window_from(postings, from, BATCH_SIZE);
        let ghost before = ids_before(leaving, from as int);
        if window.len() == 0 {
            proof {
                assert(ids_before(leaving, u64::MAX + 1) =~= before) by {
                    assert forall|id: u64| ids_before(leaving, u64::MAX + 1).contains(
                        id,
                    ) implies before.contains(id) by {
                        if id >= from {
                            assert(postings.keys().contains_key(id));
                            assert(window@.contains(id));
                        }
                    }
                }
            }
            cursor = None;
        } else {
            let batch = window_in_slots(postings, &window, source_slots);
            let last: u64 = window[window.len() - 1];
            let ghost past = last + 1;
            let ghost after = ids_before(leaving, past);
            proof {
                let now = postings.keys();
                assert forall|id: u64| #[trigger] after.contains(id) == (before.contains(id)
                    || batch@.contains(id)) by {
                    if after.contains(id) && id >= from {
                        assert(now.contains_key(id));
                        assert(window@.contains(id));
                    }
                    if batch@.contains(id) {
                        assert(window@.contains(id));
                        let k = choose|k: int| 0 <= k < window@.len() && window@[k] == id;
                        assert(now.contains_key(window@[k]));
                        assert(window@[k] <= last) by {
                            if k < window@.len() - 1 {
                                assert(window@[k] < window@[window@.len() - 1]);
                            }
                        }
                        assert(names[id] == now[id]);
                    }
                }
                assert(after =~= before.union(batch@.to_set()));
                assert(before.disjoint(batch@.to_set())) by {
                    assert forall|id: u64| before.contains(id) implies !batch@.to_set().contains(
                        id,
                    ) by {
                        if batch@.contains(id) {
                            assert(window@.contains(id));
                            let k = choose|k: int| 0 <= k < window@.len() && window@[k] == id;
                            assert(window@[k] >= from);
                        }
                    }
                }
                assert(batch@.no_duplicates());
                batch@.unique_seq_to_set();
                vstd::set_lib::lemma_set_disjoint_lens(before, batch@.to_set());
                assert(after.subset_of(names.dom()));
                vstd::set_lib::lemma_len_subset(after, names.dom());
            }
            let ghost names_now = postings.keys();
            let ghost all_now = postings.all();
            let ghost stale_now = postings.stale();
            deleted = deleted + batch.len();
            if batch.len() > 0 {
                postings.mark_ids_as_stale(batch.as_slice());
            } else {
                proof {
                    assert(batch@.to_set() =~= Set::<u64>::empty());
                    assert(names_now.remove_keys(batch@.to_set()) =~= names_now);
                    assert(all_now.difference(batch@.to_set()) =~= all_now);
                    assert(stale_now.union(batch@.to_set()) =~= stale_now);
                }
            }
            proof {
                assert(postings.keys() =~= names.remove_keys(after));
                assert(postings.all() =~= old(postings).all().difference(after));
                assert(postings.stale() =~= old(postings).stale().union(after));
                if let Some(p) = old(postings).stale_ids.retiring() {
                    assert(p.difference(before).difference(batch@.to_set()) =~= p.difference(
                        after,
                    ));
                }
            }
            if last == u64::MAX {
                cursor = None;
            } else {
                cursor = Some(last + 1);
            }
        }
    }
    assert(ids_before(leaving, u64::MAX + 1) =~= leaving);
    deleted
}

/// The first id, from a number on, that no series has.
pub open spec fn first_free(names: Map<u64, Seq<u8>>, from: int) -> Option<u64>
    decreases u64::MAX + 1 - from,
{
    if from > u64::MAX {
        None
    } else if !names.contains_key(from as u64) {
        Some(from as u64)
    } else {
        first_free(names, from + 1)
    }
}

/// Whether an id is that of a series under another key.
pub open spec fn collides(names: Map<u64, Seq<u8>>, id: u64, key: Seq<u8>) -> bool {
    names.contains_key(id) && names[id] != key
}

/// The id that a series that was imported gets: its own, or a new one where another series has it.
/// There is none where the ids have run out.
pub open spec fn import_id(names: Map<u64, Seq<u8>>, last: u64, id: u64, key: Seq<u8>) -> Option<
    u64,
> {
    if collides(names, id, key) {
        first_free(names, last + 1)
    } else {
        Some(id)
    }
}

/// The state of an index.
pub open spec fn state_of(p: &Postings) -> IndexState {
    IndexState {
        terms: p.terms(),
        keys: p.keys(),
        all: p.all(),
        stale: p.stale(),
        pass: p.stale_ids.retiring(),
    }
}

/// The state after a series was indexed under its labels.
pub open spec fn series_indexed(
    s: IndexState,
    id: u64,
    labels: Seq<Label>,
    key: Seq<u8>,
) -> IndexState {
    IndexState {
        terms: with_postings(s.terms, series_postings(id, labels)),
        keys: s.keys.insert(id, key),
        all: s.all.insert(id),
        stale: s.stale.remove(id),
        pass: s.pass,
    }
}

/// Indexes a series that was imported. Its id comes from another node, so another series here may
/// have it: then the imported one gets a new id, and the two are kept apart. Gives the id, unless
/// the ids have run out.
pub fn index_imported_series(
    postings: &mut Postings,
    generator: &mut IdGenerator,
    id: SeriesRef,
    labels: &Vec<Label>,
    key: &[u8],
) -> (r: Option<SeriesRef>)
    requires
        old(postings).wf(),
        labels_nul_free(labels@),
    ensures
        final(postings).wf(),
        r == import_id(old(postings).keys(), old(generator).last(), id, key@),
        state_of(final(postings)) == match r {
            Some(given) => series_indexed(state_of(old(postings)), given, labels@, key@),
            None => state_of(old(postings)),
        },
        final(generator).last() == if collides(old(postings).keys(), id, key@) {
            match r {
                Some(given) => given,
                None => u64::MAX,
            }
        } else {
            old(generator).last()
        },
{
    let taken: bool = match postings.get_key_by_id(id) {
        Some(existing) => !bytes_equal(existing.as_slice(), key),
        None => false,
    };
    if !taken {
        postings.index_labels(id, labels, key);
        return Some(id);
    }
    match fresh_id(postings, generator) {
        Some(fresh) => {
            postings.index_labels(fresh, labels, key);
            Some(fresh)
        },
        None => None,
    }
}

/// The next id of a generator that no series has.
fn fresh_id(postings: &Postings, generator: &mut IdGenerator) -> (r: Option<SeriesRef>)
    ensures
        r == first_free(postings.keys(), old(generator).last() + 1),
        final(generator).last() == match r {
            Some(given) => given,
            None => u64::MAX,
        },
{
    while !generator.is_spent()
        invariant
            first_free(postings.keys(), generator.last() + 1) == first_free(
                postings.keys(),
                old(generator).last() + 1,
            ),
        decreases u64::MAX - generator.last(),
    {
        let id: u64 = generator.next_id();
        if !postings.has_id(id) {
            return Some(id);
        }
    }
    None
}

proof fn lemma_first_free(names: Map<u64, Seq<u8>>, from: int)
    requires
        0 <= from,
    ensures
        first_free(names, from) matches Some(id) ==> id >= from && !names.contains_key(id),
    decreases u64::MAX + 1 - from,
{
    if from <= u64::MAX && names.contains_key(from as u64) {
        lemma_first_free(names, from + 1);
    }
}

/// An import takes no id away from a series under another key: every series that was in the
/// directory keeps its key, and the one that was imported is in it, under its key.
pub proof fn law_import_keeps_apart(
    s: IndexState,
    last: u64,
    id: u64,
    labels: Seq<Label>,
    key: Seq<u8>,
)
    requires
        import_id(s.keys, last, id, key) is Some,
    ensures
        ({
            let given = import_id(s.keys, last, id, key)->0;
            let after = series_indexed(s, given, labels, key);
            &&& after.keys.contains_key(given) && after.keys[given] == key
            &&& forall|other: u64| #[trigger]
                s.keys.contains_key(other) ==> after.keys.contains_key(other)
                    && after.keys[other] == s.keys[other]
            &&& after.all.contains(given)
        }),
{
    lemma_first_free(s.keys, last + 1);
}

/// A key that was imported, with the id and the labels of the series under it, where there is one.
pub struct ImportedKey {
    pub key: Vec<u8>,
    pub series: Option<(SeriesRef, Vec<Label>)>,
}

/// No label of a series holds a NUL byte.
pub open spec fn imports_wf(batch: Seq<ImportedKey>) -> bool {
    forall|i: int|
        0 <= i < batch.len() ==> match (#[trigger] batch[i]).series {
            Some((_, labels)) => labels_nul_free(labels@),
            None => true,
        }
}

/// The state of an index and of its source of ids after keys were indexed.
pub open spec fn imported(s: IndexState, last: u64, batch: Seq<ImportedKey>) -> (IndexState, u64)
    decreases batch.len(),
{
    if batch.len() == 0 {
        (s, last)
    } else {
        let (before, last) = imported(s, last, batch.drop_last());
        let item = batch.last();
        match item.series {
            None => (before, last),
            Some((id, labels)) => {
                let given = import_id(before.keys, last, id, item.key@);
                (
                    match given {
                        Some(given) => series_indexed(before, given, labels@, item.key@),
                        None => before,
                    },
                    if collides(before.keys, id, item.key@) {
                        match given {
                            Some(given) => given,
                            None => u64::MAX,
                        }
                    } else {
                        last
                    },
                )
            },
        }
    }
}

/// How many keys have no series.
pub open spec fn without_series(batch: Seq<ImportedKey>) -> nat
    decreases batch.len(),
{
    if batch.len() == 0 {
        0
    } else {
        without_series(batch.drop_last()) + if batch.last().series is None {
            1nat
        } else {
            0nat
        }
    }
}

/// The ids that keys were indexed under.
pub open spec fn import_ids(s: IndexState, last: u64, batch: Seq<ImportedKey>) -> Seq<Option<u64>> {
    Seq::new(
        batch.len(),
        |i: int|
            match batch[i].series {
                None => None,
                Some((id, _)) => import_id(
                    imported(s, last, batch.take(i)).0.keys,
                    imported(s, last, batch.take(i)).1,
                    id,
                    batch[i].key@,
                ),
            },
    )
}

/// Indexes keys that were imported. Gives the id that each was indexed under, and the number of
/// keys that no series stands under any more.
pub fn index_timeseries_in_batch(
    postings: &mut Postings,
    generator: &mut IdGenerator,
    batch: &Vec<ImportedKey>,
) -> (r: (Vec<Option<SeriesRef>>, usize))
    requires
        old(postings).wf(),
        imports_wf(batch@),
    ensures
        final(postings).wf(),
        state_of(final(postings)) == imported(
            state_of(old(postings)),
            old(generator).last(),
            batch@,
        ).0,
        final(generator).last() == imported(
            state_of(old(postings)),
            old(generator).last(),
            batch@,
        ).1,
        r.0@ == import_ids(state_of(old(postings)), old(generator).last(), batch@),
        r.1 == without_series(batch@),
{
    let ghost s = state_of(postings);
    let ghost last = generator.last();
    let mut ids: Vec<Option<SeriesRef>> = Vec::new();
    let mut skipped: usize = 0;
    let mut i: usize = 0;
    assert(batch@.take(0) =~= Seq::<ImportedKey>::empty());
    while i < batch.len()
        invariant
            i <= batch@.len(),
            imports_wf(batch@),
            postings.wf(),
            state_of(postings) == imported(s, last, batch@.take(i as int)).0,
            generator.last() == imported(s, last, batch@.take(i as int)).1,
            ids@.len() == i,
            forall|k: int| 0 <= k < i ==> #[trigger] ids@[k] == import_ids(s, last, batch@)[k],
            skipped == without_series(batch@.take(i as int)),
            skipped <= i,
        decreases batch.len() - i,
    {
        let item = &batch[i];
        proof {
            assert(batch@.take(i + 1).drop_last() =~= batch@.take(i as int));
            assert(batch@.take(i + 1).last() == batch@[i as int]);
        }
        match &item.series {
            None => {
                skipped += 1;
                ids.push(None);
            },
            Some(series) => {
                assert(batch@[i as int].series is Some);
                let given = index_imported_series(
                    postings,
                    generator,
                    series.0,
                    &series.1,
                    item.key.as_slice(),
                );
                ids.push(given);
            },
        }
        i += 1;
    }
    proof {
        assert(batch@.take(i as int) =~= batch@);
        assert(ids@ =~= import_ids(s, last, batch@));
    }
    (ids, skipped)
}

/// The first id that is still to be looked at.
spec fn cursor_at(cursor: Option<u64>) -> int {
    match cursor {
        Some(c) => c as int,
        None => u64::MAX + 1,
    }
}

} // verus!
