//! Indexing many series at once, while a dataset loads.
//!
//! Where the index of a database did not come from a snapshot, its series are gathered and indexed
//! in bulk when loading ends. What was gathered is bounded: once it takes too much memory it is
//! indexed at once, and the rest of the load indexes series one by one. When a log of commands is
//! replayed nothing is gathered, as a command may change a key before it is indexed.
use crate::bytes::bytes_copy;
use crate::index::databases::{dbs_of, lists_dbs};
use crate::labels::Label;
use crate::postings::key::{is_sealed, IndexKey};
use crate::postings::mutation::{entries_wf, label_key, labels_nul_free, BulkIndexEntry};
use crate::postings::SeriesRef;
use std::collections::BTreeMap;
use vstd::layout::size_of;
use vstd::prelude::*;

verus! {

/// What labels take.
pub open spec fn keys_footprint(keys: Seq<IndexKey>) -> nat
    decreases keys.len(),
{
    if keys.len() == 0 {
        0
    } else {
        keys_footprint(keys.drop_last()) + size_of::<IndexKey>() + keys.last()@.len()
    }
}

/// What a series that was gathered takes.
pub open spec fn footprint(entry: BulkIndexEntry) -> nat {
    size_of::<BulkIndexEntry>() + entry.key@.len() + keys_footprint(entry.label_keys@)
}

/// A number, or the largest one where it is too large.
pub open spec fn at_most_usize(n: nat) -> usize {
    if n > usize::MAX {
        usize::MAX
    } else {
        n as usize
    }
}

/// What a series that was gathered takes.
pub fn entry_footprint(entry: &BulkIndexEntry) -> (r: usize)
    ensures
        r == at_most_usize(footprint(*entry)),
{
    let entry_size: usize = core::mem::size_of::<BulkIndexEntry>();
    let key_size: usize = core::mem::size_of::<IndexKey>();
    let mut total: usize = entry_size.saturating_add(entry.key.len());
    let ghost base = size_of::<BulkIndexEntry>() + entry.key@.len();
    let mut i: usize = 0;
    assert(entry.label_keys@.take(0) =~= Seq::<IndexKey>::empty());
    while i < entry.label_keys.len()
        invariant
            i <= entry.label_keys@.len(),
            key_size == size_of::<IndexKey>(),
            total == at_most_usize(base + keys_footprint(entry.label_keys@.take(i as int))),
        decreases entry.label_keys.len() - i,
    {
        assert(entry.label_keys@.take(i + 1).drop_last() =~= entry.label_keys@.take(i as int));
        total = total.saturating_add(key_size);
        total = total.saturating_add(entry.label_keys[i].as_bytes().len());
        i += 1;
    }
    assert(entry.label_keys@.take(i as int) =~= entry.label_keys@);
    total
}

/// What was gathered, for each database.
pub type Gathered = Map<i32, Seq<BulkIndexEntry>>;

/// The lists hold what was gathered, the databases in order.
pub open spec fn is_drained(gathered: Gathered, lists: Seq<(i32, Vec<BulkIndexEntry>)>) -> bool {
    &&& lists_dbs(gathered.dom(), lists.map_values(|l: (i32, Vec<BulkIndexEntry>)| l.0))
    &&& forall|i: int|
        0 <= i < lists.len() ==> (#[trigger] lists[i]).1@ == gathered[lists[i].0]
}

/// Gathers series while a dataset loads.
pub struct BulkBuild {
    active: bool,
    degraded: bool,
    bytes: usize,
    buffers: BTreeMap<i32, Vec<BulkIndexEntry>>,
}

impl BulkBuild {
    /// Whether series are gathered in this load.
    pub closed spec fn is_open(&self) -> bool {
        self.active
    }

    /// Whether too much was gathered, so that the rest is indexed one by one.
    pub closed spec fn is_degraded(&self) -> bool {
        self.degraded
    }

    /// What was gathered.
    pub closed spec fn gathered(&self) -> Gathered {
        self.buffers@.map_values(|v: Vec<BulkIndexEntry>| v@)
    }

    /// What it takes, by estimate.
    pub closed spec fn size(&self) -> usize {
        self.bytes
    }

    /// Nothing is loading.
    pub fn new() -> (r: Self)
        ensures
            !r.is_open(),
            !r.is_degraded(),
            r.size() == 0,
            r.gathered() == Map::<i32, Seq<BulkIndexEntry>>::empty(),
    {
        let r = BulkBuild { active: false, degraded: false, bytes: 0, buffers: BTreeMap::new() };
        assert(r.gathered() =~= Map::<i32, Seq<BulkIndexEntry>>::empty());
        r
    }

    /// Whether series are gathered in this load.
    pub fn is_active(&self) -> (r: bool)
        ensures
            r == self.is_open(),
    {
        self.active
    }

    /// Whether the rest of the load is indexed one by one.
    pub fn has_degraded(&self) -> (r: bool)
        ensures
            r == self.is_degraded(),
    {
        self.degraded
    }

    /// What was gathered takes, by estimate.
    pub fn buffered_bytes(&self) -> (r: usize)
        ensures
            r == self.size(),
    {
        self.bytes
    }

    /// Loading starts. What is left of an earlier load is forgotten.
    pub fn on_load_started(&mut self, is_aof: bool)
        ensures
            final(self).is_open() == !is_aof,
            !final(self).is_degraded(),
            final(self).size() == 0,
            final(self).gathered() == Map::<i32, Seq<BulkIndexEntry>>::empty(),
    {
        self.active = !is_aof;
        self.degraded = false;
        self.buffers.clear();
        self.bytes = 0;
        assert(self.gathered() =~= Map::<i32, Seq<BulkIndexEntry>>::empty());
    }

    /// Hands out what was gathered, and starts over.
    fn drain(&mut self) -> (r: Vec<(i32, Vec<BulkIndexEntry>)>)
        ensures
            is_drained(old(self).gathered(), r@),
            final(self).gathered() == Map::<i32, Seq<BulkIndexEntry>>::empty(),
            final(self).size() == 0,
            final(self).is_open() == old(self).is_open(),
            final(self).is_degraded() == old(self).is_degraded(),
    {
        let dbs = dbs_of(&self.buffers);
        let ghost before = self.buffers@;
        let mut out: Vec<(i32, Vec<BulkIndexEntry>)> = Vec::new();
        let mut i: usize = 0;
        while i < dbs.len()
            invariant
                i <= dbs@.len(),
                lists_dbs(before.dom(), dbs@),
                self.active == old(self).active,
                self.degraded == old(self).degraded,
                out@.len() == i,
                forall|k: int|
                    0 <= k < i ==> (#[trigger] out@[k]).0 == dbs@[k] && out@[k].1
                        == before[dbs@[k]],
                forall|k: int|
                    i <= k < dbs@.len() ==> self.buffers@.contains_key(#[trigger] dbs@[k])
                        && self.buffers@[dbs@[k]] == before[dbs@[k]],
            decreases dbs.len() - i,
        {
            let db: i32 = dbs[i];
            let ghost now = self.buffers@;
            assert(self.buffers@.contains_key(dbs@[i as int]));
            match self.buffers.remove(&db) {
                Some(entries) => {
                    out.push((db, entries));
                },
                None => {},
            }
            proof {
                assert(self.buffers@ == now.remove(db));
                assert forall|k: int| i + 1 <= k < dbs@.len() implies self.buffers@.contains_key(
                    #[trigger] dbs@[k],
                ) && self.buffers@[dbs@[k]] == before[dbs@[k]] by {
                    assert(dbs@[i as int] < dbs@[k]);
                }
            }
            i += 1;
        }
        self.buffers.clear();
        self.bytes = 0;
        proof {
            assert(self.gathered() =~= Map::<i32, Seq<BulkIndexEntry>>::empty());
            let g = old(self).gathered();
            assert(g.dom() =~= before.dom());
            assert(out@.map_values(|l: (i32, Vec<BulkIndexEntry>)| l.0) =~= dbs@);
            assert forall|k: int| 0 <= k < out@.len() implies (#[trigger] out@[k]).1@
                == g[out@[k].0] by {
                assert(before.dom().contains(dbs@[k]));
            }
        }
        out
    }

    /// Loading ended: what was gathered is to be indexed.
    pub fn on_load_ended(&mut self) -> (r: Vec<(i32, Vec<BulkIndexEntry>)>)
        ensures
            !final(self).is_open(),
            old(self).is_open() ==> is_drained(old(self).gathered(), r@) && final(self).gathered()
                == Map::<i32, Seq<BulkIndexEntry>>::empty() && final(self).size() == 0
                && !final(self).is_degraded(),
            !old(self).is_open() ==> r@.len() == 0 && final(self).gathered() == old(self).gathered()
                && final(self).size() == old(self).size() && final(self).is_degraded() == old(
                self,
            ).is_degraded(),
    {
        if !self.active {
            return Vec::new();
        }
        self.active = false;
        let out = self.drain();
        self.degraded = false;
        out
    }

    /// Loading failed: what was gathered is forgotten.
    pub fn on_load_failed(&mut self)
        ensures
            !final(self).is_open(),
            !final(self).is_degraded(),
            final(self).gathered() == Map::<i32, Seq<BulkIndexEntry>>::empty(),
            final(self).size() == 0,
    {
        self.active = false;
        self.degraded = false;
        self.buffers.clear();
        self.bytes = 0;
        assert(self.gathered() =~= Map::<i32, Seq<BulkIndexEntry>>::empty());
    }

    /// Whether a series that was loaded is gathered.
    pub fn is_buffering(&self) -> (r: bool)
        ensures
            r == (self.is_open() && !self.is_degraded()),
    {
        self.active && !self.degraded
    }

    /// Gathers a series. Where that makes too much, all that was gathered is to be indexed now.
    pub fn buffer_entry(&mut self, db: i32, entry: BulkIndexEntry, max_bytes: usize) -> (r: Option<
        Vec<(i32, Vec<BulkIndexEntry>)>,
    >)
        ensures
            ({
                let all = old(self).gathered().insert(
                    db,
                    (if old(self).gathered().contains_key(db) {
                        old(self).gathered()[db]
                    } else {
                        Seq::empty()
                    }).push(entry),
                );
                let size = at_most_usize(old(self).size() as nat + footprint(entry));
                &&& final(self).is_open() == old(self).is_open()
                &&& match r {
                    Some(lists) => {
                        &&& 0 < max_bytes < size
                        &&& is_drained(all, lists@)
                        &&& final(self).is_degraded()
                        &&& final(self).size() == 0
                        &&& final(self).gathered() == Map::<i32, Seq<BulkIndexEntry>>::empty()
                    },
                    None => {
                        &&& !(0 < max_bytes < size)
                        &&& final(self).is_degraded() == old(self).is_degraded()
                        &&& final(self).size() == size
                        &&& final(self).gathered() == all
                    },
                }
            }),
    {
        let n: usize = entry_footprint(&entry);
        let ghost before = self.buffers@;
        let mut entries: Vec<BulkIndexEntry> = match self.buffers.remove(&db) {
            Some(entries) => entries,
            None => Vec::new(),
        };
        let ghost was = entries@;
        proof {
            assert(self.buffers@ == before.remove(db));
            if before.contains_key(db) {
                assert(old(self).gathered()[db] == was);
            } else {
                assert(was =~= Seq::<BulkIndexEntry>::empty());
            }
        }
        entries.push(entry);
        self.buffers.insert(db, entries);
        self.bytes = self.bytes.saturating_add(n);
        proof {
            assert(self.buffers@ == before.remove(db).insert(db, entries));
            assert(self.gathered() =~= old(self).gathered().insert(db, was.push(entry)));
        }
        if max_bytes > 0 && self.bytes > max_bytes {
            self.degraded = true;
            return Some(self.drain());
        }
        None
    }
}

impl Default for BulkBuild {
    fn default() -> (r: Self)
        ensures
            !r.is_open(),
            !r.is_degraded(),
            r.size() == 0,
            r.gathered() == Map::<i32, Seq<BulkIndexEntry>>::empty(),
    {
        BulkBuild::new()
    }
}

/// A series as it is gathered: its id, its key, and the index keys of its labels.
pub fn bulk_entry(id: SeriesRef, key: &[u8], labels: &Vec<Label>) -> (r: BulkIndexEntry)
    requires
        labels_nul_free(labels@),
    ensures
        r.id == id,
        r.key@ == key@,
        r.label_keys@.len() == labels@.len(),
        forall|i: int|
            0 <= i < labels@.len() ==> (#[trigger] r.label_keys@[i])@ == label_key(labels@[i]),
        entries_wf(seq![r]),
{
    let mut keys: Vec<IndexKey> = Vec::new();
    let mut i: usize = 0;
    while i < labels.len()
        invariant
            i <= labels@.len(),
            labels_nul_free(labels@),
            keys@.len() == i,
            forall|k: int| 0 <= k < i ==> (#[trigger] keys@[k])@ == label_key(labels@[k]),
        decreases labels.len() - i,
    {
        keys.push(IndexKey::for_label_value(labels[i].name.as_str(), labels[i].value.as_str()));
        i += 1;
    }
    let r = BulkIndexEntry { id, key: bytes_copy(key), label_keys: keys };
    proof {
        assert forall|k: int| 0 <= k < keys@.len() implies is_sealed((#[trigger] keys@[k])@) by {
            crate::postings::key::lemma_term_key(
                crate::bytes::utf8(labels@[k].name@),
                crate::bytes::utf8(labels@[k].value@),
            );
        }
    }
    r
}

} // verus!
