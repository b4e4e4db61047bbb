//! The wire format of one index.
//!
//! 1. The dictionary: a directory of groups, then the entries that it describes. A group is the
//!    entries whose keys share what stands up to and including the first separator, which is
//!    written once for the group.
//! 2. The directory of series, by increasing id: the difference to the id before, then the key.
//! 3. The live ids.
//!
//! Ids that are marked for removal are not written: a dictionary that is read back is that which
//! a complete pass over the dictionary would have left.
use crate::bytes::{
    bytes_equal, lemma_lex_irreflexive, lex_less,
};
use crate::encoding::{
    law_slice_round_trip, law_uvarint_round_trip, lemma_slice_more, lemma_uvarint_more,
    parse_slice, parse_uvarint, slice_bytes, try_read_byte_slice, try_read_uvarint, uvarint_bytes, write_byte_slice, write_bytes,
    write_uvarint, DecodeError, Parsed,
};
use crate::postings::bitmap::{
    bitmap_from_portable, bitmap_to_portable, cow_ref, ids_of, portable_ids,
};
use crate::postings::key::{is_sealed, nul_free, separator_at, SENTINEL, SEPARATOR};
use crate::postings::label_index::{no_terms, LabelIndex, TermMap};
use crate::postings::mutation::lemma_fits;
use crate::postings::stale::{drained, StaleSet};
use crate::postings::{dictionary_wf, Postings, PostingsBitmap, SeriesRef};
use std::borrow::Cow;
use std::collections::BTreeMap;
use vstd::prelude::*;
use vstd::std_specs::btree::{increasing_seq, spec_btree_map_iter};
use vstd::std_specs::cmp::OrdSpec;
use vstd::std_specs::iter::IteratorSpec;

verus! {

/// Where a key is split: after the first separator, or at the end where there is none. The final
/// NUL is not part of what is written.
pub open spec fn split_point(key: Seq<u8>) -> int {
    let full = key.drop_last();
    if separator_at(full) < full.len() {
        separator_at(full) + 1
    } else {
        full.len() as int
    }
}

/// The part of a key that its group shares.
pub open spec fn entry_prefix(key: Seq<u8>) -> Seq<u8> {
    key.drop_last().take(split_point(key))
}

/// The part of a key that is its own.
pub open spec fn entry_suffix(key: Seq<u8>) -> Seq<u8> {
    key.drop_last().skip(split_point(key))
}

/// The key that two parts make.
pub open spec fn joined_key(prefix: Seq<u8>, suffix: Seq<u8>) -> Seq<u8> {
    (prefix + suffix).push(SENTINEL)
}

/// Runs of equal items, each with its length.
pub open spec fn runs_of(items: Seq<Seq<u8>>) -> Seq<(Seq<u8>, nat)>
    decreases items.len(),
{
    if items.len() == 0 {
        Seq::empty()
    } else {
        let before = runs_of(items.drop_last());
        if before.len() > 0 && before.last().0 == items.last() {
            before.drop_last().push((items.last(), before.last().1 + 1))
        } else {
            before.push((items.last(), 1))
        }
    }
}

/// The items that runs stand for.
pub open spec fn expand(runs: Seq<(Seq<u8>, nat)>) -> Seq<Seq<u8>>
    decreases runs.len(),
{
    if runs.len() == 0 {
        Seq::empty()
    } else {
        expand(runs.drop_last()) + repeated(runs.last().0, runs.last().1)
    }
}

/// An item, repeated.
pub open spec fn repeated(item: Seq<u8>, n: nat) -> Seq<Seq<u8>> {
    Seq::new(n, |i: int| item)
}

/// The prefixes of keys.
pub open spec fn prefixes_of(keys: Seq<Seq<u8>>) -> Seq<Seq<u8>> {
    Seq::new(keys.len(), |i: int| entry_prefix(keys[i]))
}

/// How the directory of groups is written.
pub open spec fn groups_bytes(runs: Seq<(Seq<u8>, nat)>) -> Seq<u8>
    decreases runs.len(),
{
    if runs.len() == 0 {
        Seq::empty()
    } else {
        groups_bytes(runs.drop_last()) + slice_bytes(runs.last().0) + uvarint_bytes(runs.last().1)
    }
}

/// How the entries are written.
pub open spec fn entries_bytes(keys: Seq<Seq<u8>>, blobs: Seq<Seq<u8>>) -> Seq<u8>
    decreases keys.len(),
{
    if keys.len() == 0 {
        Seq::empty()
    } else {
        entries_bytes(keys.drop_last(), blobs.drop_last()) + slice_bytes(entry_suffix(keys.last()))
            + slice_bytes(blobs.last())
    }
}

/// The id before the last, or zero.
pub open spec fn previous_id(ids: Seq<u64>) -> u64 {
    if ids.len() >= 2 {
        ids[ids.len() - 2]
    } else {
        0
    }
}

/// How the directory of series is written.
pub open spec fn ids_bytes(ids: Seq<u64>, keys: Map<u64, Seq<u8>>) -> Seq<u8>
    decreases ids.len(),
{
    if ids.len() == 0 {
        Seq::empty()
    } else {
        ids_bytes(ids.drop_last(), keys) + uvarint_bytes(
            (ids.last() - previous_id(ids)) as nat,
        ) + slice_bytes(keys[ids.last()])
    }
}

/// How an index is written, given its keys and ids in order and the written bitmaps.
pub open spec fn body_bytes(
    keys: Seq<Seq<u8>>,
    blobs: Seq<Seq<u8>>,
    ids: Seq<u64>,
    names: Map<u64, Seq<u8>>,
    all_blob: Seq<u8>,
) -> Seq<u8> {
    let runs = runs_of(prefixes_of(keys));
    uvarint_bytes(runs.len()) + groups_bytes(runs) + entries_bytes(keys, blobs) + uvarint_bytes(
        ids.len(),
    ) + ids_bytes(ids, names) + slice_bytes(all_blob)
}

/// The keys of the dictionary that have live ids, in order, with bitmaps of those ids.
pub open spec fn lists_live(
    p: &Postings,
    keys: Seq<Seq<u8>>,
    blobs: Seq<Seq<u8>>,
) -> bool {
    &&& keys.len() == blobs.len() <= u64::MAX
    &&& forall|i: int, j: int|
        0 <= i < j < keys.len() ==> lex_less(#[trigger] keys[i], #[trigger] keys[j])
    &&& forall|i: int|
        0 <= i < keys.len() ==> {
            &&& p.terms().contains_key(#[trigger] keys[i])
            &&& p.live_list(keys[i]) != Set::<u64>::empty()
            &&& portable_ids(blobs[i]) == Some(p.live_list(keys[i]))
            &&& keys[i].len() <= u64::MAX
            &&& blobs[i].len() <= u64::MAX
        }
    &&& forall|k: Seq<u8>| #[trigger]
        p.terms().contains_key(k) && p.live_list(k) != Set::<u64>::empty() ==> keys.contains(k)
}

/// The ids of the directory, in order.
pub open spec fn lists_ids(names: Map<u64, Seq<u8>>, ids: Seq<u64>) -> bool {
    &&& ids.len() <= u64::MAX
    &&& forall|i: int, j: int| 0 <= i < j < ids.len() ==> ids[i] < ids[j]
    &&& forall|i: int|
        0 <= i < ids.len() ==> names.contains_key(#[trigger] ids[i]) && names[ids[i]].len()
            <= u64::MAX
    &&& forall|id: u64| #[trigger] names.contains_key(id) ==> ids.contains(id)
}

/// The bytes are the written form of an index.
#[verifier::opaque]
pub open spec fn is_body_of(p: &Postings, body: Seq<u8>) -> bool {
    exists|keys: Seq<Seq<u8>>, blobs: Seq<Seq<u8>>, ids: Seq<u64>, all_blob: Seq<u8>| #[trigger]
        body_parts(p, keys, blobs, ids, all_blob) && body == body_bytes(
            keys,
            blobs,
            ids,
            p.keys(),
            all_blob,
        )
}

/// The parts that the written form of an index is made of.
pub open spec fn body_parts(
    p: &Postings,
    keys: Seq<Seq<u8>>,
    blobs: Seq<Seq<u8>>,
    ids: Seq<u64>,
    all_blob: Seq<u8>,
) -> bool {
    &&& lists_live(p, keys, blobs)
    &&& lists_ids(p.keys(), ids)
    &&& portable_ids(all_blob) == Some(p.all())
    &&& all_blob.len() <= u64::MAX
}

/// What an index holds once it has been read: a dictionary, a directory and the live ids.
pub ghost struct Body {
    pub terms: TermMap,
    pub keys: Map<u64, Seq<u8>>,
    pub all: Set<u64>,
}

/// What reading a bitmap gives.
pub open spec fn parse_bitmap(b: Seq<u8>) -> Parsed<Set<u64>> {
    match parse_slice(b) {
        Ok((blob, rest)) => match portable_ids(blob) {
            Some(ids) => Ok((ids, rest)),
            None => Err(DecodeError::CorruptBitmap),
        },
        Err(e) => Err(e),
    }
}

/// What reading a directory of `n` groups gives.
pub open spec fn parse_groups(b: Seq<u8>, n: nat) -> Parsed<Seq<(Seq<u8>, nat)>>
    decreases n,
{
    if n == 0 {
        Ok((Seq::empty(), b))
    } else {
        match parse_slice(b) {
            Err(e) => Err(e),
            Ok((prefix, r1)) => match parse_uvarint(r1) {
                Err(e) => Err(e),
                Ok((count, r2)) => match parse_groups(r2, (n - 1) as nat) {
                    Err(e) => Err(e),
                    Ok((more, r3)) => Ok((seq![(prefix, count as nat)] + more, r3)),
                },
            },
        }
    }
}

/// What reading entries gives, one for each prefix, added to a dictionary.
pub open spec fn parse_entries(b: Seq<u8>, prefixes: Seq<Seq<u8>>, terms: TermMap) -> Parsed<
    TermMap,
>
    decreases prefixes.len(),
{
    if prefixes.len() == 0 {
        Ok((terms, b))
    } else {
        match parse_slice(b) {
            Err(e) => Err(e),
            Ok((suffix, r1)) => match parse_bitmap(r1) {
                Err(e) => Err(e),
                Ok((ids, r2)) => {
                    let key = joined_key(prefixes[0], suffix);
                    if is_sealed(key) {
                        parse_entries(r2, prefixes.drop_first(), terms.insert(key, ids))
                    } else {
                        Err(DecodeError::BadIndexKey)
                    }
                },
            },
        }
    }
}

/// What reading a directory of `n` series gives, added to a directory.
pub open spec fn parse_ids(b: Seq<u8>, n: nat, previous: u64, keys: Map<u64, Seq<u8>>) -> Parsed<
    Map<u64, Seq<u8>>,
>
    decreases n,
{
    if n == 0 {
        Ok((keys, b))
    } else {
        match parse_uvarint(b) {
            Err(e) => Err(e),
            Ok((delta, r1)) => if previous + delta > u64::MAX {
                Err(DecodeError::SeriesIdOverflow)
            } else {
                match parse_slice(r1) {
                    Err(e) => Err(e),
                    Ok((key, r2)) => parse_ids(
                        r2,
                        (n - 1) as nat,
                        (previous + delta) as u64,
                        keys.insert((previous + delta) as u64, key),
                    ),
                }
            },
        }
    }
}

/// What reading an index gives.
#[verifier::opaque]
pub open spec fn parse_body(b: Seq<u8>) -> Parsed<Body> {
    match parse_uvarint(b) {
        Err(e) => Err(e),
        Ok((group_count, r1)) => match parse_groups(r1, group_count as nat) {
            Err(e) => Err(e),
            Ok((groups, r2)) => match parse_entries(r2, expand(groups), no_terms()) {
                Err(e) => Err(e),
                Ok((terms, r3)) => match parse_uvarint(r3) {
                    Err(e) => Err(e),
                    Ok((id_count, r4)) => match parse_ids(r4, id_count as nat, 0, Map::empty()) {
                        Err(e) => Err(e),
                        Ok((keys, r5)) => match parse_bitmap(r5) {
                            Err(e) => Err(e),
                            Ok((all, r6)) => Ok((Body { terms, keys, all }, r6)),
                        },
                    },
                },
            },
        },
    }
}

/// What follows a bitmap does not change how it is read.
pub proof fn lemma_bitmap_more(b: Seq<u8>, more: Seq<u8>)
    requires
        parse_bitmap(b) is Ok,
    ensures
        parse_bitmap(b + more) == Ok::<(Set<u64>, Seq<u8>), DecodeError>(
            (parse_bitmap(b)->Ok_0.0, parse_bitmap(b)->Ok_0.1 + more),
        ),
{
    lemma_slice_more(b, more);
}

/// What follows a directory of groups does not change how it is read.
pub proof fn lemma_groups_more(b: Seq<u8>, n: nat, more: Seq<u8>)
    requires
        parse_groups(b, n) is Ok,
    ensures
        parse_groups(b + more, n) == Ok::<(Seq<(Seq<u8>, nat)>, Seq<u8>), DecodeError>(
            (parse_groups(b, n)->Ok_0.0, parse_groups(b, n)->Ok_0.1 + more),
        ),
    decreases n,
{
    if n > 0 {
        lemma_slice_more(b, more);
        let r1 = parse_slice(b)->Ok_0.1;
        lemma_uvarint_more(r1, more);
        let r2 = parse_uvarint(r1)->Ok_0.1;
        lemma_groups_more(r2, (n - 1) as nat, more);
    }
}

/// What follows entries does not change how they are read.
pub proof fn lemma_entries_more(
    b: Seq<u8>,
    prefixes: Seq<Seq<u8>>,
    terms: TermMap,
    more: Seq<u8>,
)
    requires
        parse_entries(b, prefixes, terms) is Ok,
    ensures
        parse_entries(b + more, prefixes, terms) == Ok::<(TermMap, Seq<u8>), DecodeError>(
            (
                parse_entries(b, prefixes, terms)->Ok_0.0,
                parse_entries(b, prefixes, terms)->Ok_0.1 + more,
            ),
        ),
    decreases prefixes.len(),
{
    if prefixes.len() > 0 {
        lemma_slice_more(b, more);
        let (suffix, r1) = parse_slice(b)->Ok_0;
        lemma_bitmap_more(r1, more);
        let (ids, r2) = parse_bitmap(r1)->Ok_0;
        let key = joined_key(prefixes[0], suffix);
        lemma_entries_more(r2, prefixes.drop_first(), terms.insert(key, ids), more);
    }
}

/// What follows a directory of series does not change how it is read.
pub proof fn lemma_ids_more(
    b: Seq<u8>,
    n: nat,
    previous: u64,
    keys: Map<u64, Seq<u8>>,
    more: Seq<u8>,
)
    requires
        parse_ids(b, n, previous, keys) is Ok,
    ensures
        parse_ids(b + more, n, previous, keys) == Ok::<(Map<u64, Seq<u8>>, Seq<u8>), DecodeError>(
            (parse_ids(b, n, previous, keys)->Ok_0.0, parse_ids(b, n, previous, keys)->Ok_0.1 + more),
        ),
    decreases n,
{
    if n > 0 {
        lemma_uvarint_more(b, more);
        let (delta, r1) = parse_uvarint(b)->Ok_0;
        lemma_slice_more(r1, more);
        let (key, r2) = parse_slice(r1)->Ok_0;
        let id = (previous + delta) as u64;
        lemma_ids_more(r2, (n - 1) as nat, id, keys.insert(id, key), more);
    }
}

/// What follows an index does not change how it is read.
pub proof fn lemma_body_more(b: Seq<u8>, more: Seq<u8>)
    requires
        parse_body(b) is Ok,
    ensures
        parse_body(b + more) == Ok::<(Body, Seq<u8>), DecodeError>(
            (parse_body(b)->Ok_0.0, parse_body(b)->Ok_0.1 + more),
        ),
{
    reveal(parse_body);
    lemma_uvarint_more(b, more);
    let (group_count, r1) = parse_uvarint(b)->Ok_0;
    lemma_groups_more(r1, group_count as nat, more);
    let (groups, r2) = parse_groups(r1, group_count as nat)->Ok_0;
    lemma_entries_more(r2, expand(groups), no_terms(), more);
    let (terms, r3) = parse_entries(r2, expand(groups), no_terms())->Ok_0;
    lemma_uvarint_more(r3, more);
    let (id_count, r4) = parse_uvarint(r3)->Ok_0;
    lemma_ids_more(r4, id_count as nat, 0, Map::empty(), more);
    let (keys, r5) = parse_ids(r4, id_count as nat, 0, Map::empty())->Ok_0;
    lemma_bitmap_more(r5, more);
}

impl Postings {
    /// What the index holds, apart from marks for removal.
    pub open spec fn body(&self) -> Body {
        Body { terms: self.terms(), keys: self.keys(), all: self.all() }
    }
}

/// Writes a bitmap.
pub fn write_bitmap(buf: &mut Vec<u8>, bitmap: &PostingsBitmap) -> (blob: Ghost<Seq<u8>>)
    ensures
        portable_ids(blob@) == Some(ids_of(*bitmap)),
        blob@.len() <= u64::MAX,
        final(buf)@ == old(buf)@ + slice_bytes(blob@),
{
    let bytes = bitmap_to_portable(bitmap);
    write_byte_slice(buf, bytes.as_slice());
    assert(bytes@.len() == bytes.len());
    Ghost(bytes@)
}

/// Reads a bitmap.
pub fn read_bitmap(buf: &mut &[u8]) -> (r: Result<PostingsBitmap, DecodeError>)
    ensures
        match r {
            Ok(b) => parse_bitmap((*old(buf))@) == Ok::<(Set<u64>, Seq<u8>), DecodeError>(
                (ids_of(b), (*final(buf))@),
            ),
            Err(e) => parse_bitmap((*old(buf))@) == Err::<(Set<u64>, Seq<u8>), DecodeError>(e),
        },
{
    match try_read_byte_slice(buf) {
        Ok(blob) => match bitmap_from_portable(blob) {
            Some(b) => Ok(b),
            None => Err(DecodeError::CorruptBitmap),
        },
        Err(e) => Err(e),
    }
}

/// Where a key is split.
fn find_split(full: &[u8]) -> (r: usize)
    ensures
        r == split_point(full@.push(SENTINEL)),
        r <= full.len(),
{
    assert(full@.push(SENTINEL).drop_last() =~= full@);
    let mut i: usize = 0;
    while i < full.len()
        invariant
            i <= full.len(),
            forall|j: int| 0 <= j < i ==> full@[j] != SEPARATOR,
            full@.push(SENTINEL).drop_last() == full@,
        decreases full.len() - i,
    {
        if full[i] == SEPARATOR {
            proof {
                crate::postings::key::lemma_separator_is(full@, i as int);
            }
            return i + 1;
        }
        i += 1;
    }
    proof {
        crate::postings::key::lemma_separator_is(full@, i as int);
    }
    i
}

/// A run closed: what its last group adds to the written directory.
proof fn lemma_groups_push(runs: Seq<(Seq<u8>, nat)>, prefix: Seq<u8>, count: nat)
    ensures
        groups_bytes(runs.push((prefix, count))) == groups_bytes(runs) + slice_bytes(prefix)
            + uvarint_bytes(count),
{
    assert(runs.push((prefix, count)).drop_last() =~= runs);
}

/// There are no more runs than items, and each run has at most as many items.
proof fn lemma_runs_bounds(items: Seq<Seq<u8>>)
    ensures
        runs_of(items).len() <= items.len(),
        items.len() > 0 ==> runs_of(items).len() > 0 && runs_of(items).last().0 == items.last(),
        forall|i: int|
            0 <= i < runs_of(items).len() ==> 1 <= (#[trigger] runs_of(items)[i]).1 <= items.len(),
    decreases items.len(),
{
    if items.len() > 0 {
        lemma_runs_bounds(items.drop_last());
        let before = runs_of(items.drop_last());
        let now = runs_of(items);
        assert forall|i: int| 0 <= i < now.len() implies 1 <= (#[trigger] now[i]).1
            <= items.len() by {
            if i < before.len() {
                assert(1 <= before[i].1 <= items.len() - 1);
                if before.len() > 0 && i == before.len() - 1 {
                    assert(before[i] == before.last());
                }
            }
        }
    }
}

/// Appends the written form of an index.
#[verifier::rlimit(40)]
pub fn serialize(buf: &mut Vec<u8>, postings: &Postings)
    requires
        postings.wf(),
    ensures
        exists|body: Seq<u8>| #[trigger]
            is_body_of(postings, body) && final(buf)@ == old(buf)@ + body,
{
    reveal(is_body_of);
    let ghost start = buf@;
    let (groups, group_count, entries, keys, blobs) = write_terms(postings);
    let ghost ks = keys@;
    let ghost bs = blobs@;
    let ghost runs = runs_of(prefixes_of(ks));
    write_uvarint(buf, group_count);
    write_bytes(buf, groups.as_slice());
    write_bytes(buf, entries.as_slice());
    write_uvarint(buf, postings.id_to_key.len() as u64);
    let ids = write_ids(buf, postings);
    let ghost is = ids@;
    let all_blob = write_bitmap(buf, &postings.all_postings);
    proof {
        let body = body_bytes(ks, bs, is, postings.keys(), all_blob@);
        assert(body_parts(postings, ks, bs, is, all_blob@));
        assert(is_body_of(postings, body));
        assert(buf@ =~= start + body);
    }
}

/// The written directory of groups, the number of groups, and the written entries.
#[verifier::rlimit(40)]
fn write_terms(postings: &Postings) -> (r: (Vec<u8>, u64, Vec<u8>, Ghost<Seq<Seq<u8>>>, Ghost<
    Seq<Seq<u8>>,
>))
    requires
        postings.wf(),
    ensures
        lists_live(postings, r.3@, r.4@),
        r.0@ == groups_bytes(runs_of(prefixes_of(r.3@))),
        r.1 == runs_of(prefixes_of(r.3@)).len(),
        r.2@ == entries_bytes(r.3@, r.4@),
{
    let mut groups: Vec<u8> = Vec::new();
    let mut group_count: u64 = 0;
    let mut entries: Vec<u8> = Vec::new();
    // The prefix of the group that is open and the number of its entries so far.
    let mut open: Vec<u8> = Vec::new();
    let mut open_count: u64 = 0;
    let list = postings.label_index.entries();
    let ghost mut keys: Seq<Seq<u8>> = Seq::empty();
    let ghost mut blobs: Seq<Seq<u8>> = Seq::empty();
    let mut i: usize = 0;
    proof {
        assert(prefixes_of(keys) =~= Seq::<Seq<u8>>::empty());
    }
    while i < list.len()
        invariant
            i <= list.len(),
            postings.wf(),
            forall|j: int|
                0 <= j < list@.len() ==> crate::postings::label_index::is_entry(
                    postings.terms(),
                    (#[trigger] list@[j]).0@,
                    *list@[j].1,
                ),
            forall|a: int, b: int|
                0 <= a < b < list@.len() ==> lex_less(
                    (#[trigger] list@[a]).0@,
                    (#[trigger] list@[b]).0@,
                ),
            keys.len() == blobs.len(),
            keys.len() <= i,
            forall|a: int, b: int|
                0 <= a < b < keys.len() ==> lex_less(#[trigger] keys[a], #[trigger] keys[b]),
            forall|a: int|
                0 <= a < keys.len() ==> {
                    &&& postings.terms().contains_key(#[trigger] keys[a])
                    &&& postings.live_list(keys[a]) != Set::<u64>::empty()
                    &&& portable_ids(blobs[a]) == Some(postings.live_list(keys[a]))
                    &&& keys[a].len() <= u64::MAX
                    &&& blobs[a].len() <= u64::MAX
                },
            forall|a: int, j: int|
                0 <= a < keys.len() && i <= j < list@.len() ==> lex_less(
                    #[trigger] keys[a],
                    (#[trigger] list@[j]).0@,
                ),
            forall|j: int|
                0 <= j < i && postings.live_list((#[trigger] list@[j]).0@) != Set::<u64>::empty()
                    ==> keys.contains(list@[j].0@),
            entries@ == entries_bytes(keys, blobs),
            open_count <= i,
            group_count + (if open_count > 0 { 1int } else { 0int }) == runs_of(
                prefixes_of(keys),
            ).len(),
            open_count == 0 ==> keys.len() == 0 && groups@ == Seq::<u8>::empty(),
            open_count > 0 ==> {
                let runs = runs_of(prefixes_of(keys));
                &&& runs.last() == (open@, open_count as nat)
                &&& groups@ == groups_bytes(runs.drop_last())
            },
        decreases list.len() - i,
    {
        let (key, bitmap) = list[i];
        proof {
            assert(crate::postings::label_index::is_entry(
                postings.terms(),
                list@[i as int].0@,
                *list@[i as int].1,
            ));
            assert(postings.live_list(key@) == ids_of(*bitmap).difference(postings.stale()));
        }
        let cleaned = postings.stale_ids.mask_cow(Cow::Borrowed(bitmap));
        let keep: bool = !cow_ref(&cleaned).is_empty();
        if keep {
            let full = vstd::slice::slice_subrange(key.as_slice(), 0, key.len() - 1);
            assert(full@ =~= key@.drop_last());
            assert(full@.push(SENTINEL) =~= key@);
            let at: usize = find_split(full);
            let prefix = vstd::slice::slice_subrange(full, 0, at);
            let suffix = vstd::slice::slice_subrange(full, at, full.len());
            assert(prefix@ =~= entry_prefix(key@));
            assert(suffix@ =~= entry_suffix(key@));
            let ghost runs0 = runs_of(prefixes_of(keys));
            let ghost keys1 = keys.push(key@);
            proof {
                assert(prefixes_of(keys1).drop_last() =~= prefixes_of(keys));
                assert(prefixes_of(keys1).last() == prefix@);
                lemma_runs_bounds(prefixes_of(keys));
            }
            if open_count > 0 && bytes_equal(open.as_slice(), prefix) {
                open_count = open_count + 1;
                assert(runs_of(prefixes_of(keys1)) == runs0.drop_last().push(
                    (prefix@, open_count as nat),
                ));
                assert(runs0.drop_last().push((prefix@, open_count as nat)).drop_last()
                    =~= runs0.drop_last());
            } else {
                if open_count > 0 {
                    write_byte_slice(&mut groups, open.as_slice());
                    write_uvarint(&mut groups, open_count);
                    group_count = group_count + 1;
                    proof {
                        lemma_groups_push(runs0.drop_last(), open@, open_count as nat);
                        assert(runs0.drop_last().push((open@, open_count as nat)) =~= runs0);
                    }
                } else {
                    assert(runs0 =~= Seq::<(Seq<u8>, nat)>::empty());
                }
                open = crate::bytes::bytes_copy(prefix);
                open_count = 1;
                assert(runs_of(prefixes_of(keys1)) == runs0.push((prefix@, 1nat)));
                assert(runs0.push((prefix@, 1nat)).drop_last() =~= runs0);
            }
            write_byte_slice(&mut entries, suffix);
            let blob = write_bitmap(&mut entries, cow_ref(&cleaned));
            proof {
                let blobs1 = blobs.push(blob@);
                assert(keys1.drop_last() =~= keys);
                assert(blobs1.drop_last() =~= blobs);
                assert(entries@ =~= entries_bytes(keys1, blobs1));
                assert forall|a: int, b: int| 0 <= a < b < keys1.len() implies lex_less(
                    #[trigger] keys1[a],
                    #[trigger] keys1[b],
                ) by {
                    if b == keys.len() {
                        assert(lex_less(keys[a], list@[i as int].0@));
                    } else {
                        assert(lex_less(keys[a], keys[b]));
                    }
                }
                assert forall|a: int| 0 <= a < keys1.len() implies {
                    &&& postings.terms().contains_key(#[trigger] keys1[a])
                    &&& postings.live_list(keys1[a]) != Set::<u64>::empty()
                    &&& portable_ids(blobs1[a]) == Some(postings.live_list(keys1[a]))
                    &&& keys1[a].len() <= u64::MAX
                    &&& blobs1[a].len() <= u64::MAX
                } by {
                    if a < keys.len() {
                        assert(keys1[a] == keys[a] && blobs1[a] == blobs[a]);
                    }
                }
                assert forall|a: int, j: int|
                    0 <= a < keys1.len() && i + 1 <= j < list@.len() implies lex_less(
                    #[trigger] keys1[a],
                    (#[trigger] list@[j]).0@,
                ) by {
                    if a < keys.len() {
                        assert(keys1[a] == keys[a]);
                    } else {
                        assert(lex_less(list@[i as int].0@, list@[j].0@));
                    }
                }
                assert forall|j: int|
                    0 <= j < i + 1 && postings.live_list((#[trigger] list@[j]).0@) != Set::<
                        u64,
                    >::empty() implies keys1.contains(list@[j].0@) by {
                    if j < i {
                        let a = choose|a: int| 0 <= a < keys.len() && keys[a] == list@[j].0@;
                        assert(keys1[a] == list@[j].0@);
                    } else {
                        assert(keys1[keys.len() as int] == key@);
                    }
                }
                keys = keys1;
                blobs = blobs1;
            }
        }
        i += 1;
    }
    if open_count > 0 {
        let ghost runs0 = runs_of(prefixes_of(keys));
        proof {
            lemma_runs_bounds(prefixes_of(keys));
        }
        write_byte_slice(&mut groups, open.as_slice());
        write_uvarint(&mut groups, open_count);
        group_count = group_count + 1;
        proof {
            lemma_groups_push(runs0.drop_last(), open@, open_count as nat);
            assert(runs0.drop_last().push((open@, open_count as nat)) =~= runs0);
        }
    }
    proof {
        assert forall|k: Seq<u8>| #[trigger]
            postings.terms().contains_key(k) && postings.live_list(k) != Set::<
                u64,
            >::empty() implies keys.contains(k) by {
            let j = choose|j: int| 0 <= j < list@.len() && #[trigger] list@[j].0@ == k;
            assert(postings.live_list(list@[j].0@) != Set::<u64>::empty());
        }
    }
    (groups, group_count, entries, Ghost(keys), Ghost(blobs))
}

/// Writes the directory of series.
fn write_ids(buf: &mut Vec<u8>, postings: &Postings) -> (ids: Ghost<Seq<u64>>)
    ensures
        lists_ids(postings.keys(), ids@),
        ids@.len() == postings.id_to_key@.dom().len(),
        final(buf)@ == old(buf)@ + ids_bytes(ids@, postings.keys()),
{
    let ghost start = buf@;
    let ids = postings.ids_in_order();
    let mut previous: SeriesRef = 0;
    let mut i: usize = 0;
    proof {
        assert(ids@.take(0) =~= Seq::<u64>::empty());
    }
    while i < ids.len()
        invariant
            i <= ids.len(),
            lists_ids(postings.keys(), ids@),
            previous == (if i == 0 { 0 } else { ids@[i - 1] }),
            buf@ == start + ids_bytes(ids@.take(i as int), postings.keys()),
        decreases ids.len() - i,
    {
        let id: u64 = ids[i];
        let ghost more = ids@.take(i + 1);
        let ghost before = buf@;
        proof {
            assert(more.drop_last() =~= ids@.take(i as int));
            assert(previous_id(more) == previous);
            assert(postings.keys().contains_key(ids@[i as int]));
            if i > 0 {
                assert(ids@[i - 1] < ids@[i as int]);
            }
        }
        write_uvarint(buf, id - previous);
        match postings.id_to_key.get(&id) {
            Some(key) => {
                write_byte_slice(buf, key.as_slice());
            },
            None => {},
        }
        assert(buf@ =~= start + ids_bytes(more, postings.keys()));
        previous = id;
        i += 1;
    }
    assert(ids@.take(i as int) =~= ids@);
    Ghost(ids@)
}

impl Postings {
    /// The ids of the directory, in increasing order.
    pub fn ids_in_order(&self) -> (r: Vec<u64>)
        ensures
            lists_ids(self.keys(), r@),
            r@.len() == self.id_to_key@.dom().len(),
    {
        let mut ids: Vec<u64> = Vec::new();
        let ghost entries = spec_btree_map_iter(&self.id_to_key).remaining();
        for entry in it: self.id_to_key.iter()
            invariant
                it.seq() == entries,
                ids@.len() == it.index(),
                forall|i: int| 0 <= i < ids@.len() ==> ids@[i] == *(#[trigger] entries[i]).0,
        {
            ids.push(*entry.0);
        }
        proof {
            let m = self.id_to_key@;
            assert(ids@ =~= entries.map_values(|kv: (&u64, &Vec<u8>)| *kv.0));
            assert(increasing_seq(ids@));
            assert forall|i: int, j: int| 0 <= i < j < ids@.len() implies ids@[i] < ids@[j] by {
                assert(ids@[i].cmp_spec(&ids@[j]) is Less);
            }
            assert forall|i: int| 0 <= i < ids@.len() implies self.keys().contains_key(
                #[trigger] ids@[i],
            ) && self.keys()[ids@[i]].len() <= u64::MAX by {
                assert(m.contains_key(*entries[i].0));
                assert(m[ids@[i]].len() == m[ids@[i]]@.len());
            }
            assert forall|id: u64| #[trigger] self.keys().contains_key(id) implies ids@.contains(
                id,
            ) by {
                assert(m.contains_key(id));
                assert(entries.contains((&id, &m[id])));
                let i = choose|i: int| 0 <= i < entries.len() && entries[i] == (&id, &m[id]);
                assert(ids@[i] == id);
            }
            assert(ids@.len() == ids.len());
        }
        ids
    }
}

/// Groups that were read, put before what is still to be read.
spec fn with_groups(
    done: Seq<(Seq<u8>, nat)>,
    rest: Parsed<Seq<(Seq<u8>, nat)>>,
) -> Parsed<Seq<(Seq<u8>, nat)>> {
    match rest {
        Ok((more, r)) => Ok((done + more, r)),
        Err(e) => Err(e),
    }
}

/// The groups of a directory as they were read.
spec fn group_views(groups: Seq<(&[u8], u64)>) -> Seq<(Seq<u8>, nat)> {
    Seq::new(groups.len(), |i: int| (groups[i].0@, groups[i].1 as nat))
}

/// Runs put together stand for what they stand for apart.
proof fn lemma_expand_add(a: Seq<(Seq<u8>, nat)>, b: Seq<(Seq<u8>, nat)>)
    ensures
        expand(a + b) == expand(a) + expand(b),
    decreases b.len(),
{
    if b.len() == 0 {
        assert(a + b =~= a);
        assert(expand(a) + expand(b) =~= expand(a));
    } else {
        assert((a + b).drop_last() =~= a + b.drop_last());
        lemma_expand_add(a, b.drop_last());
        assert(expand(a + b) =~= expand(a) + expand(b));
    }
}

/// The first run of a list and what follows it.
proof fn lemma_expand_first(runs: Seq<(Seq<u8>, nat)>)
    requires
        runs.len() > 0,
    ensures
        expand(runs) == repeated(runs[0].0, runs[0].1) + expand(runs.skip(1)),
{
    let one = runs.take(1);
    assert(one + runs.skip(1) =~= runs);
    lemma_expand_add(one, runs.skip(1));
    assert(one.drop_last() =~= Seq::<(Seq<u8>, nat)>::empty());
    assert(expand(one.drop_last()) =~= Seq::<Seq<u8>>::empty());
    assert(expand(one) =~= repeated(runs[0].0, runs[0].1));
}

/// Reads a directory of groups.
fn read_groups<'a>(buf: &mut &'a [u8], count: u64) -> (r: Result<Vec<(&'a [u8], u64)>, DecodeError>)
    ensures
        match r {
            Ok(groups) => parse_groups((*old(buf))@, count as nat) == Ok::<
                (Seq<(Seq<u8>, nat)>, Seq<u8>),
                DecodeError,
            >((group_views(groups@), (*final(buf))@)),
            Err(e) => parse_groups((*old(buf))@, count as nat) == Err::<
                (Seq<(Seq<u8>, nat)>, Seq<u8>),
                DecodeError,
            >(e),
        },
{
    let ghost start = (*buf)@;
    let mut groups: Vec<(&'a [u8], u64)> = Vec::new();
    let mut i: u64 = 0;
    proof {
        assert(group_views(groups@) =~= Seq::<(Seq<u8>, nat)>::empty());
        match parse_groups(start, count as nat) {
            Ok((more, r)) => {
                assert(Seq::<(Seq<u8>, nat)>::empty() + more =~= more);
            },
            Err(e) => {},
        }
    }
    while i < count
        invariant
            i <= count,
            start == (*old(buf))@,
            parse_groups(start, count as nat) == with_groups(
                group_views(groups@),
                parse_groups((*buf)@, (count - i) as nat),
            ),
        decreases count - i,
    {
        let prefix = match try_read_byte_slice(buf) {
            Ok(prefix) => prefix,
            Err(e) => {
                return Err(e);
            },
        };
        let n: u64 = match try_read_uvarint(buf) {
            Ok(n) => n,
            Err(e) => {
                return Err(e);
            },
        };
        let ghost before = group_views(groups@);
        groups.push((prefix, n));
        proof {
            assert(group_views(groups@) =~= before.push((prefix@, n as nat)));
            match parse_groups((*buf)@, (count - i - 1) as nat) {
                Ok((more, r)) => {
                    assert(before + (seq![(prefix@, n as nat)] + more) =~= before.push(
                        (prefix@, n as nat),
                    ) + more);
                },
                Err(e) => {},
            }
        }
        i += 1;
    }
    proof {
        assert(group_views(groups@) + Seq::<(Seq<u8>, nat)>::empty() =~= group_views(groups@));
    }
    Ok(groups)
}

/// Whether a byte string holds no NUL.
fn is_nul_free(s: &[u8]) -> (r: bool)
    ensures
        r == nul_free(s@),
{
    let mut i: usize = 0;
    while i < s.len()
        invariant
            i <= s.len(),
            forall|j: int| 0 <= j < i ==> s@[j] != SENTINEL,
        decreases s.len() - i,
    {
        if s[i] == SENTINEL {
            return false;
        }
        i += 1;
    }
    true
}

/// Reads the entries of a dictionary.
#[verifier::rlimit(40)]
fn read_entries(buf: &mut &[u8], groups: &Vec<(&[u8], u64)>) -> (r: Result<LabelIndex, DecodeError>)
    ensures
        match r {
            Ok(index) => {
                &&& parse_entries(
                    (*old(buf))@,
                    expand(group_views(groups@)),
                    no_terms(),
                ) == Ok::<(TermMap, Seq<u8>), DecodeError>((index@, (*final(buf))@))
                &&& dictionary_wf(index@)
            },
            Err(e) => parse_entries(
                (*old(buf))@,
                expand(group_views(groups@)),
                no_terms(),
            ) == Err::<(TermMap, Seq<u8>), DecodeError>(e),
        },
{
    let ghost start = (*buf)@;
    let ghost runs = group_views(groups@);
    let mut index = LabelIndex::new();
    let mut g: usize = 0;
    assert(runs.skip(0) =~= runs);
    while g < groups.len()
        invariant
            g <= groups.len(),
            start == (*old(buf))@,
            runs == group_views(groups@),
            dictionary_wf(index@),
            parse_entries(start, expand(runs), no_terms()) == parse_entries(
                (*buf)@,
                expand(runs.skip(g as int)),
                index@,
            ),
        decreases groups.len() - g,
    {
        let (prefix, count) = groups[g];
        let ghost after = expand(runs.skip(g as int + 1));
        let mut j: u64 = 0;
        proof {
            lemma_expand_first(runs.skip(g as int));
            assert(runs.skip(g as int).skip(1) =~= runs.skip(g as int + 1));
            assert(runs.skip(g as int)[0] == (prefix@, count as nat));
        }
        while j < count
            invariant
                j <= count,
                start == (*old(buf))@,
                runs == group_views(groups@),
                dictionary_wf(index@),
                parse_entries(start, expand(runs), no_terms()) == parse_entries(
                    (*buf)@,
                    repeated(prefix@, (count - j) as nat) + after,
                    index@,
                ),
            decreases count - j,
        {
            let ghost todo = repeated(prefix@, (count - j) as nat) + after;
            assert(todo[0] == prefix@);
            assert(todo.drop_first() =~= repeated(prefix@, (count - j - 1) as nat) + after);
            let suffix = match try_read_byte_slice(buf) {
                Ok(suffix) => suffix,
                Err(e) => {
                    return Err(e);
                },
            };
            let bitmap = match read_bitmap(buf) {
                Ok(bitmap) => bitmap,
                Err(e) => {
                    return Err(e);
                },
            };
            let mut key: Vec<u8> = crate::bytes::bytes_copy(prefix);
            write_bytes(&mut key, suffix);
            let proper: bool = is_nul_free(key.as_slice());
            let ghost full = key@;
            key.push(SENTINEL);
            assert(key@ =~= joined_key(prefix@, suffix@));
            assert(key@.drop_last() =~= full);
            if !proper {
                return Err(DecodeError::BadIndexKey);
            }
            proof {
                lemma_fits(index@, key@);
                assert(index@.insert(key@, ids_of(bitmap)).dom() =~= index@.dom().insert(key@));
            }
            index.insert(key, bitmap);
            j += 1;
        }
        proof {
            assert(repeated(prefix@, 0) + after =~= after);
        }
        g += 1;
    }
    assert(runs.skip(g as int) =~= Seq::<(Seq<u8>, nat)>::empty());
    Ok(index)
}

/// The views of the keys in a directory.
spec fn key_views(m: Map<u64, Vec<u8>>) -> Map<u64, Seq<u8>> {
    m.map_values(|k: Vec<u8>| k@)
}

/// Reads the directory of series.
fn read_ids(buf: &mut &[u8], count: u64) -> (r: Result<BTreeMap<SeriesRef, Vec<u8>>, DecodeError>)
    ensures
        match r {
            Ok(m) => parse_ids((*old(buf))@, count as nat, 0, Map::empty()) == Ok::<
                (Map<u64, Seq<u8>>, Seq<u8>),
                DecodeError,
            >((m@.map_values(|k: Vec<u8>| k@), (*final(buf))@)),
            Err(e) => parse_ids((*old(buf))@, count as nat, 0, Map::empty()) == Err::<
                (Map<u64, Seq<u8>>, Seq<u8>),
                DecodeError,
            >(e),
        },
{
    let ghost start = (*buf)@;
    let mut m: BTreeMap<SeriesRef, Vec<u8>> = BTreeMap::new();
    let mut previous: SeriesRef = 0;
    let mut i: u64 = 0;
    assert(key_views(m@) =~= Map::<u64, Seq<u8>>::empty());
    while i < count
        invariant
            i <= count,
            start == (*old(buf))@,
            parse_ids(start, count as nat, 0, Map::empty()) == parse_ids(
                (*buf)@,
                (count - i) as nat,
                previous,
                key_views(m@),
            ),
        decreases count - i,
    {
        let delta: u64 = match try_read_uvarint(buf) {
            Ok(delta) => delta,
            Err(e) => {
                return Err(e);
            },
        };
        let id: u64 = match previous.checked_add(delta) {
            Some(id) => id,
            None => {
                return Err(DecodeError::SeriesIdOverflow);
            },
        };
        previous = id;
        let key = match try_read_byte_slice(buf) {
            Ok(key) => key,
            Err(e) => {
                return Err(e);
            },
        };
        let ghost before = m@;
        m.insert(id, crate::bytes::bytes_copy(key));
        assert(key_views(m@) =~= key_views(before).insert(id, key@));
        i += 1;
    }
    assert(key_views(m@) =~= m@.map_values(|k: Vec<u8>| k@));
    Ok(m)
}

/// Reads an index, taking its written form off the bytes.
pub fn deserialize(buf: &mut &[u8]) -> (r: Result<Postings, DecodeError>)
    ensures
        match r {
            Ok(p) => {
                &&& parse_body((*old(buf))@) == Ok::<(Body, Seq<u8>), DecodeError>(
                    (p.body(), (*final(buf))@),
                )
                &&& p.wf()
                &&& p.stale_ids.wf_empty()
            },
            Err(e) => parse_body((*old(buf))@) == Err::<(Body, Seq<u8>), DecodeError>(e),
        },
{
    reveal(parse_body);
    let group_count: u64 = match try_read_uvarint(buf) {
        Ok(n) => n,
        Err(e) => {
            return Err(e);
        },
    };
    let groups = match read_groups(buf, group_count) {
        Ok(groups) => groups,
        Err(e) => {
            return Err(e);
        },
    };
    let label_index = match read_entries(buf, &groups) {
        Ok(index) => index,
        Err(e) => {
            return Err(e);
        },
    };
    let id_count: u64 = match try_read_uvarint(buf) {
        Ok(n) => n,
        Err(e) => {
            return Err(e);
        },
    };
    let id_to_key = match read_ids(buf, id_count) {
        Ok(m) => m,
        Err(e) => {
            return Err(e);
        },
    };
    let all_postings = match read_bitmap(buf) {
        Ok(b) => b,
        Err(e) => {
            return Err(e);
        },
    };
    let p = Postings { label_index, id_to_key, stale_ids: StaleSet::new(), all_postings };
    proof {
        assert(p.keys() =~= id_to_key@.map_values(|k: Vec<u8>| k@));
    }
    Ok(p)
}

/// The directory of groups is read back.
#[verifier::spinoff_prover]
#[verifier::rlimit(40)]
proof fn lemma_groups_round_trip(runs: Seq<(Seq<u8>, nat)>, rest: Seq<u8>)
    requires
        forall|i: int|
            0 <= i < runs.len() ==> (#[trigger] runs[i]).0.len() <= u64::MAX && runs[i].1
                <= u64::MAX,
    ensures
        parse_groups(groups_bytes(runs) + rest, runs.len()) == Ok::<
            (Seq<(Seq<u8>, nat)>, Seq<u8>),
            DecodeError,
        >((runs, rest)),
    decreases runs.len(),
{
    if runs.len() == 0 {
        assert(groups_bytes(runs) + rest =~= rest);
        assert(runs =~= Seq::<(Seq<u8>, nat)>::empty());
    } else {
        let first = runs[0];
        let more = runs.skip(1);
        lemma_groups_first(runs);
        let tail = groups_bytes(more) + rest;
        assert forall|i: int| 0 <= i < more.len() implies (#[trigger] more[i]).0.len() <= u64::MAX
            && more[i].1 <= u64::MAX by {
            assert(more[i] == runs[i + 1]);
        }
        lemma_groups_round_trip(more, rest);
        let b = groups_bytes(runs) + rest;
        assert(b == slice_bytes(first.0) + (uvarint_bytes(first.1) + tail)) by {
            assert(b =~= slice_bytes(first.0) + (uvarint_bytes(first.1) + tail));
        }
        law_slice_round_trip(first.0, uvarint_bytes(first.1) + tail);
        law_uvarint_round_trip(first.1 as u64, tail);
        assert(seq![first] + more =~= runs);
    }
}

proof fn lemma_groups_first(runs: Seq<(Seq<u8>, nat)>)
    requires
        runs.len() > 0,
    ensures
        groups_bytes(runs) == slice_bytes(runs[0].0) + uvarint_bytes(runs[0].1) + groups_bytes(
            runs.skip(1),
        ),
    decreases runs.len(),
{
    let last = runs.last();
    if runs.len() == 1 {
        assert(runs.drop_last() =~= Seq::<(Seq<u8>, nat)>::empty());
        assert(runs.skip(1) =~= Seq::<(Seq<u8>, nat)>::empty());
        assert(groups_bytes(runs) =~= slice_bytes(runs[0].0) + uvarint_bytes(runs[0].1)
            + groups_bytes(runs.skip(1)));
    } else {
        lemma_groups_first(runs.drop_last());
        assert(runs.drop_last().skip(1) =~= runs.skip(1).drop_last());
        assert(runs.skip(1).last() == last);
        assert(groups_bytes(runs) =~= slice_bytes(runs[0].0) + uvarint_bytes(runs[0].1)
            + groups_bytes(runs.skip(1)));
    }
}

/// Runs stand for the items that they were made from.
proof fn lemma_expand_runs(items: Seq<Seq<u8>>)
    ensures
        expand(runs_of(items)) == items,
    decreases items.len(),
{
    if items.len() == 0 {
        assert(expand(runs_of(items)) =~= items);
    } else {
        lemma_expand_runs(items.drop_last());
        let before = runs_of(items.drop_last());
        let now = runs_of(items);
        let last = items.last();
        if before.len() > 0 && before.last().0 == last {
            assert(now.drop_last() =~= before.drop_last());
            assert(expand(now) =~= (expand(before.drop_last()) + repeated(
                last,
                before.last().1,
            )).push(last));
            assert(items =~= items.drop_last().push(last));
        } else {
            assert(now.drop_last() =~= before);
            assert(expand(now) =~= expand(before).push(last));
            assert(items =~= items.drop_last().push(last));
        }
    }
}

proof fn lemma_split_joins(key: Seq<u8>)
    requires
        is_sealed(key),
    ensures
        joined_key(entry_prefix(key), entry_suffix(key)) == key,
        entry_prefix(key).len() <= key.len(),
        entry_suffix(key).len() <= key.len(),
{
    let full = key.drop_last();
    crate::postings::key::lemma_separator_at(full);
    assert(entry_prefix(key) + entry_suffix(key) =~= full);
    assert(joined_key(entry_prefix(key), entry_suffix(key)) =~= key);
}

proof fn lemma_entries_first(keys: Seq<Seq<u8>>, blobs: Seq<Seq<u8>>)
    requires
        keys.len() > 0,
        keys.len() == blobs.len(),
    ensures
        entries_bytes(keys, blobs) == slice_bytes(entry_suffix(keys[0])) + slice_bytes(blobs[0])
            + entries_bytes(keys.skip(1), blobs.skip(1)),
    decreases keys.len(),
{
    if keys.len() == 1 {
        assert(keys.drop_last() =~= Seq::<Seq<u8>>::empty());
        assert(keys.skip(1) =~= Seq::<Seq<u8>>::empty());
        assert(entries_bytes(keys.drop_last(), blobs.drop_last()) =~= Seq::<u8>::empty());
        assert(entries_bytes(keys.skip(1), blobs.skip(1)) =~= Seq::<u8>::empty());
        assert(entries_bytes(keys, blobs) =~= slice_bytes(entry_suffix(keys[0])) + slice_bytes(
            blobs[0],
        ) + entries_bytes(keys.skip(1), blobs.skip(1)));
    } else {
        lemma_entries_first(keys.drop_last(), blobs.drop_last());
        assert(keys.drop_last().skip(1) =~= keys.skip(1).drop_last());
        assert(blobs.drop_last().skip(1) =~= blobs.skip(1).drop_last());
        assert(keys.skip(1).last() == keys.last());
        assert(blobs.skip(1).last() == blobs.last());
        assert(entries_bytes(keys, blobs) =~= slice_bytes(entry_suffix(keys[0])) + slice_bytes(
            blobs[0],
        ) + entries_bytes(keys.skip(1), blobs.skip(1)));
    }
}

/// A dictionary with entries added one after the other.
spec fn add_entries(terms: TermMap, keys: Seq<Seq<u8>>, lists: Seq<Set<u64>>) -> TermMap
    decreases keys.len(),
{
    if keys.len() == 0 {
        terms
    } else {
        add_entries(terms.insert(keys[0], lists[0]), keys.skip(1), lists.skip(1))
    }
}

proof fn lemma_entries_round_trip(
    keys: Seq<Seq<u8>>,
    blobs: Seq<Seq<u8>>,
    lists: Seq<Set<u64>>,
    terms: TermMap,
    rest: Seq<u8>,
)
    requires
        keys.len() == blobs.len(),
        keys.len() == lists.len(),
        forall|i: int|
            0 <= i < keys.len() ==> is_sealed(#[trigger] keys[i]) && keys[i].len() <= u64::MAX
                && blobs[i].len() <= u64::MAX && portable_ids(blobs[i]) == Some(lists[i]),
    ensures
        parse_entries(entries_bytes(keys, blobs) + rest, prefixes_of(keys), terms) == Ok::<
            (TermMap, Seq<u8>),
            DecodeError,
        >((add_entries(terms, keys, lists), rest)),
    decreases keys.len(),
{
    if keys.len() == 0 {
        assert(entries_bytes(keys, blobs) + rest =~= rest);
    } else {
        lemma_entries_first(keys, blobs);
        lemma_split_joins(keys[0]);
        let more = entries_bytes(keys.skip(1), blobs.skip(1)) + rest;
        let b = entries_bytes(keys, blobs) + rest;
        assert(b =~= slice_bytes(entry_suffix(keys[0])) + (slice_bytes(blobs[0]) + more));
        law_slice_round_trip(entry_suffix(keys[0]), slice_bytes(blobs[0]) + more);
        law_slice_round_trip(blobs[0], more);
        assert(prefixes_of(keys).drop_first() =~= prefixes_of(keys.skip(1)));
        assert forall|i: int| 0 <= i < keys.skip(1).len() implies is_sealed(
            #[trigger] keys.skip(1)[i],
        ) && keys.skip(1)[i].len() <= u64::MAX && blobs.skip(1)[i].len() <= u64::MAX && portable_ids(
            blobs.skip(1)[i],
        ) == Some(lists.skip(1)[i]) by {
            assert(is_sealed(keys[i + 1]));
        }
        lemma_entries_round_trip(
            keys.skip(1),
            blobs.skip(1),
            lists.skip(1),
            terms.insert(keys[0], lists[0]),
            rest,
        );
    }
}

proof fn lemma_add_entries(terms: TermMap, keys: Seq<Seq<u8>>, lists: Seq<Set<u64>>)
    requires
        keys.len() == lists.len(),
        forall|i: int, j: int| 0 <= i < j < keys.len() ==> keys[i] != keys[j],
    ensures
        forall|k: Seq<u8>| #[trigger]
            add_entries(terms, keys, lists).contains_key(k) <==> terms.contains_key(k)
                || keys.contains(k),
        forall|i: int|
            0 <= i < keys.len() ==> add_entries(terms, keys, lists)[#[trigger] keys[i]] == lists[i],
        forall|k: Seq<u8>| #[trigger]
            terms.contains_key(k) && !keys.contains(k) ==> add_entries(terms, keys, lists)[k]
                == terms[k],
    decreases keys.len(),
{
    if keys.len() > 0 {
        let t1 = terms.insert(keys[0], lists[0]);
        let ks = keys.skip(1);
        let ls = lists.skip(1);
        lemma_add_entries(t1, ks, ls);
        let all = add_entries(terms, keys, lists);
        assert(all == add_entries(t1, ks, ls));
        assert forall|k: Seq<u8>| #[trigger] all.contains_key(k) <==> terms.contains_key(k)
            || keys.contains(k) by {
            assert(all.contains_key(k) <==> t1.contains_key(k) || ks.contains(k));
            if ks.contains(k) {
                let i = choose|i: int| 0 <= i < ks.len() && ks[i] == k;
                assert(keys[i + 1] == k);
            }
            if keys.contains(k) && k != keys[0] {
                let i = choose|i: int| 0 <= i < keys.len() && keys[i] == k;
                assert(ks[i - 1] == k);
            }
            if k == keys[0] {
                assert(keys.contains(keys[0]));
            }
        }
        assert(!ks.contains(keys[0])) by {
            if ks.contains(keys[0]) {
                let i = choose|i: int| 0 <= i < ks.len() && ks[i] == keys[0];
                assert(keys[i + 1] == keys[0]);
            }
        }
        assert forall|i: int| 0 <= i < keys.len() implies all[#[trigger] keys[i]] == lists[i] by {
            if i == 0 {
                assert(t1.contains_key(keys[0]));
            } else {
                assert(ks[i - 1] == keys[i]);
                assert(ls[i - 1] == lists[i]);
            }
        }
        assert forall|k: Seq<u8>| #[trigger]
            terms.contains_key(k) && !keys.contains(k) implies all[k] == terms[k] by {
            assert(keys.contains(keys[0]));
            assert(t1.contains_key(k));
            if ks.contains(k) {
                let i = choose|i: int| 0 <= i < ks.len() && ks[i] == k;
                assert(keys[i + 1] == k);
            }
        }
    }
}

proof fn lemma_ids_first(ids: Seq<u64>, keys: Map<u64, Seq<u8>>, previous: u64)
    requires
        ids.len() > 0,
    ensures
        ids_from(ids, keys, previous) == uvarint_bytes((ids[0] - previous) as nat) + slice_bytes(
            keys[ids[0]],
        ) + ids_from(ids.skip(1), keys, ids[0]),
    decreases ids.len(),
{
    if ids.len() == 1 {
        assert(ids.drop_last() =~= Seq::<u64>::empty());
        assert(ids.skip(1) =~= Seq::<u64>::empty());
        assert(ids_from(ids.drop_last(), keys, previous) =~= Seq::<u8>::empty());
        assert(ids_from(ids.skip(1), keys, ids[0]) =~= Seq::<u8>::empty());
        assert(ids_from(ids, keys, previous) =~= uvarint_bytes((ids[0] - previous) as nat)
            + slice_bytes(keys[ids[0]]) + ids_from(ids.skip(1), keys, ids[0]));
    } else {
        lemma_ids_first(ids.drop_last(), keys, previous);
        let more = ids.skip(1);
        assert(ids.drop_last().skip(1) =~= more.drop_last());
        assert(more.last() == ids.last());
        assert(ids_from(ids, keys, previous) =~= uvarint_bytes((ids[0] - previous) as nat)
            + slice_bytes(keys[ids[0]]) + ids_from(more, keys, ids[0]));
    }
}

/// How a directory of series is written behind a given id.
spec fn ids_from(ids: Seq<u64>, keys: Map<u64, Seq<u8>>, previous: u64) -> Seq<u8>
    decreases ids.len(),
{
    if ids.len() == 0 {
        Seq::empty()
    } else {
        let before = if ids.len() >= 2 {
            ids[ids.len() - 2]
        } else {
            previous
        };
        ids_from(ids.drop_last(), keys, previous) + uvarint_bytes((ids.last() - before) as nat)
            + slice_bytes(keys[ids.last()])
    }
}

proof fn lemma_ids_from_zero(ids: Seq<u64>, keys: Map<u64, Seq<u8>>)
    ensures
        ids_from(ids, keys, 0) == ids_bytes(ids, keys),
    decreases ids.len(),
{
    if ids.len() > 0 {
        lemma_ids_from_zero(ids.drop_last(), keys);
    }
}

/// A directory with series added one after the other.
spec fn add_ids(base: Map<u64, Seq<u8>>, ids: Seq<u64>, keys: Map<u64, Seq<u8>>) -> Map<
    u64,
    Seq<u8>,
>
    decreases ids.len(),
{
    if ids.len() == 0 {
        base
    } else {
        add_ids(base.insert(ids[0], keys[ids[0]]), ids.skip(1), keys)
    }
}

proof fn lemma_ids_round_trip(
    ids: Seq<u64>,
    keys: Map<u64, Seq<u8>>,
    previous: u64,
    base: Map<u64, Seq<u8>>,
    rest: Seq<u8>,
)
    requires
        forall|i: int, j: int| 0 <= i < j < ids.len() ==> ids[i] < ids[j],
        ids.len() > 0 ==> previous <= ids[0],
        forall|i: int| 0 <= i < ids.len() ==> keys[#[trigger] ids[i]].len() <= u64::MAX,
    ensures
        parse_ids(ids_from(ids, keys, previous) + rest, ids.len(), previous, base) == Ok::<
            (Map<u64, Seq<u8>>, Seq<u8>),
            DecodeError,
        >((add_ids(base, ids, keys), rest)),
    decreases ids.len(),
{
    if ids.len() == 0 {
        assert(ids_from(ids, keys, previous) + rest =~= rest);
    } else {
        lemma_ids_first(ids, keys, previous);
        let more = ids.skip(1);
        let tail = ids_from(more, keys, ids[0]) + rest;
        let delta = (ids[0] - previous) as u64;
        let b = ids_from(ids, keys, previous) + rest;
        assert(b =~= uvarint_bytes(delta as nat) + (slice_bytes(keys[ids[0]]) + tail));
        law_uvarint_round_trip(delta, slice_bytes(keys[ids[0]]) + tail);
        law_slice_round_trip(keys[ids[0]], tail);
        assert forall|i: int| 0 <= i < more.len() implies keys[#[trigger] more[i]].len()
            <= u64::MAX by {
            assert(more[i] == ids[i + 1]);
        }
        assert forall|i: int, j: int| 0 <= i < j < more.len() implies more[i] < more[j] by {
            assert(ids[i + 1] < ids[j + 1]);
        }
        if more.len() > 0 {
            assert(ids[0] < ids[1]);
        }
        lemma_ids_round_trip(more, keys, ids[0], base.insert(ids[0], keys[ids[0]]), rest);
    }
}

proof fn lemma_add_ids(base: Map<u64, Seq<u8>>, ids: Seq<u64>, keys: Map<u64, Seq<u8>>)
    ensures
        forall|id: u64| #[trigger]
            add_ids(base, ids, keys).contains_key(id) <==> base.contains_key(id) || ids.contains(
                id,
            ),
        forall|id: u64| #[trigger] ids.contains(id) ==> add_ids(base, ids, keys)[id] == keys[id],
        forall|id: u64| #[trigger]
            base.contains_key(id) && !ids.contains(id) ==> add_ids(base, ids, keys)[id]
                == base[id],
    decreases ids.len(),
{
    if ids.len() > 0 {
        let b1 = base.insert(ids[0], keys[ids[0]]);
        let more = ids.skip(1);
        lemma_add_ids(b1, more, keys);
        let all = add_ids(base, ids, keys);
        assert(all == add_ids(b1, more, keys));
        assert forall|id: u64| #[trigger] ids.contains(id) <==> more.contains(id) || id == ids[0] by {
            if more.contains(id) {
                let i = choose|i: int| 0 <= i < more.len() && more[i] == id;
                assert(ids[i + 1] == id);
            }
            if ids.contains(id) && id != ids[0] {
                let i = choose|i: int| 0 <= i < ids.len() && ids[i] == id;
                assert(more[i - 1] == id);
            }
            if id == ids[0] {
                assert(ids.contains(ids[0]));
            }
        }
        assert forall|id: u64| #[trigger] all.contains_key(id) <==> base.contains_key(id)
            || ids.contains(id) by {
            assert(all.contains_key(id) <==> b1.contains_key(id) || more.contains(id));
        }
        assert forall|id: u64| #[trigger] ids.contains(id) implies all[id] == keys[id] by {
            if !more.contains(id) {
                assert(b1.contains_key(id));
            }
        }
        assert forall|id: u64| #[trigger]
            base.contains_key(id) && !ids.contains(id) implies all[id] == base[id] by {
            assert(b1.contains_key(id));
        }
    }
}

/// An index that was written is read back as a complete pass over its dictionary would have left
/// it, and what follows it is left.
pub proof fn law_body_round_trip(p: &Postings, body: Seq<u8>, rest: Seq<u8>)
    requires
        p.wf(),
        is_body_of(p, body),
    ensures
        parse_body(body + rest) == Ok::<(Body, Seq<u8>), DecodeError>(
            (
                Body {
                    terms: drained(p.terms(), p.stale(), None, None),
                    keys: p.keys(),
                    all: p.all(),
                },
                rest,
            ),
        ),
{
    reveal(parse_body);
    reveal(is_body_of);
    let (keys, blobs, ids, all_blob) = choose|
        keys: Seq<Seq<u8>>,
        blobs: Seq<Seq<u8>>,
        ids: Seq<u64>,
        all_blob: Seq<u8>,
    | #[trigger]
        body_parts(p, keys, blobs, ids, all_blob) && body == body_bytes(
            keys,
            blobs,
            ids,
            p.keys(),
            all_blob,
        );
    let runs = runs_of(prefixes_of(keys));
    let tail_all = slice_bytes(all_blob) + rest;
    let tail_ids = ids_bytes(ids, p.keys()) + tail_all;
    let tail_count = uvarint_bytes(ids.len()) + tail_ids;
    let tail_entries = entries_bytes(keys, blobs) + tail_count;
    let tail_groups = groups_bytes(runs) + tail_entries;
    let all = uvarint_bytes(runs.len()) + tail_groups;
    lemma_six_parts(
        uvarint_bytes(runs.len()),
        groups_bytes(runs),
        entries_bytes(keys, blobs),
        uvarint_bytes(ids.len()),
        ids_bytes(ids, p.keys()),
        slice_bytes(all_blob),
        rest,
    );
    lemma_runs_bounds(prefixes_of(keys));
    assert(parse_uvarint(all) == Ok::<(u64, Seq<u8>), DecodeError>(
        (runs.len() as u64, tail_groups),
    )) by {
        law_uvarint_round_trip(runs.len() as u64, tail_groups);
    }
    assert(parse_groups(tail_groups, runs.len()) == Ok::<
        (Seq<(Seq<u8>, nat)>, Seq<u8>),
        DecodeError,
    >((runs, tail_entries))) by {
        lemma_run_prefixes(p, keys, blobs);
        lemma_groups_round_trip(runs, tail_entries);
    }
    lemma_expand_runs(prefixes_of(keys));
    lemma_terms_round_trip(p, keys, blobs, tail_count);
    assert(parse_uvarint(tail_count) == Ok::<(u64, Seq<u8>), DecodeError>(
        (ids.len() as u64, tail_ids),
    )) by {
        law_uvarint_round_trip(ids.len() as u64, tail_ids);
    }
    lemma_directory_round_trip(p.keys(), ids, tail_all);
    assert(parse_bitmap(tail_all) == Ok::<(Set<u64>, Seq<u8>), DecodeError>((p.all(), rest))) by {
        law_slice_round_trip(all_blob, rest);
    }
}

proof fn lemma_six_parts(
    a: Seq<u8>,
    b: Seq<u8>,
    c: Seq<u8>,
    d: Seq<u8>,
    e: Seq<u8>,
    f: Seq<u8>,
    rest: Seq<u8>,
)
    ensures
        a + b + c + d + e + f + rest == a + (b + (c + (d + (e + (f + rest))))),
{
    assert(a + b + c + d + e + f + rest =~= a + (b + (c + (d + (e + (f + rest))))));
}

proof fn lemma_directory_round_trip(names: Map<u64, Seq<u8>>, ids: Seq<u64>, rest: Seq<u8>)
    requires
        lists_ids(names, ids),
    ensures
        parse_ids(ids_bytes(ids, names) + rest, ids.len(), 0, Map::empty()) == Ok::<
            (Map<u64, Seq<u8>>, Seq<u8>),
            DecodeError,
        >((names, rest)),
{
    lemma_ids_from_zero(ids, names);
    lemma_ids_round_trip(ids, names, 0, Map::empty(), rest);
    lemma_add_ids(Map::empty(), ids, names);
    assert forall|id: u64| names.contains_key(id) <==> ids.contains(id) by {
        if ids.contains(id) {
            let i = choose|i: int| 0 <= i < ids.len() && ids[i] == id;
            assert(names.contains_key(ids[i]));
        }
    }
    assert(add_ids(Map::empty(), ids, names) =~= names);
}

proof fn lemma_terms_round_trip(
    p: &Postings,
    keys: Seq<Seq<u8>>,
    blobs: Seq<Seq<u8>>,
    rest: Seq<u8>,
)
    requires
        p.wf(),
        lists_live(p, keys, blobs),
    ensures
        parse_entries(entries_bytes(keys, blobs) + rest, prefixes_of(keys), no_terms()) == Ok::<
            (TermMap, Seq<u8>),
            DecodeError,
        >((drained(p.terms(), p.stale(), None, None), rest)),
{
    let lists = Seq::new(keys.len(), |i: int| p.live_list(keys[i]));
    assert forall|i: int| 0 <= i < keys.len() implies is_sealed(#[trigger] keys[i])
        && keys[i].len() <= u64::MAX && blobs[i].len() <= u64::MAX && portable_ids(blobs[i])
        == Some(lists[i]) by {
        assert(p.terms().contains_key(keys[i]));
    }
    lemma_entries_round_trip(keys, blobs, lists, no_terms(), rest);
    assert forall|i: int, j: int| 0 <= i < j < keys.len() implies keys[i] != keys[j] by {
        assert(lex_less(keys[i], keys[j]));
        lemma_lex_irreflexive(keys[i]);
    }
    lemma_add_entries(no_terms(), keys, lists);
    let read = add_entries(no_terms(), keys, lists);
    let goal = drained(p.terms(), p.stale(), None, None);
    assert forall|k: Seq<u8>| read.contains_key(k) == goal.contains_key(k) by {
        if keys.contains(k) {
            let i = choose|i: int| 0 <= i < keys.len() && keys[i] == k;
            assert(p.terms().contains_key(keys[i]));
        }
        if goal.contains_key(k) {
            assert(p.live_list(k) != Set::<u64>::empty());
        }
    }
    assert forall|k: Seq<u8>| read.contains_key(k) implies read[k] == goal[k] by {
        let i = choose|i: int| 0 <= i < keys.len() && keys[i] == k;
        assert(read[keys[i]] == lists[i]);
        assert(p.terms().contains_key(keys[i]));
    }
    assert(read =~= goal);
}

proof fn lemma_run_prefixes(p: &Postings, keys: Seq<Seq<u8>>, blobs: Seq<Seq<u8>>)
    requires
        p.wf(),
        lists_live(p, keys, blobs),
    ensures
        forall|i: int|
            0 <= i < runs_of(prefixes_of(keys)).len() ==> (#[trigger] runs_of(
                prefixes_of(keys),
            )[i]).0.len() <= u64::MAX && runs_of(prefixes_of(keys))[i].1 <= u64::MAX,
{
    let items = prefixes_of(keys);
    let runs = runs_of(items);
    lemma_runs_bounds(items);
    assert forall|i: int| 0 <= i < items.len() implies (#[trigger] items[i]).len()
        <= u64::MAX by {
        assert(p.terms().contains_key(keys[i]));
        lemma_split_joins(keys[i]);
    }
    lemma_run_items(items);
    assert forall|i: int| 0 <= i < runs.len() implies (#[trigger] runs[i]).0.len() <= u64::MAX
        && runs[i].1 <= u64::MAX by {
        assert(items.contains(runs[i].0));
        let j = choose|j: int| 0 <= j < items.len() && items[j] == runs[i].0;
        assert(items[j].len() <= u64::MAX);
    }
}

proof fn lemma_run_items(items: Seq<Seq<u8>>)
    ensures
        forall|i: int| 0 <= i < runs_of(items).len() ==> items.contains((#[trigger] runs_of(items)[i]).0),
    decreases items.len(),
{
    if items.len() > 0 {
        let less = items.drop_last();
        lemma_run_items(less);
        let before = runs_of(less);
        let now = runs_of(items);
        assert forall|i: int| 0 <= i < now.len() implies items.contains((#[trigger] now[i]).0) by {
            if i < before.len() && now[i].0 == before[i].0 {
                let j = choose|j: int| 0 <= j < less.len() && less[j] == before[i].0;
                assert(items[j] == now[i].0);
            } else {
                assert(items[items.len() - 1] == now[i].0);
            }
        }
    }
}

} // verus!
