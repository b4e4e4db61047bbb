//! The snapshot of the indexes of all databases.
//!
//! A snapshot is a mark, a version, the number of sections and the sections: for each database its
//! number and its index. What cannot be read is discarded as a whole.
use crate::encoding::{
    law_uvarint_round_trip, lemma_uvarint_more, parse_u8, parse_uvarint, try_read_byte_slice_exact,
    try_read_u8, try_read_uvarint, uvarint_bytes, write_bytes, write_u8, write_uvarint, DecodeError,
    Parsed,
};
use crate::postings::serialization::{
    deserialize, is_body_of, law_body_round_trip, lemma_body_more, parse_body, serialize, Body,
};
use crate::postings::stale::drained;
use crate::postings::Postings;
use crate::series::ingest::{pair_before, sort_keyed};
use vstd::prelude::*;

verus! {

/// The first byte of the mark of a snapshot, and those that follow it.
pub const MAGIC_0: u8 = 84;

pub const MAGIC_1: u8 = 83;

pub const MAGIC_2: u8 = 73;

pub const MAGIC_3: u8 = 88;

/// The version of the format.
pub const INDEX_AUX_VERSION: u8 = 1;

/// The mark of a snapshot.
pub open spec fn magic() -> Seq<u8> {
    seq![MAGIC_0, MAGIC_1, MAGIC_2, MAGIC_3]
}

/// The index of one database, as a section holds it.
pub ghost struct Section {
    pub db: i32,
    pub body: Body,
}

/// What reading a section gives.
pub open spec fn parse_section(b: Seq<u8>) -> Parsed<Section> {
    match parse_uvarint(b) {
        Err(e) => Err(e),
        Ok((n, r1)) => if n > i32::MAX {
            Err(DecodeError::InvalidDb)
        } else {
            match parse_body(r1) {
                Err(e) => Err(e),
                Ok((body, r2)) => Ok((Section { db: n as i32, body }, r2)),
            }
        },
    }
}

/// What reading sections gives.
pub open spec fn parse_sections(b: Seq<u8>, n: nat) -> Parsed<Seq<Section>>
    decreases n,
{
    if n == 0 {
        Ok((Seq::empty(), b))
    } else {
        match parse_section(b) {
            Err(e) => Err(e),
            Ok((s, r)) => match parse_sections(r, (n - 1) as nat) {
                Err(e) => Err(e),
                Ok((more, r2)) => Ok((seq![s] + more, r2)),
            },
        }
    }
}

/// What reading a snapshot gives.
pub open spec fn parse_payload(b: Seq<u8>) -> Result<Seq<Section>, DecodeError> {
    if b.len() < 4 {
        Err(DecodeError::UnexpectedEnd)
    } else if b.take(4) != magic() {
        Err(DecodeError::BadMagic)
    } else {
        match parse_u8(b.skip(4)) {
            Err(e) => Err(e),
            Ok((version, r1)) => if version != INDEX_AUX_VERSION {
                Err(DecodeError::UnsupportedVersion)
            } else {
                match parse_uvarint(r1) {
                    Err(e) => Err(e),
                    Ok((n, r2)) => match parse_sections(r2, n as nat) {
                        Err(e) => Err(e),
                        Ok((sections, r3)) => if r3.len() > 0 {
                            Err(DecodeError::TrailingBytes)
                        } else {
                            Ok(sections)
                        },
                    },
                }
            },
        }
    }
}

/// What follows a section does not change how it is read.
proof fn lemma_section_more(b: Seq<u8>, more: Seq<u8>)
    requires
        parse_section(b) is Ok,
    ensures
        parse_section(b + more) == Ok::<(Section, Seq<u8>), DecodeError>(
            (parse_section(b)->Ok_0.0, parse_section(b)->Ok_0.1 + more),
        ),
{
    lemma_uvarint_more(b, more);
    lemma_body_more(parse_uvarint(b)->Ok_0.1, more);
}

/// What follows sections does not change how they are read.
proof fn lemma_sections_more(b: Seq<u8>, n: nat, more: Seq<u8>)
    requires
        parse_sections(b, n) is Ok,
    ensures
        parse_sections(b + more, n) == Ok::<(Seq<Section>, Seq<u8>), DecodeError>(
            (parse_sections(b, n)->Ok_0.0, parse_sections(b, n)->Ok_0.1 + more),
        ),
    decreases n,
{
    if n > 0 {
        lemma_section_more(b, more);
        lemma_sections_more(parse_section(b)->Ok_0.1, (n - 1) as nat, more);
    }
}

/// A snapshot with anything behind it is refused.
pub proof fn law_trailing_bytes_refused(b: Seq<u8>, more: Seq<u8>)
    requires
        parse_payload(b) is Ok,
        more.len() > 0,
    ensures
        parse_payload(b + more) == Err::<Seq<Section>, DecodeError>(DecodeError::TrailingBytes),
{
    let all = b + more;
    assert(all.take(4) =~= b.take(4));
    assert(all.skip(4) =~= b.skip(4) + more);
    let r0 = b.skip(4);
    assert((r0 + more)[0] == r0[0]);
    assert((r0 + more).skip(1) =~= r0.skip(1) + more);
    let r1 = r0.skip(1);
    lemma_uvarint_more(r1, more);
    let (n, r2) = parse_uvarint(r1)->Ok_0;
    lemma_sections_more(r2, n as nat, more);
}

/// A snapshot that lost bytes at its end is refused, however many they are.
pub proof fn law_truncation_refused(b: Seq<u8>, n: int)
    requires
        parse_payload(b) is Ok,
        0 <= n < b.len(),
    ensures
        parse_payload(b.take(n)) is Err,
{
    if parse_payload(b.take(n)) is Ok {
        law_trailing_bytes_refused(b.take(n), b.skip(n));
        assert(b.take(n) + b.skip(n) =~= b);
    }
}

/// The bytes of a section.
pub open spec fn section_bytes(db: i32, body: Seq<u8>) -> Seq<u8> {
    uvarint_bytes(db as u64 as nat) + body
}

/// Appends the section of a database.
pub fn serialize_postings_section(buf: &mut Vec<u8>, db: i32, postings: &Postings)
    requires
        postings.wf(),
    ensures
        exists|body: Seq<u8>| #[trigger]
            is_body_of(postings, body) && final(buf)@ == old(buf)@ + section_bytes(db, body),
{
    let ghost start = buf@;
    write_uvarint(buf, db as u64);
    serialize(buf, postings);
    proof {
        let body = choose|body: Seq<u8>| #[trigger]
            is_body_of(postings, body) && buf@ == start + uvarint_bytes(db as u64 as nat) + body;
        assert(start + uvarint_bytes(db as u64 as nat) + body =~= start + section_bytes(db, body));
    }
}

/// Reads the section of a database.
pub fn deserialize_postings_section(buf: &mut &[u8]) -> (r: Result<(i32, Postings), DecodeError>)
    ensures
        match r {
            Ok((db, p)) => {
                &&& parse_section((*old(buf))@) == Ok::<(Section, Seq<u8>), DecodeError>(
                    (Section { db, body: p.body() }, (*final(buf))@),
                )
                &&& p.wf()
                &&& p.stale_ids.wf_empty()
            },
            Err(e) => parse_section((*old(buf))@) == Err::<(Section, Seq<u8>), DecodeError>(e),
        },
{
    let n: u64 = match try_read_uvarint(buf) {
        Ok(n) => n,
        Err(e) => {
            return Err(e);
        },
    };
    if n > i32::MAX as u64 {
        return Err(DecodeError::InvalidDb);
    }
    match deserialize(buf) {
        Ok(p) => Ok((n as i32, p)),
        Err(e) => Err(e),
    }
}

/// The sections of indexes that were read.
pub open spec fn sections_view(v: Seq<(i32, Postings)>) -> Seq<Section> {
    v.map_values(|s: (i32, Postings)| Section { db: s.0, body: s.1.body() })
}

spec fn with_sections(done: Seq<Section>, rest: Parsed<Seq<Section>>) -> Parsed<Seq<Section>> {
    match rest {
        Ok((more, r)) => Ok((done + more, r)),
        Err(e) => Err(e),
    }
}

/// Indexes that were read are in order, and none of their ids is marked for removal.
pub open spec fn are_fresh(v: Seq<(i32, Postings)>) -> bool {
    forall|i: int| 0 <= i < v.len() ==> (#[trigger] v[i]).1.wf() && v[i].1.stale_ids.wf_empty()
}

/// Reads sections.
fn read_sections(buf: &mut &[u8], n: u64) -> (r: Result<Vec<(i32, Postings)>, DecodeError>)
    ensures
        match r {
            Ok(v) => parse_sections((*old(buf))@, n as nat) == Ok::<
                (Seq<Section>, Seq<u8>),
                DecodeError,
            >((sections_view(v@), (*final(buf))@)) && are_fresh(v@),
            Err(e) => parse_sections((*old(buf))@, n as nat) == Err::<
                (Seq<Section>, Seq<u8>),
                DecodeError,
            >(e),
        },
{
    let ghost start = (*buf)@;
    let mut sections: Vec<(i32, Postings)> = Vec::new();
    let mut i: u64 = 0;
    proof {
        assert(sections_view(sections@) =~= Seq::<Section>::empty());
        match parse_sections(start, n as nat) {
            Ok((more, r)) => {
                assert(Seq::<Section>::empty() + more =~= more);
            },
            Err(e) => {},
        }
    }
    while i < n
        invariant
            i <= n,
            start == (*old(buf))@,
            parse_sections(start, n as nat) == with_sections(
                sections_view(sections@),
                parse_sections((*buf)@, (n - i) as nat),
            ),
            are_fresh(sections@),
        decreases n - i,
    {
        let (db, postings) = match deserialize_postings_section(buf) {
            Ok(s) => s,
            Err(e) => {
                return Err(e);
            },
        };
        let ghost before = sections@;
        let ghost s = Section { db, body: postings.body() };
        sections.push((db, postings));
        proof {
            assert(sections_view(sections@) =~= sections_view(before).push(s));
            match parse_sections((*buf)@, (n - i - 1) as nat) {
                Ok((more, r)) => {
                    assert(sections_view(before) + (seq![s] + more) =~= sections_view(
                        sections@,
                    ) + more);
                },
                Err(e) => {},
            }
            assert forall|k: int| 0 <= k < sections@.len() implies (#[trigger] sections@[k]).1.wf()
                && sections@[k].1.stale_ids.wf_empty() by {
                if k < before.len() {
                    assert(sections@[k] == before[k]);
                }
            }
        }
        i += 1;
    }
    assert(sections_view(sections@) + Seq::<Section>::empty() =~= sections_view(sections@));
    Ok(sections)
}

/// Whether bytes are the mark of a snapshot.
fn is_magic(b: &[u8]) -> (r: bool)
    requires
        b@.len() == 4,
    ensures
        r == (b@ == magic()),
{
    proof {
        assert(magic()[0] == MAGIC_0 && magic()[1] == MAGIC_1 && magic()[2] == MAGIC_2 && magic()[3]
            == MAGIC_3);
    }
    if b[0] != MAGIC_0 || b[1] != MAGIC_1 || b[2] != MAGIC_2 || b[3] != MAGIC_3 {
        return false;
    }
    assert(b@ =~= magic());
    true
}

/// Reads a snapshot.
pub fn parse_aux_payload(payload: &[u8]) -> (r: Result<Vec<(i32, Postings)>, DecodeError>)
    ensures
        match r {
            Ok(v) => parse_payload(payload@) == Ok::<Seq<Section>, DecodeError>(
                sections_view(v@),
            ) && are_fresh(v@),
            Err(e) => parse_payload(payload@) == Err::<Seq<Section>, DecodeError>(e),
        },
{
    let mut buf: &[u8] = payload;
    match try_read_byte_slice_exact(&mut buf, 4) {
        Ok(mark) => if !is_magic(mark) {
            return Err(DecodeError::BadMagic);
        },
        Err(e) => {
            return Err(e);
        },
    }
    let version: u8 = match try_read_u8(&mut buf) {
        Ok(v) => v,
        Err(e) => {
            return Err(e);
        },
    };
    if version != INDEX_AUX_VERSION {
        return Err(DecodeError::UnsupportedVersion);
    }
    let n: u64 = match try_read_uvarint(&mut buf) {
        Ok(n) => n,
        Err(e) => {
            return Err(e);
        },
    };
    match read_sections(&mut buf, n) {
        Ok(sections) => if buf.len() > 0 {
            Err(DecodeError::TrailingBytes)
        } else {
            Ok(sections)
        },
        Err(e) => Err(e),
    }
}

/// The bytes of sections.
pub open spec fn all_sections(dbs: Seq<(i32, Postings)>, bodies: Seq<Seq<u8>>) -> Seq<u8>
    decreases dbs.len(),
{
    if dbs.len() == 0 {
        Seq::empty()
    } else {
        all_sections(dbs.drop_last(), bodies.drop_last()) + section_bytes(
            dbs.last().0,
            bodies.last(),
        )
    }
}

/// That bytes are the bodies of indexes.
pub open spec fn are_bodies(dbs: Seq<(i32, Postings)>, bodies: Seq<Seq<u8>>) -> bool {
    &&& bodies.len() == dbs.len()
    &&& forall|i: int| 0 <= i < dbs.len() ==> is_body_of(&(#[trigger] dbs[i]).1, bodies[i])
}

/// The bytes in front of the sections.
pub open spec fn header(n: nat) -> Seq<u8> {
    magic() + seq![INDEX_AUX_VERSION] + uvarint_bytes(n)
}

/// That bytes are a snapshot of indexes.
pub open spec fn is_payload_of(dbs: Seq<(i32, Postings)>, b: Seq<u8>) -> bool {
    exists|bodies: Seq<Seq<u8>>| #[trigger]
        are_bodies(dbs, bodies) && b == header(dbs.len()) + all_sections(dbs, bodies)
}

/// An order of databases by their numbers.
pub open spec fn is_db_order(dbs: Seq<(i32, Option<&Postings>)>, order: Seq<usize>) -> bool {
    &&& order.len() == dbs.len()
    &&& forall|i: int| 0 <= i < order.len() ==> (#[trigger] order[i]) < dbs.len()
    &&& forall|k: usize| k < dbs.len() ==> #[trigger] order.contains(k)
    &&& forall|i: int, j: int|
        #![trigger order[i], order[j]]
        0 <= i < j < order.len() ==> dbs[order[i] as int].0 <= dbs[order[j] as int].0
}

/// The databases of an order that have series.
pub open spec fn with_series(dbs: Seq<(i32, Option<&Postings>)>, order: Seq<usize>) -> Seq<
    (i32, Postings),
>
    decreases order.len(),
{
    if order.len() == 0 {
        Seq::empty()
    } else {
        let before = with_series(dbs, order.drop_last());
        let (db, index) = dbs[order.last() as int];
        match index {
            Some(p) => if p.keys().dom().len() > 0 {
                before.push((db, *p))
            } else {
                before
            },
            None => before,
        }
    }
}

/// The positions of databases in the order of their numbers.
fn db_order(dbs: &Vec<(i32, Option<&Postings>)>) -> (r: Vec<usize>)
    ensures
        is_db_order(dbs@, r@),
{
    let mut keyed: Vec<(i64, usize)> = Vec::new();
    let mut i: usize = 0;
    while i < dbs.len()
        invariant
            i <= dbs@.len(),
            keyed@ == Seq::new(i as nat, |k: int| (dbs@[k].0 as i64, k as usize)),
        decreases dbs.len() - i,
    {
        keyed.push((dbs[i].0 as i64, i));
        assert(keyed@ =~= Seq::new((i + 1) as nat, |k: int| (dbs@[k].0 as i64, k as usize)));
        i += 1;
    }
    let ghost made = keyed@;
    sort_keyed(&mut keyed);
    let ghost sorted = keyed@;
    proof {
        made.to_multiset_ensures();
        sorted.to_multiset_ensures();
        assert(sorted.len() == made.len());
        assert forall|k: int| 0 <= k < sorted.len() implies (#[trigger] sorted[k]).1 < dbs@.len()
            && sorted[k].0 == dbs@[sorted[k].1 as int].0 by {
            assert(sorted.contains(sorted[k]));
            assert(made.to_multiset().count(sorted[k]) > 0);
            assert(made.contains(sorted[k]));
        }
    }
    let mut order: Vec<usize> = Vec::new();
    let mut j: usize = 0;
    while j < keyed.len()
        invariant
            j <= keyed@.len(),
            keyed@ == sorted,
            order@ == Seq::new(j as nat, |k: int| sorted[k].1),
        decreases keyed.len() - j,
    {
        order.push(keyed[j].1);
        assert(order@ =~= Seq::new((j + 1) as nat, |k: int| sorted[k].1));
        j += 1;
    }
    proof {
        assert forall|k: usize| k < dbs@.len() implies #[trigger] order@.contains(k) by {
            let pair = (dbs@[k as int].0 as i64, k);
            assert(made[k as int] == pair);
            assert(made.contains(pair));
            assert(sorted.to_multiset().count(pair) > 0);
            assert(sorted.contains(pair));
            let m = choose|m: int| 0 <= m < sorted.len() && sorted[m] == pair;
            assert(order@[m] == k);
        }
        assert forall|a: int, b: int|
            #![trigger order@[a], order@[b]]
            0 <= a < b < order@.len() implies dbs@[order@[a] as int].0
            <= dbs@[order@[b] as int].0 by {
            assert(pair_before(sorted[a], sorted[b]));
        }
    }
    order
}

proof fn lemma_bodies_push(
    saved: Seq<(i32, Postings)>,
    bodies: Seq<Seq<u8>>,
    db: i32,
    p: Postings,
    body: Seq<u8>,
)
    requires
        are_bodies(saved, bodies),
        is_body_of(&p, body),
    ensures
        are_bodies(saved.push((db, p)), bodies.push(body)),
        all_sections(saved.push((db, p)), bodies.push(body)) == all_sections(saved, bodies)
            + section_bytes(db, body),
{
    let s = saved.push((db, p));
    let b = bodies.push(body);
    assert(s.drop_last() =~= saved);
    assert(b.drop_last() =~= bodies);
    assert forall|k: int| 0 <= k < s.len() implies is_body_of(&(#[trigger] s[k]).1, b[k]) by {
        if k < saved.len() {
            assert(s[k] == saved[k]);
            assert(b[k] == bodies[k]);
        }
    }
}

/// Writes the snapshot of all databases that have series. A database whose index cannot be read
/// at the moment comes as `None`: then nothing is written, and neither is where no database has a
/// series.
pub fn build_aux_payload(dbs: &Vec<(i32, Option<&Postings>)>) -> (r: Option<Vec<u8>>)
    requires
        forall|i: int|
            0 <= i < dbs@.len() && (#[trigger] dbs@[i]).1 is Some ==> dbs@[i].1->0.wf(),
    ensures
        (exists|i: int| 0 <= i < dbs@.len() && (#[trigger] dbs@[i]).1 is None) ==> r is None,
        (forall|i: int| 0 <= i < dbs@.len() ==> (#[trigger] dbs@[i]).1 is Some) ==> exists|
            order: Seq<usize>,
        |
            {
                &&& #[trigger] is_db_order(dbs@, order)
                &&& match r {
                    Some(b) => with_series(dbs@, order).len() > 0 && is_payload_of(
                        with_series(dbs@, order),
                        b@,
                    ),
                    None => with_series(dbs@, order).len() == 0,
                }
            },
{
    let order = db_order(dbs);
    let mut sections: Vec<u8> = Vec::new();
    let mut count: u64 = 0;
    let ghost mut bodies = Seq::<Seq<u8>>::empty();
    let mut i: usize = 0;
    proof {
        assert(order@.take(0) =~= Seq::<usize>::empty());
        assert(sections@ =~= all_sections(with_series(dbs@, order@.take(0)), bodies));
    }
    while i < order.len()
        invariant
            i <= order@.len(),
            is_db_order(dbs@, order@),
            forall|k: int|
                0 <= k < dbs@.len() && (#[trigger] dbs@[k]).1 is Some ==> dbs@[k].1->0.wf(),
            count == with_series(dbs@, order@.take(i as int)).len(),
            count <= i,
            are_bodies(with_series(dbs@, order@.take(i as int)), bodies),
            sections@ == all_sections(with_series(dbs@, order@.take(i as int)), bodies),
            forall|k: int| 0 <= k < i ==> dbs@[(#[trigger] order@[k]) as int].1 is Some,
        decreases order.len() - i,
    {
        let at: usize = order[i];
        let db: i32 = dbs[at].0;
        let postings: &Postings = match dbs[at].1 {
            Some(p) => p,
            None => {
                assert(dbs@[at as int].1 is None);
                return None;
            },
        };
        let ghost saved = with_series(dbs@, order@.take(i as int));
        assert(order@.take(i + 1).drop_last() =~= order@.take(i as int));
        assert(dbs@[at as int].1 == Some(postings));
        assert(postings.id_to_key@.dom() =~= postings.keys().dom());
        if postings.id_to_key.len() > 0 {
            let ghost start = sections@;
            serialize_postings_section(&mut sections, db, postings);
            count += 1;
            proof {
                let body = choose|body: Seq<u8>| #[trigger]
                    is_body_of(postings, body) && sections@ == start + section_bytes(db, body);
                lemma_bodies_push(saved, bodies, db, *postings, body);
                bodies = bodies.push(body);
            }
        }
        i += 1;
    }
    proof {
        assert(order@.take(i as int) =~= order@);
        assert forall|k: int| 0 <= k < dbs@.len() implies (#[trigger] dbs@[k]).1 is Some by {
            assert(order@.contains(k as usize));
            let m = choose|m: int| 0 <= m < order@.len() && order@[m] == k as usize;
            assert(dbs@[order@[m] as int].1 is Some);
        }
    }
    if count == 0 {
        return None;
    }
    let mut buf: Vec<u8> = Vec::new();
    buf.push(MAGIC_0);
    buf.push(MAGIC_1);
    buf.push(MAGIC_2);
    buf.push(MAGIC_3);
    write_u8(&mut buf, INDEX_AUX_VERSION);
    write_uvarint(&mut buf, count);
    assert(buf@ =~= header(count as nat));
    write_bytes(&mut buf, sections.as_slice());
    assert(is_payload_of(with_series(dbs@, order@), buf@));
    Some(buf)
}

/// What an index is read back as: as a complete pass over its dictionary would have left it.
pub open spec fn saved_body(p: Postings) -> Body {
    Body { terms: drained(p.terms(), p.stale(), None, None), keys: p.keys(), all: p.all() }
}

proof fn lemma_sections_first(dbs: Seq<(i32, Postings)>, bodies: Seq<Seq<u8>>)
    requires
        dbs.len() > 0,
        dbs.len() == bodies.len(),
    ensures
        all_sections(dbs, bodies) == section_bytes(dbs[0].0, bodies[0]) + all_sections(
            dbs.skip(1),
            bodies.skip(1),
        ),
    decreases dbs.len(),
{
    if dbs.len() == 1 {
        assert(dbs.drop_last() =~= Seq::<(i32, Postings)>::empty());
        assert(dbs.skip(1) =~= Seq::<(i32, Postings)>::empty());
        assert(all_sections(dbs.drop_last(), bodies.drop_last()) =~= Seq::<u8>::empty());
        assert(all_sections(dbs.skip(1), bodies.skip(1)) =~= Seq::<u8>::empty());
        assert(all_sections(dbs, bodies) =~= section_bytes(dbs[0].0, bodies[0]) + all_sections(
            dbs.skip(1),
            bodies.skip(1),
        ));
    } else {
        lemma_sections_first(dbs.drop_last(), bodies.drop_last());
        assert(dbs.drop_last().skip(1) =~= dbs.skip(1).drop_last());
        assert(bodies.drop_last().skip(1) =~= bodies.skip(1).drop_last());
        assert(dbs.skip(1).last() == dbs.last());
        assert(bodies.skip(1).last() == bodies.last());
        assert(all_sections(dbs, bodies) =~= section_bytes(dbs[0].0, bodies[0]) + all_sections(
            dbs.skip(1),
            bodies.skip(1),
        ));
    }
}

proof fn lemma_sections_round_trip(
    dbs: Seq<(i32, Postings)>,
    bodies: Seq<Seq<u8>>,
    rest: Seq<u8>,
)
    requires
        are_bodies(dbs, bodies),
        forall|i: int| 0 <= i < dbs.len() ==> (#[trigger] dbs[i]).0 >= 0 && dbs[i].1.wf(),
    ensures
        parse_sections(all_sections(dbs, bodies) + rest, dbs.len()) == Ok::<
            (Seq<Section>, Seq<u8>),
            DecodeError,
        >(
            (
                dbs.map_values(|s: (i32, Postings)| Section { db: s.0, body: saved_body(s.1) }),
                rest,
            ),
        ),
    decreases dbs.len(),
{
    let f = |s: (i32, Postings)| Section { db: s.0, body: saved_body(s.1) };
    if dbs.len() == 0 {
        assert(all_sections(dbs, bodies) + rest =~= rest);
        assert(dbs.map_values(f) =~= Seq::<Section>::empty());
    } else {
        lemma_sections_first(dbs, bodies);
        let d1 = dbs.skip(1);
        let b1 = bodies.skip(1);
        assert forall|i: int| 0 <= i < d1.len() implies is_body_of(&(#[trigger] d1[i]).1, b1[i])
            && d1[i].0 >= 0 && d1[i].1.wf() by {
            assert(d1[i] == dbs[i + 1]);
        }
        lemma_sections_round_trip(d1, b1, rest);
        let more = all_sections(d1, b1) + rest;
        let db = dbs[0].0;
        assert(is_body_of(&dbs[0].1, bodies[0]));
        assert(db as u64 as nat == db as nat);
        assert(all_sections(dbs, bodies) + rest =~= uvarint_bytes(db as nat) + (bodies[0] + more));
        law_uvarint_round_trip(db as u64, bodies[0] + more);
        law_body_round_trip(&dbs[0].1, bodies[0], more);
        assert(seq![f(dbs[0])] + d1.map_values(f) =~= dbs.map_values(f));
    }
}

/// A snapshot is read back: for each database its index, as a complete pass over its dictionary
/// would have left it.
pub proof fn law_payload_round_trip(dbs: Seq<(i32, Postings)>, payload: Seq<u8>)
    requires
        is_payload_of(dbs, payload),
        dbs.len() <= u64::MAX,
        forall|i: int| 0 <= i < dbs.len() ==> (#[trigger] dbs[i]).0 >= 0 && dbs[i].1.wf(),
    ensures
        parse_payload(payload) == Ok::<Seq<Section>, DecodeError>(
            dbs.map_values(|s: (i32, Postings)| Section { db: s.0, body: saved_body(s.1) }),
        ),
{
    let bodies = choose|bodies: Seq<Seq<u8>>| #[trigger]
        are_bodies(dbs, bodies) && payload == header(dbs.len()) + all_sections(dbs, bodies);
    let all = all_sections(dbs, bodies);
    let tail = uvarint_bytes(dbs.len()) + all;
    assert(payload.take(4) =~= magic());
    assert(payload.skip(4) =~= seq![INDEX_AUX_VERSION] + tail);
    assert(payload.skip(4).skip(1) =~= tail);
    law_uvarint_round_trip(dbs.len() as u64, all);
    lemma_sections_round_trip(dbs, bodies, Seq::empty());
    assert(all + Seq::<u8>::empty() =~= all);
}

} // verus!
