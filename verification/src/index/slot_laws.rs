//! What lists of slots stand for, which slot a key has, and what an import does to an index.
use crate::index::migration::{
    first_free, import_id, import_ids, imported, keys_in, keys_outside, law_import_keeps_apart,
    series_indexed, without_series, ImportedKey,
};
use crate::index::slots::{
    byte_at, crc16, crc_bit, crc_bits, number_of, separates, slot_of, slot_range, slots_listed, split_tokens,
    token_range, tokens, unsigned, SlotFault, NUM_SLOTS,
};
use crate::postings::laws::IndexState;
use crate::series::policy::{is_digit, lemma_decimal};
use crate::text::{decimal, lemma_first_at};
use vstd::prelude::*;

verus! {

/// A byte stands at a place for the first time from another place on.
pub open spec fn is_first_byte(s: Seq<u8>, b: u8, from: int, at: int) -> bool {
    &&& from <= at < s.len()
    &&& s[at] == b
    &&& forall|i: int| from <= i < at ==> #[trigger] s[i] != b
}

proof fn lemma_first_byte(s: Seq<u8>, b: u8, from: int)
    requires
        0 <= from <= s.len(),
    ensures
        from <= byte_at(s, b, from) <= s.len(),
        byte_at(s, b, from) < s.len() ==> is_first_byte(s, b, from, byte_at(s, b, from)),
        forall|i: int| from <= i < byte_at(s, b, from) ==> #[trigger] s[i] != b,
    decreases s.len() - from,
{
    if from < s.len() && s[from] != b {
        lemma_first_byte(s, b, from + 1);
    }
}

/// A key has a part in braces: it reaches from behind the first opening brace to the first closing
/// one after that, and is not empty.
pub open spec fn has_tag(key: Seq<u8>, open: int, close: int) -> bool {
    &&& is_first_byte(key, 0x7b, 0, open)
    &&& is_first_byte(key, 0x7d, open + 1, close)
    &&& open + 1 < close
}

/// The slot of a key is that of the part in braces, where it has one, and that of the whole key
/// where it has none.
pub proof fn law_key_slot(key: Seq<u8>)
    ensures
        forall|open: int, close: int| #[trigger]
            has_tag(key, open, close) ==> slot_of(key) == crc16(key.subrange(open + 1, close))
                % NUM_SLOTS,
        (forall|open: int, close: int| !#[trigger] has_tag(key, open, close)) ==> slot_of(key)
            == crc16(key) % NUM_SLOTS,
        slot_of(key) < NUM_SLOTS,
{
    let a = byte_at(key, 0x7b, 0);
    lemma_first_byte(key, 0x7b, 0);
    if a < key.len() {
        let b = byte_at(key, 0x7d, a + 1);
        lemma_first_byte(key, 0x7d, a + 1);
        if b < key.len() && a + 1 < b {
            assert(has_tag(key, a, b));
        }
        assert forall|open: int, close: int| #[trigger] has_tag(key, open, close) implies open == a
            && close == b by {
            if open < a {
                assert(key[open] != 0x7b);
            }
            if a < open {
                assert(key[a] != 0x7b);
            }
            if close < b {
                assert(key[close] != 0x7d);
            }
            if b < close {
                assert(key[b] != 0x7d);
            }
        }
    } else {
        assert forall|open: int, close: int| !#[trigger] has_tag(key, open, close) by {
            if has_tag(key, open, close) {
                assert(key[open] != 0x7b);
            }
        }
    }
}

/// The bytes of two messages of the same length, put together bit by bit.
pub open spec fn mixed(a: Seq<u8>, b: Seq<u8>) -> Seq<u8> {
    Seq::new(a.len(), |i: int| a[i] ^ b[i])
}

/// A message of zeros.
pub open spec fn zeros(n: nat) -> Seq<u8> {
    Seq::new(n, |i: int| 0u8)
}

proof fn lemma_bits_mixed(a: u16, b: u16, n: nat)
    ensures
        crc_bits(a ^ b, n) == crc_bits(a, n) ^ crc_bits(b, n),
    decreases n,
{
    if n > 0 {
        lemma_bits_mixed(a, b, (n - 1) as nat);
        let x = crc_bits(a, (n - 1) as nat);
        let y = crc_bits(b, (n - 1) as nat);
        assert(crc_bit(x ^ y) == crc_bit(x) ^ crc_bit(y)) by (bit_vector);
    }
}

/// The remainder of two messages put together is that of the one put together with that of the
/// other.
pub proof fn law_remainder_mixed(a: Seq<u8>, b: Seq<u8>)
    requires
        a.len() == b.len(),
    ensures
        crc16(mixed(a, b)) == crc16(a) ^ crc16(b),
    decreases a.len(),
{
    if a.len() > 0 {
        let (c, d) = (a.drop_last(), b.drop_last());
        law_remainder_mixed(c, d);
        assert(mixed(a, b).drop_last() =~= mixed(c, d));
        let (x, y) = (crc16(c), crc16(d));
        let (p, q) = (a.last(), b.last());
        assert((x ^ y) ^ (((p ^ q) as u16) << 8) == (x ^ ((p as u16) << 8)) ^ (y ^ ((q as u16)
            << 8))) by (bit_vector);
        lemma_bits_mixed(x ^ ((p as u16) << 8), y ^ ((q as u16) << 8), 8);
    } else {
        assert(0u16 ^ 0u16 == 0u16) by (bit_vector);
    }
}

/// A message followed by its remainder leaves none.
pub proof fn law_remainder(m: Seq<u8>)
    ensures
        crc16(m + seq![(crc16(m) >> 8) as u8, (crc16(m) & 0xff) as u8]) == 0,
{
    reveal_with_fuel(crc_bits, 9);
    let c = crc16(m);
    let high = (c >> 8) as u8;
    let low = (c & 0xff) as u8;
    let one = m + seq![high];
    let two = m + seq![high, low];
    assert(one.drop_last() =~= m);
    assert(two.drop_last() =~= one);
    assert(crc_bit(crc_bit(crc_bit(crc_bit(crc_bit(crc_bit(crc_bit(crc_bit(c ^ ((((c >> 8) as u8)
        as u16) << 8))))))))) == (c & 0xff) << 8) by (bit_vector);
    let d = crc16(one);
    assert(((c & 0xff) << 8) ^ ((((c & 0xff) as u8) as u16) << 8) == 0) by (bit_vector);
    assert(crc_bit(0u16) == 0u16) by (bit_vector);
    assert(crc16(two) == crc_bits(d ^ ((low as u16) << 8), 8));
}

proof fn lemma_zeros(n: nat)
    ensures
        crc16(zeros(n)) == 0,
    decreases n,
{
    if n > 0 {
        lemma_zeros((n - 1) as nat);
        reveal_with_fuel(crc_bits, 9);
        let s = zeros(n);
        assert(s.drop_last() =~= zeros((n - 1) as nat));
        let byte = s.last();
        assert(0u16 ^ ((byte as u16) << 8) == 0u16) by (bit_vector)
            requires
                byte == 0u8,
        ;
        assert(crc_bit(0u16) == 0u16) by (bit_vector);
    }
}

/// Zeros leave no remainder, and a single low bit behind them leaves what the polynomial has below its
/// highest power.
pub proof fn law_remainder_of_bit(n: nat)
    ensures
        crc16(zeros(n)) == 0,
        crc16(zeros(n) + seq![1u8]) == 0x1021,
{
    lemma_zeros(n);
    let s = zeros(n) + seq![1u8];
    assert(s.drop_last() =~= zeros(n));
    let byte = s.last();
    assert(crc16(s) == crc_bits(crc16(zeros(n)) ^ ((byte as u16) << 8), 8));
    reveal_with_fuel(crc_bits, 9);
    assert(crc_bit(crc_bit(crc_bit(crc_bit(crc_bit(crc_bit(crc_bit(crc_bit(0u16 ^ ((byte as u16)
        << 8))))))))) == 0x1021) by (bit_vector)
        requires
            byte == 1u8,
    ;
}

/// Where a text is cut at a comma or at white space, its parts are those of the two pieces. A piece
/// without these is one part, or none where it is empty.
pub proof fn law_slot_parts(a: Seq<char>, sep: char, b: Seq<char>)
    requires
        separates(sep),
    ensures
        separates(',') && separates(' '),
        tokens(a + seq![sep] + b) == tokens(a) + tokens(b),
        (forall|i: int| 0 <= i < a.len() ==> !separates(#[trigger] a[i])) ==> tokens(a)
            == if a.len() == 0 {
            Seq::<Seq<char>>::empty()
        } else {
            seq![a]
        },
{
    lemma_cut(a, sep, b);
    assert(tokens(a + seq![sep] + b) =~= tokens(a) + tokens(b));
    if forall|i: int| 0 <= i < a.len() ==> !separates(#[trigger] a[i]) {
        lemma_one_part(a);
        assert(tokens(a) =~= if a.len() == 0 {
            Seq::<Seq<char>>::empty()
        } else {
            seq![a]
        });
    }
}

proof fn lemma_cut(a: Seq<char>, sep: char, b: Seq<char>)
    requires
        separates(sep),
    ensures
        split_tokens(a + seq![sep] + b).0 == tokens(a) + split_tokens(b).0,
        split_tokens(a + seq![sep] + b).1 == split_tokens(b).1,
    decreases b.len(),
{
    let all = a + seq![sep] + b;
    if b.len() == 0 {
        assert(all.drop_last() =~= a);
        assert(all.last() == sep);
        assert(split_tokens(all).0 =~= tokens(a) + split_tokens(b).0);
    } else {
        lemma_cut(a, sep, b.drop_last());
        assert(all.drop_last() =~= a + seq![sep] + b.drop_last());
        assert(all.last() == b.last());
        assert(split_tokens(all).0 =~= tokens(a) + split_tokens(b).0);
    }
}

proof fn lemma_one_part(a: Seq<char>)
    requires
        forall|i: int| 0 <= i < a.len() ==> !separates(#[trigger] a[i]),
    ensures
        split_tokens(a).0.len() == 0,
        split_tokens(a).1 == a,
    decreases a.len(),
{
    if a.len() > 0 {
        let less = a.drop_last();
        assert forall|i: int| 0 <= i < less.len() implies !separates(#[trigger] less[i]) by {
            assert(less[i] == a[i]);
        }
        lemma_one_part(less);
        assert(!separates(a[a.len() - 1]));
        assert(a =~= less.push(a.last()));
    } else {
        assert(split_tokens(a).1 =~= a);
    }
}

/// Two numbers with a dash between them are a range, where the first is not larger than the second
/// and this is a slot; a number alone is a range of its own, where it is a slot.
pub proof fn law_slot_part(start: u16, end: u16)
    ensures
        token_range(decimal(start as nat) + seq!['-'] + decimal(end as nat)) == if start > end {
            Err::<(u16, u16), SlotFault>(SlotFault::Order(start, end))
        } else if end >= 16384 {
            Err(SlotFault::EndOutOfRange(end))
        } else {
            Ok((start, end))
        },
        token_range(decimal(end as nat)) == if end >= 16384 {
            Err::<(u16, u16), SlotFault>(SlotFault::SlotOutOfRange(end))
        } else {
            Ok((end, end))
        },
{
    let a = decimal(start as nat);
    let b = decimal(end as nat);
    lemma_decimal(start as nat);
    lemma_decimal(end as nat);
    let t = a + seq!['-'] + b;
    let n = a.len() as int;
    assert forall|i: int| 0 <= i < n implies t[i] != '-' by {
        assert(is_digit(a[i]));
    }
    assert(t[n] == '-');
    lemma_first_at(t, '-', n);
    assert(t.take(n) =~= a);
    assert(t.skip(n + 1) =~= b);
    assert forall|i: int| 0 <= i < b.len() implies b[i] != '-' by {
        assert(is_digit(b[i]));
    }
    lemma_first_at(b, '-', b.len() as int);
    lemma_plain_number(start);
    lemma_plain_number(end);
}

proof fn lemma_plain_number(n: u16)
    ensures
        number_of(decimal(n as nat)) == Some(n),
{
    lemma_decimal(n as nat);
    let s = decimal(n as nat);
    assert(is_digit(s[0]));
    assert(unsigned(s) == s);
}

/// A part of a list covers a slot.
pub open spec fn covers(part: Seq<char>, slot: u16) -> bool {
    token_range(part) is Ok && token_range(part)->Ok_0.0 <= slot && slot <= token_range(part)->Ok_0.1
}

/// A part of a list is the first that stands for nothing.
pub open spec fn is_first_fault(parts: Seq<Seq<char>>, e: SlotFault, i: int) -> bool {
    &&& 0 <= i < parts.len()
    &&& token_range(parts[i]) == Err::<(u16, u16), SlotFault>(e)
    &&& forall|j: int| 0 <= j < i ==> token_range(#[trigger] parts[j]) is Ok
}

/// One of the parts of a list covers a slot.
pub open spec fn is_covered(parts: Seq<Seq<char>>, slot: u16) -> bool {
    exists|i: int| 0 <= i < parts.len() && covers(#[trigger] parts[i], slot)
}

/// A list that is read holds the slots that one of its parts covers; one that is refused is refused
/// for the first of its parts that stands for nothing.
pub proof fn law_slots_listed(parts: Seq<Seq<char>>)
    ensures
        match slots_listed(parts) {
            Ok(set) => {
                &&& forall|i: int|
                    0 <= i < parts.len() ==> token_range(#[trigger] parts[i]) is Ok
                &&& forall|slot: u16| #[trigger] set.contains(slot) <==> is_covered(parts, slot)
            },
            Err(e) => exists|i: int| #[trigger] is_first_fault(parts, e, i),
        },
    decreases parts.len(),
{
    if parts.len() > 0 {
        let less = parts.drop_last();
        let last = parts.len() - 1;
        law_slots_listed(less);
        match slots_listed(less) {
            Err(e) => {
                let i = choose|i: int| #[trigger] is_first_fault(less, e, i);
                assert forall|j: int| 0 <= j < i implies token_range(#[trigger] parts[j]) is Ok by {
                    assert(less[j] == parts[j]);
                }
                assert(is_first_fault(parts, e, i));
            },
            Ok(before) => {
                assert forall|i: int| 0 <= i < last implies token_range(
                    #[trigger] parts[i],
                ) is Ok by {
                    assert(less[i] == parts[i]);
                }
                match token_range(parts.last()) {
                    Ok(range) => {
                        let set = before.union(slot_range(range.0, range.1));
                        assert forall|slot: u16| #[trigger] set.contains(slot) <==> is_covered(
                            parts,
                            slot,
                        ) by {
                            lemma_covered(parts, slot);
                            assert(before.contains(slot) <==> is_covered(less, slot));
                        }
                    },
                    Err(e) => {
                        assert(is_first_fault(parts, e, last));
                    },
                }
            },
        }
    }
}

proof fn lemma_covered(parts: Seq<Seq<char>>, slot: u16)
    requires
        parts.len() > 0,
    ensures
        is_covered(parts, slot) <==> is_covered(parts.drop_last(), slot) || covers(
            parts.last(),
            slot,
        ),
{
    let less = parts.drop_last();
    let last = parts.len() - 1;
    if is_covered(less, slot) {
        let i = choose|i: int| 0 <= i < less.len() && covers(#[trigger] less[i], slot);
        assert(covers(parts[i], slot));
    }
    if covers(parts.last(), slot) {
        assert(covers(parts[last], slot));
    }
    if is_covered(parts, slot) {
        let i = choose|i: int| 0 <= i < parts.len() && covers(#[trigger] parts[i], slot);
        if i < last {
            assert(covers(less[i], slot));
        }
    }
}

/// A key waits for an import exactly where its slot is one of those that are imported.
pub proof fn law_waiting_keys(keys: Seq<Seq<u8>>, slots: Set<u16>, key: Seq<u8>)
    ensures
        keys_in(keys, slots).contains(key) <==> keys.contains(key) && slots.contains(slot_of(key)),
        keys_outside(keys, slots).contains(key) <==> keys.contains(key) && !slots.contains(
            slot_of(key),
        ),
        keys_in(keys, slots).len() + keys_outside(keys, slots).len() == keys.len(),
    decreases keys.len(),
{
    reveal(Seq::filter);
    if keys.len() > 0 {
        let less = keys.drop_last();
        let last = keys.last();
        law_waiting_keys(less, slots, key);
        assert(keys =~= less.push(last));
        lemma_pushed(less, last, key);
        lemma_pushed(keys_in(less, slots), last, key);
        lemma_pushed(keys_outside(less, slots), last, key);
    }
}

proof fn lemma_pushed(s: Seq<Seq<u8>>, x: Seq<u8>, key: Seq<u8>)
    ensures
        s.push(x).contains(key) <==> s.contains(key) || x == key,
{
    let t = s.push(x);
    assert(t[s.len() as int] == x);
    if s.contains(key) {
        let i = choose|i: int| 0 <= i < s.len() && s[i] == key;
        assert(t[i] == key);
    }
    if t.contains(key) {
        let i = choose|i: int| 0 <= i < t.len() && t[i] == key;
        if i < s.len() {
            assert(s[i] == key);
        }
    }
}

/// A new id is the smallest from a number on that no series has; there is none where all are taken.
pub proof fn law_new_id(names: Map<u64, Seq<u8>>, from: int)
    requires
        0 <= from,
    ensures
        match first_free(names, from) {
            Some(id) => {
                &&& from <= id
                &&& !names.contains_key(id)
                &&& forall|other: u64| from <= other < id ==> #[trigger] names.contains_key(other)
            },
            None => forall|other: u64| from <= other ==> #[trigger] names.contains_key(other),
        },
    decreases u64::MAX + 1 - from,
{
    if from <= u64::MAX && names.contains_key(from as u64) {
        law_new_id(names, from + 1);
        assert forall|other: u64| from <= other && (other as int == from) implies
            #[trigger] names.contains_key(other) by {}
    }
}

/// A series that is imported keeps its id, unless a series under another key has it. Then it gets the
/// next id behind the last one given that no series has.
pub proof fn law_imported_id(names: Map<u64, Seq<u8>>, last: u64, id: u64, key: Seq<u8>)
    ensures
        !names.contains_key(id) || names[id] == key ==> import_id(names, last, id, key) == Some(id),
        names.contains_key(id) && names[id] != key ==> match import_id(names, last, id, key) {
            Some(given) => {
                &&& given > last
                &&& !names.contains_key(given)
                &&& forall|other: u64| last < other < given ==> #[trigger] names.contains_key(other)
            },
            None => forall|other: u64| last < other ==> #[trigger] names.contains_key(other),
        },
{
    law_new_id(names, last + 1);
}

/// After keys were imported, every series that was in the directory has its key still, and each that
/// was given an id is in it, under its key. What has no series is counted and not indexed.
#[verifier::rlimit(40)]
pub proof fn law_batch_imported(s: IndexState, last: u64, batch: Seq<ImportedKey>)
    ensures
        forall|id: u64| #[trigger]
            s.keys.contains_key(id) ==> imported(s, last, batch).0.keys.contains_key(id)
                && imported(s, last, batch).0.keys[id] == s.keys[id],
        forall|i: int|
            0 <= i < batch.len() && (#[trigger] import_ids(s, last, batch)[i]) is Some ==> {
                let id = import_ids(s, last, batch)[i]->0;
                &&& imported(s, last, batch).0.keys.contains_key(id)
                &&& imported(s, last, batch).0.keys[id] == batch[i].key@
            },
        forall|i: int|
            0 <= i < batch.len() && batch[i].series is None ==> (#[trigger] import_ids(
                s,
                last,
                batch,
            )[i]) is None,
        without_series(batch) == batch.filter(|k: ImportedKey| k.series is None).len(),
    decreases batch.len(),
{
    reveal(Seq::filter);
    if batch.len() > 0 {
        let less = batch.drop_last();
        let n = batch.len() - 1;
        law_batch_imported(s, last, less);
        let (before, now) = imported(s, last, less);
        let after = imported(s, last, batch).0;
        let item = batch.last();
        assert(batch.take(n) =~= less);
        if let Some((id, labels)) = item.series {
            if let Some(given) = import_id(before.keys, now, id, item.key@) {
                law_import_keeps_apart(before, now, id, labels@, item.key@);
                assert(after == series_indexed(before, given, labels@, item.key@));
            }
        }
        assert forall|id: u64| #[trigger] s.keys.contains_key(id) implies after.keys.contains_key(id)
            && after.keys[id] == s.keys[id] by {
            assert(before.keys.contains_key(id));
        }
        assert forall|i: int|
            0 <= i < batch.len() && (#[trigger] import_ids(s, last, batch)[i]) is Some implies {
            let id = import_ids(s, last, batch)[i]->0;
            &&& after.keys.contains_key(id)
            &&& after.keys[id] == batch[i].key@
        } by {
            if i < n {
                assert(batch.take(i) =~= less.take(i));
                assert(import_ids(s, last, less)[i] == import_ids(s, last, batch)[i]);
                assert(before.keys.contains_key(import_ids(s, last, batch)[i]->0));
            }
        }
    }
}

} // verus!
