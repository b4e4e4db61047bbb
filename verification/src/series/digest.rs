//! What goes into the digest of a series.
use crate::bytes::{bytes_copy, utf8};
use crate::chunks::uncompressed::UncompressedChunk;
use crate::labels::Label;
use crate::sample::{DuplicatePolicy, Sample};
use crate::series::link::SeriesLink;
use crate::series::rule::CompactionRule;
use crate::series::store::{RoundingStrategy, SampleDuplicatePolicy};
use vstd::prelude::*;

verus! {

/// One thing that goes into a digest.
#[derive(Debug, Clone, PartialEq, Eq)]
pub enum DigestItem {
    Text(Vec<u8>),
    Number(i64),
}

/// One thing that goes into a digest, with its bytes as a sequence.
pub ghost enum Item {
    Text(Seq<u8>),
    Number(i64),
}

/// The thing that an item stands for.
pub open spec fn item_of(i: DigestItem) -> Item {
    match i {
        DigestItem::Text(b) => Item::Text(b@),
        DigestItem::Number(n) => Item::Number(n),
    }
}

/// The things that items stand for.
pub open spec fn items_of(items: Seq<DigestItem>) -> Seq<Item> {
    items.map_values(|i: DigestItem| item_of(i))
}

/// The name of a policy.
pub open spec fn policy_name(p: DuplicatePolicy) -> Seq<char> {
    match p {
        DuplicatePolicy::Block => "block"@,
        DuplicatePolicy::KeepFirst => "first"@,
        DuplicatePolicy::KeepLast => "last"@,
        DuplicatePolicy::Min => "min"@,
        DuplicatePolicy::Max => "max"@,
        DuplicatePolicy::Sum => "sum"@,
    }
}

fn name_of_policy(p: DuplicatePolicy) -> (r: &'static str)
    ensures
        r@ == policy_name(p),
{
    match p {
        DuplicatePolicy::Block => "block",
        DuplicatePolicy::KeepFirst => "first",
        DuplicatePolicy::KeepLast => "last",
        DuplicatePolicy::Min => "min",
        DuplicatePolicy::Max => "max",
        DuplicatePolicy::Sum => "sum",
    }
}

/// The bytes of a word, the lowest first.
pub open spec fn word_bytes(w: u64) -> Seq<u8> {
    Seq::new(8, |i: int| (w >> ((8 * i) as u64)) as u8)
}

fn bytes_of_word(w: u64) -> (r: Vec<u8>)
    ensures
        r@ == word_bytes(w),
{
    let mut out: Vec<u8> = Vec::new();
    let mut i: u64 = 0;
    while i < 8
        invariant
            i <= 8,
            out@.len() == i,
            forall|k: int| 0 <= k < i ==> #[trigger] out@[k] == (w >> ((8 * k) as u64)) as u8,
        decreases 8 - i,
    {
        out.push((w >> (8 * i)) as u8);
        i += 1;
    }
    assert(out@ =~= word_bytes(w));
    out
}

/// What a duplicate policy adds: its name, and how close samples may come.
pub fn calc_duplicate_policy_digest(policy: &SampleDuplicatePolicy) -> (r: Vec<DigestItem>)
    ensures
        items_of(r@) == seq![
            Item::Text(
                utf8(
                    match policy.policy {
                        Some(p) => policy_name(p),
                        None => "default"@,
                    },
                ),
            ),
            Item::Text(word_bytes(policy.max_value_delta)),
            Item::Number(policy.max_time_delta as i64),
        ],
{
    let name: &'static str = match policy.policy {
        Some(p) => name_of_policy(p),
        None => "default",
    };
    let mut out: Vec<DigestItem> = Vec::new();
    out.push(DigestItem::Text(bytes_copy(name.as_bytes())));
    out.push(DigestItem::Text(bytes_of_word(policy.max_value_delta)));
    out.push(DigestItem::Number(policy.max_time_delta as i64));
    assert(items_of(out@) =~= seq![
        Item::Text(
            utf8(
                match policy.policy {
                    Some(p) => policy_name(p),
                    None => "default"@,
                },
            ),
        ),
        Item::Text(word_bytes(policy.max_value_delta)),
        Item::Number(policy.max_time_delta as i64),
    ]);
    out
}

/// What a link adds: its key, or -1 where there is none.
pub fn calc_link_digest(link: Option<&SeriesLink>) -> (r: DigestItem)
    ensures
        item_of(r) == match link {
            Some(l) => Item::Text(l@),
            None => Item::Number(-1i64),
        },
{
    match link {
        None => DigestItem::Number(-1),
        Some(l) => DigestItem::Text(bytes_copy(l.key())),
    }
}

/// What a rule adds: its destination, its buckets, and the hash of its aggregator.
pub fn calc_compaction_digest<A>(
    dest: &SeriesLink,
    rule: &CompactionRule<A>,
    aggregator_hash: u64,
) -> (r: Vec<DigestItem>)
    ensures
        items_of(r@) == seq![
            Item::Text(dest@),
            Item::Number(rule.bucket_duration as i64),
            Item::Number(rule.align_timestamp),
            Item::Number(
                match rule.bucket_start {
                    Some(start) => start,
                    None => -1i64,
                },
            ),
            Item::Text(word_bytes(aggregator_hash)),
        ],
{
    let start: i64 = match rule.bucket_start {
        Some(start) => start,
        None => -1,
    };
    let mut out: Vec<DigestItem> = Vec::new();
    out.push(calc_link_digest(Some(dest)));
    out.push(DigestItem::Number(rule.bucket_duration as i64));
    out.push(DigestItem::Number(rule.align_timestamp));
    out.push(DigestItem::Number(start));
    out.push(DigestItem::Text(bytes_of_word(aggregator_hash)));
    assert(items_of(out@) =~= seq![
        Item::Text(dest@),
        Item::Number(rule.bucket_duration as i64),
        Item::Number(rule.align_timestamp),
        Item::Number(start),
        Item::Text(word_bytes(aggregator_hash)),
    ]);
    out
}

/// What a rounding adds: its kind and its digits.
pub fn calc_rounding_digest(rounding: &RoundingStrategy) -> (r: Vec<DigestItem>)
    ensures
        items_of(r@) == match *rounding {
            RoundingStrategy::SignificantDigits(d) => seq![
                Item::Text(utf8("sig"@)),
                Item::Number(d as i64),
            ],
            RoundingStrategy::DecimalDigits(d) => seq![
                Item::Text(utf8("dec"@)),
                Item::Number(d as i64),
            ],
        },
{
    let (name, digits): (&'static str, i32) = match *rounding {
        RoundingStrategy::SignificantDigits(d) => ("sig", d),
        RoundingStrategy::DecimalDigits(d) => ("dec", d),
    };
    let mut out: Vec<DigestItem> = Vec::new();
    out.push(DigestItem::Text(bytes_copy(name.as_bytes())));
    out.push(DigestItem::Number(digits as i64));
    assert(items_of(out@) =~= seq![Item::Text(utf8(name@)), Item::Number(digits as i64)]);
    out
}

/// What samples add: each its timestamp and its value.
pub open spec fn sample_items(samples: Seq<Sample>) -> Seq<Item>
    decreases samples.len(),
{
    if samples.len() == 0 {
        Seq::empty()
    } else {
        sample_items(samples.drop_last()) + seq![
            Item::Number(samples.last().timestamp),
            Item::Text(word_bytes(samples.last().value)),
        ]
    }
}

/// What a chunk adds: its size, how many samples it is for, and its samples.
pub fn calc_chunk_digest(chunk: &UncompressedChunk) -> (r: Vec<DigestItem>)
    ensures
        items_of(r@) == seq![
            Item::Number(chunk.max_size as i64),
            Item::Number(chunk.max_elements as i64),
        ] + sample_items(chunk.samples@),
{
    let mut out: Vec<DigestItem> = Vec::new();
    out.push(DigestItem::Number(chunk.max_size as i64));
    out.push(DigestItem::Number(chunk.max_elements as i64));
    let ghost first = seq![
        Item::Number(chunk.max_size as i64),
        Item::Number(chunk.max_elements as i64),
    ];
    let mut i: usize = 0;
    assert(chunk.samples@.take(0) =~= Seq::<Sample>::empty());
    assert(items_of(out@) =~= first + sample_items(chunk.samples@.take(0)));
    while i < chunk.samples.len()
        invariant
            i <= chunk.samples@.len(),
            items_of(out@) == first + sample_items(chunk.samples@.take(i as int)),
        decreases chunk.samples.len() - i,
    {
        let s = chunk.samples[i];
        let ghost was = out@;
        out.push(DigestItem::Number(s.timestamp));
        let word = bytes_of_word(s.value);
        out.push(DigestItem::Text(word));
        proof {
            let upto = chunk.samples@.take(i + 1);
            assert(upto.drop_last() =~= chunk.samples@.take(i as int));
            assert(upto.last() == s);
            assert(items_of(out@) =~= items_of(was) + seq![
                Item::Number(s.timestamp),
                Item::Text(word_bytes(s.value)),
            ]);
            assert(items_of(out@) =~= first + sample_items(upto));
        }
        i += 1;
    }
    assert(chunk.samples@.take(i as int) =~= chunk.samples@);
    out
}

/// What labels add: their number, then each with its name and its value.
pub open spec fn label_items(labels: Seq<Label>) -> Seq<Item>
    decreases labels.len(),
{
    if labels.len() == 0 {
        Seq::empty()
    } else {
        label_items(labels.drop_last()) + seq![
            Item::Text(utf8(labels.last().name@)),
            Item::Text(utf8("="@)),
            Item::Text(utf8(labels.last().value@)),
        ]
    }
}

/// What labels add.
pub fn calc_metric_name_digest(labels: &Vec<Label>) -> (r: Vec<DigestItem>)
    ensures
        items_of(r@) == seq![Item::Number(labels@.len() as i64)] + label_items(labels@),
{
    let mut out: Vec<DigestItem> = Vec::new();
    out.push(DigestItem::Number(labels.len() as i64));
    let ghost first = seq![Item::Number(labels@.len() as i64)];
    let mut i: usize = 0;
    assert(labels@.take(0) =~= Seq::<Label>::empty());
    assert(items_of(out@) =~= first + label_items(labels@.take(0)));
    while i < labels.len()
        invariant
            i <= labels@.len(),
            items_of(out@) == first + label_items(labels@.take(i as int)),
        decreases labels.len() - i,
    {
        let ghost was = out@;
        let label = &labels[i];
        out.push(DigestItem::Text(bytes_copy(label.name.as_str().as_bytes())));
        out.push(DigestItem::Text(bytes_copy("=".as_bytes())));
        out.push(DigestItem::Text(bytes_copy(label.value.as_str().as_bytes())));
        proof {
            assert(labels@.take(i + 1).drop_last() =~= labels@.take(i as int));
            let added = seq![
                Item::Text(utf8(label.name@)),
                Item::Text(utf8("="@)),
                Item::Text(utf8(label.value@)),
            ];
            assert(items_of(out@) =~= items_of(was) + added);
            assert(items_of(out@) =~= first + label_items(labels@.take(i + 1)));
        }
        i += 1;
    }
    assert(labels@.take(i as int) =~= labels@);
    out
}

} // verus!
