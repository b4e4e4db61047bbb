//! What of a series is written down, and what identifies it.
use valkey_timeseries::aggregation::{Pick, PickAggregator};
use valkey_timeseries::chunks::uncompressed::UncompressedChunk;
use valkey_timeseries::encoding::{
    try_read_byte_slice, try_read_u64_le, try_read_uvarint, write_byte_slice, write_u64_le,
    write_uvarint, DecodeError,
};
use valkey_timeseries::error::TsdbError;
use valkey_timeseries::labels::Label;
use valkey_timeseries::sample::{DuplicatePolicy, Sample};
use valkey_timeseries::series::digest::{
    calc_chunk_digest, calc_compaction_digest, calc_duplicate_policy_digest, calc_link_digest,
    calc_metric_name_digest, calc_rounding_digest, DigestItem,
};
use valkey_timeseries::series::link::SeriesLink;
use valkey_timeseries::series::rule::CompactionRule;
use valkey_timeseries::series::snapshot::{
    check_chunk_header, load_chunk, load_rule, save_chunk, save_rule, MAX_CHUNK_SIZE,
};
use valkey_timeseries::series::store::{RoundingStrategy, SampleDuplicatePolicy};

fn rule(bucket_start: Option<i64>) -> CompactionRule<PickAggregator> {
    CompactionRule {
        dest_id: 7,
        aggregator: PickAggregator::new(Pick::Last),
        bucket_duration: 60000,
        align_timestamp: 5,
        bucket_start,
        has_samples: bucket_start.is_some(),
    }
}

/// A rule is read back as it was written.
#[test]
fn rules_round_trip() {
    for start in [None, Some(0), Some(60005)] {
        let saved = save_rule(&rule(start));
        let loaded = load_rule(&saved, PickAggregator::new(Pick::Last));
        assert_eq!(loaded.dest_id, 7);
        assert_eq!(loaded.bucket_duration, 60000);
        assert_eq!(loaded.align_timestamp, 5);
        assert_eq!(loaded.bucket_start, start);
        assert_eq!(loaded.has_samples, start.is_some());
    }
    assert_eq!(save_rule(&rule(None)).bucket_start, -1);
}

/// A chunk is read back as it was written.
#[test]
fn chunks_round_trip() {
    let samples = vec![Sample::new(1, 10), Sample::new(5, 20)];
    let chunk = UncompressedChunk::new(4096, &samples);
    let loaded = load_chunk(save_chunk(&chunk)).unwrap();
    assert_eq!(loaded.samples, samples);
    assert_eq!(loaded.max_size, chunk.max_size);
}

/// A chunk that is too large, or holds too much, is refused.
#[test]
fn bad_chunk_headers_are_refused() {
    assert!(check_chunk_header(1, 1).is_ok());
    assert_eq!(check_chunk_header(1, 2), Err(TsdbError::DecodingError));
    assert_eq!(check_chunk_header(MAX_CHUNK_SIZE, 0), Err(TsdbError::DecodingError));
}

fn text(s: &str) -> DigestItem {
    DigestItem::Text(s.as_bytes().to_vec())
}

/// What goes into the digest of a series.
#[test]
fn digests_see_every_part() {
    let policy = SampleDuplicatePolicy {
        policy: Some(DuplicatePolicy::Sum),
        max_time_delta: 3,
        max_value_delta: (1.5f64).to_bits(),
    };
    let items = calc_duplicate_policy_digest(&policy);
    assert!(items.contains(&text("sum")));
    assert!(items.contains(&DigestItem::Number(3)));
    let other = SampleDuplicatePolicy { max_time_delta: 4, ..policy };
    assert_ne!(calc_duplicate_policy_digest(&other), items);

    let link = SeriesLink::from_name("dest");
    assert_eq!(calc_link_digest(Some(&link)), text("dest"));
    assert_ne!(calc_link_digest(None), calc_link_digest(Some(&link)));

    let one = calc_compaction_digest(&link, &rule(None), 9);
    let two = calc_compaction_digest(&link, &rule(Some(65)), 9);
    assert_ne!(one, two);

    assert_ne!(
        calc_rounding_digest(&RoundingStrategy::DecimalDigits(2)),
        calc_rounding_digest(&RoundingStrategy::SignificantDigits(2))
    );
    assert_eq!(
        calc_metric_name_digest(&vec![Label::new("a", "1"), Label::new("b", "2")]),
        vec![
            DigestItem::Number(2),
            text("a"),
            text("="),
            text("1"),
            text("b"),
            text("="),
            text("2"),
        ]
    );
}

/// A link is the key that it points to.
#[test]
fn links_point_to_keys() {
    let link = SeriesLink::from_key(b"abc");
    assert!(link.points_to(b"abc"));
    assert!(!link.points_to(b"abd"));
    assert_eq!(link.key(), b"abc");
}

/// Numbers and byte strings are read back as they were written.
#[test]
fn numbers_and_bytes_round_trip() {
    for v in [0u64, 1, 127, 128, 300, u64::MAX] {
        let mut buf = Vec::new();
        write_uvarint(&mut buf, v);
        let mut rest = buf.as_slice();
        assert_eq!(try_read_uvarint(&mut rest), Ok(v));
        assert!(rest.is_empty());
    }
    let mut buf = Vec::new();
    write_uvarint(&mut buf, 300);
    assert_eq!(buf, vec![0xAC, 0x02]);
    write_byte_slice(&mut buf, b"xyz");
    write_u64_le(&mut buf, 0x0102);
    let mut rest = &buf[2..];
    assert_eq!(try_read_byte_slice(&mut rest), Ok(&b"xyz"[..]));
    assert_eq!(try_read_u64_le(&mut rest), Ok(0x0102));
    assert_eq!(try_read_u64_le(&mut rest), Err(DecodeError::UnexpectedEnd));
    let mut long: &[u8] = &[0xFF; 11];
    assert_eq!(try_read_uvarint(&mut long), Err(DecodeError::IntegerTooLong));
}

/// The digest of a chunk sees its samples.
#[test]
fn chunk_digests_see_samples() {
    let chunk = UncompressedChunk::new(4096, &[Sample::new(1, 0x0102), Sample::new(5, 7)]);
    let items = calc_chunk_digest(&chunk);
    assert_eq!(items.len(), 6);
    assert_eq!(items[0], DigestItem::Number(4096));
    assert_eq!(items[2], DigestItem::Number(1));
    assert_eq!(items[4], DigestItem::Number(5));
    let other = UncompressedChunk::new(4096, &[Sample::new(1, 0x0103), Sample::new(5, 7)]);
    let others = calc_chunk_digest(&other);
    assert_ne!(items[3], others[3]);
    assert_eq!(items[5], others[5]);
}
