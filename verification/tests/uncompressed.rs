//! Chunks that hold their samples as they are.
use valkey_timeseries::chunks::uncompressed::UncompressedChunk;
use valkey_timeseries::encoding::write_uvarint;
use valkey_timeseries::sample::{DuplicatePolicy, Sample, SampleAddResult, SAMPLE_SIZE};

fn sample(timestamp: i64, value: f64) -> Sample {
    Sample { timestamp, value: value.to_bits() }
}

fn sum(a: u64, b: u64) -> u64 {
    (f64::from_bits(a) + f64::from_bits(b)).to_bits()
}

#[test]
fn test_get_range_slice_start_equals_end() {
    let samples = vec![
        sample(10, 1.0),
        sample(20, 2.0),
        sample(30, 3.0),
        sample(40, 4.0),
        sample(50, 5.0),
    ];
    let chunk = UncompressedChunk::new(1000, &samples);
    let result = chunk.get_range_slice(30, 30);
    assert_eq!(
        result,
        vec![sample(30, 3.0),]
    );
}

#[test]
fn test_get_range_slice_within_bounds() {
    let samples = vec![
        sample(10, 1.0),
        sample(20, 2.0),
        sample(30, 3.0),
        sample(40, 4.0),
        sample(50, 5.0),
    ];
    let chunk = UncompressedChunk::new(1000, &samples);
    let result = chunk.get_range_slice(20, 40);
    assert_eq!(
        result,
        vec![
            sample(20, 2.0),
            sample(30, 3.0),
            sample(40, 4.0),
        ]
    );
}

#[test]
fn test_get_range_slice_out_of_bounds() {
    let samples = vec![
        sample(10, 1.0),
        sample(20, 2.0),
        sample(30, 3.0),
        sample(40, 4.0),
        sample(50, 5.0),
    ];
    let chunk = UncompressedChunk::new(1000, &samples);
    let result = chunk.get_range_slice(60, 70);
    assert!(result.is_empty());
}

#[test]
fn test_get_range_slice_partial_overlap() {
    let samples = vec![
        sample(10, 1.0),
        sample(20, 2.0),
        sample(30, 3.0),
        sample(40, 4.0),
        sample(50, 5.0),
    ];
    let chunk = UncompressedChunk::new(1000, &samples);
    let result = chunk.get_range_slice(35, 45);
    assert_eq!(
        result,
        vec![sample(40, 4.0),]
    );
}

#[test]
fn test_get_range_slice_empty_chunk() {
    let chunk = UncompressedChunk::default();
    let result = chunk.get_range_slice(10, 20);
    assert!(result.is_empty());
}

#[test]
fn test_remove_range() {
    let samples = vec![
        sample(10, 1.0),
        sample(20, 2.0),
        sample(30, 3.0),
        sample(40, 4.0),
        sample(50, 5.0),
    ];
    let mut chunk = UncompressedChunk::new(1000, &samples);

    // Test 1: Remove the middle range
    let removed = chunk.remove_range(25, 45).unwrap();
    assert_eq!(removed, 2);
    assert_eq!(
        chunk.samples,
        vec![
            sample(10, 1.0),
            sample(20, 2.0),
            sample(50, 5.0),
        ]
    );

    // Test 2: Remove range at the beginning
    let mut chunk = UncompressedChunk::new(1000, &samples);
    let removed = chunk.remove_range(0, 15).unwrap();
    assert_eq!(removed, 1);
    assert_eq!(
        chunk.samples,
        vec![
            sample(20, 2.0),
            sample(30, 3.0),
            sample(40, 4.0),
            sample(50, 5.0),
        ]
    );

    // Test 3: Remove range at the end
    let mut chunk = UncompressedChunk::new(1000, &samples);
    let removed = chunk.remove_range(45, 60).unwrap();
    assert_eq!(removed, 1);
    assert_eq!(
        chunk.samples,
        vec![
            sample(10, 1.0),
            sample(20, 2.0),
            sample(30, 3.0),
            sample(40, 4.0),
        ]
    );

    // Test 4: Remove the entire range
    let mut chunk = UncompressedChunk::new(1000, &samples);
    let removed = chunk.remove_range(0, 60).unwrap();
    assert_eq!(removed, 5);
    assert!(chunk.samples.is_empty());

    // Test 5: Remove range outside of samples
    let mut chunk = UncompressedChunk::new(1000, &samples);
    let removed = chunk.remove_range(60, 70).unwrap();
    assert_eq!(removed, 0);
    assert_eq!(chunk.samples, samples);

    // Test 6: Remove range with no overlap
    let mut chunk = UncompressedChunk::new(1000, &samples);
    let removed = chunk.remove_range(31, 39).unwrap();
    assert_eq!(removed, 0);
    assert_eq!(chunk.samples, samples);

    // Test 7: Remove range from empty chunk
    let mut empty_chunk = UncompressedChunk::default();
    let removed = empty_chunk.remove_range(10, 20).unwrap();
    assert_eq!(removed, 0);
    assert!(empty_chunk.samples.is_empty());
}

#[test]
fn test_upsert_sample() {
    let samples = vec![
        sample(10, 1.0),
        sample(30, 3.0),
        sample(50, 5.0),
    ];
    let mut chunk = UncompressedChunk::new(1000, &samples);

    // Test 1: Upsert a new sample at the end
    let result = chunk
        .upsert_sample(sample(60, 6.0), DuplicatePolicy::KeepLast, &sum)
        .unwrap();
    assert_eq!(result, 1);
    assert_eq!(
        chunk.samples,
        vec![
            sample(10, 1.0),
            sample(30, 3.0),
            sample(50, 5.0),
            sample(60, 6.0),
        ]
    );

    // Test 2: Upsert a new sample in the middle
    let result = chunk
        .upsert_sample(sample(40, 4.0), DuplicatePolicy::KeepLast, &sum)
        .unwrap();
    assert_eq!(result, 1);
    assert_eq!(
        chunk.samples,
        vec![
            sample(10, 1.0),
            sample(30, 3.0),
            sample(40, 4.0),
            sample(50, 5.0),
            sample(60, 6.0),
        ]
    );

    // Test 3: Upsert an existing sample with KeepLast policy
    let result = chunk
        .upsert_sample(sample(30, 3.5), DuplicatePolicy::KeepLast, &sum)
        .unwrap();
    assert_eq!(result, 0);
    assert_eq!(
        chunk.samples,
        vec![
            sample(10, 1.0),
            sample(30, 3.5),
            sample(40, 4.0),
            sample(50, 5.0),
            sample(60, 6.0),
        ]
    );

    // Test 4: Upsert an existing sample with KeepFirst policy
    let result = chunk
        .upsert_sample(sample(40, 4.5), DuplicatePolicy::KeepFirst, &sum)
        .unwrap();
    assert_eq!(result, 0);
    assert_eq!(
        chunk.samples,
        vec![
            sample(10, 1.0),
            sample(30, 3.5),
            sample(40, 4.0),
            sample(50, 5.0),
            sample(60, 6.0),
        ]
    );

    // Test 5: Upsert a sample at the beginning
    let result = chunk
        .upsert_sample(sample(5, 0.5), DuplicatePolicy::KeepLast, &sum)
        .unwrap();
    assert_eq!(result, 1);
    assert_eq!(
        chunk.samples,
        vec![
            sample(5, 0.5),
            sample(10, 1.0),
            sample(30, 3.5),
            sample(40, 4.0),
            sample(50, 5.0),
            sample(60, 6.0),
        ]
    );

    // Test 6: Upsert a sample into an empty chunk
    let mut empty_chunk = UncompressedChunk::default();
    let result = empty_chunk
        .upsert_sample(sample(10, 1.0), DuplicatePolicy::KeepLast, &sum)
        .unwrap();
    assert_eq!(result, 1);
    assert_eq!(
        empty_chunk.samples,
        vec![sample(10, 1.0),]
    );

    // Test 7: Attempt to upsert when the chunk is full
    let mut full_chunk = UncompressedChunk::new(SAMPLE_SIZE * 2, &samples);
    let result = full_chunk.upsert_sample(sample(70, 7.0), DuplicatePolicy::KeepLast, &sum);
    assert!(result.is_err());
    assert_eq!(full_chunk.samples, samples);
}

#[test]
fn mod_test_samples_by_timestamps() {
    let samples = vec![
        sample(10, 1.0),
        sample(20, 2.0),
        sample(30, 3.0),
        sample(40, 4.0),
        sample(50, 5.0),
    ];
    let chunk = UncompressedChunk::new(1000, &samples);

    // Test 1: Get existing timestamps
    let timestamps = vec![10, 30, 50];
    let result = chunk.samples_by_timestamps(&timestamps).unwrap();
    assert_eq!(
        result,
        vec![
            sample(10, 1.0),
            sample(30, 3.0),
            sample(50, 5.0),
        ]
    );

    // Test 2: Get non-existing timestamps
    let timestamps = vec![15, 25, 35];
    let result = chunk.samples_by_timestamps(&timestamps).unwrap();
    assert_eq!(result, vec![]);

    // Test 3: Mix of existing and non-existing timestamps
    let timestamps = vec![10, 15, 30, 35, 50];
    let result = chunk.samples_by_timestamps(&timestamps).unwrap();
    assert_eq!(
        result,
        vec![
            sample(10, 1.0),
            sample(30, 3.0),
            sample(50, 5.0),
        ]
    );

    // Test 4: Empty timestamps
    let timestamps = vec![];
    let result = chunk.samples_by_timestamps(&timestamps).unwrap();
    assert_eq!(result, vec![]);

    // Test 5: All timestamps after the last sample
    let timestamps = vec![60, 70, 80];
    let result = chunk.samples_by_timestamps(&timestamps).unwrap();
    assert_eq!(result, vec![]);

    // Test 6: All timestamps before the first sample
    let timestamps = vec![1, 5, 9];
    let result = chunk.samples_by_timestamps(&timestamps).unwrap();
    assert_eq!(result, vec![]);

    // Test 7: Empty chunk
    let empty_chunk = UncompressedChunk::default();
    let timestamps = vec![10, 20, 30];
    let result = empty_chunk.samples_by_timestamps(&timestamps).unwrap();
    assert_eq!(result, vec![]);
}

#[test]
fn test_merge_samples() {
    let samples = vec![
        sample(10, 1.0),
        sample(30, 3.0),
        sample(50, 5.0),
    ];
    let mut chunk = UncompressedChunk::new(1000, &samples);

    // Test 1: Merge non-overlapping samples
    let new_samples = vec![
        sample(20, 2.0),
        sample(40, 4.0),
    ];
    let result = chunk.merge_samples(&new_samples, None, &sum).unwrap();
    assert_eq!(
        result,
        vec![
            SampleAddResult::Stored(new_samples[0]),
            SampleAddResult::Stored(new_samples[1])
        ]
    );
    assert_eq!(
        chunk.samples,
        vec![
            sample(10, 1.0),
            sample(20, 2.0),
            sample(30, 3.0),
            sample(40, 4.0),
            sample(50, 5.0),
        ]
    );

    // Test 2: Merge overlapping samples with KeepLast policy
    let new_samples = vec![
        sample(30, 3.5),
        sample(60, 6.0),
    ];
    let result = chunk
        .merge_samples(&new_samples, Some(DuplicatePolicy::KeepLast), &sum)
        .unwrap();
    assert_eq!(
        result,
        vec![
            SampleAddResult::Stored(new_samples[0]),
            SampleAddResult::Stored(new_samples[1])
        ]
    );
    assert_eq!(
        chunk.samples,
        vec![
            sample(10, 1.0),
            sample(20, 2.0),
            sample(30, 3.5),
            sample(40, 4.0),
            sample(50, 5.0),
            sample(60, 6.0),
        ]
    );

    // Test 3: Merge samples into an empty chunk
    let mut empty_chunk = UncompressedChunk::default();
    let new_samples = vec![
        sample(10, 1.0),
        sample(20, 2.0),
    ];
    let result = empty_chunk.merge_samples(&new_samples, None, &sum).unwrap();
    assert_eq!(
        result,
        vec![
            SampleAddResult::Stored(new_samples[0]),
            SampleAddResult::Stored(new_samples[1])
        ]
    );
    assert_eq!(empty_chunk.samples, new_samples);

    // Test 4: Merge samples with all timestamps greater than the last timestamp in the chunk
    let mut chunk = UncompressedChunk::new(1000, &samples);
    let new_samples = vec![
        sample(60, 6.0),
        sample(70, 7.0),
    ];
    let result = chunk.merge_samples(&new_samples, None, &sum).unwrap();
    assert_eq!(
        result,
        vec![
            SampleAddResult::Stored(new_samples[0]),
            SampleAddResult::Stored(new_samples[1])
        ]
    );
    assert_eq!(
        chunk.samples,
        vec![
            sample(10, 1.0),
            sample(30, 3.0),
            sample(50, 5.0),
            sample(60, 6.0),
            sample(70, 7.0),
        ]
    );

    // Test 5: Merge a single sample
    let mut chunk = UncompressedChunk::new(1000, &samples);
    let new_samples = vec![sample(40, 4.0)];
    let result = chunk.merge_samples(&new_samples, None, &sum).unwrap();
    assert_eq!(result, vec![SampleAddResult::Stored(new_samples[0])]);
    assert_eq!(
        chunk.samples,
        vec![
            sample(10, 1.0),
            sample(30, 3.0),
            sample(40, 4.0),
            sample(50, 5.0),
        ]
    );
}

#[test]
fn test_split() {
    let samples = vec![
        sample(10, 1.0),
        sample(20, 2.0),
        sample(30, 3.0),
        sample(40, 4.0),
        sample(50, 5.0),
    ];
    let mut chunk = UncompressedChunk::new(1000, &samples);

    // Test 1: Split a chunk with an odd number of samples
    let new_chunk = chunk.split().unwrap();
    assert_eq!(
        chunk.samples,
        vec![
            sample(10, 1.0),
            sample(20, 2.0),
        ]
    );
    assert_eq!(
        new_chunk.samples,
        vec![
            sample(30, 3.0),
            sample(40, 4.0),
            sample(50, 5.0),
        ]
    );

    // Test 2: Split a chunk with an even number of samples
    let samples = vec![
        sample(10, 1.0),
        sample(20, 2.0),
        sample(30, 3.0),
        sample(40, 4.0),
    ];
    let mut chunk = UncompressedChunk::new(1000, &samples);
    let new_chunk = chunk.split().unwrap();
    assert_eq!(
        chunk.samples,
        vec![
            sample(10, 1.0),
            sample(20, 2.0),
        ]
    );
    assert_eq!(
        new_chunk.samples,
        vec![
            sample(30, 3.0),
            sample(40, 4.0),
        ]
    );

    // Test 3: Split a chunk with a single sample
    let samples = vec![sample(10, 1.0)];
    let mut chunk = UncompressedChunk::new(1000, &samples);
    let new_chunk = chunk.split().unwrap();
    assert_eq!(
        chunk.samples,
        vec![sample(10, 1.0),]
    );
    assert!(new_chunk.samples.is_empty());

    // Test 4: Split an empty chunk
    let mut empty_chunk = UncompressedChunk::default();
    let new_chunk = empty_chunk.split().unwrap();
    assert!(empty_chunk.samples.is_empty());
    assert!(new_chunk.samples.is_empty());
}

/// A corrupt/malicious peer can declare an absurd sample count in the
/// `len` header while sending only a handful of bytes. `deserialize_raw`
/// must reject this via the normal EOF error path rather than reserving
/// `len` elements up front: a multi-terabyte `Vec::with_capacity` request
/// aborts the process (allocation failure is not a catchable panic), which
/// turns a malformed fan-out payload into a crash.
#[test]
fn test_deserialize_raw_rejects_oversized_len_without_huge_allocation() {
    let mut buf = Vec::new();
    write_uvarint(&mut buf, 0); // max_size
    write_uvarint(&mut buf, 0); // max_elements
    write_uvarint(&mut buf, u64::MAX); // len: wildly larger than the buffer could hold
    // No sample payload follows, so decoding must fail on the first read.

    let result = UncompressedChunk::deserialize_raw(&buf);
    assert!(result.is_err(), "oversized len must be rejected, not honored");
}
