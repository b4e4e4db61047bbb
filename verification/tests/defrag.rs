//! Packing the samples of a series.
use valkey_timeseries::aggregation::PickAggregator;
use valkey_timeseries::chunks::chunk::{ChunkEncoding, TimeSeriesChunk};
use valkey_timeseries::sample::Sample;
use valkey_timeseries::series::defrag::defrag_series;
use valkey_timeseries::series::store::TimeSeries;

fn sum(a: u64, b: u64) -> u64 {
    (f64::from_bits(a) + f64::from_bits(b)).to_bits()
}

/// A chunk holding `count` samples starting at `start`, with room to spare so the
/// defragmenter's capacity check lets it be merged into.
fn chunk_with(start: i64, count: i64) -> TimeSeriesChunk {
    let mut chunk = TimeSeriesChunk::new(ChunkEncoding::Uncompressed, 1024);
    for i in 0..count {
        let timestamp = start + i;
        chunk.add_sample(&Sample { timestamp, value: (timestamp as f64).to_bits() }).unwrap();
    }
    chunk
}

fn series_from(chunks: Vec<TimeSeriesChunk>) -> TimeSeries<PickAggregator> {
    let mut series = TimeSeries::from_chunks(chunks).unwrap();
    series.retention = 0;
    series
}

fn all_samples(series: &TimeSeries<PickAggregator>) -> Vec<Sample> {
    series.chunks.iter().flat_map(|chunk| chunk.iter()).collect()
}

#[test]
fn test_defrag_merges_chunks_without_losing_samples() {
    let expected: Vec<Sample> = (0..4)
        .flat_map(|c| (0..3).map(move |i| 1000 + c * 100 + i))
        .map(|timestamp| Sample { timestamp, value: (timestamp as f64).to_bits() })
        .collect();

    let mut series = series_from(vec![
        chunk_with(1000, 3),
        chunk_with(1100, 3),
        chunk_with(1200, 3),
        chunk_with(1300, 3),
    ]);
    assert_eq!(series.total_samples, 12);

    defrag_series(&mut series, &sum).unwrap();

    assert_eq!(series.chunks.len(), 1);
    assert_eq!(all_samples(&series), expected);
}

#[test]
fn test_defrag_keeps_total_samples_in_step_with_the_chunks() {
    let mut series =
        series_from(vec![chunk_with(1000, 3), chunk_with(1100, 3), chunk_with(1200, 3)]);

    defrag_series(&mut series, &sum).unwrap();

    assert_eq!(series.total_samples, 9);
    assert_eq!(series.total_samples, series.chunks.iter().map(|c| c.len()).sum::<usize>());
    assert_eq!(series.first_timestamp, 1000);
    assert_eq!(series.last_sample.map(|s| s.timestamp), Some(1202));
}

#[test]
fn test_defrag_drops_empty_chunks() {
    let mut series = series_from(vec![
        chunk_with(1000, 3),
        TimeSeriesChunk::new(ChunkEncoding::Uncompressed, 1024),
        chunk_with(1200, 3),
    ]);
    assert_eq!(series.total_samples, 6);

    defrag_series(&mut series, &sum).unwrap();

    assert!(series.chunks.iter().all(|chunk| !chunk.is_empty()));
    assert_eq!(series.total_samples, 6);
    assert_eq!(all_samples(&series).len(), 6);
}

#[test]
fn test_defrag_is_a_noop_below_two_chunks() {
    let mut series = series_from(vec![chunk_with(1000, 3)]);
    defrag_series(&mut series, &sum).unwrap();
    assert_eq!(series.chunks.len(), 1);
    assert_eq!(series.total_samples, 3);
}

#[test]
fn defrag_drops_what_the_retention_does_not_leave() {
    let mut series = series_from(vec![chunk_with(1000, 3), chunk_with(1100, 3)]);
    series.retention = 101;
    defrag_series(&mut series, &sum).unwrap();
    let left: Vec<i64> = all_samples(&series).iter().map(|s| s.timestamp).collect();
    assert_eq!(left, vec![1001, 1002, 1100, 1101, 1102]);
    assert_eq!(series.first_timestamp, 1001);
    assert_eq!(series.total_samples, 5);
    assert_eq!(series.chunks.len(), 1);
}

#[test]
fn defrag_takes_over_a_part_where_not_all_fits() {
    // Room for four samples, of which three are taken; the second chunk holds two.
    let mut first = TimeSeriesChunk::new(ChunkEncoding::Uncompressed, 64);
    for t in 0..3 {
        first.add_sample(&Sample { timestamp: t, value: 0 }).unwrap();
    }
    let mut series = series_from(vec![first, chunk_with(10, 2), chunk_with(20, 2)]);
    defrag_series(&mut series, &sum).unwrap();
    let sizes: Vec<usize> = series.chunks.iter().map(|c| c.len()).collect();
    // The third chunk finds the first full and the walk past the second.
    assert_eq!(sizes, vec![4, 1, 2]);
    assert_eq!(all_samples(&series).len(), 7);
}
