//! Ids of series.
use std::collections::HashSet;
use valkey_timeseries::index::ids::{
    epoch_from, extract_counter, extract_epoch, generate, mint_epoch, next_timeseries_id,
    IdGenerator, COUNTER_BITS, COUNTER_MASK, EPOCH_MASK,
};

#[test]
fn test_id_generation() {
    let mut generator = IdGenerator::with_epoch(42);
    let id1 = generator.next_id();
    let id2 = generator.next_id();

    assert_ne!(id1, id2, "IDs should be unique");
    assert!(id2 > id1, "IDs should be strictly increasing");
}

#[test]
fn test_first_id_is_counter_one() {
    let mut generator = IdGenerator::with_epoch(7);
    let id = generator.next_id();

    assert_eq!(extract_epoch(id), 7);
    assert_eq!(extract_counter(id), 1);
    assert_ne!(id, 0, "no generated ID may be the unassigned sentinel");
}

#[test]
fn test_epoch_truncation() {
    let generator = IdGenerator::with_epoch(u64::MAX);
    assert_eq!(generator.epoch() as u64, EPOCH_MASK);
}

#[test]
fn test_extract_roundtrip() {
    let mut generator = IdGenerator::with_epoch(0x00AB_CDEF);
    let id = generator.next_id();

    assert_eq!(extract_epoch(id), 0x00AB_CDEF);
    assert_eq!(extract_counter(id), 1);
    assert_eq!(IdGenerator::extract_epoch(id), extract_epoch(id));
    assert_eq!(IdGenerator::extract_counter(id), extract_counter(id));
}

#[test]
fn test_minted_epoch_bounds() {
    for _ in 0..64 {
        let epoch = mint_epoch();
        assert_ne!(epoch, 0, "epoch 0 is reserved for legacy IDs");
        assert_ne!(epoch, EPOCH_MASK, "epoch MAX would carry into 0");
        assert!(epoch <= EPOCH_MASK);
    }
}

#[test]
fn test_default_generator_epoch() {
    let mut generator = IdGenerator::default();
    let id = generate(&mut generator);
    let epoch = extract_epoch(id) as u64;

    assert_ne!(epoch, 0);
    assert_ne!(epoch, EPOCH_MASK);
}

#[test]
fn test_counter_wrap_carries_into_epoch() {
    let mut generator = IdGenerator::with_parts(5, COUNTER_MASK - 1);

    let id1 = generator.next_id();
    assert_eq!(extract_epoch(id1), 5);
    assert_eq!(extract_counter(id1), COUNTER_MASK);

    let id2 = generator.next_id();
    assert_eq!(extract_epoch(id2), 6, "counter wrap should carry into epoch");
    assert_eq!(extract_counter(id2), 0);
    assert!(id2 > id1, "IDs remain strictly increasing across a wrap");
}

#[test]
fn test_free_functions() {
    let mut generator = IdGenerator::new();
    let id1 = generate(&mut generator);
    let id2 = next_timeseries_id(&mut generator);

    assert_ne!(id1, id2, "Generated IDs should be unique");
    assert_eq!(
        extract_epoch(id1),
        extract_epoch(id2),
        "a generator's epoch is fixed for its lifetime"
    );
    assert!(id2 > id1, "IDs of a generator are strictly increasing");
}

#[test]
fn id_is_its_epoch_and_counter() {
    let mut generator = IdGenerator::with_parts(3, 9);
    assert_eq!(generator.generate(), (3 << COUNTER_BITS) | 10);
}

#[test]
fn reserved_epochs_are_not_drawn() {
    assert_eq!(epoch_from(0), None);
    assert_eq!(epoch_from(EPOCH_MASK), None);
    assert_eq!(epoch_from(EPOCH_MASK + 1), None);
    assert_eq!(epoch_from(EPOCH_MASK + 6), Some(5));
}

#[test]
fn epochs_differ_between_generators() {
    let epochs: HashSet<u32> = (0..32).map(|_| IdGenerator::new().epoch()).collect();
    assert!(epochs.len() > 16);
}

/// A counter that runs over goes on in the next epoch, and no id comes twice.
#[test]
fn ids_run_over_into_the_next_epoch() {
    let mut generator = IdGenerator::with_parts(7, COUNTER_MASK - 1);
    let ids: Vec<u64> = vec![generator.next_id(), generator.next_id(), generator.next_id()];
    assert_eq!(extract_epoch(ids[0]), 7);
    assert_eq!(extract_counter(ids[0]), COUNTER_MASK);
    assert_eq!(extract_epoch(ids[1]), 8);
    assert_eq!(extract_counter(ids[1]), 0);
    assert_eq!(ids[2], ids[1] + 1);
}
