use autotune::bench::{aggregate, median};
use autotune::cache::{PersistedStore, TuneCache};
use autotune::key::{AutotuneKey, ConvTranspose2dAutotuneKey, DType, Dims2};

fn key(height: usize) -> AutotuneKey {
    let one = Dims2 { h: 1, w: 1 };
    let zero = Dims2 { h: 0, w: 0 };
    AutotuneKey::ConvTranspose2d(ConvTranspose2dAutotuneKey {
        kernel_size: Dims2 { h: 3, w: 3 },
        stride: one,
        padding: zero,
        padding_out: zero,
        dilation: one,
        groups: 1,
        in_channels: 3,
        out_channels: 8,
        height,
        width: 32,
        batch_size: 1,
        has_bias: true,
        dtype: DType::F32,
    })
}

#[test]
fn put_then_get_returns_index() {
    let mut cache = TuneCache::new();
    assert_eq!(cache.get(&key(32)), None);
    cache.put(&key(32), 1);
    for _ in 0..5 {
        assert_eq!(cache.get(&key(32)), Some(1));
    }
    assert_eq!(cache.get(&key(33)), None);
}

#[test]
fn second_put_same_winner_is_no_op() {
    let mut cache = TuneCache::new();
    cache.put(&key(32), 1);
    let once = cache.to_store(7).records;
    cache.put(&key(32), 1);
    let twice = cache.to_store(7).records;
    assert_eq!(once, twice);
    assert_eq!(cache.get(&key(32)), Some(1));
}

#[test]
fn later_put_replaces() {
    let mut cache = TuneCache::new();
    cache.put(&key(32), 1);
    cache.put(&key(40), 0);
    cache.put(&key(32), 0);
    assert_eq!(cache.get(&key(32)), Some(0));
    assert_eq!(cache.get(&key(40)), Some(0));
    assert_eq!(cache.to_store(1).records.len(), 2);
}

#[test]
fn load_with_matching_checksum() {
    let store = PersistedStore { checksum: 99, records: vec![(key(32), 1), (key(40), 0)] };
    let cache = TuneCache::load(&store, 99);
    assert_eq!(cache.get(&key(32)), Some(1));
    assert_eq!(cache.get(&key(40)), Some(0));
}

#[test]
fn load_with_mismatched_checksum_is_cold() {
    let store = PersistedStore { checksum: 99, records: vec![(key(32), 1), (key(40), 0)] };
    let cache = TuneCache::load(&store, 100);
    assert_eq!(cache.get(&key(32)), None);
    assert_eq!(cache.get(&key(40)), None);
    assert!(cache.to_store(100).records.is_empty());
}

#[test]
fn store_round_trip() {
    let mut cache = TuneCache::new();
    cache.put(&key(32), 1);
    cache.put(&key(48), 0);
    let store = cache.to_store(5);
    assert_eq!(store.checksum, 5);
    let back = TuneCache::load(&store, 5);
    assert_eq!(back.get(&key(32)), Some(1));
    assert_eq!(back.get(&key(48)), Some(0));
}

#[test]
fn median_of_samples() {
    assert_eq!(median(&vec![5]), 5);
    assert_eq!(median(&vec![3, 1, 2]), 2);
    assert_eq!(median(&vec![4, 1, 3, 2]), 3);
    assert_eq!(median(&vec![7, 7, 1, 7, 1]), 7);
}

#[test]
fn aggregate_drops_warm_up() {
    assert_eq!(aggregate(&vec![1000, 5, 3, 4]), 4);
    assert_eq!(aggregate(&vec![1, 9]), 9);
    assert_eq!(aggregate(&vec![1000, 10, 30, 20]), 20);
}
