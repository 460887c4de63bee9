use autotune::cache::{PersistedStore, TuneCache};
use autotune::codec::{decode_store, decode_words, encode_store, encode_words, read_checksum};
use autotune::key::{AutotuneKey, ConvTranspose2dAutotuneKey, DType, Dims2};

fn key(height: usize, dtype: DType) -> AutotuneKey {
    AutotuneKey::ConvTranspose2d(ConvTranspose2dAutotuneKey {
        kernel_size: Dims2 { h: 3, w: 5 },
        stride: Dims2 { h: 2, w: 1 },
        padding: Dims2 { h: 1, w: 0 },
        padding_out: Dims2 { h: 0, w: 1 },
        dilation: Dims2 { h: 1, w: 2 },
        groups: 1,
        in_channels: 3,
        out_channels: 8,
        height,
        width: 32,
        batch_size: 1,
        has_bias: true,
        dtype,
    })
}

#[test]
fn words_are_little_endian() {
    let bytes = encode_words(&vec![0x0102030405060708, 1]);
    assert_eq!(bytes, vec![8, 7, 6, 5, 4, 3, 2, 1, 1, 0, 0, 0, 0, 0, 0, 0]);
    assert_eq!(decode_words(&bytes), Some(vec![0x0102030405060708, 1]));
    assert_eq!(decode_words(&vec![1, 2, 3]), None);
    assert_eq!(decode_words(&vec![]), Some(vec![]));
}

#[test]
fn store_round_trip_bytes() {
    let store = PersistedStore {
        checksum: 0xdead_beef,
        records: vec![(key(32, DType::F32), 1), (key(33, DType::BF16), 0)],
    };
    let bytes = encode_store(&store);
    assert_eq!(bytes.len(), 8 * (2 + 2 * 20));
    assert_eq!(&bytes[0..8], &0xdead_beefu64.to_le_bytes());
    assert_eq!(&bytes[8..16], &2u64.to_le_bytes());
    let back = decode_store(&bytes).unwrap();
    assert_eq!(back.checksum, store.checksum);
    assert_eq!(back.records, store.records);
}

#[test]
fn empty_store_is_two_words() {
    let store = PersistedStore { checksum: 3, records: vec![] };
    let bytes = encode_store(&store);
    assert_eq!(bytes.len(), 16);
    let back = decode_store(&bytes).unwrap();
    assert_eq!(back.checksum, 3);
    assert!(back.records.is_empty());
}

#[test]
fn malformed_bytes_are_rejected() {
    let store = PersistedStore { checksum: 1, records: vec![(key(32, DType::F16), 1)] };
    let bytes = encode_store(&store);
    assert!(decode_store(&bytes[..bytes.len() - 1].to_vec()).is_none());
    assert!(decode_store(&bytes[..bytes.len() - 8].to_vec()).is_none());
    assert!(decode_store(&vec![0; 8]).is_none());
    let mut wrong_count = bytes.clone();
    wrong_count[8] = 2;
    assert!(decode_store(&wrong_count).is_none());
    let mut wrong_dtype = bytes.clone();
    let dtype_at = 8 * (2 + 18);
    wrong_dtype[dtype_at] = 9;
    assert!(decode_store(&wrong_dtype).is_none());
    let mut wrong_bias = bytes.clone();
    wrong_bias[8 * (2 + 17)] = 2;
    assert!(decode_store(&wrong_bias).is_none());
    let mut wrong_tag = bytes.clone();
    wrong_tag[16] = 1;
    assert!(decode_store(&wrong_tag).is_none());
}

#[test]
fn persisted_cache_survives_restart() {
    let mut cache = TuneCache::new();
    cache.put(&key(32, DType::F32), 1);
    cache.put(&key(64, DType::F32), 0);
    let bytes = encode_store(&cache.to_store(77));
    let store = decode_store(&bytes).unwrap();
    let warm = TuneCache::load(&store, 77);
    assert_eq!(warm.get(&key(32, DType::F32)), Some(1));
    assert_eq!(warm.get(&key(64, DType::F32)), Some(0));
    let cold = TuneCache::load(&store, 78);
    assert_eq!(cold.get(&key(32, DType::F32)), None);
}

#[test]
fn identity_checksum_is_fnv1a() {
    assert_eq!(autotune::codec::identity_checksum(&vec![]), 0xcbf2_9ce4_8422_2325);
    assert_eq!(autotune::codec::identity_checksum(&b"a".to_vec()), 0xaf63_dc4c_8601_ec8c);
    assert_eq!(autotune::codec::identity_checksum(&b"foobar".to_vec()), 0x8594_4171_f739_67e8);
    let a = autotune::codec::identity_checksum(&b"gpu-0 driver 550".to_vec());
    let b = autotune::codec::identity_checksum(&b"gpu-0 driver 551".to_vec());
    assert_ne!(a, b);
}

#[test]
fn checksum_is_read_first() {
    let store = PersistedStore { checksum: 0x1122_3344_5566_7788, records: vec![(key(32, DType::F64), 1)] };
    let bytes = encode_store(&store);
    assert_eq!(read_checksum(&bytes), Some(0x1122_3344_5566_7788));
    assert_eq!(read_checksum(&bytes[..8].to_vec()), Some(0x1122_3344_5566_7788));
    assert_eq!(read_checksum(&bytes[..7].to_vec()), None);
}
