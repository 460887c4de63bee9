//! Byte form of a persisted tuning cache. Every value is a little-endian
//! 64-bit word: first the checksum, then the number of records, then each
//! record as the words of its key followed by its candidate index. A reader
//! thus meets the checksum before any record.
use vstd::prelude::*;

use crate::cache::PersistedStore;
use crate::key::{AutotuneKey, ConvTranspose2dAutotuneKey, DType, Dims2};

verus! {

/// The eight little-endian bytes of `x`.
pub open spec fn le_bytes(x: u64) -> Seq<u8> {
    seq![
        x as u8,
        (x >> 8u64) as u8,
        (x >> 16u64) as u8,
        (x >> 24u64) as u8,
        (x >> 32u64) as u8,
        (x >> 40u64) as u8,
        (x >> 48u64) as u8,
        (x >> 56u64) as u8,
    ]
}

/// The bytes of a sequence of words, each in little-endian order.
pub open spec fn words_bytes(w: Seq<u64>) -> Seq<u8>
    decreases w.len(),
{
    if w.len() == 0 {
        Seq::empty()
    } else {
        words_bytes(w.drop_last()) + le_bytes(w.last())
    }
}

proof fn lemma_le_bytes_of_parts(b0: u8, b1: u8, b2: u8, b3: u8, b4: u8, b5: u8, b6: u8, b7: u8)
    ensures
        ({
            let x = (b0 as u64) | ((b1 as u64) << 8u64) | ((b2 as u64) << 16u64) | ((b3 as u64)
                << 24u64) | ((b4 as u64) << 32u64) | ((b5 as u64) << 40u64) | ((b6 as u64)
                << 48u64) | ((b7 as u64) << 56u64);
            &&& x as u8 == b0
            &&& (x >> 8u64) as u8 == b1
            &&& (x >> 16u64) as u8 == b2
            &&& (x >> 24u64) as u8 == b3
            &&& (x >> 32u64) as u8 == b4
            &&& (x >> 40u64) as u8 == b5
            &&& (x >> 48u64) as u8 == b6
            &&& (x >> 56u64) as u8 == b7
        }),
{
    assert(({
        let x = (b0 as u64) | ((b1 as u64) << 8u64) | ((b2 as u64) << 16u64) | ((b3 as u64)
            << 24u64) | ((b4 as u64) << 32u64) | ((b5 as u64) << 40u64) | ((b6 as u64) << 48u64)
            | ((b7 as u64) << 56u64);
        &&& x as u8 == b0
        &&& (x >> 8u64) as u8 == b1
        &&& (x >> 16u64) as u8 == b2
        &&& (x >> 24u64) as u8 == b3
        &&& (x >> 32u64) as u8 == b4
        &&& (x >> 40u64) as u8 == b5
        &&& (x >> 48u64) as u8 == b6
        &&& (x >> 56u64) as u8 == b7
    })) by (bit_vector);
}

proof fn lemma_le_bytes_injective(x: u64, y: u64)
    requires
        le_bytes(x) == le_bytes(y),
    ensures
        x == y,
{
    assert(le_bytes(x)[0] == le_bytes(y)[0]);
    assert(le_bytes(x)[1] == le_bytes(y)[1]);
    assert(le_bytes(x)[2] == le_bytes(y)[2]);
    assert(le_bytes(x)[3] == le_bytes(y)[3]);
    assert(le_bytes(x)[4] == le_bytes(y)[4]);
    assert(le_bytes(x)[5] == le_bytes(y)[5]);
    assert(le_bytes(x)[6] == le_bytes(y)[6]);
    assert(le_bytes(x)[7] == le_bytes(y)[7]);
    assert(x == y) by (bit_vector)
        requires
            x as u8 == y as u8,
            (x >> 8u64) as u8 == (y >> 8u64) as u8,
            (x >> 16u64) as u8 == (y >> 16u64) as u8,
            (x >> 24u64) as u8 == (y >> 24u64) as u8,
            (x >> 32u64) as u8 == (y >> 32u64) as u8,
            (x >> 40u64) as u8 == (y >> 40u64) as u8,
            (x >> 48u64) as u8 == (y >> 48u64) as u8,
            (x >> 56u64) as u8 == (y >> 56u64) as u8,
    ;
}

proof fn lemma_words_bytes_len(w: Seq<u64>)
    ensures
        words_bytes(w).len() == 8 * w.len(),
    decreases w.len(),
{
    if w.len() > 0 {
        lemma_words_bytes_len(w.drop_last());
    }
}

/// Different word sequences have different bytes.
pub proof fn lemma_words_bytes_injective(a: Seq<u64>, b: Seq<u64>)
    requires
        words_bytes(a) == words_bytes(b),
    ensures
        a == b,
    decreases a.len(),
{
    lemma_words_bytes_len(a);
    lemma_words_bytes_len(b);
    if a.len() > 0 {
        let n = words_bytes(a).len() as int;
        lemma_words_bytes_len(a.drop_last());
        lemma_words_bytes_len(b.drop_last());
        assert(words_bytes(a).subrange(0, n - 8) =~= words_bytes(a.drop_last()));
        assert(words_bytes(b).subrange(0, n - 8) =~= words_bytes(b.drop_last()));
        assert(words_bytes(a).subrange(n - 8, n) =~= le_bytes(a.last()));
        assert(words_bytes(b).subrange(n - 8, n) =~= le_bytes(b.last()));
        lemma_words_bytes_injective(a.drop_last(), b.drop_last());
        lemma_le_bytes_injective(a.last(), b.last());
        assert(a =~= a.drop_last().push(a.last()));
        assert(b =~= b.drop_last().push(b.last()));
    } else {
        assert(a =~= b);
    }
}

/// The bytes of a sequence of words.
pub fn encode_words(words: &Vec<u64>) -> (r: Vec<u8>)
    ensures
        r@ == words_bytes(words@),
{
    let mut out: Vec<u8> = Vec::new();
    let mut i: usize = 0;
    while i < words.len()
        invariant
            i <= words.len(),
            out@ == words_bytes(words@.take(i as int)),
        decreases words.len() - i,
    {
        let x = words[i];
        let ghost before = out@;
        out.push(#[verifier::truncate] (x as u8));
        out.push(#[verifier::truncate] ((x >> 8u64) as u8));
        out.push(#[verifier::truncate] ((x >> 16u64) as u8));
        out.push(#[verifier::truncate] ((x >> 24u64) as u8));
        out.push(#[verifier::truncate] ((x >> 32u64) as u8));
        out.push(#[verifier::truncate] ((x >> 40u64) as u8));
        out.push(#[verifier::truncate] ((x >> 48u64) as u8));
        out.push(#[verifier::truncate] ((x >> 56u64) as u8));
        proof {
            assert(out@ =~= before + le_bytes(x));
            assert(words@.take(i + 1).drop_last() =~= words@.take(i as int));
        }
        i = i + 1;
    }
    proof {
        assert(words@.take(i as int) =~= words@);
    }
    out
}

/// The words whose bytes are `bytes`, or `None` where the length is not a
/// multiple of eight.
pub fn decode_words(bytes: &Vec<u8>) -> (r: Option<Vec<u64>>)
    ensures
        r is Some <==> bytes@.len() % 8 == 0,
        r matches Some(w) ==> words_bytes(w@) == bytes@,
{
    if bytes.len() % 8 != 0 {
        return None;
    }
    let len = bytes.len();
    let n = len / 8;
    let mut out: Vec<u64> = Vec::new();
    let mut i: usize = 0;
    while i < n
        invariant
            i <= n,
            n * 8 == len,
            len == bytes@.len(),
            out@.len() == i,
            words_bytes(out@) == bytes@.take(8 * i),
        decreases n - i,
    {
        let o = 8 * i;
        let b0 = bytes[o];
        let b1 = bytes[o + 1];
        let b2 = bytes[o + 2];
        let b3 = bytes[o + 3];
        let b4 = bytes[o + 4];
        let b5 = bytes[o + 5];
        let b6 = bytes[o + 6];
        let b7 = bytes[o + 7];
        let x = (b0 as u64) | ((b1 as u64) << 8u64) | ((b2 as u64) << 16u64) | ((b3 as u64)
            << 24u64) | ((b4 as u64) << 32u64) | ((b5 as u64) << 40u64) | ((b6 as u64) << 48u64)
            | ((b7 as u64) << 56u64);
        let ghost before = out@;
        out.push(x);
        proof {
            lemma_le_bytes_of_parts(b0, b1, b2, b3, b4, b5, b6, b7);
            assert(out@.drop_last() =~= before);
            assert(le_bytes(x) =~= bytes@.subrange(o as int, o + 8));
            assert(bytes@.take(8 * (i + 1)) =~= bytes@.take(8 * i) + bytes@.subrange(
                o as int,
                o + 8,
            ));
        }
        i = i + 1;
    }
    proof {
        assert(bytes@.take(8 * i) =~= bytes@);
    }
    Some(out)
}

/// Number of words of a key.
pub const KEY_WORDS: usize = 19;

/// Number of words of a record: its key, then its candidate index.
pub const RECORD_WORDS: usize = 20;

/// The word of an element type.
pub open spec fn dtype_word(d: DType) -> u64 {
    match d {
        DType::F64 => 0,
        DType::F32 => 1,
        DType::F16 => 2,
        DType::BF16 => 3,
    }
}

/// The words of a key: the family tag, then each field.
pub open spec fn key_words(k: AutotuneKey) -> Seq<u64> {
    match k {
        AutotuneKey::ConvTranspose2d(c) => seq![
            0u64,
            c.kernel_size.h as u64,
            c.kernel_size.w as u64,
            c.stride.h as u64,
            c.stride.w as u64,
            c.padding.h as u64,
            c.padding.w as u64,
            c.padding_out.h as u64,
            c.padding_out.w as u64,
            c.dilation.h as u64,
            c.dilation.w as u64,
            c.groups as u64,
            c.in_channels as u64,
            c.out_channels as u64,
            c.height as u64,
            c.width as u64,
            c.batch_size as u64,
            if c.has_bias {
                1u64
            } else {
                0u64
            },
            dtype_word(c.dtype),
        ],
    }
}

/// The words of a record.
pub open spec fn record_words(r: (AutotuneKey, usize)) -> Seq<u64> {
    key_words(r.0).push(r.1 as u64)
}

/// The words of a list of records, one after the other.
pub open spec fn records_words(s: Seq<(AutotuneKey, usize)>) -> Seq<u64>
    decreases s.len(),
{
    if s.len() == 0 {
        Seq::empty()
    } else {
        records_words(s.drop_last()) + record_words(s.last())
    }
}

/// The words of a persisted store: checksum, record count, records.
pub open spec fn store_words(checksum: u64, records: Seq<(AutotuneKey, usize)>) -> Seq<u64> {
    seq![checksum, records.len() as u64] + records_words(records)
}

/// The bytes of a persisted store.
pub open spec fn store_bytes(checksum: u64, records: Seq<(AutotuneKey, usize)>) -> Seq<u8> {
    words_bytes(store_words(checksum, records))
}

proof fn lemma_records_words_at(s: Seq<(AutotuneKey, usize)>, i: int)
    requires
        0 <= i < s.len(),
    ensures
        records_words(s).len() == RECORD_WORDS * s.len(),
        records_words(s).subrange(RECORD_WORDS * i, RECORD_WORDS * i + RECORD_WORDS) == record_words(s[i]),
    decreases s.len(),
{
    lemma_records_words_len(s);
    let init = s.drop_last();
    lemma_records_words_len(init);
    if i < s.len() - 1 {
        lemma_records_words_at(init, i);
        assert(records_words(s).subrange(RECORD_WORDS * i, RECORD_WORDS * i + RECORD_WORDS)
            =~= records_words(init).subrange(RECORD_WORDS * i, RECORD_WORDS * i + RECORD_WORDS));
    } else {
        assert(records_words(s).subrange(RECORD_WORDS * i, RECORD_WORDS * i + RECORD_WORDS)
            =~= record_words(s.last()));
    }
}

proof fn lemma_records_words_len(s: Seq<(AutotuneKey, usize)>)
    ensures
        records_words(s).len() == RECORD_WORDS * s.len(),
    decreases s.len(),
{
    if s.len() > 0 {
        lemma_records_words_len(s.drop_last());
    }
}

/// What the words of a store show: its length, its count word, and each
/// record at its place.
proof fn lemma_store_words_shape(checksum: u64, s: Seq<(AutotuneKey, usize)>)
    ensures
        store_words(checksum, s).len() == 2 + RECORD_WORDS * s.len(),
        store_words(checksum, s)[0] == checksum,
        store_words(checksum, s)[1] == s.len() as u64,
        forall|i: int|
            0 <= i < s.len() ==> store_words(checksum, s).subrange(
                2 + RECORD_WORDS * i,
                2 + RECORD_WORDS * i + RECORD_WORDS,
            ) == #[trigger] record_words(s[i]),
{
    lemma_records_words_len(s);
    assert forall|i: int| 0 <= i < s.len() implies store_words(checksum, s).subrange(
        2 + RECORD_WORDS * i,
        2 + RECORD_WORDS * i + RECORD_WORDS,
    ) == #[trigger] record_words(s[i]) by {
        lemma_records_words_at(s, i);
        assert(store_words(checksum, s).subrange(2 + RECORD_WORDS * i, 2 + RECORD_WORDS * i + RECORD_WORDS)
            =~= records_words(s).subrange(RECORD_WORDS * i, RECORD_WORDS * i + RECORD_WORDS));
    }
}

fn push_key_words(k: &AutotuneKey, out: &mut Vec<u64>)
    ensures
        final(out)@ == old(out)@ + key_words(*k),
{
    match k {
        AutotuneKey::ConvTranspose2d(c) => {
            out.push(0);
            out.push(c.kernel_size.h as u64);
            out.push(c.kernel_size.w as u64);
            out.push(c.stride.h as u64);
            out.push(c.stride.w as u64);
            out.push(c.padding.h as u64);
            out.push(c.padding.w as u64);
            out.push(c.padding_out.h as u64);
            out.push(c.padding_out.w as u64);
            out.push(c.dilation.h as u64);
            out.push(c.dilation.w as u64);
            out.push(c.groups as u64);
            out.push(c.in_channels as u64);
            out.push(c.out_channels as u64);
            out.push(c.height as u64);
            out.push(c.width as u64);
            out.push(c.batch_size as u64);
            out.push(if c.has_bias {
                1
            } else {
                0
            });
            out.push(
                match c.dtype {
                    DType::F64 => 0,
                    DType::F32 => 1,
                    DType::F16 => 2,
                    DType::BF16 => 3,
                },
            );
            proof {
                assert(out@ =~= old(out)@ + key_words(*k));
            }
        },
    }
}

/// The bytes of a persisted store.
pub fn encode_store(store: &PersistedStore) -> (r: Vec<u8>)
    ensures
        r@ == store_bytes(store.checksum, store.records@),
{
    let mut words: Vec<u64> = Vec::new();
    words.push(store.checksum);
    words.push(store.records.len() as u64);
    let mut i: usize = 0;
    while i < store.records.len()
        invariant
            i <= store.records.len(),
            words@ == seq![store.checksum, store.records@.len() as u64] + records_words(
                store.records@.take(i as int),
            ),
        decreases store.records.len() - i,
    {
        let (key, index) = store.records[i];
        let ghost before = words@;
        push_key_words(&key, &mut words);
        words.push(index as u64);
        proof {
            assert(store.records@.take(i + 1).drop_last() =~= store.records@.take(i as int));
            assert(words@ =~= before + record_words(store.records@[i as int]));
        }
        i = i + 1;
    }
    proof {
        assert(store.records@.take(i as int) =~= store.records@);
    }
    encode_words(&words)
}

fn word_to_usize(x: u64) -> (r: Option<usize>)
    ensures
        r matches Some(v) ==> v as u64 == x,
        r is None ==> x > usize::MAX,
{
    if x <= usize::MAX as u64 {
        Some(x as usize)
    } else {
        None
    }
}

/// No key has word `j` equal to word `o + j` of `w`, where that word cannot
/// be one of a key's.
proof fn lemma_no_key_with_word(w: Seq<u64>, o: int, j: int)
    requires
        0 <= o,
        o + KEY_WORDS <= w.len(),
        0 <= j < KEY_WORDS,
        (j == 0 && w[o] != 0) || (1 <= j <= 16 && w[o + j] > usize::MAX) || (j == 17 && w[o
            + j] > 1) || (j == 18 && w[o + j] > 3),
    ensures
        forall|k: AutotuneKey| #[trigger] key_words(k) != w.subrange(o, o + KEY_WORDS),
{
    assert forall|k: AutotuneKey| #[trigger] key_words(k) != w.subrange(o, o + KEY_WORDS) by {
        if key_words(k) == w.subrange(o, o + KEY_WORDS) {
            assert(key_words(k)[j] == w[o + j]);
        }
    }
}

fn key_from_words(w: &Vec<u64>, o: usize) -> (r: Option<AutotuneKey>)
    requires
        o + KEY_WORDS <= w@.len(),
    ensures
        r matches Some(k) ==> key_words(k) == w@.subrange(o as int, o + KEY_WORDS),
        r is None ==> forall|k: AutotuneKey| #[trigger] key_words(k) != w@.subrange(o as int, o + KEY_WORDS),
{
    let len = w.len();
    assert(o + KEY_WORDS <= len);
    if w[o] != 0 {
        proof {
            lemma_no_key_with_word(w@, o as int, 0);
        }
        return None;
    }
    let kernel_size_h = match word_to_usize(w[o + 1]) {
        Some(v) => v,
        None => {
            proof {
                lemma_no_key_with_word(w@, o as int, 1);
            }
            return None;
        },
    };
    let kernel_size_w = match word_to_usize(w[o + 2]) {
        Some(v) => v,
        None => {
            proof {
                lemma_no_key_with_word(w@, o as int, 2);
            }
            return None;
        },
    };
    let stride_h = match word_to_usize(w[o + 3]) {
        Some(v) => v,
        None => {
            proof {
                lemma_no_key_with_word(w@, o as int, 3);
            }
            return None;
        },
    };
    let stride_w = match word_to_usize(w[o + 4]) {
        Some(v) => v,
        None => {
            proof {
                lemma_no_key_with_word(w@, o as int, 4);
            }
            return None;
        },
    };
    let padding_h = match word_to_usize(w[o + 5]) {
        Some(v) => v,
        None => {
            proof {
                lemma_no_key_with_word(w@, o as int, 5);
            }
            return None;
        },
    };
    let padding_w = match word_to_usize(w[o + 6]) {
        Some(v) => v,
        None => {
            proof {
                lemma_no_key_with_word(w@, o as int, 6);
            }
            return None;
        },
    };
    let padding_out_h = match word_to_usize(w[o + 7]) {
        Some(v) => v,
        None => {
            proof {
                lemma_no_key_with_word(w@, o as int, 7);
            }
            return None;
        },
    };
    let padding_out_w = match word_to_usize(w[o + 8]) {
        Some(v) => v,
        None => {
            proof {
                lemma_no_key_with_word(w@, o as int, 8);
            }
            return None;
        },
    };
    let dilation_h = match word_to_usize(w[o + 9]) {
        Some(v) => v,
        None => {
            proof {
                lemma_no_key_with_word(w@, o as int, 9);
            }
            return None;
        },
    };
    let dilation_w = match word_to_usize(w[o + 10]) {
        Some(v) => v,
        None => {
            proof {
                lemma_no_key_with_word(w@, o as int, 10);
            }
            return None;
        },
    };
    let groups = match word_to_usize(w[o + 11]) {
        Some(v) => v,
        None => {
            proof {
                lemma_no_key_with_word(w@, o as int, 11);
            }
            return None;
        },
    };
    let in_channels = match word_to_usize(w[o + 12]) {
        Some(v) => v,
        None => {
            proof {
                lemma_no_key_with_word(w@, o as int, 12);
            }
            return None;
        },
    };
    let out_channels = match word_to_usize(w[o + 13]) {
        Some(v) => v,
        None => {
            proof {
                lemma_no_key_with_word(w@, o as int, 13);
            }
            return None;
        },
    };
    let height = match word_to_usize(w[o + 14]) {
        Some(v) => v,
        None => {
            proof {
                lemma_no_key_with_word(w@, o as int, 14);
            }
            return None;
        },
    };
    let width = match word_to_usize(w[o + 15]) {
        Some(v) => v,
        None => {
            proof {
                lemma_no_key_with_word(w@, o as int, 15);
            }
            return None;
        },
    };
    let batch_size = match word_to_usize(w[o + 16]) {
        Some(v) => v,
        None => {
            proof {
                lemma_no_key_with_word(w@, o as int, 16);
            }
            return None;
        },
    };
    let has_bias = if w[o + 17] == 0 {
        false
    } else if w[o + 17] == 1 {
        true
    } else {
        proof {
            lemma_no_key_with_word(w@, o as int, 17);
        }
        return None;
    };
    let dtype = if w[o + 18] == 0 {
        DType::F64
    } else if w[o + 18] == 1 {
        DType::F32
    } else if w[o + 18] == 2 {
        DType::F16
    } else if w[o + 18] == 3 {
        DType::BF16
    } else {
        proof {
            lemma_no_key_with_word(w@, o as int, 18);
        }
        return None;
    };
    let k = AutotuneKey::ConvTranspose2d(
        ConvTranspose2dAutotuneKey {
            kernel_size: Dims2 { h: kernel_size_h, w: kernel_size_w },
            stride: Dims2 { h: stride_h, w: stride_w },
            padding: Dims2 { h: padding_h, w: padding_w },
            padding_out: Dims2 { h: padding_out_h, w: padding_out_w },
            dilation: Dims2 { h: dilation_h, w: dilation_w },
            groups,
            in_channels,
            out_channels,
            height,
            width,
            batch_size,
            has_bias,
            dtype,
        },
    );
    proof {
        assert(key_words(k) =~= w@.subrange(o as int, o + KEY_WORDS));
    }
    Some(k)
}

proof fn lemma_key_words_injective(a: AutotuneKey, b: AutotuneKey)
    requires
        key_words(a) == key_words(b),
    ensures
        a == b,
{
    let (AutotuneKey::ConvTranspose2d(x), AutotuneKey::ConvTranspose2d(y)) = (a, b);
    let wa = key_words(a);
    let wb = key_words(b);
    assert forall|j: int| 0 <= j < KEY_WORDS implies wa[j] == wb[j] by {}
    assert(x.kernel_size == y.kernel_size && x.stride == y.stride && x.padding == y.padding);
    assert(x.padding_out == y.padding_out && x.dilation == y.dilation && x.groups == y.groups);
    assert(x.in_channels == y.in_channels && x.out_channels == y.out_channels);
    assert(x.height == y.height && x.width == y.width && x.batch_size == y.batch_size);
    assert(x.has_bias == y.has_bias);
    assert(dtype_word(x.dtype) == dtype_word(y.dtype));
    assert(x.dtype == y.dtype);
}

/// Round trip: different stores have different bytes, so reading a store's
/// bytes back gives that store.
pub proof fn lemma_store_bytes_injective(
    c1: u64,
    r1: Seq<(AutotuneKey, usize)>,
    c2: u64,
    r2: Seq<(AutotuneKey, usize)>,
)
    requires
        store_bytes(c1, r1) == store_bytes(c2, r2),
    ensures
        c1 == c2,
        r1 == r2,
{
    lemma_words_bytes_injective(store_words(c1, r1), store_words(c2, r2));
    lemma_store_words_shape(c1, r1);
    lemma_store_words_shape(c2, r2);
    assert(r1.len() == r2.len());
    assert forall|i: int| 0 <= i < r1.len() implies r1[i] == r2[i] by {
        let a = record_words(r1[i]);
        let b = record_words(r2[i]);
        assert(a == b);
        assert(a.drop_last() =~= key_words(r1[i].0));
        assert(b.drop_last() =~= key_words(r2[i].0));
        lemma_key_words_injective(r1[i].0, r2[i].0);
        assert(a[KEY_WORDS as int] == b[KEY_WORDS as int]);
    }
    assert(r1 =~= r2);
}

/// Reads a persisted store back from its bytes: `None` where the bytes are
/// not those of any store.
pub fn decode_store(bytes: &Vec<u8>) -> (r: Option<PersistedStore>)
    ensures
        r matches Some(s) ==> store_bytes(s.checksum, s.records@) == bytes@,
        (exists|c: u64, recs: Seq<(AutotuneKey, usize)>| #[trigger] store_bytes(c, recs) == bytes@)
            ==> r is Some,
{
    let words = match decode_words(bytes) {
        Some(w) => w,
        None => {
            proof {
                assert forall|c: u64, recs: Seq<(AutotuneKey, usize)>| #[trigger]
                    store_bytes(c, recs) != bytes@ by {
                    lemma_words_bytes_len(store_words(c, recs));
                }
            }
            return None;
        },
    };
    let len = words.len();
    if len < 2 {
        proof {
            assert forall|c: u64, recs: Seq<(AutotuneKey, usize)>| #[trigger]
                store_bytes(c, recs) != bytes@ by {
                if store_bytes(c, recs) == bytes@ {
                    lemma_words_bytes_injective(store_words(c, recs), words@);
                    lemma_store_words_shape(c, recs);
                }
            }
        }
        return None;
    }
    let checksum = words[0];
    let count = words[1];
    let body = len - 2;
    if body % RECORD_WORDS != 0 || (body / RECORD_WORDS) as u64 != count {
        proof {
            assert forall|c: u64, recs: Seq<(AutotuneKey, usize)>| #[trigger]
                store_bytes(c, recs) != bytes@ by {
                if store_bytes(c, recs) == bytes@ {
                    lemma_words_bytes_injective(store_words(c, recs), words@);
                    lemma_store_words_shape(c, recs);
                    let m = recs.len();
                    assert(body == RECORD_WORDS * m);
                    assert((RECORD_WORDS * m) % (RECORD_WORDS as int) == 0 && (RECORD_WORDS * m)
                        / (RECORD_WORDS as int) == m) by (nonlinear_arith);
                }
            }
        }
        return None;
    }
    let n = body / RECORD_WORDS;
    let mut records: Vec<(AutotuneKey, usize)> = Vec::new();
    let mut i: usize = 0;
    while i < n
        invariant
            i <= n,
            len == words@.len(),
            len == 2 + RECORD_WORDS * n,
            count == n as u64,
            checksum == words@[0],
            count == words@[1],
            words_bytes(words@) == bytes@,
            records@.len() == i,
            words@.subrange(0, 2 + RECORD_WORDS * i) == seq![checksum, count] + records_words(
                records@,
            ),
        decreases n - i,
    {
        let o = 2 + RECORD_WORDS * i;
        let key = match key_from_words(&words, o) {
            Some(k) => k,
            None => {
                proof {
                    assert forall|c: u64, recs: Seq<(AutotuneKey, usize)>| #[trigger]
                        store_bytes(c, recs) != bytes@ by {
                        if store_bytes(c, recs) == bytes@ {
                            lemma_words_bytes_injective(store_words(c, recs), words@);
                            lemma_store_words_shape(c, recs);
                            assert(recs.len() == n);
                            let rw = record_words(recs[i as int]);
                            assert(rw == words@.subrange(o as int, o + RECORD_WORDS));
                            assert(rw.drop_last() =~= key_words(recs[i as int].0));
                            assert(words@.subrange(o as int, o + KEY_WORDS) =~= rw.drop_last());
                        }
                    }
                }
                return None;
            },
        };
        let index = match word_to_usize(words[o + KEY_WORDS]) {
            Some(v) => v,
            None => {
                proof {
                    assert forall|c: u64, recs: Seq<(AutotuneKey, usize)>| #[trigger]
                        store_bytes(c, recs) != bytes@ by {
                        if store_bytes(c, recs) == bytes@ {
                            lemma_words_bytes_injective(store_words(c, recs), words@);
                            lemma_store_words_shape(c, recs);
                            assert(recs.len() == n);
                            let rw = record_words(recs[i as int]);
                            assert(rw == words@.subrange(o as int, o + RECORD_WORDS));
                            assert(rw[KEY_WORDS as int] == words@[o + KEY_WORDS]);
                        }
                    }
                }
                return None;
            },
        };
        let ghost before = records@;
        records.push((key, index));
        proof {
            assert(records@.drop_last() =~= before);
            assert(record_words((key, index)) =~= words@.subrange(o as int, o + RECORD_WORDS));
            assert(words@.subrange(0, 2 + RECORD_WORDS * (i + 1)) =~= words@.subrange(0, o as int)
                + words@.subrange(o as int, o + RECORD_WORDS));
        }
        i = i + 1;
    }
    proof {
        assert(words@.subrange(0, 2 + RECORD_WORDS * i) =~= words@);
        assert(store_words(checksum, records@) =~= words@);
    }
    Some(PersistedStore { checksum, records })
}

/// Offset basis of the 64-bit FNV-1a hash.
pub const FNV_OFFSET: u64 = 0xcbf2_9ce4_8422_2325;

/// Prime of the 64-bit FNV-1a hash.
pub const FNV_PRIME: u64 = 0x0000_0100_0000_01b3;

/// One FNV-1a step: mix in a byte, then multiply modulo 2^64.
pub open spec fn fnv_step(h: u64, b: u8) -> u64 {
    (((h ^ (b as u64)) as int * FNV_PRIME as int) % 0x1_0000_0000_0000_0000) as u64
}

/// The 64-bit FNV-1a hash of `s`.
pub open spec fn fnv1a(s: Seq<u8>) -> u64
    decreases s.len(),
{
    if s.len() == 0 {
        FNV_OFFSET
    } else {
        fnv_step(fnv1a(s.drop_last()), s.last())
    }
}

/// The checksum that stamps a device's persisted store: the FNV-1a hash of
/// the bytes that identify its hardware and driver. It depends on those bytes
/// alone, so it is the same in every process.
pub fn identity_checksum(identity: &Vec<u8>) -> (r: u64)
    ensures
        r == fnv1a(identity@),
{
    let mut h: u64 = FNV_OFFSET;
    let mut i: usize = 0;
    while i < identity.len()
        invariant
            i <= identity.len(),
            h == fnv1a(identity@.take(i as int)),
        decreases identity.len() - i,
    {
        let mixed = h ^ (identity[i] as u64);
        let wide = (mixed as u128) * (FNV_PRIME as u128);
        h = (wide % 0x1_0000_0000_0000_0000u128) as u64;
        proof {
            assert(identity@.take(i + 1).drop_last() =~= identity@.take(i as int));
        }
        i = i + 1;
    }
    proof {
        assert(identity@.take(i as int) =~= identity@);
    }
    h
}

proof fn lemma_words_bytes_first(w: Seq<u64>)
    requires
        w.len() >= 1,
    ensures
        words_bytes(w).subrange(0, 8) == le_bytes(w[0]),
    decreases w.len(),
{
    lemma_words_bytes_len(w);
    if w.len() == 1 {
        assert(w.drop_last() =~= Seq::<u64>::empty());
        assert(words_bytes(w) =~= le_bytes(w[0]));
    } else {
        let init = w.drop_last();
        lemma_words_bytes_first(init);
        lemma_words_bytes_len(init);
        assert(words_bytes(w).subrange(0, 8) =~= words_bytes(init).subrange(0, 8));
    }
}

/// The checksum at the head of a persisted store's bytes, read before any
/// record: `None` where there are fewer than eight bytes.
pub fn read_checksum(bytes: &Vec<u8>) -> (r: Option<u64>)
    ensures
        r is Some <==> bytes@.len() >= 8,
        r matches Some(c) ==> le_bytes(c) == bytes@.subrange(0, 8),
        forall|c: u64, recs: Seq<(AutotuneKey, usize)>|
            #[trigger] store_bytes(c, recs) == bytes@ ==> r == Some(c),
{
    if bytes.len() < 8 {
        proof {
            assert forall|c: u64, recs: Seq<(AutotuneKey, usize)>| #[trigger]
                store_bytes(c, recs) != bytes@ by {
                lemma_words_bytes_len(store_words(c, recs));
            }
        }
        return None;
    }
    let b0 = bytes[0];
    let b1 = bytes[1];
    let b2 = bytes[2];
    let b3 = bytes[3];
    let b4 = bytes[4];
    let b5 = bytes[5];
    let b6 = bytes[6];
    let b7 = bytes[7];
    let x = (b0 as u64) | ((b1 as u64) << 8u64) | ((b2 as u64) << 16u64) | ((b3 as u64) << 24u64)
        | ((b4 as u64) << 32u64) | ((b5 as u64) << 40u64) | ((b6 as u64) << 48u64) | ((b7 as u64)
        << 56u64);
    proof {
        lemma_le_bytes_of_parts(b0, b1, b2, b3, b4, b5, b6, b7);
        assert(le_bytes(x) =~= bytes@.subrange(0, 8));
        assert forall|c: u64, recs: Seq<(AutotuneKey, usize)>| #[trigger]
            store_bytes(c, recs) == bytes@ implies x == c by {
            lemma_words_bytes_first(store_words(c, recs));
            lemma_le_bytes_injective(x, c);
        }
    }
    Some(x)
}

} // verus!
