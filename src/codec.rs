//! Encoding to and decoding from whole byte buffers, and the laws of the codec.
use vstd::prelude::*;

use crate::bytes::lemma_bytes_decoding;
use crate::collections::items_decoding;
use crate::encoding::{bigsize_decoding, Codec, DecodeError};
use crate::maps::{
    entry_keys, keys_ascending, lemma_entries_refuse_unsorted, lemma_set_keys_refuse_unsorted,
    CodecKey, OrderedMap, OrderedSet,
};

verus! {

/// What a whole byte sequence decodes to: one value, with nothing after it.
pub open spec fn whole_decoding<T: Codec>(b: Seq<u8>) -> Result<T::V, DecodeError> {
    match T::decoding(b) {
        Err(e) => Err(e),
        Ok((v, n)) => if n == b.len() {
            Ok(v)
        } else {
            Err(DecodeError::TrailingBytes)
        },
    }
}

/// The encoding of a value, in a new buffer.
pub fn consensus_encode_to_vec<T: Codec>(value: &T) -> (r: Vec<u8>)
    requires
        T::encodable(value.deep_view()),
    ensures
        r@ == T::encoding(value.deep_view()),
{
    let mut out: Vec<u8> = Vec::new();
    value.consensus_encode(&mut out);
    assert(out@ =~= T::encoding(value.deep_view()));
    out
}

/// Decodes a value that fills the whole buffer.
pub fn consensus_decode_whole<T: Codec>(b: &[u8]) -> (r: Result<T, DecodeError>)
    ensures
        match r {
            Ok(v) => whole_decoding::<T>(b@) == Ok::<T::V, DecodeError>(v.deep_view()),
            Err(e) => whole_decoding::<T>(b@) == Err::<T::V, DecodeError>(e),
        },
{
    assert(b@.subrange(0, b@.len() as int) =~= b@);
    match T::consensus_decode(b, 0) {
        Err(e) => Err(e),
        Ok((v, end)) => if end == b.len() {
            Ok(v)
        } else {
            Err(DecodeError::TrailingBytes)
        },
    }
}

/// Decoding the encoding of a value gives back that value.
pub proof fn lemma_codec_round_trip<T: Codec>(v: T::V)
    requires
        T::encodable(v),
    ensures
        whole_decoding::<T>(T::encoding(v)) == Ok::<T::V, DecodeError>(v),
{
    T::lemma_round_trip(v, Seq::empty());
    assert(T::encoding(v) + Seq::<u8>::empty() =~= T::encoding(v));
}

/// A value that fills the whole input is the encoding of that value:
/// no other bytes decode to it.
pub proof fn lemma_whole_canonical<T: Codec>(b: Seq<u8>)
    ensures
        whole_decoding::<T>(b) matches Ok(v) ==> T::encodable(v) && T::encoding(v) == b,
{
    T::lemma_canonical(b);
    assert(b.take(b.len() as int) =~= b);
}

/// Equal values come only from equal bytes: two inputs that decode to the
/// same value are the same input.
pub proof fn lemma_decoding_injective<T: Codec>(a: Seq<u8>, b: Seq<u8>)
    requires
        whole_decoding::<T>(a) is Ok,
        whole_decoding::<T>(a) == whole_decoding::<T>(b),
    ensures
        a == b,
{
    lemma_whole_canonical::<T>(a);
    lemma_whole_canonical::<T>(b);
}

/// Map entries written with keys out of ascending order, or with a key
/// repeated, are refused: the bytes that a writer which skips the ordering
/// would produce for them do not decode as a map, whatever follows them.
pub proof fn lemma_map_refuses_unsorted_keys<K: CodecKey, V: Codec>(
    es: Seq<(K::V, V::V)>,
    rest: Seq<u8>,
)
    requires
        <Vec<(K, V)> as Codec>::encodable(es),
        !keys_ascending::<K>(entry_keys::<K, V>(es)),
    ensures
        <OrderedMap<K, V> as Codec>::decoding(<Vec<(K, V)> as Codec>::encoding(es) + rest) is Err,
{
    let body = crate::collections::concat_encodings::<(K, V)>(es) + rest;
    crate::encoding::lemma_bigsize_round_trip(es.len() as u64, body);
    let b = <Vec<(K, V)> as Codec>::encoding(es) + rest;
    let head = crate::encoding::bigsize_bytes(es.len() as u64);
    assert(b =~= head + body);
    assert(b.subrange(head.len() as int, b.len() as int) =~= body);
    lemma_entries_refuse_unsorted::<K, V>(es, None, rest);
}

/// Set keys written out of ascending order, or with a key repeated, are
/// refused.
pub proof fn lemma_set_refuses_unsorted_keys<K: CodecKey>(ks: Seq<K::V>, rest: Seq<u8>)
    requires
        <Vec<K> as Codec>::encodable(ks),
        !keys_ascending::<K>(ks),
    ensures
        <OrderedSet<K> as Codec>::decoding(<Vec<K> as Codec>::encoding(ks) + rest) is Err,
{
    let body = crate::collections::concat_encodings::<K>(ks) + rest;
    crate::encoding::lemma_bigsize_round_trip(ks.len() as u64, body);
    let b = <Vec<K> as Codec>::encoding(ks) + rest;
    let head = crate::encoding::bigsize_bytes(ks.len() as u64);
    assert(b =~= head + body);
    assert(b.subrange(head.len() as int, b.len() as int) =~= body);
    lemma_set_keys_refuse_unsorted::<K>(ks, None, rest);
}

/// Every value of the type takes at least one byte.
pub open spec fn consumes_bytes<T: Codec>() -> bool {
    forall|s: Seq<u8>| #[trigger] T::decoding(s) matches Ok((_v, k)) ==> k >= 1
}

/// Reading `n` items of such a type takes at least `n` bytes.
pub proof fn lemma_items_consume<T: Codec>(b: Seq<u8>, n: nat)
    requires
        consumes_bytes::<T>(),
    ensures
        items_decoding::<T>(b, n) matches Ok((_vs, m)) ==> m >= n && m <= b.len(),
    decreases n,
{
    crate::collections::lemma_items_canonical::<T>(b, n);
    if n > 0 {
        match T::decoding(b) {
            Ok((v, k)) => {
                lemma_items_consume::<T>(b.subrange(k as int, b.len() as int), (n - 1) as nat);
            },
            Err(_) => {},
        }
    }
}

/// A vector whose declared count exceeds the bytes that follow it is
/// refused, whatever the count, when every item takes at least one byte:
/// the decoder never runs past the input.
pub proof fn lemma_vec_refuses_overlong_count<T: Codec>(b: Seq<u8>)
    requires
        consumes_bytes::<T>(),
        bigsize_decoding(b) matches Ok((n, k)) && k + n > b.len(),
    ensures
        <Vec<T> as Codec>::decoding(b) is Err,
{
    match bigsize_decoding(b) {
        Ok((n, k)) => {
            lemma_items_consume::<T>(b.subrange(k as int, b.len() as int), n as nat);
        },
        Err(_) => {},
    }
}

/// BigSize integers take at least one byte.
pub proof fn lemma_u16_consumes_bytes()
    ensures
        consumes_bytes::<u16>(),
{
}

/// A byte buffer whose declared length exceeds what follows it is refused as
/// a short read.
pub proof fn lemma_bytes_refuse_overlong_length(b: Seq<u8>)
    requires
        bigsize_decoding(b) matches Ok((n, k)) && n + k > b.len(),
    ensures
        <Vec<u8> as Codec>::decoding(b) == Err::<(Seq<u8>, nat), DecodeError>(
            DecodeError::ShortRead,
        ),
{
    lemma_bytes_decoding(b);
}

} // verus!
