//! Byte buffers, strings and fixed-size byte arrays.
use vstd::prelude::*;
use vstd::utf8::{decode_utf8, encode_utf8, valid_utf8};

use crate::collections::{concat_encodings, items_decoding};
use crate::encoding::{bigsize_decoding, read_bigsize, write_bigsize, Codec, DecodeError};

verus! {

broadcast use vstd::utf8::encode_utf8_valid_utf8, vstd::utf8::encode_utf8_decode_utf8;

/// Bytes are pulled from the input at most this many at a time.
pub const READ_CHUNK_SIZE: usize = 65536;

/// A byte sequence's items are its bytes.
pub proof fn lemma_concat_bytes(s: Seq<u8>)
    ensures
        concat_encodings::<u8>(s) == s,
    decreases s.len(),
{
    if s.len() > 0 {
        lemma_concat_bytes(s.drop_first());
        assert(seq![s[0]] + s.drop_first() =~= s);
    }
}

/// Reading `n` bytes as items takes the first `n` bytes, or runs short.
pub proof fn lemma_bytes_items(s: Seq<u8>, n: nat)
    ensures
        items_decoding::<u8>(s, n) == if n <= s.len() {
            Ok::<(Seq<u8>, nat), DecodeError>((s.take(n as int), n))
        } else {
            Err(DecodeError::ShortRead)
        },
    decreases n,
{
    if n == 0 {
        assert(s.take(0) =~= Seq::<u8>::empty());
    } else if s.len() == 0 {
    } else {
        let t = s.subrange(1, s.len() as int);
        lemma_bytes_items(t, (n - 1) as nat);
        if n <= s.len() {
            assert(seq![s[0]] + t.take(n - 1) =~= s.take(n as int));
        }
    }
}

/// What a length-prefixed byte buffer decodes to.
pub proof fn lemma_bytes_decoding(b: Seq<u8>)
    ensures
        <Vec<u8> as Codec>::decoding(b) == match bigsize_decoding(b) {
            Err(e) => Err(e),
            Ok((n, k)) => if n + k <= b.len() {
                Ok::<(Seq<u8>, nat), DecodeError>((b.subrange(k as int, k + n), (k + n) as nat))
            } else {
                Err(DecodeError::ShortRead)
            },
        },
{
    match bigsize_decoding(b) {
        Err(e) => {},
        Ok((n, k)) => {
            let s = b.subrange(k as int, b.len() as int);
            lemma_bytes_items(s, n as nat);
            if n + k <= b.len() {
                assert(s.take(n as int) =~= b.subrange(k as int, k + n));
                assert(Seq::<u8>::empty() + b.subrange(k as int, k + n) =~= b.subrange(
                    k as int,
                    k + n,
                ));
            }
        },
    }
}

/// Appends a byte buffer as its length and then its bytes.
pub fn consensus_encode_bytes(bytes: &[u8], out: &mut Vec<u8>)
    ensures
        final(out)@ == old(out)@ + <Vec<u8> as Codec>::encoding(bytes@),
{
    let ghost start = out@;
    write_bigsize(out, bytes.len() as u64);
    let ghost mid = out@;
    let mut i: usize = 0;
    while i < bytes.len()
        invariant
            i <= bytes@.len(),
            out@ == mid + bytes@.take(i as int),
        decreases bytes@.len() - i,
    {
        out.push(bytes[i]);
        i = i + 1;
        assert(out@ =~= mid + bytes@.take(i as int));
    }
    proof {
        lemma_concat_bytes(bytes@);
        assert(bytes@.take(i as int) =~= bytes@);
    }
}

/// Reads `len` bytes at `pos`, which may claim more than the input holds.
///
/// The bytes are taken `chunk_size` at a time and the buffer grows only by
/// what was present, so a forged length costs no memory; an input that ends
/// early is a short read.
pub fn read_bytes_from_finite_reader(b: &[u8], pos: usize, len: usize, chunk_size: usize) -> (r:
    Result<(Vec<u8>, usize), DecodeError>)
    requires
        pos <= b@.len(),
        chunk_size > 0,
    ensures
        match r {
            Ok((v, end)) => pos + len <= b@.len() && end == pos + len && v@ == b@.subrange(
                pos as int,
                pos + len,
            ),
            Err(e) => pos + len > b@.len() && e == DecodeError::ShortRead,
        },
{
    let mut ret: Vec<u8> = Vec::new();
    let mut left: usize = len;
    let mut p: usize = pos;
    while left > 0
        invariant
            pos <= p <= b@.len(),
            p + left == pos + len,
            ret@ == b@.subrange(pos as int, p as int),
            chunk_size > 0,
        decreases left,
    {
        let chunk = if left < chunk_size {
            left
        } else {
            chunk_size
        };
        if b.len() - p < chunk {
            return Err(DecodeError::ShortRead);
        }
        let chunk_end = p + chunk;
        while p < chunk_end
            invariant
                pos <= p <= chunk_end <= b@.len(),
                ret@ == b@.subrange(pos as int, p as int),
            decreases chunk_end - p,
        {
            ret.push(b[p]);
            p = p + 1;
            assert(ret@ =~= b@.subrange(pos as int, p as int));
        }
        left = left - chunk;
    }
    Ok((ret, p))
}

/// Reads a length-prefixed byte buffer at `pos`.
pub fn consensus_decode_bytes_from_finite_reader(b: &[u8], pos: usize) -> (r: Result<
    (Vec<u8>, usize),
    DecodeError,
>)
    requires
        pos <= b@.len(),
    ensures
        match r {
            Ok((v, end)) => pos <= end <= b@.len() && <Vec<u8> as Codec>::decoding(
                b@.subrange(pos as int, b@.len() as int),
            ) == Ok::<(Seq<u8>, nat), DecodeError>((v@, (end - pos) as nat)),
            Err(e) => <Vec<u8> as Codec>::decoding(b@.subrange(pos as int, b@.len() as int))
                == Err::<(Seq<u8>, nat), DecodeError>(e),
        },
{
    let ghost s = b@.subrange(pos as int, b@.len() as int);
    proof {
        lemma_bytes_decoding(s);
    }
    let (n, start) = match read_bigsize(b, pos) {
        Ok(x) => x,
        Err(e) => return Err(e),
    };
    // A length beyond the address space is beyond the input too.
    let available = b.len();
    if n > usize::MAX as u64 {
        return Err(DecodeError::ShortRead);
    }
    match read_bytes_from_finite_reader(b, start, n as usize, READ_CHUNK_SIZE) {
        Ok((v, end)) => {
            assert(s.subrange((start - pos) as int, (start - pos) + n) =~= b@.subrange(
                start as int,
                end as int,
            ));
            Ok((v, end))
        },
        Err(e) => Err(e),
    }
}

/// Appends a fixed-size byte array as its bytes, with no length.
pub fn consensus_encode_bytes_static<const N: usize>(bytes: &[u8; N], out: &mut Vec<u8>)
    ensures
        final(out)@ == old(out)@ + bytes@,
{
    let ghost mid = out@;
    let mut i: usize = 0;
    while i < N
        invariant
            i <= N,
            bytes@.len() == N,
            out@ == mid + bytes@.take(i as int),
        decreases N - i,
    {
        out.push(bytes[i]);
        i = i + 1;
        assert(out@ =~= mid + bytes@.take(i as int));
    }
    assert(bytes@.take(i as int) =~= bytes@);
}

/// Reads a fixed-size byte array at `pos`.
pub fn consensus_decode_bytes_static_from_finite_reader<const N: usize>(b: &[u8], pos: usize) -> (r:
    Result<([u8; N], usize), DecodeError>)
    requires
        pos <= b@.len(),
    ensures
        match r {
            Ok((v, end)) => pos + N <= b@.len() && end == pos + N && v@ == b@.subrange(
                pos as int,
                pos + N,
            ),
            Err(e) => pos + N > b@.len() && e == DecodeError::ShortRead,
        },
{
    if b.len() - pos < N {
        return Err(DecodeError::ShortRead);
    }
    let mut bytes = [0u8; N];
    let mut i: usize = 0;
    while i < N
        invariant
            i <= N,
            pos + N <= b@.len(),
            b@.len() <= usize::MAX,
            bytes@.len() == N,
            bytes@.take(i as int) == b@.subrange(pos as int, pos + i),
        decreases N - i,
    {
        bytes[i] = b[pos + i];
        i = i + 1;
        assert(bytes@.take(i as int) =~= b@.subrange(pos as int, pos + i));
    }
    assert(bytes@ =~= bytes@.take(N as int));
    Ok((bytes, pos + N))
}

/// Raw bytes, as many as the type holds.
impl<const N: usize> Codec for [u8; N] {
    open spec fn encodable(v: Seq<u8>) -> bool {
        v.len() == N
    }

    open spec fn encoding(v: Seq<u8>) -> Seq<u8> {
        v
    }

    open spec fn decoding(b: Seq<u8>) -> Result<(Seq<u8>, nat), DecodeError> {
        if b.len() < N {
            Err(DecodeError::ShortRead)
        } else {
            Ok((b.take(N as int), N as nat))
        }
    }

    proof fn lemma_round_trip(v: Seq<u8>, rest: Seq<u8>) {
        assert((v + rest).take(N as int) =~= v);
    }

    proof fn lemma_canonical(b: Seq<u8>) {
    }

    fn consensus_encode(&self, out: &mut Vec<u8>) {
        assert(self.deep_view() =~= self@);
        consensus_encode_bytes_static(self, out);
    }

    fn consensus_decode(b: &[u8], pos: usize) -> (r: Result<([u8; N], usize), DecodeError>) {
        let ghost s = b@.subrange(pos as int, b@.len() as int);
        let r = consensus_decode_bytes_static_from_finite_reader(b, pos);
        match r {
            Ok((v, end)) => {
                assert(v.deep_view() =~= v@);
                assert(s.take(N as int) =~= b@.subrange(pos as int, pos + N));
            },
            Err(_) => {},
        }
        r
    }
}

/// Relies on `String::from_utf8`: the bytes become a string exactly when they
/// are UTF-8, and the string holds the characters they encode.
#[verifier::external_body]
fn string_from_utf8(bytes: Vec<u8>) -> (r: Option<String>)
    ensures
        r is Some <==> valid_utf8(bytes@),
        r matches Some(s) ==> s@ == decode_utf8(bytes@),
{
    String::from_utf8(bytes).ok()
}

/// The UTF-8 bytes, as a byte buffer.
impl Codec for String {
    open spec fn encodable(v: Seq<char>) -> bool {
        encode_utf8(v).len() <= u64::MAX
    }

    open spec fn encoding(v: Seq<char>) -> Seq<u8> {
        <Vec<u8> as Codec>::encoding(encode_utf8(v))
    }

    open spec fn decoding(b: Seq<u8>) -> Result<(Seq<char>, nat), DecodeError> {
        match <Vec<u8> as Codec>::decoding(b) {
            Err(e) => Err(e),
            Ok((bytes, n)) => if valid_utf8(bytes) {
                Ok((decode_utf8(bytes), n))
            } else {
                Err(DecodeError::InvalidUtf8)
            },
        }
    }

    proof fn lemma_round_trip(v: Seq<char>, rest: Seq<u8>) {
        <Vec<u8> as Codec>::lemma_round_trip(encode_utf8(v), rest);
    }

    proof fn lemma_canonical(b: Seq<u8>) {
        <Vec<u8> as Codec>::lemma_canonical(b);
        match <Vec<u8> as Codec>::decoding(b) {
            Ok((bytes, n)) => {
                if valid_utf8(bytes) {
                    vstd::utf8::decode_utf8_encode_utf8(bytes);
                }
            },
            Err(_) => {},
        }
    }

    fn consensus_encode(&self, out: &mut Vec<u8>) {
        let bytes = self.as_str().as_bytes();
        consensus_encode_bytes(bytes, out);
    }

    fn consensus_decode(b: &[u8], pos: usize) -> (r: Result<(String, usize), DecodeError>) {
        match consensus_decode_bytes_from_finite_reader(b, pos) {
            Err(e) => Err(e),
            Ok((bytes, end)) => match string_from_utf8(bytes) {
                Some(s) => Ok((s, end)),
                None => Err(DecodeError::InvalidUtf8),
            },
        }
    }
}

} // verus!
