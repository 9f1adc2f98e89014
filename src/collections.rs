//! Encodings of sequences, optional values, pairs and boxes.
use vstd::prelude::*;

use std::collections::VecDeque;

use crate::encoding::{
    bigsize_bytes, bigsize_decoding, lemma_bigsize_canonical, lemma_bigsize_round_trip, read_bigsize,
    write_bigsize, Codec, DecodeError,
};

verus! {

/// The encodings of the items, one after another.
pub open spec fn concat_encodings<T: Codec>(vs: Seq<T::V>) -> Seq<u8>
    decreases vs.len(),
{
    if vs.len() == 0 {
        Seq::empty()
    } else {
        T::encoding(vs[0]) + concat_encodings::<T>(vs.drop_first())
    }
}

/// Reads `n` items one after another from the start of `b`.
pub open spec fn items_decoding<T: Codec>(b: Seq<u8>, n: nat) -> Result<
    (Seq<T::V>, nat),
    DecodeError,
>
    decreases n,
{
    if n == 0 {
        Ok((Seq::empty(), 0))
    } else {
        match T::decoding(b) {
            Err(e) => Err(e),
            Ok((v, k)) => match items_decoding::<T>(b.subrange(k as int, b.len() as int), (n - 1) as nat) {
                Err(e) => Err(e),
                Ok((vs, m)) => Ok((seq![v] + vs, k + m)),
            },
        }
    }
}

/// Items read so far, put in front of what the rest of the input yields.
pub open spec fn prepend_items<A>(got: Seq<A>, used: nat, r: Result<(Seq<A>, nat), DecodeError>) -> Result<
    (Seq<A>, nat),
    DecodeError,
> {
    match r {
        Ok((vs, m)) => Ok((got + vs, used + m)),
        Err(e) => Err(e),
    }
}

/// Every item has an encoding.
pub open spec fn all_encodable<T: Codec>(vs: Seq<T::V>) -> bool {
    forall|i: int| 0 <= i < vs.len() ==> T::encodable(#[trigger] vs[i])
}

pub proof fn lemma_concat_push<T: Codec>(vs: Seq<T::V>, x: T::V)
    ensures
        concat_encodings::<T>(vs.push(x)) == concat_encodings::<T>(vs) + T::encoding(x),
    decreases vs.len(),
{
    if vs.len() == 0 {
        assert(vs.push(x).drop_first() =~= Seq::<T::V>::empty());
        assert(vs =~= Seq::<T::V>::empty());
        assert(vs.push(x)[0] == x);
        assert(concat_encodings::<T>(vs.push(x).drop_first()) == Seq::<u8>::empty());
        assert(concat_encodings::<T>(vs.push(x)) =~= T::encoding(x));
    } else {
        lemma_concat_push::<T>(vs.drop_first(), x);
        assert(vs.push(x).drop_first() =~= vs.drop_first().push(x));
        assert(concat_encodings::<T>(vs.push(x)) =~= concat_encodings::<T>(vs) + T::encoding(x));
    }
}

/// Encoded items are read back, whatever follows them.
pub proof fn lemma_items_round_trip<T: Codec>(vs: Seq<T::V>, rest: Seq<u8>)
    requires
        all_encodable::<T>(vs),
    ensures
        items_decoding::<T>(concat_encodings::<T>(vs) + rest, vs.len()) == Ok::<
            (Seq<T::V>, nat),
            DecodeError,
        >((vs, concat_encodings::<T>(vs).len())),
    decreases vs.len(),
{
    if vs.len() == 0 {
        assert(vs =~= Seq::<T::V>::empty());
    } else {
        let tail = concat_encodings::<T>(vs.drop_first()) + rest;
        T::lemma_round_trip(vs[0], tail);
        let b = concat_encodings::<T>(vs) + rest;
        assert(b =~= T::encoding(vs[0]) + tail);
        assert(b.subrange(T::encoding(vs[0]).len() as int, b.len() as int) =~= tail);
        assert(all_encodable::<T>(vs.drop_first())) by {
            assert forall|i: int| 0 <= i < vs.drop_first().len() implies T::encodable(
                #[trigger] vs.drop_first()[i],
            ) by {
                assert(vs.drop_first()[i] == vs[i + 1]);
            }
        }
        lemma_items_round_trip::<T>(vs.drop_first(), rest);
        assert(seq![vs[0]] + vs.drop_first() =~= vs);
    }
}

/// Items that are read are the encodings of what was read, one after another.
pub proof fn lemma_items_canonical<T: Codec>(b: Seq<u8>, n: nat)
    ensures
        items_decoding::<T>(b, n) matches Ok((vs, m)) ==> {
            &&& vs.len() == n
            &&& m <= b.len()
            &&& all_encodable::<T>(vs)
            &&& concat_encodings::<T>(vs) == b.take(m as int)
        },
    decreases n,
{
    if n == 0 {
        assert(b.take(0) =~= Seq::<u8>::empty());
    } else {
        T::lemma_canonical(b);
        match T::decoding(b) {
            Ok((v, k)) => {
                let b1 = b.subrange(k as int, b.len() as int);
                lemma_items_canonical::<T>(b1, (n - 1) as nat);
                match items_decoding::<T>(b1, (n - 1) as nat) {
                    Ok((vs, m)) => {
                        let all = seq![v] + vs;
                        assert(all.drop_first() =~= vs);
                        assert(all[0] == v);
                        assert(b.take((k + m) as int) =~= b.take(k as int) + b1.take(m as int));
                        assert forall|i: int| 0 <= i < all.len() implies T::encodable(
                            #[trigger] all[i],
                        ) by {
                            if i > 0 {
                                assert(all[i] == vs[i - 1]);
                            }
                        }
                    },
                    Err(_) => {},
                }
            },
            Err(_) => {},
        }
    }
}

/// Unfolds one step of reading items: the first item, then the others.
proof fn lemma_items_step<T: Codec>(b: Seq<u8>, pos: int, end: int, n: nat, v: T::V)
    requires
        0 <= pos <= end <= b.len(),
        n > 0,
        T::decoding(b.subrange(pos, b.len() as int)) == Ok::<(T::V, nat), DecodeError>(
            (v, (end - pos) as nat),
        ),
    ensures
        items_decoding::<T>(b.subrange(pos, b.len() as int), n) == prepend_items(
            seq![v],
            (end - pos) as nat,
            items_decoding::<T>(b.subrange(end, b.len() as int), (n - 1) as nat),
        ),
{
    let s = b.subrange(pos, b.len() as int);
    assert(s.subrange(end - pos, s.len() as int) =~= b.subrange(end, b.len() as int));
}

/// A length, then the items in order.
impl<T: Codec> Codec for Vec<T> {
    open spec fn encodable(v: Seq<T::V>) -> bool {
        v.len() <= u64::MAX && all_encodable::<T>(v)
    }

    open spec fn encoding(v: Seq<T::V>) -> Seq<u8> {
        bigsize_bytes(v.len() as u64) + concat_encodings::<T>(v)
    }

    open spec fn decoding(b: Seq<u8>) -> Result<(Seq<T::V>, nat), DecodeError> {
        match bigsize_decoding(b) {
            Err(e) => Err(e),
            Ok((n, k)) => prepend_items(
                Seq::empty(),
                k,
                items_decoding::<T>(b.subrange(k as int, b.len() as int), n as nat),
            ),
        }
    }

    proof fn lemma_round_trip(v: Seq<T::V>, rest: Seq<u8>) {
        let body = concat_encodings::<T>(v) + rest;
        lemma_bigsize_round_trip(v.len() as u64, body);
        let b = Self::encoding(v) + rest;
        assert(b =~= bigsize_bytes(v.len() as u64) + body);
        assert(b.subrange(bigsize_bytes(v.len() as u64).len() as int, b.len() as int) =~= body);
        lemma_items_round_trip::<T>(v, rest);
        assert(Seq::<T::V>::empty() + v =~= v);
    }

    proof fn lemma_canonical(b: Seq<u8>) {
        lemma_bigsize_canonical(b);
        match bigsize_decoding(b) {
            Ok((n, k)) => {
                let b1 = b.subrange(k as int, b.len() as int);
                lemma_items_canonical::<T>(b1, n as nat);
                match items_decoding::<T>(b1, n as nat) {
                    Ok((vs, m)) => {
                        assert(Seq::<T::V>::empty() + vs =~= vs);
                        assert(b.take((k + m) as int) =~= b.take(k as int) + b1.take(m as int));
                    },
                    Err(_) => {},
                }
            },
            Err(_) => {},
        }
    }

    fn consensus_encode(&self, out: &mut Vec<u8>) {
        let ghost start = out@;
        let ghost vs = self.deep_view();
        write_bigsize(out, self.len() as u64);
        let mut i: usize = 0;
        while i < self.len()
            invariant
                vs == self.deep_view(),
                Self::encodable(vs),
                i <= vs.len(),
                out@ == start + bigsize_bytes(vs.len() as u64) + concat_encodings::<T>(
                    vs.take(i as int),
                ),
            decreases self.len() - i,
        {
            assert(T::encodable(vs[i as int]));
            self[i].consensus_encode(out);
            proof {
                lemma_concat_push::<T>(vs.take(i as int), vs[i as int]);
                assert(vs.take(i as int).push(vs[i as int]) =~= vs.take(i + 1));
            }
            i = i + 1;
        }
        assert(vs.take(i as int) =~= vs);
    }

    fn consensus_decode(b: &[u8], pos: usize) -> (r: Result<(Vec<T>, usize), DecodeError>) {
        let (n, start) = match read_bigsize(b, pos) {
            Ok(x) => x,
            Err(e) => return Err(e),
        };
        let ghost whole = b@.subrange(pos as int, b@.len() as int);
        proof {
            assert(whole.subrange((start - pos) as int, whole.len() as int) =~= b@.subrange(
                start as int,
                b@.len() as int,
            ));
        }
        // Items are pushed one by one as they are read: nothing is reserved
        // on the strength of the declared count.
        let mut items: Vec<T> = Vec::new();
        let mut p: usize = start;
        let mut i: u64 = 0;
        while i < n
            invariant
                pos <= start <= p <= b@.len(),
                i <= n,
                Self::decoding(b@.subrange(pos as int, b@.len() as int)) == prepend_items(
                    Seq::<T::V>::empty(),
                    (start - pos) as nat,
                    items_decoding::<T>(b@.subrange(start as int, b@.len() as int), n as nat),
                ),
                items_decoding::<T>(b@.subrange(start as int, b@.len() as int), n as nat)
                    == prepend_items(
                    items.deep_view(),
                    (p - start) as nat,
                    items_decoding::<T>(b@.subrange(p as int, b@.len() as int), (n - i) as nat),
                ),
            decreases n - i,
        {
            match T::consensus_decode(b, p) {
                Ok((v, end)) => {
                    proof {
                        lemma_items_step::<T>(b@, p as int, end as int, (n - i) as nat, v.deep_view());
                    }
                    let ghost before = items.deep_view();
                    items.push(v);
                    proof {
                        assert(items.deep_view() =~= before.push(v.deep_view()));
                        assert(before + (seq![v.deep_view()]) =~= before.push(v.deep_view()));
                        let r = items_decoding::<T>(b@.subrange(end as int, b@.len() as int), (n - i - 1) as nat);
                        match r {
                            Ok((vs, m)) => {
                                assert(before + (seq![v.deep_view()] + vs) =~= items.deep_view() + vs);
                            },
                            Err(_) => {},
                        }
                    }
                    p = end;
                    i = i + 1;
                },
                Err(e) => {
                    proof {
                        let s = b@.subrange(p as int, b@.len() as int);
                        assert(T::decoding(s) == Err::<(T::V, nat), DecodeError>(e));
                        assert(items_decoding::<T>(s, (n - i) as nat) == Err::<(Seq<T::V>, nat), DecodeError>(e));
                        assert(items_decoding::<T>(b@.subrange(start as int, b@.len() as int), n as nat)
                            == Err::<(Seq<T::V>, nat), DecodeError>(e));
                    }
                    return Err(e);
                },
            }
        }
        proof {
            assert(items_decoding::<T>(b@.subrange(p as int, b@.len() as int), 0) == Ok::<
                (Seq<T::V>, nat),
                DecodeError,
            >((Seq::empty(), 0)));
            assert(items.deep_view() + Seq::<T::V>::empty() =~= items.deep_view());
            assert(Seq::<T::V>::empty() + items.deep_view() =~= items.deep_view());
        }
        Ok((items, p))
    }
}

/// The same bytes as a vector of the items.
impl<T: Codec> Codec for VecDeque<T> {
    open spec fn encodable(v: Seq<T::V>) -> bool {
        <Vec<T> as Codec>::encodable(v)
    }

    open spec fn encoding(v: Seq<T::V>) -> Seq<u8> {
        <Vec<T> as Codec>::encoding(v)
    }

    open spec fn decoding(b: Seq<u8>) -> Result<(Seq<T::V>, nat), DecodeError> {
        <Vec<T> as Codec>::decoding(b)
    }

    proof fn lemma_round_trip(v: Seq<T::V>, rest: Seq<u8>) {
        <Vec<T> as Codec>::lemma_round_trip(v, rest);
    }

    proof fn lemma_canonical(b: Seq<u8>) {
        <Vec<T> as Codec>::lemma_canonical(b);
    }

    fn consensus_encode(&self, out: &mut Vec<u8>) {
        let ghost start = out@;
        let ghost vs = self.deep_view();
        write_bigsize(out, self.len() as u64);
        let mut i: usize = 0;
        while i < self.len()
            invariant
                vs == self.deep_view(),
                Self::encodable(vs),
                i <= vs.len(),
                out@ == start + bigsize_bytes(vs.len() as u64) + concat_encodings::<T>(
                    vs.take(i as int),
                ),
            decreases self.len() - i,
        {
            assert(T::encodable(vs[i as int]));
            self[i].consensus_encode(out);
            proof {
                lemma_concat_push::<T>(vs.take(i as int), vs[i as int]);
                assert(vs.take(i as int).push(vs[i as int]) =~= vs.take(i + 1));
            }
            i = i + 1;
        }
        assert(vs.take(i as int) =~= vs);
    }

    fn consensus_decode(b: &[u8], pos: usize) -> (r: Result<(VecDeque<T>, usize), DecodeError>) {
        let (mut items, end) = match <Vec<T> as Codec>::consensus_decode(b, pos) {
            Ok(x) => x,
            Err(e) => return Err(e),
        };
        let ghost all = items.deep_view();
        let mut deque: VecDeque<T> = VecDeque::new();
        assert(deque.deep_view() =~= Seq::<T::V>::empty());
        while items.len() > 0
            invariant
                items.deep_view() + deque.deep_view() == all,
            decreases items.len(),
        {
            let ghost before_items = items.deep_view();
            let ghost before_deque = deque.deep_view();
            match items.pop() {
                Some(x) => {
                    deque.push_front(x);
                    assert(items.deep_view() =~= before_items.drop_last());
                    assert(deque.deep_view() =~= seq![x.deep_view()] + before_deque);
                    assert(before_items =~= before_items.drop_last().push(x.deep_view()));
                    assert(items.deep_view() + deque.deep_view() =~= before_items + before_deque);
                },
                None => {},
            }
        }
        assert(items.deep_view() =~= Seq::<T::V>::empty());
        assert(deque.deep_view() =~= all);
        Ok((deque, end))
    }
}

/// A flag byte, `0` for none and `1` followed by the value.
impl<T: Codec> Codec for Option<T> {
    open spec fn encodable(v: Option<T::V>) -> bool {
        match v {
            Some(x) => T::encodable(x),
            None => true,
        }
    }

    open spec fn encoding(v: Option<T::V>) -> Seq<u8> {
        match v {
            Some(x) => seq![1u8] + T::encoding(x),
            None => seq![0u8],
        }
    }

    open spec fn decoding(b: Seq<u8>) -> Result<(Option<T::V>, nat), DecodeError> {
        if b.len() == 0 {
            Err(DecodeError::ShortRead)
        } else if b[0] == 0 {
            Ok((None, 1))
        } else if b[0] == 1 {
            match T::decoding(b.subrange(1, b.len() as int)) {
                Ok((x, k)) => Ok((Some(x), k + 1)),
                Err(e) => Err(e),
            }
        } else {
            Err(DecodeError::InvalidFlag)
        }
    }

    proof fn lemma_round_trip(v: Option<T::V>, rest: Seq<u8>) {
        match v {
            Some(x) => {
                T::lemma_round_trip(x, rest);
                let b = Self::encoding(v) + rest;
                assert(b.subrange(1, b.len() as int) =~= T::encoding(x) + rest);
            },
            None => {},
        }
    }

    proof fn lemma_canonical(b: Seq<u8>) {
        if b.len() > 0 {
            let b1 = b.subrange(1, b.len() as int);
            T::lemma_canonical(b1);
            assert(b.take(1) =~= seq![b[0]]);
            match T::decoding(b1) {
                Ok((x, k)) => {
                    assert(b.take((k + 1) as int) =~= seq![b[0]] + b1.take(k as int));
                },
                Err(_) => {},
            }
        }
    }

    fn consensus_encode(&self, out: &mut Vec<u8>) {
        let ghost start = out@;
        match self {
            Some(x) => {
                out.push(1u8);
                x.consensus_encode(out);
            },
            None => {
                out.push(0u8);
            },
        }
        assert(out@ =~= start + Self::encoding(self.deep_view()));
    }

    fn consensus_decode(b: &[u8], pos: usize) -> (r: Result<(Option<T>, usize), DecodeError>) {
        let ghost s = b@.subrange(pos as int, b@.len() as int);
        if pos >= b.len() {
            return Err(DecodeError::ShortRead);
        }
        let flag = b[pos];
        if flag == 0 {
            Ok((None, pos + 1))
        } else if flag == 1 {
            assert(s.subrange(1, s.len() as int) =~= b@.subrange(pos + 1, b@.len() as int));
            match T::consensus_decode(b, pos + 1) {
                Ok((x, end)) => Ok((Some(x), end)),
                Err(e) => Err(e),
            }
        } else {
            Err(DecodeError::InvalidFlag)
        }
    }
}

/// The two values one after the other.
impl<A: Codec, B: Codec> Codec for (A, B) {
    open spec fn encodable(v: (A::V, B::V)) -> bool {
        A::encodable(v.0) && B::encodable(v.1)
    }

    open spec fn encoding(v: (A::V, B::V)) -> Seq<u8> {
        A::encoding(v.0) + B::encoding(v.1)
    }

    open spec fn decoding(b: Seq<u8>) -> Result<((A::V, B::V), nat), DecodeError> {
        match A::decoding(b) {
            Err(e) => Err(e),
            Ok((x, k)) => match B::decoding(b.subrange(k as int, b.len() as int)) {
                Err(e) => Err(e),
                Ok((y, m)) => Ok(((x, y), k + m)),
            },
        }
    }

    proof fn lemma_round_trip(v: (A::V, B::V), rest: Seq<u8>) {
        let tail = B::encoding(v.1) + rest;
        A::lemma_round_trip(v.0, tail);
        B::lemma_round_trip(v.1, rest);
        let b = Self::encoding(v) + rest;
        assert(b =~= A::encoding(v.0) + tail);
        assert(b.subrange(A::encoding(v.0).len() as int, b.len() as int) =~= tail);
    }

    proof fn lemma_canonical(b: Seq<u8>) {
        A::lemma_canonical(b);
        match A::decoding(b) {
            Ok((x, k)) => {
                let b1 = b.subrange(k as int, b.len() as int);
                B::lemma_canonical(b1);
                match B::decoding(b1) {
                    Ok((y, m)) => {
                        assert(b.take((k + m) as int) =~= b.take(k as int) + b1.take(m as int));
                    },
                    Err(_) => {},
                }
            },
            Err(_) => {},
        }
    }

    fn consensus_encode(&self, out: &mut Vec<u8>) {
        let ghost start = out@;
        self.0.consensus_encode(out);
        self.1.consensus_encode(out);
        assert(out@ =~= start + Self::encoding(self.deep_view()));
    }

    fn consensus_decode(b: &[u8], pos: usize) -> (r: Result<((A, B), usize), DecodeError>) {
        let ghost s = b@.subrange(pos as int, b@.len() as int);
        match A::consensus_decode(b, pos) {
            Err(e) => Err(e),
            Ok((x, mid)) => {
                assert(s.subrange(mid - pos, s.len() as int) =~= b@.subrange(
                    mid as int,
                    b@.len() as int,
                ));
                match B::consensus_decode(b, mid) {
                    Err(e) => Err(e),
                    Ok((y, end)) => Ok(((x, y), end)),
                }
            },
        }
    }
}

/// The boxed value's own encoding.
impl<T: Codec> Codec for Box<T> {
    open spec fn encodable(v: T::V) -> bool {
        T::encodable(v)
    }

    open spec fn encoding(v: T::V) -> Seq<u8> {
        T::encoding(v)
    }

    open spec fn decoding(b: Seq<u8>) -> Result<(T::V, nat), DecodeError> {
        T::decoding(b)
    }

    proof fn lemma_round_trip(v: T::V, rest: Seq<u8>) {
        T::lemma_round_trip(v, rest);
    }

    proof fn lemma_canonical(b: Seq<u8>) {
        T::lemma_canonical(b);
    }

    fn consensus_encode(&self, out: &mut Vec<u8>) {
        (**self).consensus_encode(out);
    }

    fn consensus_decode(b: &[u8], pos: usize) -> (r: Result<(Box<T>, usize), DecodeError>) {
        match T::consensus_decode(b, pos) {
            Ok((v, end)) => Ok((Box::new(v), end)),
            Err(e) => Err(e),
        }
    }
}

/// What a result holds.
pub open spec fn result_view<T: DeepView, E: DeepView>(r: Result<T, E>) -> Result<T::V, E::V> {
    match r {
        Ok(x) => Ok(x.deep_view()),
        Err(e) => Err(e.deep_view()),
    }
}

/// A result: flag `1` and the value, or flag `0` and the error.
pub open spec fn result_encoding<T: Codec, E: Codec>(v: Result<T::V, E::V>) -> Seq<u8> {
    match v {
        Ok(x) => seq![1u8] + T::encoding(x),
        Err(e) => seq![0u8] + E::encoding(e),
    }
}

/// What is read as a result from the start of `b`.
pub open spec fn result_decoding<T: Codec, E: Codec>(b: Seq<u8>) -> Result<
    (Result<T::V, E::V>, nat),
    DecodeError,
> {
    if b.len() == 0 {
        Err(DecodeError::ShortRead)
    } else if b[0] == 1 {
        match T::decoding(b.subrange(1, b.len() as int)) {
            Ok((x, k)) => Ok((Ok(x), k + 1)),
            Err(e) => Err(e),
        }
    } else if b[0] == 0 {
        match E::decoding(b.subrange(1, b.len() as int)) {
            Ok((x, k)) => Ok((Err(x), k + 1)),
            Err(e) => Err(e),
        }
    } else {
        Err(DecodeError::InvalidFlag)
    }
}

/// An encoded result is read back, whatever follows it.
pub proof fn lemma_result_round_trip<T: Codec, E: Codec>(v: Result<T::V, E::V>, rest: Seq<u8>)
    requires
        match v {
            Ok(x) => T::encodable(x),
            Err(e) => E::encodable(e),
        },
    ensures
        result_decoding::<T, E>(result_encoding::<T, E>(v) + rest) == Ok::<
            (Result<T::V, E::V>, nat),
            DecodeError,
        >((v, result_encoding::<T, E>(v).len())),
{
    let b = result_encoding::<T, E>(v) + rest;
    match v {
        Ok(x) => {
            T::lemma_round_trip(x, rest);
            assert(b.subrange(1, b.len() as int) =~= T::encoding(x) + rest);
        },
        Err(e) => {
            E::lemma_round_trip(e, rest);
            assert(b.subrange(1, b.len() as int) =~= E::encoding(e) + rest);
        },
    }
}

/// Appends the encoding of a result.
pub fn encode_result<T: Codec, E: Codec>(r: &Result<T, E>, out: &mut Vec<u8>)
    requires
        match r {
            Ok(x) => T::encodable(x.deep_view()),
            Err(e) => E::encodable(e.deep_view()),
        },
    ensures
        final(out)@ == old(out)@ + result_encoding::<T, E>(result_view(*r)),
{
    let ghost start = out@;
    match r {
        Ok(x) => {
            out.push(1u8);
            x.consensus_encode(out);
        },
        Err(e) => {
            out.push(0u8);
            e.consensus_encode(out);
        },
    }
    assert(out@ =~= start + result_encoding::<T, E>(result_view(*r)));
}

/// Reads a result at `pos`; returns it and the position after it.
pub fn decode_result<T: Codec, E: Codec>(b: &[u8], pos: usize) -> (r: Result<
    (Result<T, E>, usize),
    DecodeError,
>)
    requires
        pos <= b@.len(),
    ensures
        match r {
            Ok((v, end)) => pos <= end <= b@.len() && result_decoding::<T, E>(
                b@.subrange(pos as int, b@.len() as int),
            ) == Ok::<(Result<T::V, E::V>, nat), DecodeError>(
                (result_view(v), (end - pos) as nat),
            ),
            Err(e) => result_decoding::<T, E>(b@.subrange(pos as int, b@.len() as int)) == Err::<
                (Result<T::V, E::V>, nat),
                DecodeError,
            >(e),
        },
{
    let ghost s = b@.subrange(pos as int, b@.len() as int);
    if pos >= b.len() {
        return Err(DecodeError::ShortRead);
    }
    let flag = b[pos];
    assert(s.subrange(1, s.len() as int) =~= b@.subrange(pos + 1, b@.len() as int));
    if flag == 1 {
        match T::consensus_decode(b, pos + 1) {
            Ok((x, end)) => Ok((Ok(x), end)),
            Err(e) => Err(e),
        }
    } else if flag == 0 {
        match E::consensus_decode(b, pos + 1) {
            Ok((x, end)) => Ok((Err(x), end)),
            Err(e) => Err(e),
        }
    } else {
        Err(DecodeError::InvalidFlag)
    }
}

} // verus!
