//! Maps and sets with one canonical encoding: keys strictly ascending.
use vstd::prelude::*;

use vstd::utf8::{decode_utf8, encode_utf8};

use crate::collections::{concat_encodings, prepend_items};
use crate::encoding::{
    bigsize_bytes, bigsize_decoding, lemma_bigsize_canonical, lemma_bigsize_round_trip, read_bigsize,
    Codec, DecodeError,
};
use crate::store::{bytes_lt, compare_bytes, lemma_bytes_lt_total};

verus! {

/// Keys with a strict total order, the order in which maps and sets are written.
pub trait CodecKey: Codec {
    spec fn key_lt(a: Self::V, b: Self::V) -> bool;

    /// The order is strict and total.
    proof fn lemma_key_order(a: Self::V, b: Self::V)
        ensures
            !Self::key_lt(a, a),
            a != b ==> (Self::key_lt(a, b) || Self::key_lt(b, a)),
            Self::key_lt(a, b) ==> !Self::key_lt(b, a),
    ;

    fn key_less(&self, other: &Self) -> (r: bool)
        ensures
            r == Self::key_lt(self.deep_view(), other.deep_view()),
    ;
}

impl CodecKey for u64 {
    open spec fn key_lt(a: u64, b: u64) -> bool {
        a < b
    }

    proof fn lemma_key_order(a: u64, b: u64) {
    }

    fn key_less(&self, other: &u64) -> (r: bool) {
        *self < *other
    }
}

impl CodecKey for u32 {
    open spec fn key_lt(a: u32, b: u32) -> bool {
        a < b
    }

    proof fn lemma_key_order(a: u32, b: u32) {
    }

    fn key_less(&self, other: &u32) -> (r: bool) {
        *self < *other
    }
}

impl CodecKey for u16 {
    open spec fn key_lt(a: u16, b: u16) -> bool {
        a < b
    }

    proof fn lemma_key_order(a: u16, b: u16) {
    }

    fn key_less(&self, other: &u16) -> (r: bool) {
        *self < *other
    }
}

impl CodecKey for u8 {
    open spec fn key_lt(a: u8, b: u8) -> bool {
        a < b
    }

    proof fn lemma_key_order(a: u8, b: u8) {
    }

    fn key_less(&self, other: &u8) -> (r: bool) {
        *self < *other
    }
}

/// Strings in the order of their UTF-8 bytes, which is the order of their
/// characters.
impl CodecKey for String {
    open spec fn key_lt(a: Seq<char>, b: Seq<char>) -> bool {
        bytes_lt(encode_utf8(a), encode_utf8(b))
    }

    proof fn lemma_key_order(a: Seq<char>, b: Seq<char>) {
        lemma_bytes_lt_total(encode_utf8(a), encode_utf8(b));
        lemma_bytes_lt_total(encode_utf8(a), encode_utf8(a));
        vstd::utf8::encode_utf8_decode_utf8(a);
        vstd::utf8::encode_utf8_decode_utf8(b);
        if encode_utf8(a) == encode_utf8(b) {
            assert(decode_utf8(encode_utf8(a)) == decode_utf8(encode_utf8(b)));
        }
    }

    fn key_less(&self, other: &String) -> (r: bool) {
        let a = self.as_str().as_bytes();
        let b = other.as_str().as_bytes();
        compare_bytes(a, b) < 0
    }
}

/// Whether a key may follow the previous one: it must be greater.
pub open spec fn key_after<K: CodecKey>(prev: Option<K::V>, k: K::V) -> Result<(), DecodeError> {
    match prev {
        None => Ok(()),
        Some(p) => if K::key_lt(p, k) {
            Ok(())
        } else if k == p {
            Err(DecodeError::DuplicateKey)
        } else {
            Err(DecodeError::UnsortedKeys)
        },
    }
}

/// Each key is below the next one.
pub open spec fn keys_ascending<K: CodecKey>(ks: Seq<K::V>) -> bool {
    forall|i: int| 0 <= i < ks.len() - 1 ==> K::key_lt(#[trigger] ks[i], ks[i + 1])
}

/// The keys follow `prev` and ascend.
pub open spec fn keys_follow<K: CodecKey>(prev: Option<K::V>, ks: Seq<K::V>) -> bool {
    &&& keys_ascending::<K>(ks)
    &&& (ks.len() > 0 && prev is Some) ==> K::key_lt(prev->0, ks[0])
}

/// The keys of map entries.
pub open spec fn entry_keys<K: CodecKey, V: Codec>(es: Seq<(K::V, V::V)>) -> Seq<K::V> {
    es.map_values(|e: (K::V, V::V)| e.0)
}

/// Reads `n` entries, each key above the one before (the first above `prev`).
pub open spec fn entries_decoding<K: CodecKey, V: Codec>(b: Seq<u8>, n: nat, prev: Option<K::V>) -> Result<
    (Seq<(K::V, V::V)>, nat),
    DecodeError,
>
    decreases n,
{
    if n == 0 {
        Ok((Seq::empty(), 0))
    } else {
        match K::decoding(b) {
            Err(e) => Err(e),
            Ok((k, a)) => match key_after::<K>(prev, k) {
                Err(e) => Err(e),
                Ok(_) => {
                    let b1 = b.subrange(a as int, b.len() as int);
                    match V::decoding(b1) {
                        Err(e) => Err(e),
                        Ok((v, c)) => match entries_decoding::<K, V>(
                            b1.subrange(c as int, b1.len() as int),
                            (n - 1) as nat,
                            Some(k),
                        ) {
                            Err(e) => Err(e),
                            Ok((es, m)) => Ok((seq![(k, v)] + es, a + c + m)),
                        },
                    }
                },
            },
        }
    }
}

proof fn lemma_keys_tail<K: CodecKey, V: Codec>(es: Seq<(K::V, V::V)>)
    requires
        es.len() > 0,
        keys_ascending::<K>(entry_keys::<K, V>(es)),
    ensures
        keys_ascending::<K>(entry_keys::<K, V>(es.drop_first())),
        entry_keys::<K, V>(es.drop_first()) == entry_keys::<K, V>(es).drop_first(),
{
    assert(entry_keys::<K, V>(es.drop_first()) =~= entry_keys::<K, V>(es).drop_first());
    let ks = entry_keys::<K, V>(es);
    assert forall|i: int| 0 <= i < ks.drop_first().len() - 1 implies K::key_lt(
        #[trigger] ks.drop_first()[i],
        ks.drop_first()[i + 1],
    ) by {
        assert(K::key_lt(ks[i + 1], ks[i + 2]));
    }
}

/// Entries written in ascending key order are read back.
pub proof fn lemma_entries_round_trip<K: CodecKey, V: Codec>(
    es: Seq<(K::V, V::V)>,
    prev: Option<K::V>,
    rest: Seq<u8>,
)
    requires
        forall|i: int| 0 <= i < es.len() ==> <(K, V) as Codec>::encodable(#[trigger] es[i]),
        keys_follow::<K>(prev, entry_keys::<K, V>(es)),
    ensures
        entries_decoding::<K, V>(concat_encodings::<(K, V)>(es) + rest, es.len(), prev) == Ok::<
            (Seq<(K::V, V::V)>, nat),
            DecodeError,
        >((es, concat_encodings::<(K, V)>(es).len())),
    decreases es.len(),
{
    if es.len() == 0 {
        assert(es =~= Seq::<(K::V, V::V)>::empty());
    } else {
        let (k, v) = es[0];
        let tail = concat_encodings::<(K, V)>(es.drop_first()) + rest;
        let b = concat_encodings::<(K, V)>(es) + rest;
        assert(b =~= K::encoding(k) + (V::encoding(v) + tail));
        K::lemma_round_trip(k, V::encoding(v) + tail);
        V::lemma_round_trip(v, tail);
        let b1 = b.subrange(K::encoding(k).len() as int, b.len() as int);
        assert(b1 =~= V::encoding(v) + tail);
        assert(b1.subrange(V::encoding(v).len() as int, b1.len() as int) =~= tail);
        assert(entry_keys::<K, V>(es)[0] == k);
        lemma_keys_tail::<K, V>(es);
        if es.len() > 1 {
            assert(entry_keys::<K, V>(es)[1] == es[1].0);
            assert(K::key_lt(entry_keys::<K, V>(es)[0], entry_keys::<K, V>(es)[1]));
        }
        assert forall|i: int| 0 <= i < es.drop_first().len() implies <(K, V) as Codec>::encodable(
            #[trigger] es.drop_first()[i],
        ) by {
            assert(es.drop_first()[i] == es[i + 1]);
        }
        lemma_entries_round_trip::<K, V>(es.drop_first(), Some(k), rest);
        assert(seq![(k, v)] + es.drop_first() =~= es);
    }
}

/// Entries whose keys do not ascend from `prev` are refused.
pub proof fn lemma_entries_refuse_unsorted<K: CodecKey, V: Codec>(
    es: Seq<(K::V, V::V)>,
    prev: Option<K::V>,
    rest: Seq<u8>,
)
    requires
        forall|i: int| 0 <= i < es.len() ==> <(K, V) as Codec>::encodable(#[trigger] es[i]),
        !keys_follow::<K>(prev, entry_keys::<K, V>(es)),
    ensures
        entries_decoding::<K, V>(concat_encodings::<(K, V)>(es) + rest, es.len(), prev) is Err,
    decreases es.len(),
{
    let ks = entry_keys::<K, V>(es);
    let (k, v) = es[0];
    let tail = concat_encodings::<(K, V)>(es.drop_first()) + rest;
    let b = concat_encodings::<(K, V)>(es) + rest;
    assert(b =~= K::encoding(k) + (V::encoding(v) + tail));
    K::lemma_round_trip(k, V::encoding(v) + tail);
    V::lemma_round_trip(v, tail);
    let b1 = b.subrange(K::encoding(k).len() as int, b.len() as int);
    assert(b1 =~= V::encoding(v) + tail);
    assert(b1.subrange(V::encoding(v).len() as int, b1.len() as int) =~= tail);
    assert(ks[0] == k);
    if prev is Some && !K::key_lt(prev->0, k) {
    } else {
        let ks1 = entry_keys::<K, V>(es.drop_first());
        assert(ks1 =~= ks.drop_first());
        assert(!keys_follow::<K>(Some(k), ks1)) by {
            if keys_follow::<K>(Some(k), ks1) {
                assert forall|i: int| 0 <= i < ks.len() - 1 implies K::key_lt(
                    #[trigger] ks[i],
                    ks[i + 1],
                ) by {
                    if i > 0 {
                        assert(ks[i] == ks1[i - 1]);
                        assert(ks[i + 1] == ks1[i]);
                    } else {
                        assert(ks[1] == ks1[0]);
                    }
                }
            }
        }
        assert forall|i: int| 0 <= i < es.drop_first().len() implies <(K, V) as Codec>::encodable(
            #[trigger] es.drop_first()[i],
        ) by {
            assert(es.drop_first()[i] == es[i + 1]);
        }
        lemma_entries_refuse_unsorted::<K, V>(es.drop_first(), Some(k), rest);
    }
}

/// Entries that are read ascend from `prev` and are the encodings of what
/// was read.
pub proof fn lemma_entries_canonical<K: CodecKey, V: Codec>(b: Seq<u8>, n: nat, prev: Option<K::V>)
    ensures
        entries_decoding::<K, V>(b, n, prev) matches Ok((es, m)) ==> {
            &&& es.len() == n
            &&& m <= b.len()
            &&& forall|i: int| 0 <= i < es.len() ==> <(K, V) as Codec>::encodable(#[trigger] es[i])
            &&& keys_follow::<K>(prev, entry_keys::<K, V>(es))
            &&& concat_encodings::<(K, V)>(es) == b.take(m as int)
        },
    decreases n,
{
    if n == 0 {
        assert(b.take(0) =~= Seq::<u8>::empty());
        assert(entry_keys::<K, V>(Seq::empty()) =~= Seq::<K::V>::empty());
    } else {
        K::lemma_canonical(b);
        match K::decoding(b) {
            Ok((k, a)) => {
                let b1 = b.subrange(a as int, b.len() as int);
                V::lemma_canonical(b1);
                match V::decoding(b1) {
                    Ok((v, c)) => {
                        let b2 = b1.subrange(c as int, b1.len() as int);
                        lemma_entries_canonical::<K, V>(b2, (n - 1) as nat, Some(k));
                        match entries_decoding::<K, V>(b2, (n - 1) as nat, Some(k)) {
                            Ok((rest, m)) => {
                                if key_after::<K>(prev, k) is Ok {
                                    let es = seq![(k, v)] + rest;
                                    assert(es.drop_first() =~= rest);
                                    assert(es[0] == (k, v));
                                    assert(b.take((a + c + m) as int) =~= b.take(a as int) + b1.take(
                                        c as int,
                                    ) + b2.take(m as int));
                                    assert forall|i: int| 0 <= i < es.len() implies <(
                                        K,
                                        V,
                                    ) as Codec>::encodable(#[trigger] es[i]) by {
                                        if i > 0 {
                                            assert(es[i] == rest[i - 1]);
                                        }
                                    }
                                    let ks = entry_keys::<K, V>(es);
                                    let rks = entry_keys::<K, V>(rest);
                                    assert(ks =~= seq![k] + rks);
                                    assert forall|i: int| 0 <= i < ks.len() - 1 implies K::key_lt(
                                        #[trigger] ks[i],
                                        ks[i + 1],
                                    ) by {
                                        if i > 0 {
                                            assert(ks[i] == rks[i - 1]);
                                            assert(ks[i + 1] == rks[i]);
                                        } else {
                                            assert(ks[1] == rks[0]);
                                        }
                                    }
                                }
                            },
                            Err(_) => {},
                        }
                    },
                    Err(_) => {},
                }
            },
            Err(_) => {},
        }
    }
}

/// Set keys that are read ascend from `prev` and are the encodings of what
/// was read.
pub proof fn lemma_set_keys_canonical<K: CodecKey>(b: Seq<u8>, n: nat, prev: Option<K::V>)
    ensures
        set_keys_decoding::<K>(b, n, prev) matches Ok((ks, m)) ==> {
            &&& ks.len() == n
            &&& m <= b.len()
            &&& forall|i: int| 0 <= i < ks.len() ==> K::encodable(#[trigger] ks[i])
            &&& keys_follow::<K>(prev, ks)
            &&& concat_encodings::<K>(ks) == b.take(m as int)
        },
    decreases n,
{
    if n == 0 {
        assert(b.take(0) =~= Seq::<u8>::empty());
    } else {
        K::lemma_canonical(b);
        match K::decoding(b) {
            Ok((k, a)) => {
                let b1 = b.subrange(a as int, b.len() as int);
                lemma_set_keys_canonical::<K>(b1, (n - 1) as nat, Some(k));
                match set_keys_decoding::<K>(b1, (n - 1) as nat, Some(k)) {
                    Ok((rest, m)) => {
                        if key_after::<K>(prev, k) is Ok {
                            let ks = seq![k] + rest;
                            assert(ks.drop_first() =~= rest);
                            assert(ks[0] == k);
                            assert(b.take((a + m) as int) =~= b.take(a as int) + b1.take(m as int));
                            assert forall|i: int| 0 <= i < ks.len() implies K::encodable(
                                #[trigger] ks[i],
                            ) by {
                                if i > 0 {
                                    assert(ks[i] == rest[i - 1]);
                                }
                            }
                            assert forall|i: int| 0 <= i < ks.len() - 1 implies K::key_lt(
                                #[trigger] ks[i],
                                ks[i + 1],
                            ) by {
                                if i > 0 {
                                    assert(ks[i] == rest[i - 1]);
                                    assert(ks[i + 1] == rest[i]);
                                } else {
                                    assert(ks[1] == rest[0]);
                                }
                            }
                        }
                    },
                    Err(_) => {},
                }
            },
            Err(_) => {},
        }
    }
}

/// A map whose entries are kept in strictly ascending key order.
pub struct OrderedMap<K: CodecKey, V: Codec> {
    entries: Vec<(K, V)>,
}

impl<K: CodecKey, V: Codec> DeepView for OrderedMap<K, V> {
    type V = Seq<(K::V, V::V)>;

    closed spec fn deep_view(&self) -> Seq<(K::V, V::V)> {
        self.entries.deep_view()
    }
}

impl<K: CodecKey, V: Codec> OrderedMap<K, V> {
    #[verifier::type_invariant]
    closed spec fn sorted(self) -> bool {
        keys_ascending::<K>(entry_keys::<K, V>(self.entries.deep_view()))
    }

    pub fn new() -> (m: Self)
        ensures
            m.deep_view() == Seq::<(K::V, V::V)>::empty(),
    {
        let m = OrderedMap { entries: Vec::new() };
        assert(m.entries.deep_view() =~= Seq::<(K::V, V::V)>::empty());
        m
    }

    /// The map holding these entries, if their keys strictly ascend.
    pub fn from_entries(entries: Vec<(K, V)>) -> (r: Option<Self>)
        ensures
            r is Some <==> keys_ascending::<K>(entry_keys::<K, V>(entries.deep_view())),
            r matches Some(m) ==> m.deep_view() == entries.deep_view(),
    {
        let ghost ks = entry_keys::<K, V>(entries.deep_view());
        let mut i: usize = 1;
        while i < entries.len()
            invariant
                ks == entry_keys::<K, V>(entries.deep_view()),
                1 <= i,
                forall|j: int| 0 <= j < i - 1 && j < ks.len() - 1 ==> K::key_lt(#[trigger] ks[j], ks[j + 1]),
            decreases entries.len() - i,
        {
            assert(ks[i - 1] == entries@[i - 1].0.deep_view());
            assert(ks[i as int] == entries@[i as int].0.deep_view());
            if !entries[i - 1].0.key_less(&entries[i].0) {
                assert(!K::key_lt(ks[i - 1], ks[i - 1 + 1]));
                return None;
            }
            i = i + 1;
        }
        Some(OrderedMap { entries })
    }

    /// The entries, in ascending key order.
    pub fn entries(&self) -> (r: &Vec<(K, V)>)
        ensures
            r.deep_view() == self.deep_view(),
            keys_ascending::<K>(entry_keys::<K, V>(self.deep_view())),
    {
        proof {
            use_type_invariant(self);
        }
        &self.entries
    }

    pub fn len(&self) -> (r: usize)
        ensures
            r == self.deep_view().len(),
    {
        self.entries.len()
    }
}

/// A count, then each key followed by its value, keys ascending.
impl<K: CodecKey, V: Codec> Codec for OrderedMap<K, V> {
    open spec fn encodable(v: Seq<(K::V, V::V)>) -> bool {
        &&& v.len() <= u64::MAX
        &&& forall|i: int| 0 <= i < v.len() ==> <(K, V) as Codec>::encodable(#[trigger] v[i])
        &&& keys_ascending::<K>(entry_keys::<K, V>(v))
    }

    open spec fn encoding(v: Seq<(K::V, V::V)>) -> Seq<u8> {
        bigsize_bytes(v.len() as u64) + concat_encodings::<(K, V)>(v)
    }

    open spec fn decoding(b: Seq<u8>) -> Result<(Seq<(K::V, V::V)>, nat), DecodeError> {
        match bigsize_decoding(b) {
            Err(e) => Err(e),
            Ok((n, k)) => prepend_items(
                Seq::empty(),
                k,
                entries_decoding::<K, V>(b.subrange(k as int, b.len() as int), n as nat, None),
            ),
        }
    }

    proof fn lemma_round_trip(v: Seq<(K::V, V::V)>, rest: Seq<u8>) {
        let body = concat_encodings::<(K, V)>(v) + rest;
        lemma_bigsize_round_trip(v.len() as u64, body);
        let b = Self::encoding(v) + rest;
        assert(b =~= bigsize_bytes(v.len() as u64) + body);
        assert(b.subrange(bigsize_bytes(v.len() as u64).len() as int, b.len() as int) =~= body);
        lemma_entries_round_trip::<K, V>(v, None, rest);
        assert(Seq::<(K::V, V::V)>::empty() + v =~= v);
    }

    proof fn lemma_canonical(b: Seq<u8>) {
        lemma_bigsize_canonical(b);
        match bigsize_decoding(b) {
            Ok((n, k)) => {
                let b1 = b.subrange(k as int, b.len() as int);
                lemma_entries_canonical::<K, V>(b1, n as nat, None);
                match entries_decoding::<K, V>(b1, n as nat, None) {
                    Ok((es, m)) => {
                        assert(Seq::<(K::V, V::V)>::empty() + es =~= es);
                        assert(b.take((k + m) as int) =~= b.take(k as int) + b1.take(m as int));
                    },
                    Err(_) => {},
                }
            },
            Err(_) => {},
        }
    }

    fn consensus_encode(&self, out: &mut Vec<u8>) {
        proof {
            use_type_invariant(self);
        }
        self.entries.consensus_encode(out);
    }

    fn consensus_decode(b: &[u8], pos: usize) -> (r: Result<(OrderedMap<K, V>, usize), DecodeError>) {
        let (n, start) = match read_bigsize(b, pos) {
            Ok(x) => x,
            Err(e) => return Err(e),
        };
        let ghost whole = b@.subrange(pos as int, b@.len() as int);
        proof {
            assert(whole.subrange((start - pos) as int, whole.len() as int) =~= b@.subrange(
                start as int,
                b@.len() as int,
            ));
        }
        let mut items: Vec<(K, V)> = Vec::new();
        let mut p: usize = start;
        let mut i: u64 = 0;
        while i < n
            invariant
                pos <= start <= p <= b@.len(),
                i <= n,
                items.deep_view().len() == i,
                keys_ascending::<K>(entry_keys::<K, V>(items.deep_view())),
                Self::decoding(b@.subrange(pos as int, b@.len() as int)) == prepend_items(
                    Seq::<(K::V, V::V)>::empty(),
                    (start - pos) as nat,
                    entries_decoding::<K, V>(
                        b@.subrange(start as int, b@.len() as int),
                        n as nat,
                        None,
                    ),
                ),
                entries_decoding::<K, V>(b@.subrange(start as int, b@.len() as int), n as nat, None)
                    == prepend_items(
                    items.deep_view(),
                    (p - start) as nat,
                    entries_decoding::<K, V>(
                        b@.subrange(p as int, b@.len() as int),
                        (n - i) as nat,
                        if i == 0 {
                            None
                        } else {
                            Some(items.deep_view()[i - 1].0)
                        },
                    ),
                ),
            decreases n - i,
        {
            let ghost s = b@.subrange(p as int, b@.len() as int);
            let ghost prev: Option<K::V> = if i == 0 {
                None
            } else {
                Some(items.deep_view()[i - 1].0)
            };
            let (key, mid) = match K::consensus_decode(b, p) {
                Ok(x) => x,
                Err(e) => {
                    assert(entries_decoding::<K, V>(s, (n - i) as nat, prev) == Err::<
                        (Seq<(K::V, V::V)>, nat),
                        DecodeError,
                    >(e));
                    return Err(e);
                },
            };
            if i > 0 {
                let last = items.len() - 1;
                assert(items.deep_view()[last as int] == items@[last as int].deep_view());
                if !items[last].0.key_less(&key) {
                    proof {
                        K::lemma_key_order(items.deep_view()[i - 1].0, key.deep_view());
                    }
                    if key.key_less(&items[last].0) {
                        assert(entries_decoding::<K, V>(s, (n - i) as nat, prev) == Err::<
                            (Seq<(K::V, V::V)>, nat),
                            DecodeError,
                        >(DecodeError::UnsortedKeys));
                        return Err(DecodeError::UnsortedKeys);
                    } else {
                        assert(entries_decoding::<K, V>(s, (n - i) as nat, prev) == Err::<
                            (Seq<(K::V, V::V)>, nat),
                            DecodeError,
                        >(DecodeError::DuplicateKey));
                        return Err(DecodeError::DuplicateKey);
                    }
                }
            }
            let ghost s1 = s.subrange((mid - p) as int, s.len() as int);
            assert(s1 =~= b@.subrange(mid as int, b@.len() as int));
            let (value, end) = match V::consensus_decode(b, mid) {
                Ok(x) => x,
                Err(e) => {
                    assert(entries_decoding::<K, V>(s, (n - i) as nat, prev) == Err::<
                        (Seq<(K::V, V::V)>, nat),
                        DecodeError,
                    >(e));
                    return Err(e);
                },
            };
            assert(s1.subrange((end - mid) as int, s1.len() as int) =~= b@.subrange(
                end as int,
                b@.len() as int,
            ));
            let ghost before = items.deep_view();
            let ghost kv = (key.deep_view(), value.deep_view());
            items.push((key, value));
            proof {
                assert(items.deep_view() =~= before.push(kv));
                assert(entry_keys::<K, V>(items.deep_view()) =~= entry_keys::<K, V>(before).push(
                    kv.0,
                ));
                let ks = entry_keys::<K, V>(items.deep_view());
                assert forall|j: int| 0 <= j < ks.len() - 1 implies K::key_lt(
                    #[trigger] ks[j],
                    ks[j + 1],
                ) by {
                    if j < i - 1 {
                        assert(ks[j] == entry_keys::<K, V>(before)[j]);
                        assert(ks[j + 1] == entry_keys::<K, V>(before)[j + 1]);
                    } else {
                        assert(ks[j] == before[j].0);
                    }
                }
                let r = entries_decoding::<K, V>(
                    b@.subrange(end as int, b@.len() as int),
                    (n - i - 1) as nat,
                    Some(kv.0),
                );
                match r {
                    Ok((vs, m)) => {
                        assert(before + (seq![kv] + vs) =~= items.deep_view() + vs);
                    },
                    Err(_) => {},
                }
            }
            p = end;
            i = i + 1;
        }
        proof {
            assert(items.deep_view() + Seq::<(K::V, V::V)>::empty() =~= items.deep_view());
            assert(Seq::<(K::V, V::V)>::empty() + items.deep_view() =~= items.deep_view());
        }
        Ok((OrderedMap { entries: items }, p))
    }
}

/// Reads `n` keys, each above the one before (the first above `prev`).
pub open spec fn set_keys_decoding<K: CodecKey>(b: Seq<u8>, n: nat, prev: Option<K::V>) -> Result<
    (Seq<K::V>, nat),
    DecodeError,
>
    decreases n,
{
    if n == 0 {
        Ok((Seq::empty(), 0))
    } else {
        match K::decoding(b) {
            Err(e) => Err(e),
            Ok((k, a)) => match key_after::<K>(prev, k) {
                Err(e) => Err(e),
                Ok(_) => match set_keys_decoding::<K>(
                    b.subrange(a as int, b.len() as int),
                    (n - 1) as nat,
                    Some(k),
                ) {
                    Err(e) => Err(e),
                    Ok((ks, m)) => Ok((seq![k] + ks, a + m)),
                },
            },
        }
    }
}

proof fn lemma_keys_ascending_tail<K: CodecKey>(ks: Seq<K::V>)
    requires
        ks.len() > 0,
        keys_ascending::<K>(ks),
    ensures
        keys_ascending::<K>(ks.drop_first()),
{
    assert forall|i: int| 0 <= i < ks.drop_first().len() - 1 implies K::key_lt(
        #[trigger] ks.drop_first()[i],
        ks.drop_first()[i + 1],
    ) by {
        assert(K::key_lt(ks[i + 1], ks[i + 2]));
    }
}

/// Keys written in ascending order are read back.
pub proof fn lemma_set_keys_round_trip<K: CodecKey>(ks: Seq<K::V>, prev: Option<K::V>, rest: Seq<u8>)
    requires
        forall|i: int| 0 <= i < ks.len() ==> K::encodable(#[trigger] ks[i]),
        keys_follow::<K>(prev, ks),
    ensures
        set_keys_decoding::<K>(concat_encodings::<K>(ks) + rest, ks.len(), prev) == Ok::<
            (Seq<K::V>, nat),
            DecodeError,
        >((ks, concat_encodings::<K>(ks).len())),
    decreases ks.len(),
{
    if ks.len() == 0 {
        assert(ks =~= Seq::<K::V>::empty());
    } else {
        let k = ks[0];
        let tail = concat_encodings::<K>(ks.drop_first()) + rest;
        let b = concat_encodings::<K>(ks) + rest;
        assert(b =~= K::encoding(k) + tail);
        K::lemma_round_trip(k, tail);
        assert(b.subrange(K::encoding(k).len() as int, b.len() as int) =~= tail);
        lemma_keys_ascending_tail::<K>(ks);
        assert forall|i: int| 0 <= i < ks.drop_first().len() implies K::encodable(
            #[trigger] ks.drop_first()[i],
        ) by {
            assert(ks.drop_first()[i] == ks[i + 1]);
        }
        if ks.len() > 1 {
            assert(K::key_lt(ks[0], ks[1]));
        }
        lemma_set_keys_round_trip::<K>(ks.drop_first(), Some(k), rest);
        assert(seq![k] + ks.drop_first() =~= ks);
    }
}

/// Keys that do not ascend from `prev` are refused.
pub proof fn lemma_set_keys_refuse_unsorted<K: CodecKey>(ks: Seq<K::V>, prev: Option<K::V>, rest: Seq<u8>)
    requires
        forall|i: int| 0 <= i < ks.len() ==> K::encodable(#[trigger] ks[i]),
        !keys_follow::<K>(prev, ks),
    ensures
        set_keys_decoding::<K>(concat_encodings::<K>(ks) + rest, ks.len(), prev) is Err,
    decreases ks.len(),
{
    let k = ks[0];
    let tail = concat_encodings::<K>(ks.drop_first()) + rest;
    let b = concat_encodings::<K>(ks) + rest;
    assert(b =~= K::encoding(k) + tail);
    K::lemma_round_trip(k, tail);
    assert(b.subrange(K::encoding(k).len() as int, b.len() as int) =~= tail);
    if prev is Some && !K::key_lt(prev->0, k) {
    } else {
        let ks1 = ks.drop_first();
        assert(!keys_follow::<K>(Some(k), ks1)) by {
            if keys_follow::<K>(Some(k), ks1) {
                assert forall|i: int| 0 <= i < ks.len() - 1 implies K::key_lt(
                    #[trigger] ks[i],
                    ks[i + 1],
                ) by {
                    if i > 0 {
                        assert(ks[i] == ks1[i - 1]);
                        assert(ks[i + 1] == ks1[i]);
                    } else {
                        assert(ks[1] == ks1[0]);
                    }
                }
            }
        }
        assert forall|i: int| 0 <= i < ks1.len() implies K::encodable(#[trigger] ks1[i]) by {
            assert(ks1[i] == ks[i + 1]);
        }
        lemma_set_keys_refuse_unsorted::<K>(ks1, Some(k), rest);
    }
}

proof fn lemma_take_split(b: Seq<u8>, k: nat, m: nat)
    requires
        k + m <= b.len(),
    ensures
        b.take((k + m) as int) == b.take(k as int) + b.subrange(k as int, b.len() as int).take(
            m as int,
        ),
{
    assert(b.take((k + m) as int) =~= b.take(k as int) + b.subrange(k as int, b.len() as int).take(
        m as int,
    ));
}

/// A set whose keys are kept in strictly ascending order.
pub struct OrderedSet<K: CodecKey> {
    keys: Vec<K>,
}

impl<K: CodecKey> DeepView for OrderedSet<K> {
    type V = Seq<K::V>;

    closed spec fn deep_view(&self) -> Seq<K::V> {
        self.keys.deep_view()
    }
}

impl<K: CodecKey> OrderedSet<K> {
    #[verifier::type_invariant]
    closed spec fn sorted(self) -> bool {
        keys_ascending::<K>(self.keys.deep_view())
    }

    pub fn new() -> (s: Self)
        ensures
            s.deep_view() == Seq::<K::V>::empty(),
    {
        let s = OrderedSet { keys: Vec::new() };
        assert(s.keys.deep_view() =~= Seq::<K::V>::empty());
        s
    }

    /// The set of these keys, if they strictly ascend.
    pub fn from_keys(keys: Vec<K>) -> (r: Option<Self>)
        ensures
            r is Some <==> keys_ascending::<K>(keys.deep_view()),
            r matches Some(s) ==> s.deep_view() == keys.deep_view(),
    {
        let ghost ks = keys.deep_view();
        let mut i: usize = 1;
        while i < keys.len()
            invariant
                ks == keys.deep_view(),
                1 <= i,
                forall|j: int| 0 <= j < i - 1 && j < ks.len() - 1 ==> K::key_lt(#[trigger] ks[j], ks[j + 1]),
            decreases keys.len() - i,
        {
            if !keys[i - 1].key_less(&keys[i]) {
                assert(!K::key_lt(ks[i - 1], ks[i - 1 + 1]));
                return None;
            }
            i = i + 1;
        }
        Some(OrderedSet { keys })
    }

    /// The keys, ascending.
    pub fn keys(&self) -> (r: &Vec<K>)
        ensures
            r.deep_view() == self.deep_view(),
            keys_ascending::<K>(self.deep_view()),
    {
        proof {
            use_type_invariant(self);
        }
        &self.keys
    }

    pub fn len(&self) -> (r: usize)
        ensures
            r == self.deep_view().len(),
    {
        self.keys.len()
    }
}

/// A count, then the keys in ascending order.
impl<K: CodecKey> Codec for OrderedSet<K> {
    open spec fn encodable(v: Seq<K::V>) -> bool {
        &&& v.len() <= u64::MAX
        &&& forall|i: int| 0 <= i < v.len() ==> K::encodable(#[trigger] v[i])
        &&& keys_ascending::<K>(v)
    }

    open spec fn encoding(v: Seq<K::V>) -> Seq<u8> {
        bigsize_bytes(v.len() as u64) + concat_encodings::<K>(v)
    }

    open spec fn decoding(b: Seq<u8>) -> Result<(Seq<K::V>, nat), DecodeError> {
        match bigsize_decoding(b) {
            Err(e) => Err(e),
            Ok((n, k)) => prepend_items(
                Seq::empty(),
                k,
                set_keys_decoding::<K>(b.subrange(k as int, b.len() as int), n as nat, None),
            ),
        }
    }

    #[verifier::rlimit(40)]
    proof fn lemma_round_trip(v: Seq<K::V>, rest: Seq<u8>) {
        let body = concat_encodings::<K>(v) + rest;
        lemma_bigsize_round_trip(v.len() as u64, body);
        let b = Self::encoding(v) + rest;
        assert(b =~= bigsize_bytes(v.len() as u64) + body);
        assert(b.subrange(bigsize_bytes(v.len() as u64).len() as int, b.len() as int) =~= body);
        lemma_set_keys_round_trip::<K>(v, None, rest);
        assert(Seq::<K::V>::empty() + v =~= v);
    }

    #[verifier::rlimit(100)]
    proof fn lemma_canonical(b: Seq<u8>) {
        lemma_bigsize_canonical(b);
        match bigsize_decoding(b) {
            Ok((n, k)) => {
                let b1 = b.subrange(k as int, b.len() as int);
                lemma_set_keys_canonical::<K>(b1, n as nat, None);
                match set_keys_decoding::<K>(b1, n as nat, None) {
                    Ok((ks, m)) => {
                        lemma_take_split(b, k, m);
                        assert(Seq::<K::V>::empty() + ks =~= ks);
                    },
                    Err(_) => {},
                }
            },
            Err(_) => {},
        }
    }

    fn consensus_encode(&self, out: &mut Vec<u8>) {
        proof {
            use_type_invariant(self);
        }
        self.keys.consensus_encode(out);
    }

    fn consensus_decode(b: &[u8], pos: usize) -> (r: Result<(OrderedSet<K>, usize), DecodeError>) {
        let (n, start) = match read_bigsize(b, pos) {
            Ok(x) => x,
            Err(e) => return Err(e),
        };
        let ghost whole = b@.subrange(pos as int, b@.len() as int);
        proof {
            assert(whole.subrange((start - pos) as int, whole.len() as int) =~= b@.subrange(
                start as int,
                b@.len() as int,
            ));
        }
        let mut items: Vec<K> = Vec::new();
        let mut p: usize = start;
        let mut i: u64 = 0;
        while i < n
            invariant
                pos <= start <= p <= b@.len(),
                i <= n,
                items.deep_view().len() == i,
                keys_ascending::<K>(items.deep_view()),
                Self::decoding(b@.subrange(pos as int, b@.len() as int)) == prepend_items(
                    Seq::<K::V>::empty(),
                    (start - pos) as nat,
                    set_keys_decoding::<K>(b@.subrange(start as int, b@.len() as int), n as nat, None),
                ),
                set_keys_decoding::<K>(b@.subrange(start as int, b@.len() as int), n as nat, None)
                    == prepend_items(
                    items.deep_view(),
                    (p - start) as nat,
                    set_keys_decoding::<K>(
                        b@.subrange(p as int, b@.len() as int),
                        (n - i) as nat,
                        if i == 0 {
                            None
                        } else {
                            Some(items.deep_view()[i - 1])
                        },
                    ),
                ),
            decreases n - i,
        {
            let ghost s = b@.subrange(p as int, b@.len() as int);
            let ghost prev: Option<K::V> = if i == 0 {
                None
            } else {
                Some(items.deep_view()[i - 1])
            };
            let (key, end) = match K::consensus_decode(b, p) {
                Ok(x) => x,
                Err(e) => {
                    assert(set_keys_decoding::<K>(s, (n - i) as nat, prev) == Err::<
                        (Seq<K::V>, nat),
                        DecodeError,
                    >(e));
                    return Err(e);
                },
            };
            if i > 0 {
                let last = items.len() - 1;
                assert(items.deep_view()[last as int] == items@[last as int].deep_view());
                if !items[last].key_less(&key) {
                    proof {
                        K::lemma_key_order(items.deep_view()[i - 1], key.deep_view());
                    }
                    if key.key_less(&items[last]) {
                        assert(set_keys_decoding::<K>(s, (n - i) as nat, prev) == Err::<
                            (Seq<K::V>, nat),
                            DecodeError,
                        >(DecodeError::UnsortedKeys));
                        return Err(DecodeError::UnsortedKeys);
                    } else {
                        assert(set_keys_decoding::<K>(s, (n - i) as nat, prev) == Err::<
                            (Seq<K::V>, nat),
                            DecodeError,
                        >(DecodeError::DuplicateKey));
                        return Err(DecodeError::DuplicateKey);
                    }
                }
            }
            assert(s.subrange((end - p) as int, s.len() as int) =~= b@.subrange(
                end as int,
                b@.len() as int,
            ));
            let ghost before = items.deep_view();
            let ghost kv = key.deep_view();
            items.push(key);
            proof {
                assert(items.deep_view() =~= before.push(kv));
                let ks = items.deep_view();
                assert forall|j: int| 0 <= j < ks.len() - 1 implies K::key_lt(
                    #[trigger] ks[j],
                    ks[j + 1],
                ) by {
                    if j < i - 1 {
                        assert(ks[j] == before[j]);
                        assert(ks[j + 1] == before[j + 1]);
                    } else {
                        assert(ks[j] == before[j]);
                    }
                }
                let r = set_keys_decoding::<K>(
                    b@.subrange(end as int, b@.len() as int),
                    (n - i - 1) as nat,
                    Some(kv),
                );
                match r {
                    Ok((vs, m)) => {
                        assert(before + (seq![kv] + vs) =~= items.deep_view() + vs);
                    },
                    Err(_) => {},
                }
            }
            p = end;
            i = i + 1;
        }
        proof {
            assert(items.deep_view() + Seq::<K::V>::empty() =~= items.deep_view());
            assert(Seq::<K::V>::empty() + items.deep_view() =~= items.deep_view());
        }
        Ok((OrderedSet { keys: items }, p))
    }
}

} // verus!
