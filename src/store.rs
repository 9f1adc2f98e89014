//! An ordered key-value store over byte strings: typed access through the
//! codec, prefix search, batches with existence expectations, and optimistic
//! transactions.
use vstd::prelude::*;

use crate::codec::{consensus_decode_whole, consensus_encode_to_vec, whole_decoding};
use crate::encoding::{Codec, DecodeError};

verus! {

/// Lexicographic order on byte strings; a proper prefix comes first.
pub open spec fn bytes_lt(a: Seq<u8>, b: Seq<u8>) -> bool
    decreases a.len(),
{
    if a.len() == 0 {
        b.len() > 0
    } else if b.len() == 0 {
        false
    } else if a[0] != b[0] {
        a[0] < b[0]
    } else {
        bytes_lt(a.drop_first(), b.drop_first())
    }
}

/// The byte order is strict and total.
pub proof fn lemma_bytes_lt_total(a: Seq<u8>, b: Seq<u8>)
    ensures
        !bytes_lt(a, a),
        a != b ==> bytes_lt(a, b) || bytes_lt(b, a),
        bytes_lt(a, b) ==> !bytes_lt(b, a),
    decreases a.len(),
{
    if a.len() > 0 && b.len() > 0 {
        lemma_bytes_lt_total(a.drop_first(), b.drop_first());
        lemma_bytes_lt_total(a.drop_first(), a.drop_first());
        if a[0] == b[0] && a.drop_first() == b.drop_first() {
            assert(a =~= seq![a[0]] + a.drop_first());
            assert(b =~= seq![b[0]] + b.drop_first());
        }
    } else if a.len() == 0 && b.len() == 0 {
        assert(a =~= b);
    } else if a.len() > 0 {
        lemma_bytes_lt_total(a.drop_first(), a.drop_first());
    }
}

/// The byte order is transitive.
pub proof fn lemma_bytes_lt_transitive(a: Seq<u8>, b: Seq<u8>, c: Seq<u8>)
    requires
        bytes_lt(a, b),
        bytes_lt(b, c),
    ensures
        bytes_lt(a, c),
    decreases a.len(),
{
    if a.len() > 0 && a[0] == b[0] && b[0] == c[0] {
        lemma_bytes_lt_transitive(a.drop_first(), b.drop_first(), c.drop_first());
    }
}

/// Compares two byte strings: negative, zero or positive as `a` is below,
/// equal to or above `b`.
pub fn compare_bytes(a: &[u8], b: &[u8]) -> (r: i8)
    ensures
        (r < 0) == bytes_lt(a@, b@),
        (r == 0) == (a@ == b@),
        (r > 0) == bytes_lt(b@, a@),
{
    proof {
        lemma_bytes_lt_total(a@, b@);
    }
    assert(a@.skip(0) =~= a@);
    assert(b@.skip(0) =~= b@);
    let mut i: usize = 0;
    while i < a.len() && i < b.len()
        invariant
            i <= a@.len(),
            i <= b@.len(),
            a@.take(i as int) == b@.take(i as int),
            bytes_lt(a@, b@) == bytes_lt(a@.skip(i as int), b@.skip(i as int)),
            bytes_lt(b@, a@) == bytes_lt(b@.skip(i as int), a@.skip(i as int)),
        decreases a@.len() - i,
    {
        assert(a@.skip(i as int)[0] == a@[i as int]);
        assert(b@.skip(i as int)[0] == b@[i as int]);
        if a[i] != b[i] {
            if a[i] < b[i] {
                return -1;
            } else {
                return 1;
            }
        }
        assert(a@.skip(i as int).drop_first() =~= a@.skip(i + 1));
        assert(b@.skip(i as int).drop_first() =~= b@.skip(i + 1));
        assert(a@.take(i + 1) =~= a@.take(i as int).push(a@[i as int]));
        assert(b@.take(i + 1) =~= b@.take(i as int).push(b@[i as int]));
        i = i + 1;
    }
    if a.len() < b.len() {
        -1
    } else if a.len() > b.len() {
        1
    } else {
        assert(a@ =~= a@.take(i as int));
        assert(b@ =~= b@.take(i as int));
        0
    }
}

/// Entries whose key starts with `prefix`.
pub open spec fn prefix_pred(prefix: Seq<u8>) -> spec_fn((Seq<u8>, Seq<u8>)) -> bool {
    |e: (Seq<u8>, Seq<u8>)| has_prefix(e.0, prefix)
}

/// Whether `key` starts with `prefix`.
pub open spec fn has_prefix(key: Seq<u8>, prefix: Seq<u8>) -> bool {
    prefix.len() <= key.len() && key.take(prefix.len() as int) == prefix
}

fn starts_with(key: &[u8], prefix: &[u8]) -> (r: bool)
    ensures
        r == has_prefix(key@, prefix@),
{
    if prefix.len() > key.len() {
        return false;
    }
    let mut i: usize = 0;
    while i < prefix.len()
        invariant
            prefix@.len() <= key@.len(),
            i <= prefix@.len(),
            key@.take(i as int) == prefix@.take(i as int),
        decreases prefix@.len() - i,
    {
        if key[i] != prefix[i] {
            assert(key@.take(prefix@.len() as int)[i as int] != prefix@[i as int]);
            return false;
        }
        assert(key@.take(i + 1) =~= key@.take(i as int).push(key@[i as int]));
        assert(prefix@.take(i + 1) =~= prefix@.take(i as int).push(prefix@[i as int]));
        i = i + 1;
    }
    assert(prefix@.take(i as int) =~= prefix@);
    true
}

fn copy_bytes(v: &Vec<u8>) -> (r: Vec<u8>)
    ensures
        r@ == v@,
{
    let mut r: Vec<u8> = Vec::new();
    let mut i: usize = 0;
    while i < v.len()
        invariant
            i <= v@.len(),
            r@ == v@.take(i as int),
        decreases v@.len() - i,
    {
        r.push(v[i]);
        i = i + 1;
        assert(r@ =~= v@.take(i as int));
    }
    assert(v@.take(i as int) =~= v@);
    r
}

/// An entry: key bytes and value bytes.
pub type Entry = (Vec<u8>, Vec<u8>);

/// Keys strictly ascend.
pub open spec fn sorted_entries(es: Seq<(Seq<u8>, Seq<u8>)>) -> bool {
    forall|i: int, j: int| 0 <= i < j < es.len() ==> bytes_lt(#[trigger] es[i].0, #[trigger] es[j].0)
}

/// Whether some entry has the key.
pub open spec fn has_key(es: Seq<(Seq<u8>, Seq<u8>)>, k: Seq<u8>) -> bool {
    exists|i: int| 0 <= i < es.len() && #[trigger] es[i].0 == k
}

/// The map that the entries spell.
pub open spec fn entries_map(es: Seq<(Seq<u8>, Seq<u8>)>) -> Map<Seq<u8>, Seq<u8>> {
    Map::new(
        |k: Seq<u8>| has_key(es, k),
        |k: Seq<u8>| es[choose|i: int| 0 <= i < es.len() && #[trigger] es[i].0 == k].1,
    )
}

proof fn lemma_entry_in_map(es: Seq<(Seq<u8>, Seq<u8>)>, i: int)
    requires
        sorted_entries(es),
        0 <= i < es.len(),
    ensures
        entries_map(es).contains_key(es[i].0),
        entries_map(es)[es[i].0] == es[i].1,
{
    assert(has_key(es, es[i].0));
    let j = choose|j: int| 0 <= j < es.len() && #[trigger] es[j].0 == es[i].0;
    lemma_bytes_lt_total(es[i].0, es[i].0);
    if j < i {
        assert(bytes_lt(es[j].0, es[i].0));
    } else if j > i {
        assert(bytes_lt(es[i].0, es[j].0));
    }
}

/// A map from byte-string keys to byte-string values, kept in key order.
pub struct KvMap {
    entries: Vec<Entry>,
}

impl View for KvMap {
    type V = Map<Seq<u8>, Seq<u8>>;

    closed spec fn view(&self) -> Map<Seq<u8>, Seq<u8>> {
        entries_map(self.entries.deep_view())
    }
}

impl KvMap {
    /// The entries are kept with strictly ascending keys.
    pub closed spec fn wf(&self) -> bool {
        sorted_entries(self.entries.deep_view())
    }

    /// The entries in ascending key order.
    pub closed spec fn ordered(&self) -> Seq<(Seq<u8>, Seq<u8>)> {
        self.entries.deep_view()
    }

    pub fn new() -> (r: KvMap)
        ensures
            r.wf(),
            r@ == Map::<Seq<u8>, Seq<u8>>::empty(),
            r.ordered().len() == 0,
    {
        let r = KvMap { entries: Vec::new() };
        assert(r@ =~= Map::<Seq<u8>, Seq<u8>>::empty());
        r
    }

    /// The first position whose key is not below `key`.
    fn position(&self, key: &[u8]) -> (r: (usize, bool))
        requires
            self.wf(),
        ensures
            r.0 <= self.ordered().len(),
            forall|i: int| 0 <= i < r.0 ==> bytes_lt(#[trigger] self.ordered()[i].0, key@),
            r.1 == (r.0 < self.ordered().len() && self.ordered()[r.0 as int].0 == key@),
            r.0 < self.ordered().len() && !r.1 ==> bytes_lt(key@, self.ordered()[r.0 as int].0),
    {
        let ghost es = self.entries.deep_view();
        let mut p: usize = 0;
        while p < self.entries.len()
            invariant
                es == self.entries.deep_view(),
                p <= es.len(),
                forall|i: int| 0 <= i < p ==> bytes_lt(#[trigger] es[i].0, key@),
            decreases es.len() - p,
        {
            assert(es[p as int].0 == self.entries@[p as int].0@);
            let c = compare_bytes(self.entries[p].0.as_slice(), key);
            if c >= 0 {
                proof {
                    lemma_bytes_lt_total(es[p as int].0, key@);
                }
                return (p, c == 0);
            }
            p = p + 1;
        }
        (p, false)
    }

    pub fn get_raw(&self, key: &[u8]) -> (r: Option<Vec<u8>>)
        requires
            self.wf(),
        ensures
            r is Some <==> self@.contains_key(key@),
            r matches Some(v) ==> v@ == self@[key@],
    {
        let ghost es = self.entries.deep_view();
        let (p, found) = self.position(key);
        if found {
            proof {
                lemma_entry_in_map(es, p as int);
            }
            assert(es[p as int].1 == self.entries@[p as int].1@);
            Some(copy_bytes(&self.entries[p].1))
        } else {
            proof {
                if has_key(es, key@) {
                    let j = choose|j: int| 0 <= j < es.len() && #[trigger] es[j].0 == key@;
                    lemma_bytes_lt_total(key@, key@);
                    if j >= p {
                        if j > p {
                            lemma_bytes_lt_transitive(key@, es[p as int].0, es[j].0);
                        }
                    }
                }
            }
            None
        }
    }

    pub fn insert_raw(&mut self, key: Vec<u8>, value: Vec<u8>) -> (r: Option<Vec<u8>>)
        requires
            old(self).wf(),
        ensures
            final(self).wf(),
            final(self)@ == old(self)@.insert(key@, value@),
            r is Some <==> old(self)@.contains_key(key@),
            r matches Some(v) ==> v@ == old(self)@[key@],
    {
        let ghost es = self.entries.deep_view();
        let ghost k = key@;
        let ghost v = value@;
        assert(key.deep_view() =~= key@);
        assert(value.deep_view() =~= value@);
        let (p, found) = self.position(key.as_slice());
        proof {
            if !found && has_key(es, k) {
                let j = choose|j: int| 0 <= j < es.len() && #[trigger] es[j].0 == k;
                lemma_bytes_lt_total(k, k);
                if j > p {
                    lemma_bytes_lt_transitive(k, es[p as int].0, es[j].0);
                }
            }
        }
        let ghost new_es = if found {
            es.update(p as int, (k, v))
        } else {
            es.insert(p as int, (k, v))
        };
        proof {
            assert(sorted_entries(new_es)) by {
                assert forall|i: int, j: int| 0 <= i < j < new_es.len() implies bytes_lt(
                    #[trigger] new_es[i].0,
                    #[trigger] new_es[j].0,
                ) by {
                    if found {
                        if i == p {
                            assert(bytes_lt(es[i].0, es[j].0));
                        } else if j == p {
                            assert(bytes_lt(es[i].0, es[j].0));
                        }
                    } else {
                        if j < p {
                        } else if i < p && j == p {
                        } else if i < p && j > p {
                            assert(new_es[j] == es[j - 1]);
                            if j - 1 > p {
                                lemma_bytes_lt_transitive(k, es[p as int].0, es[j - 1].0);
                            }
                            lemma_bytes_lt_transitive(es[i].0, k, es[j - 1].0);
                        } else if i == p {
                            assert(new_es[j] == es[j - 1]);
                            if j - 1 > p {
                                lemma_bytes_lt_transitive(k, es[p as int].0, es[j - 1].0);
                            }
                        } else {
                            assert(new_es[i] == es[i - 1]);
                            assert(new_es[j] == es[j - 1]);
                        }
                    }
                }
            }
            assert(entries_map(new_es) =~= entries_map(es).insert(k, v)) by {
                assert forall|q: Seq<u8>| #[trigger] entries_map(new_es).contains_key(q)
                    == entries_map(es).insert(k, v).contains_key(q) by {
                    if q == k {
                        assert(new_es[p as int].0 == k);
                    } else if has_key(new_es, q) {
                        let j = choose|j: int| 0 <= j < new_es.len() && #[trigger] new_es[j].0 == q;
                        if found || j < p {
                            assert(es[j].0 == q);
                        } else {
                            assert(es[j - 1].0 == q);
                        }
                    } else if has_key(es, q) {
                        let j = choose|j: int| 0 <= j < es.len() && #[trigger] es[j].0 == q;
                        if found || j < p {
                            assert(new_es[j].0 == q);
                        } else {
                            assert(new_es[j + 1].0 == q);
                        }
                    }
                }
                assert forall|q: Seq<u8>| #[trigger] entries_map(new_es).contains_key(q) implies
                    entries_map(new_es)[q] == entries_map(es).insert(k, v)[q] by {
                    if q == k {
                        lemma_entry_in_map(new_es, p as int);
                    } else {
                        let j = choose|j: int| 0 <= j < new_es.len() && #[trigger] new_es[j].0 == q;
                        lemma_entry_in_map(new_es, j);
                        if found || j < p {
                            lemma_entry_in_map(es, j);
                        } else {
                            lemma_entry_in_map(es, j - 1);
                        }
                    }
                }
            }
            if found {
                lemma_entry_in_map(es, p as int);
            }
        }
        if found {
            let (_, old_value) = self.entries.remove(p);
            let ghost mid = self.entries.deep_view();
            assert(mid =~= es.remove(p as int));
            self.entries.insert(p, (key, value));
            assert(self.entries.deep_view() =~= new_es);
            assert(old_value.deep_view() =~= old_value@);
            Some(old_value)
        } else {
            self.entries.insert(p, (key, value));
            assert(self.entries.deep_view() =~= new_es);
            None
        }
    }

    pub fn remove_raw(&mut self, key: &[u8]) -> (r: Option<Vec<u8>>)
        requires
            old(self).wf(),
        ensures
            final(self).wf(),
            final(self)@ == old(self)@.remove(key@),
            r is Some <==> old(self)@.contains_key(key@),
            r matches Some(v) ==> v@ == old(self)@[key@],
    {
        let ghost es = self.entries.deep_view();
        let ghost k = key@;
        let (p, found) = self.position(key);
        if !found {
            proof {
                if has_key(es, k) {
                    let j = choose|j: int| 0 <= j < es.len() && #[trigger] es[j].0 == k;
                    lemma_bytes_lt_total(k, k);
                    if j > p {
                        lemma_bytes_lt_transitive(k, es[p as int].0, es[j].0);
                    }
                }
                assert(entries_map(es).remove(k) =~= entries_map(es));
            }
            return None;
        }
        let ghost new_es = es.remove(p as int);
        proof {
            lemma_entry_in_map(es, p as int);
            assert(sorted_entries(new_es)) by {
                assert forall|i: int, j: int| 0 <= i < j < new_es.len() implies bytes_lt(
                    #[trigger] new_es[i].0,
                    #[trigger] new_es[j].0,
                ) by {
                    if i < p {
                        if j < p {
                        } else {
                            assert(new_es[j] == es[j + 1]);
                        }
                    } else {
                        assert(new_es[i] == es[i + 1]);
                        assert(new_es[j] == es[j + 1]);
                    }
                }
            }
            assert(entries_map(new_es) =~= entries_map(es).remove(k)) by {
                assert forall|q: Seq<u8>| #[trigger] entries_map(new_es).contains_key(q)
                    == entries_map(es).remove(k).contains_key(q) by {
                    if has_key(new_es, q) {
                        let j = choose|j: int| 0 <= j < new_es.len() && #[trigger] new_es[j].0 == q;
                        if j < p {
                            assert(es[j].0 == q);
                            assert(bytes_lt(es[j].0, es[p as int].0));
                            lemma_bytes_lt_total(q, q);
                        } else {
                            assert(es[j + 1].0 == q);
                            assert(bytes_lt(es[p as int].0, es[j + 1].0));
                            lemma_bytes_lt_total(q, q);
                        }
                    } else if has_key(es, q) && q != k {
                        let j = choose|j: int| 0 <= j < es.len() && #[trigger] es[j].0 == q;
                        if j < p {
                            assert(new_es[j].0 == q);
                        } else {
                            assert(new_es[j - 1].0 == q);
                        }
                    }
                }
                assert forall|q: Seq<u8>| #[trigger] entries_map(new_es).contains_key(q) implies
                    entries_map(new_es)[q] == entries_map(es).remove(k)[q] by {
                    let j = choose|j: int| 0 <= j < new_es.len() && #[trigger] new_es[j].0 == q;
                    lemma_entry_in_map(new_es, j);
                    if j < p {
                        lemma_entry_in_map(es, j);
                    } else {
                        lemma_entry_in_map(es, j + 1);
                    }
                }
            }
        }
        let (_, old_value) = self.entries.remove(p);
        assert(self.entries.deep_view() =~= new_es);
        Some(old_value)
    }
}


/// Why a store operation failed.
#[derive(Debug, Clone, Copy, PartialEq, Eq, Structural)]
pub enum DatabaseError {
    /// Stored bytes that do not decode as the expected type.
    Decode(DecodeError),
    /// Another transaction committed since this one began.
    Conflict,
    /// A row stored under an operation's prefix holds a state of another operation.
    MisplacedState,
}

/// What a typed read of `k` yields from `m`: nothing, the decoded value, or
/// the decode failure as a hard error.
pub open spec fn read_typed<V: Codec>(m: Map<Seq<u8>, Seq<u8>>, k: Seq<u8>, r: Result<Option<V>, DatabaseError>) -> bool {
    if !m.contains_key(k) {
        r == Ok::<Option<V>, DatabaseError>(None)
    } else {
        match whole_decoding::<V>(m[k]) {
            Ok(v) => r matches Ok(Some(x)) && x.deep_view() == v,
            Err(e) => r == Err::<Option<V>, DatabaseError>(DatabaseError::Decode(e)),
        }
    }
}

fn decode_stored<V: Codec>(bytes: Option<Vec<u8>>) -> (r: Result<Option<V>, DatabaseError>)
    ensures
        match bytes {
            None => r == Ok::<Option<V>, DatabaseError>(None),
            Some(b) => match whole_decoding::<V>(b@) {
                Ok(v) => r matches Ok(Some(x)) && x.deep_view() == v,
                Err(e) => r == Err::<Option<V>, DatabaseError>(DatabaseError::Decode(e)),
            },
        },
{
    match bytes {
        None => Ok(None),
        Some(b) => match consensus_decode_whole::<V>(b.as_slice()) {
            Ok(v) => Ok(Some(v)),
            Err(e) => Err(DatabaseError::Decode(e)),
        },
    }
}

/// One write of a batch, with what is expected of the key beforehand.
#[derive(Debug)]
pub enum BatchItem {
    /// Insert; the key is expected to be absent.
    InsertNewElement(Entry),
    /// Insert, replacing whatever is there.
    InsertElement(Entry),
    /// Remove; the key is expected to be present.
    DeleteElement(Vec<u8>),
    /// Remove if present.
    MaybeDeleteElement(Vec<u8>),
}

/// A batch item whose expectation did not hold. The batch still commits.
#[derive(Debug, Clone, Copy, PartialEq, Eq, Structural)]
pub enum BatchAnomaly {
    /// The item at this index replaced an existing value.
    ReplacedElement(usize),
    /// The item at this index removed a key that was absent.
    DeletedAbsentElement(usize),
}

/// The map after one batch item.
pub open spec fn item_effect(m: Map<Seq<u8>, Seq<u8>>, item: BatchItem) -> Map<Seq<u8>, Seq<u8>> {
    match item {
        BatchItem::InsertNewElement((k, v)) => m.insert(k@, v@),
        BatchItem::InsertElement((k, v)) => m.insert(k@, v@),
        BatchItem::DeleteElement(k) => m.remove(k@),
        BatchItem::MaybeDeleteElement(k) => m.remove(k@),
    }
}

/// The key a batch item writes or removes.
pub open spec fn item_key(item: BatchItem) -> Seq<u8> {
    match item {
        BatchItem::InsertNewElement((k, _)) => k@,
        BatchItem::InsertElement((k, _)) => k@,
        BatchItem::DeleteElement(k) => k@,
        BatchItem::MaybeDeleteElement(k) => k@,
    }
}

/// The anomaly of the batch item at `index`, given whether its key was
/// present just before it: an insert that expected absence found a value,
/// or a delete that expected presence found none.
pub open spec fn expectation_anomaly(item: BatchItem, index: int, present: bool) -> Option<
    BatchAnomaly,
> {
    match item {
        BatchItem::InsertNewElement(_) => if present {
            Some(BatchAnomaly::ReplacedElement(index as usize))
        } else {
            None
        },
        BatchItem::DeleteElement(_) => if present {
            None
        } else {
            Some(BatchAnomaly::DeletedAbsentElement(index as usize))
        },
        _ => None,
    }
}

/// The anomaly of the batch item at `index`, if its expectation fails on `m`.
pub open spec fn item_anomaly(m: Map<Seq<u8>, Seq<u8>>, item: BatchItem, index: int) -> Seq<BatchAnomaly> {
    match expectation_anomaly(item, index, m.contains_key(item_key(item))) {
        Some(a) => seq![a],
        None => Seq::empty(),
    }
}

/// Decides the anomaly of the batch item at `index` from whether its key
/// was present just before it.
pub fn batch_item_anomaly(item: &BatchItem, index: usize, present: bool) -> (r: Option<BatchAnomaly>)
    ensures
        r == expectation_anomaly(*item, index as int, present),
{
    match item {
        BatchItem::InsertNewElement(_) => if present {
            Some(BatchAnomaly::ReplacedElement(index))
        } else {
            None
        },
        BatchItem::DeleteElement(_) => if present {
            None
        } else {
            Some(BatchAnomaly::DeletedAbsentElement(index))
        },
        _ => None,
    }
}

/// The map after the items, applied in order.
pub open spec fn batch_effect(m: Map<Seq<u8>, Seq<u8>>, items: Seq<BatchItem>) -> Map<Seq<u8>, Seq<u8>>
    decreases items.len(),
{
    if items.len() == 0 {
        m
    } else {
        item_effect(batch_effect(m, items.drop_last()), items.last())
    }
}

/// The anomalies of the items, in order.
pub open spec fn batch_anomalies(m: Map<Seq<u8>, Seq<u8>>, items: Seq<BatchItem>) -> Seq<BatchAnomaly>
    decreases items.len(),
{
    if items.len() == 0 {
        Seq::empty()
    } else {
        batch_anomalies(m, items.drop_last()) + item_anomaly(
            batch_effect(m, items.drop_last()),
            items.last(),
            items.len() - 1,
        )
    }
}

impl KvMap {
    /// The entries spell the map, ascending.
    pub proof fn lemma_ordered(m: &KvMap)
        requires
            m.wf(),
        ensures
            sorted_entries(m.ordered()),
            entries_map(m.ordered()) == m@,
    {
    }

    /// A copy with the same entries.
    pub fn duplicate(&self) -> (r: KvMap)
        requires
            self.wf(),
        ensures
            r.wf(),
            r@ == self@,
            r.ordered() == self.ordered(),
    {
        let mut entries: Vec<Entry> = Vec::new();
        let mut i: usize = 0;
        while i < self.entries.len()
            invariant
                i <= self.entries@.len(),
                entries.deep_view() == self.entries.deep_view().take(i as int),
            decreases self.entries@.len() - i,
        {
            let k = copy_bytes(&self.entries[i].0);
            let v = copy_bytes(&self.entries[i].1);
            assert(k.deep_view() =~= k@);
            assert(v.deep_view() =~= v@);
            let ghost before = entries.deep_view();
            assert(self.entries.deep_view()[i as int] == (k@, v@));
            entries.push((k, v));
            assert(entries.deep_view() =~= before.push((k@, v@)));
            i = i + 1;
            assert(entries.deep_view() =~= self.entries.deep_view().take(i as int));
        }
        assert(self.entries.deep_view().take(i as int) =~= self.entries.deep_view());
        KvMap { entries }
    }

    /// The entries whose key starts with `prefix`, in ascending key order.
    pub fn find_by_prefix(&self, prefix: &[u8]) -> (r: Vec<Entry>)
        requires
            self.wf(),
        ensures
            r.deep_view() == self.ordered().filter(prefix_pred(prefix@)),
    {
        let ghost es = self.entries.deep_view();
        let ghost pred = prefix_pred(prefix@);
        let mut r: Vec<Entry> = Vec::new();
        let mut i: usize = 0;
        proof {
            reveal(Seq::filter);
            assert(es.take(0).filter(pred) =~= Seq::<(Seq<u8>, Seq<u8>)>::empty());
        }
        while i < self.entries.len()
            invariant
                es == self.entries.deep_view(),
                pred == prefix_pred(prefix@),
                i <= es.len(),
                r.deep_view() == es.take(i as int).filter(pred),
            decreases es.len() - i,
        {
            proof {
                reveal(Seq::filter);
                assert(es.take(i + 1).drop_last() =~= es.take(i as int));
                assert(es.take(i + 1).last() == es[i as int]);
                assert(es[i as int].0 == self.entries@[i as int].0@);
                assert(es[i as int].1 == self.entries@[i as int].1@);
            }
            if starts_with(self.entries[i].0.as_slice(), prefix) {
                let k = copy_bytes(&self.entries[i].0);
                let v = copy_bytes(&self.entries[i].1);
                assert(k.deep_view() =~= k@);
                assert(v.deep_view() =~= v@);
                let ghost before = r.deep_view();
                r.push((k, v));
                assert(r.deep_view() =~= before.push(es[i as int]));
                proof {
                    reveal(Seq::filter);
                    assert(pred(es[i as int]));
                    assert(es.take(i + 1).filter(pred) == es.take(i as int).filter(pred).push(
                        es[i as int],
                    ));
                }
            } else {
                proof {
                    reveal(Seq::filter);
                    assert(!pred(es[i as int]));
                    assert(es.take(i + 1).filter(pred) == es.take(i as int).filter(pred));
                }
            }
            i = i + 1;
        }
        assert(es.take(i as int) =~= es);
        r
    }

    /// Applies the items in order and reports the ones whose expectation
    /// failed; every item is applied either way.
    pub fn apply_batch(&mut self, batch: &[BatchItem]) -> (r: Vec<BatchAnomaly>)
        requires
            old(self).wf(),
        ensures
            final(self).wf(),
            final(self)@ == batch_effect(old(self)@, batch@),
            r@ == batch_anomalies(old(self)@, batch@),
    {
        let ghost m0 = self@;
        let mut anomalies: Vec<BatchAnomaly> = Vec::new();
        let mut i: usize = 0;
        while i < batch.len()
            invariant
                self.wf(),
                i <= batch@.len(),
                self@ == batch_effect(m0, batch@.take(i as int)),
                anomalies@ == batch_anomalies(m0, batch@.take(i as int)),
            decreases batch@.len() - i,
        {
            let ghost before = self@;
            let ghost before_anomalies = anomalies@;
            proof {
                assert(batch@.take(i + 1).drop_last() =~= batch@.take(i as int));
                assert(batch@.take(i + 1).last() == batch@[i as int]);
            }
            let item = &batch[i];
            let present = match item {
                BatchItem::InsertNewElement((k, v)) => self.insert_raw(copy_bytes(k), copy_bytes(v)).is_some(),
                BatchItem::InsertElement((k, v)) => self.insert_raw(copy_bytes(k), copy_bytes(v)).is_some(),
                BatchItem::DeleteElement(k) => self.remove_raw(k.as_slice()).is_some(),
                BatchItem::MaybeDeleteElement(k) => self.remove_raw(k.as_slice()).is_some(),
            };
            assert(present == before.contains_key(item_key(*item)));
            match batch_item_anomaly(item, i, present) {
                Some(a) => anomalies.push(a),
                None => {},
            }
            assert(anomalies@ =~= before_anomalies + item_anomaly(before, batch@[i as int], i as int));
            i = i + 1;
        }
        assert(batch@.take(i as int) =~= batch@);
        anomalies
    }

    /// Writes `value` under `key`, both encoded; returns the value that was
    /// there, decoded.
    pub fn insert_entry<K: Codec, V: Codec>(&mut self, key: &K, value: &V) -> (r: Result<
        Option<V>,
        DatabaseError,
    >)
        requires
            old(self).wf(),
            K::encodable(key.deep_view()),
            V::encodable(value.deep_view()),
        ensures
            final(self).wf(),
            final(self)@ == old(self)@.insert(
                K::encoding(key.deep_view()),
                V::encoding(value.deep_view()),
            ),
            read_typed::<V>(old(self)@, K::encoding(key.deep_view()), r),
    {
        let k = consensus_encode_to_vec(key);
        let v = consensus_encode_to_vec(value);
        let old_bytes = self.insert_raw(k, v);
        decode_stored::<V>(old_bytes)
    }

    /// The value under `key`, decoded.
    pub fn get_value<K: Codec, V: Codec>(&self, key: &K) -> (r: Result<Option<V>, DatabaseError>)
        requires
            self.wf(),
            K::encodable(key.deep_view()),
        ensures
            read_typed::<V>(self@, K::encoding(key.deep_view()), r),
    {
        let k = consensus_encode_to_vec(key);
        let bytes = self.get_raw(k.as_slice());
        decode_stored::<V>(bytes)
    }

    /// Removes the value under `key`; returns it, decoded.
    pub fn remove_entry<K: Codec, V: Codec>(&mut self, key: &K) -> (r: Result<
        Option<V>,
        DatabaseError,
    >)
        requires
            old(self).wf(),
            K::encodable(key.deep_view()),
        ensures
            final(self).wf(),
            final(self)@ == old(self)@.remove(K::encoding(key.deep_view())),
            read_typed::<V>(old(self)@, K::encoding(key.deep_view()), r),
    {
        let k = consensus_encode_to_vec(key);
        let old_bytes = self.remove_raw(k.as_slice());
        decode_stored::<V>(old_bytes)
    }
}

/// A store whose transactions commit only if no other commit came between
/// their start and their end.
pub struct Tree {
    data: KvMap,
    version: u64,
}

/// A transaction: a private copy of the store's contents, tagged with the
/// commit count it was taken at. Reads and writes go to the copy.
pub struct TransactionalTree {
    data: KvMap,
    base_version: u64,
}

impl View for TransactionalTree {
    type V = Map<Seq<u8>, Seq<u8>>;

    closed spec fn view(&self) -> Map<Seq<u8>, Seq<u8>> {
        self.data@
    }
}

impl TransactionalTree {
    pub closed spec fn wf(&self) -> bool {
        self.data.wf()
    }

    pub closed spec fn spec_base_version(&self) -> u64 {
        self.base_version
    }

    pub fn get_raw(&self, key: &[u8]) -> (r: Option<Vec<u8>>)
        requires
            self.wf(),
        ensures
            r is Some <==> self@.contains_key(key@),
            r matches Some(v) ==> v@ == self@[key@],
    {
        self.data.get_raw(key)
    }

    pub fn insert_raw(&mut self, key: Vec<u8>, value: Vec<u8>) -> (r: Option<Vec<u8>>)
        requires
            old(self).wf(),
        ensures
            final(self).wf(),
            final(self).spec_base_version() == old(self).spec_base_version(),
            final(self)@ == old(self)@.insert(key@, value@),
            r is Some <==> old(self)@.contains_key(key@),
            r matches Some(v) ==> v@ == old(self)@[key@],
    {
        self.data.insert_raw(key, value)
    }

    pub fn remove_raw(&mut self, key: &[u8]) -> (r: Option<Vec<u8>>)
        requires
            old(self).wf(),
        ensures
            final(self).wf(),
            final(self).spec_base_version() == old(self).spec_base_version(),
            final(self)@ == old(self)@.remove(key@),
            r is Some <==> old(self)@.contains_key(key@),
            r matches Some(v) ==> v@ == old(self)@[key@],
    {
        self.data.remove_raw(key)
    }

    pub fn insert_entry<K: Codec, V: Codec>(&mut self, key: &K, value: &V) -> (r: Result<
        Option<V>,
        DatabaseError,
    >)
        requires
            old(self).wf(),
            K::encodable(key.deep_view()),
            V::encodable(value.deep_view()),
        ensures
            final(self).wf(),
            final(self).spec_base_version() == old(self).spec_base_version(),
            final(self)@ == old(self)@.insert(
                K::encoding(key.deep_view()),
                V::encoding(value.deep_view()),
            ),
            read_typed::<V>(old(self)@, K::encoding(key.deep_view()), r),
    {
        self.data.insert_entry(key, value)
    }

    pub fn get_value<K: Codec, V: Codec>(&self, key: &K) -> (r: Result<Option<V>, DatabaseError>)
        requires
            self.wf(),
            K::encodable(key.deep_view()),
        ensures
            read_typed::<V>(self@, K::encoding(key.deep_view()), r),
    {
        self.data.get_value(key)
    }

    pub fn remove_entry<K: Codec, V: Codec>(&mut self, key: &K) -> (r: Result<
        Option<V>,
        DatabaseError,
    >)
        requires
            old(self).wf(),
            K::encodable(key.deep_view()),
        ensures
            final(self).wf(),
            final(self).spec_base_version() == old(self).spec_base_version(),
            final(self)@ == old(self)@.remove(K::encoding(key.deep_view())),
            read_typed::<V>(old(self)@, K::encoding(key.deep_view()), r),
    {
        self.data.remove_entry(key)
    }
}

impl View for Tree {
    type V = Map<Seq<u8>, Seq<u8>>;

    closed spec fn view(&self) -> Map<Seq<u8>, Seq<u8>> {
        self.data@
    }
}

impl Tree {
    pub closed spec fn wf(&self) -> bool {
        self.data.wf()
    }

    /// The entries in ascending key order.
    pub closed spec fn ordered(&self) -> Seq<(Seq<u8>, Seq<u8>)> {
        self.data.ordered()
    }

    /// The number of commits so far, modulo `2^64`.
    pub closed spec fn spec_version(&self) -> u64 {
        self.version
    }

    pub fn new() -> (r: Tree)
        ensures
            r.wf(),
            r@ == Map::<Seq<u8>, Seq<u8>>::empty(),
    {
        Tree { data: KvMap::new(), version: 0 }
    }

    /// The current contents, read-only.
    pub fn snapshot(&self) -> (r: &KvMap)
        requires
            self.wf(),
        ensures
            r.wf(),
            r@ == self@,
    {
        &self.data
    }

    /// Starts a transaction on a copy of the current contents.
    pub fn begin_transaction(&self) -> (r: TransactionalTree)
        requires
            self.wf(),
        ensures
            r.wf(),
            r@ == self@,
            r.spec_base_version() == self.spec_version(),
    {
        TransactionalTree { data: self.data.duplicate(), base_version: self.version }
    }

    /// Makes the transaction's writes visible, all at once, unless another
    /// transaction committed since it began; then nothing changes.
    pub fn commit(&mut self, tx: TransactionalTree) -> (r: Result<(), DatabaseError>)
        requires
            old(self).wf(),
            tx.wf(),
        ensures
            final(self).wf(),
            r is Ok <==> tx.spec_base_version() == old(self).spec_version(),
            r is Ok ==> final(self)@ == tx@ && final(self).spec_version() == old(
                self,
            ).spec_version().wrapping_add(1),
            r is Err ==> r == Err::<(), DatabaseError>(DatabaseError::Conflict) && *final(self)
                == *old(self),
    {
        if tx.base_version != self.version {
            return Err(DatabaseError::Conflict);
        }
        self.data = tx.data;
        self.version = self.version.wrapping_add(1);
        Ok(())
    }

    /// Applies a batch as one transaction: all items commit together.
    pub fn apply_batch(&mut self, batch: &[BatchItem]) -> (r: Vec<BatchAnomaly>)
        requires
            old(self).wf(),
        ensures
            final(self).wf(),
            final(self)@ == batch_effect(old(self)@, batch@),
            r@ == batch_anomalies(old(self)@, batch@),
            final(self).spec_version() == old(self).spec_version().wrapping_add(1),
    {
        let r = self.data.apply_batch(batch);
        self.version = self.version.wrapping_add(1);
        r
    }

    /// The entries whose key starts with `prefix`, in ascending key order.
    pub fn find_by_prefix(&self, prefix: &[u8]) -> (r: Vec<Entry>)
        requires
            self.wf(),
        ensures
            r.deep_view() == self.ordered().filter(prefix_pred(prefix@)),
            sorted_entries(self.ordered()),
            entries_map(self.ordered()) == self@,
    {
        self.data.find_by_prefix(prefix)
    }
}

} // verus!
