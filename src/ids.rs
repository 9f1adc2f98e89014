//! Fixed-size identifiers of operations and transactions.
use vstd::prelude::*;

use crate::encoding::{Codec, DecodeError};

verus! {

/// A globally unique identifier of an operation.
#[derive(Debug, Clone, Copy, PartialEq, Eq, PartialOrd, Ord, Hash)]
pub struct OperationId(pub [u8; 32]);

/// The identifier of a federation transaction.
#[derive(Debug, Clone, Copy, PartialEq, Eq, PartialOrd, Ord, Hash)]
pub struct TransactionId(pub [u8; 32]);

/// An output of a transaction.
#[derive(Debug, Clone, Copy, PartialEq, Eq, PartialOrd, Ord, Hash)]
pub struct OutPoint {
    pub txid: TransactionId,
    pub out_idx: u64,
}

impl OperationId {
    /// Whether both identifiers have the same bytes.
    pub fn same_as(&self, other: &OperationId) -> (r: bool)
        ensures
            r == (*self == *other),
    {
        broadcast use vstd::array::group_array_axioms;

        let mut i: usize = 0;
        while i < 32
            invariant
                i <= 32,
                forall|j: int| 0 <= j < i ==> self.0@[j] == other.0@[j],
            decreases 32 - i,
        {
            if self.0[i] != other.0[i] {
                return false;
            }
            i = i + 1;
        }
        assert(self.0 =~= other.0);
        true
    }
}

impl DeepView for OperationId {
    type V = OperationId;

    open spec fn deep_view(&self) -> OperationId {
        *self
    }
}

impl DeepView for TransactionId {
    type V = TransactionId;

    open spec fn deep_view(&self) -> TransactionId {
        *self
    }
}

/// The array with the first `n` of the given bytes, zero after them.
spec fn array_with(a: Seq<u8>, n: nat) -> [u8; 32]
    decreases n,
{
    if n == 0 {
        vstd::array::spec_array_fill_for_copy_type::<u8, 32>(0)
    } else {
        vstd::array::spec_array_update(array_with(a, (n - 1) as nat), n - 1, a[n - 1])
    }
}

proof fn lemma_array_with(a: Seq<u8>, n: nat)
    requires
        a.len() == 32,
        n <= 32,
    ensures
        array_with(a, n)@.len() == 32,
        forall|i: int| 0 <= i < n ==> array_with(a, n)@[i] == a[i],
    decreases n,
{
    broadcast use vstd::array::group_array_axioms;

    if n == 0 {
        let z = vstd::array::spec_array_fill_for_copy_type::<u8, 32>(0);
        assert(z@.len() == 32);
    } else {
        lemma_array_with(a, (n - 1) as nat);
    }
}

/// Some array holds the given 32 bytes.
proof fn lemma_array_of(a: Seq<u8>)
    requires
        a.len() == 32,
    ensures
        exists|x: [u8; 32]| x@ == a,
{
    lemma_array_with(a, 32);
    assert(array_with(a, 32)@ =~= a);
}

/// Its 32 bytes, as they are.
impl Codec for OperationId {
    open spec fn encodable(v: OperationId) -> bool {
        true
    }

    open spec fn encoding(v: OperationId) -> Seq<u8> {
        v.0@
    }

    open spec fn decoding(b: Seq<u8>) -> Result<(OperationId, nat), DecodeError> {
        if b.len() < 32 {
            Err(DecodeError::ShortRead)
        } else {
            Ok((choose|id: OperationId| id.0@ == b.take(32), 32))
        }
    }

    proof fn lemma_round_trip(v: OperationId, rest: Seq<u8>) {
        assert((v.0@ + rest).take(32) =~= v.0@);
        let id = choose|id: OperationId| id.0@ == (v.0@ + rest).take(32);
        assert(id.0 =~= v.0);
    }

    proof fn lemma_canonical(b: Seq<u8>) {
        if b.len() >= 32 {
            let a = b.take(32);
            lemma_array_of(a);
            let x = choose|x: [u8; 32]| x@ == a;
            assert(OperationId(x).0@ == a);
        }
    }

    fn consensus_encode(&self, out: &mut Vec<u8>) {
        crate::bytes::consensus_encode_bytes_static(&self.0, out);
    }

    fn consensus_decode(b: &[u8], pos: usize) -> (r: Result<(OperationId, usize), DecodeError>) {
        let ghost s = b@.subrange(pos as int, b@.len() as int);
        match crate::bytes::consensus_decode_bytes_static_from_finite_reader::<32>(b, pos) {
            Ok((a, end)) => {
                assert(s.take(32) =~= a@);
                assert(OperationId(a).0@ == s.take(32));
                let ghost id = choose|id: OperationId| id.0@ == s.take(32);
                assert(id.0 =~= a);
                Ok((OperationId(a), end))
            },
            Err(e) => Err(e),
        }
    }
}

/// Its 32 bytes, as they are.
impl Codec for TransactionId {
    open spec fn encodable(v: TransactionId) -> bool {
        true
    }

    open spec fn encoding(v: TransactionId) -> Seq<u8> {
        v.0@
    }

    open spec fn decoding(b: Seq<u8>) -> Result<(TransactionId, nat), DecodeError> {
        if b.len() < 32 {
            Err(DecodeError::ShortRead)
        } else {
            Ok((choose|id: TransactionId| id.0@ == b.take(32), 32))
        }
    }

    proof fn lemma_round_trip(v: TransactionId, rest: Seq<u8>) {
        assert((v.0@ + rest).take(32) =~= v.0@);
        let id = choose|id: TransactionId| id.0@ == (v.0@ + rest).take(32);
        assert(id.0 =~= v.0);
    }

    proof fn lemma_canonical(b: Seq<u8>) {
        if b.len() >= 32 {
            let a = b.take(32);
            lemma_array_of(a);
            let x = choose|x: [u8; 32]| x@ == a;
            assert(TransactionId(x).0@ == a);
        }
    }

    fn consensus_encode(&self, out: &mut Vec<u8>) {
        crate::bytes::consensus_encode_bytes_static(&self.0, out);
    }

    fn consensus_decode(b: &[u8], pos: usize) -> (r: Result<(TransactionId, usize), DecodeError>) {
        let ghost s = b@.subrange(pos as int, b@.len() as int);
        match crate::bytes::consensus_decode_bytes_static_from_finite_reader::<32>(b, pos) {
            Ok((a, end)) => {
                assert(s.take(32) =~= a@);
                assert(TransactionId(a).0@ == s.take(32));
                let ghost id = choose|id: TransactionId| id.0@ == s.take(32);
                assert(id.0 =~= a);
                Ok((TransactionId(a), end))
            },
            Err(e) => Err(e),
        }
    }
}

} // verus!
