use vstd::prelude::*;

use crate::encoding::{
    bigsize_bytes, bigsize_decoding, lemma_bigsize_canonical, lemma_bigsize_round_trip, Codec,
    DecodeError,
};

verus! {

/// Millisatoshis in one satoshi.
pub const MSATS_PER_SAT: u64 = 1000;

/// Millisatoshis in one bitcoin.
pub const MSATS_PER_BTC: u64 = 100_000_000_000;

/// An amount of money, counted in millisatoshis.
#[derive(Debug, Clone, Copy, PartialEq, Eq, Structural, PartialOrd, Ord, Hash)]
pub struct Amount {
    pub msats: u64,
}

impl Amount {
    pub fn from_msats(msats: u64) -> (r: Amount)
        ensures
            r.msats == msats,
    {
        Amount { msats }
    }

    pub fn from_sats(sats: u64) -> (r: Amount)
        requires
            sats * MSATS_PER_SAT <= u64::MAX,
        ensures
            r.msats == sats * MSATS_PER_SAT,
    {
        Amount { msats: sats * MSATS_PER_SAT }
    }

    pub fn from_bitcoins(bitcoins: u64) -> (r: Amount)
        requires
            bitcoins * MSATS_PER_BTC <= u64::MAX,
        ensures
            r.msats == bitcoins * MSATS_PER_BTC,
    {
        Amount { msats: bitcoins * MSATS_PER_BTC }
    }

    pub fn saturating_add(self, other: Amount) -> (r: Amount)
        ensures
            r.msats == if self.msats + other.msats <= u64::MAX {
                self.msats + other.msats
            } else {
                u64::MAX as int
            },
    {
        Amount { msats: self.msats.saturating_add(other.msats) }
    }
}

impl std::ops::Add for Amount {
    type Output = Amount;

    fn add(self, other: Amount) -> (r: Amount) {
        Amount { msats: self.msats + other.msats }
    }
}

impl vstd::std_specs::ops::AddSpecImpl for Amount {
    open spec fn obeys_add_spec() -> bool {
        true
    }

    /// Adding amounts whose sum does not fit is a caller error.
    open spec fn add_req(self, other: Amount) -> bool {
        self.msats + other.msats <= u64::MAX
    }

    open spec fn add_spec(self, other: Amount) -> Amount {
        Amount { msats: (self.msats + other.msats) as u64 }
    }
}

impl DeepView for Amount {
    type V = Amount;

    open spec fn deep_view(&self) -> Amount {
        *self
    }
}

/// The millisatoshis, as a BigSize.
impl Codec for Amount {
    open spec fn encodable(v: Amount) -> bool {
        true
    }

    open spec fn encoding(v: Amount) -> Seq<u8> {
        bigsize_bytes(v.msats)
    }

    open spec fn decoding(b: Seq<u8>) -> Result<(Amount, nat), DecodeError> {
        match bigsize_decoding(b) {
            Ok((m, n)) => Ok((Amount { msats: m }, n)),
            Err(e) => Err(e),
        }
    }

    proof fn lemma_round_trip(v: Amount, rest: Seq<u8>) {
        lemma_bigsize_round_trip(v.msats, rest);
    }

    proof fn lemma_canonical(b: Seq<u8>) {
        lemma_bigsize_canonical(b);
    }

    fn consensus_encode(&self, out: &mut Vec<u8>) {
        self.msats.consensus_encode(out);
    }

    fn consensus_decode(b: &[u8], pos: usize) -> (r: Result<(Amount, usize), DecodeError>) {
        match u64::consensus_decode(b, pos) {
            Ok((m, end)) => Ok((Amount { msats: m }, end)),
            Err(e) => Err(e),
        }
    }
}

} // verus!
