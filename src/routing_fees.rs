//! Lightning routing fees as they cross the persistence boundary.
use vstd::prelude::*;

use crate::encoding::{Codec, DecodeError};

verus! {

/// A channel's fee: a base in millisatoshis and a rate in millionths.
#[derive(Debug, Clone, Copy, PartialEq, Eq, Structural, Hash)]
pub struct RoutingFees {
    pub base_msat: u32,
    pub proportional_millionths: u32,
}

impl DeepView for RoutingFees {
    type V = RoutingFees;

    open spec fn deep_view(&self) -> RoutingFees {
        *self
    }
}

/// The base, then the rate, each as a BigSize.
impl Codec for RoutingFees {
    open spec fn encodable(v: RoutingFees) -> bool {
        true
    }

    open spec fn encoding(v: RoutingFees) -> Seq<u8> {
        <(u32, u32)>::encoding((v.base_msat, v.proportional_millionths))
    }

    open spec fn decoding(b: Seq<u8>) -> Result<(RoutingFees, nat), DecodeError> {
        match <(u32, u32)>::decoding(b) {
            Ok(((base, rate), n)) => Ok((RoutingFees { base_msat: base, proportional_millionths: rate }, n)),
            Err(e) => Err(e),
        }
    }

    proof fn lemma_round_trip(v: RoutingFees, rest: Seq<u8>) {
        <(u32, u32)>::lemma_round_trip((v.base_msat, v.proportional_millionths), rest);
    }

    proof fn lemma_canonical(b: Seq<u8>) {
        <(u32, u32)>::lemma_canonical(b);
    }

    fn consensus_encode(&self, out: &mut Vec<u8>) {
        let pair: (u32, u32) = (self.base_msat, self.proportional_millionths);
        pair.consensus_encode(out);
    }

    fn consensus_decode(b: &[u8], pos: usize) -> (r: Result<(RoutingFees, usize), DecodeError>) {
        match <(u32, u32)>::consensus_decode(b, pos) {
            Ok(((base, rate), end)) => Ok((RoutingFees { base_msat: base, proportional_millionths: rate }, end)),
            Err(e) => Err(e),
        }
    }
}

} // verus!
