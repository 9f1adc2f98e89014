//! The fee charged per transaction input and output.
use vstd::prelude::*;

use crate::amount::Amount;

verus! {

/// The largest relative fee: one thousand parts per million, a tenth of a percent.
pub const MAX_PARTS_PER_MILLION: u64 = 1_000;

/// The base fee in millisatoshis: one satoshi.
pub const BASE_FEE_MSATS: u64 = 1_000;

/// Why a fee schedule was refused.
#[derive(Debug, Clone, Copy, PartialEq, Eq, Structural)]
pub enum FeeConsensusError {
    /// A relative fee over one thousand parts per million.
    ExcessiveRelativeFee,
}

/// `msats * ppm`, capped at the largest `u64`.
pub open spec fn saturating_product(msats: u64, ppm: u64) -> int {
    if msats * ppm <= u64::MAX {
        msats * ppm
    } else {
        u64::MAX as int
    }
}

/// The fee on `msats`: the base fee plus the relative part, rounded down.
pub open spec fn fee_of(msats: u64, ppm: u64) -> int {
    saturating_product(msats, ppm) / 1_000_000 + BASE_FEE_MSATS
}

/// A fee schedule: a base fee of one satoshi and a relative fee.
#[derive(Debug, Clone, Copy, PartialEq, Eq, Structural, Hash)]
pub struct FeeConsensus {
    base: Amount,
    parts_per_million: u64,
}

impl FeeConsensus {
    #[verifier::type_invariant]
    closed spec fn wf(self) -> bool {
        self.base.msats == BASE_FEE_MSATS && self.parts_per_million <= MAX_PARTS_PER_MILLION
    }

    pub closed spec fn spec_parts_per_million(&self) -> u64 {
        self.parts_per_million
    }

    /// A schedule with the given relative fee; one over one thousand parts
    /// per million is refused as excessive.
    pub fn new(parts_per_million: u64) -> (r: Result<FeeConsensus, FeeConsensusError>)
        ensures
            r is Ok <==> parts_per_million <= MAX_PARTS_PER_MILLION,
            r matches Ok(f) ==> f.spec_parts_per_million() == parts_per_million,
            r matches Err(e) ==> e == FeeConsensusError::ExcessiveRelativeFee,
    {
        if parts_per_million > MAX_PARTS_PER_MILLION {
            return Err(FeeConsensusError::ExcessiveRelativeFee);
        }
        Ok(FeeConsensus { base: Amount::from_sats(1), parts_per_million })
    }

    /// The fee on `amount`.
    pub fn fee(&self, amount: Amount) -> (r: Amount)
        ensures
            r.msats == fee_of(amount.msats, self.spec_parts_per_million()),
    {
        Amount::from_msats(self.fee_msats(amount.msats))
    }

    fn fee_msats(&self, msats: u64) -> (r: u64)
        ensures
            r == fee_of(msats, self.spec_parts_per_million()),
    {
        proof {
            use_type_invariant(self);
        }
        assert((msats as u128) * (self.parts_per_million as u128) <= u128::MAX) by (nonlinear_arith)
            requires
                self.parts_per_million <= MAX_PARTS_PER_MILLION,
        ;
        let product: u128 = (msats as u128) * (self.parts_per_million as u128);
        let capped: u64 = if product > u64::MAX as u128 {
            u64::MAX
        } else {
            product as u64
        };
        // Division by a million leaves room for the base fee.
        capped / 1_000_000 + self.base.msats
    }
}

impl Default for FeeConsensus {
    /// The largest relative fee.
    fn default() -> (r: FeeConsensus)
        ensures
            r.spec_parts_per_million() == MAX_PARTS_PER_MILLION,
    {
        FeeConsensus { base: Amount::from_sats(1), parts_per_million: MAX_PARTS_PER_MILLION }
    }
}

} // verus!
