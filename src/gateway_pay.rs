//! The gateway's outgoing payment: what its states share, and the checks
//! an outgoing contract must pass before the gateway pays its invoice.
use vstd::prelude::*;

use crate::amount::Amount;
use crate::encoding::{Codec, DecodeError};
use crate::ids::OperationId;

verus! {

/// Blocks of safety margin the gateway keeps before a contract's timelock.
pub const TIMELOCK_DELTA: u64 = 10;

/// What every state of a gateway payment shares.
#[derive(Debug, Clone, Copy, PartialEq, Eq, Hash)]
pub struct GatewayPayCommon {
    pub operation_id: OperationId,
}

impl DeepView for GatewayPayCommon {
    type V = GatewayPayCommon;

    open spec fn deep_view(&self) -> GatewayPayCommon {
        *self
    }
}

/// Its one field.
impl Codec for GatewayPayCommon {
    open spec fn encodable(v: GatewayPayCommon) -> bool {
        true
    }

    open spec fn encoding(v: GatewayPayCommon) -> Seq<u8> {
        OperationId::encoding(v.operation_id)
    }

    open spec fn decoding(b: Seq<u8>) -> Result<(GatewayPayCommon, nat), DecodeError> {
        match OperationId::decoding(b) {
            Ok((o, n)) => Ok((GatewayPayCommon { operation_id: o }, n)),
            Err(e) => Err(e),
        }
    }

    proof fn lemma_round_trip(v: GatewayPayCommon, rest: Seq<u8>) {
        OperationId::lemma_round_trip(v.operation_id, rest);
    }

    proof fn lemma_canonical(b: Seq<u8>) {
        OperationId::lemma_canonical(b);
    }

    fn consensus_encode(&self, out: &mut Vec<u8>) {
        self.operation_id.consensus_encode(out);
    }

    fn consensus_decode(b: &[u8], pos: usize) -> (r: Result<(GatewayPayCommon, usize), DecodeError>) {
        match OperationId::consensus_decode(b, pos) {
            Ok((o, end)) => Ok((GatewayPayCommon { operation_id: o }, end)),
            Err(e) => Err(e),
        }
    }
}

/// Why the gateway refuses to pay for an outgoing contract.
#[derive(Debug, Clone, Copy, PartialEq, Eq, Structural)]
pub enum OutgoingContractError {
    /// The contract is already cancelled.
    CancelledContract,
    /// The contract is keyed to another gateway.
    NotOurKey,
    /// The invoice states no amount.
    InvoiceMissingAmount,
    /// The contract holds less than the payment and the fee: what is needed, what is there.
    Underfunded(Amount, Amount),
    /// The timelock is in the past or leaves no safety margin.
    TimeoutTooClose,
    /// The invoice expired at this timestamp.
    InvoiceExpired(u64),
}

/// What the gateway may spend and wait for when paying.
#[derive(Debug, Clone, Copy, PartialEq, Eq, Structural)]
pub struct PaymentParameters {
    pub max_delay: u64,
    pub max_send_amount: Amount,
}

/// The facts about an outgoing contract and its invoice that decide
/// whether the gateway pays.
#[derive(Debug, Clone, Copy, PartialEq, Eq, Structural)]
pub struct OutgoingContractFacts {
    /// The contract was cancelled by its owner.
    pub cancelled: bool,
    /// The contract names this gateway's key.
    pub our_key: bool,
    /// What the contract holds.
    pub account_amount: Amount,
    /// The block height up to which the contract is locked.
    pub timelock: u64,
    /// The invoice's amount, if it states one.
    pub payment_amount: Option<Amount>,
    /// The gateway's routing fee on the invoice's amount.
    pub gateway_fee: Amount,
    /// The invoice has expired.
    pub invoice_expired: bool,
    /// When the invoice expires.
    pub expiry_timestamp: u64,
}

/// Blocks the gateway may wait: the timelock, less the blocks that remain
/// before the current one, less the margin; `None` when that goes below zero.
pub open spec fn max_delay_of(timelock: u64, block_count: u64) -> Option<u64> {
    let passed = if block_count >= 1 { block_count - 1 } else { 0 };
    if timelock >= passed + TIMELOCK_DELTA {
        Some((timelock - passed - TIMELOCK_DELTA) as u64)
    } else {
        None
    }
}

/// The verdict on a contract, checks in order: cancelled, key, invoice
/// amount, funding, timelock, invoice expiry.
pub open spec fn contract_verdict(f: OutgoingContractFacts, block_count: u64) -> Result<
    PaymentParameters,
    OutgoingContractError,
> {
    if f.cancelled {
        Err(OutgoingContractError::CancelledContract)
    } else if !f.our_key {
        Err(OutgoingContractError::NotOurKey)
    } else if f.payment_amount is None {
        Err(OutgoingContractError::InvoiceMissingAmount)
    } else if f.account_amount.msats < f.payment_amount->0.msats + f.gateway_fee.msats {
        Err(
            OutgoingContractError::Underfunded(
                Amount { msats: (f.payment_amount->0.msats + f.gateway_fee.msats) as u64 },
                f.account_amount,
            ),
        )
    } else if max_delay_of(f.timelock, block_count) is None {
        Err(OutgoingContractError::TimeoutTooClose)
    } else if f.invoice_expired {
        Err(OutgoingContractError::InvoiceExpired(f.expiry_timestamp))
    } else {
        Ok(
            PaymentParameters {
                max_delay: max_delay_of(f.timelock, block_count)->0,
                max_send_amount: f.account_amount,
            },
        )
    }
}

/// Decides whether the gateway pays for the contract, and with what limits.
pub fn validate_outgoing_account(facts: &OutgoingContractFacts, consensus_block_count: u64) -> (r:
    Result<PaymentParameters, OutgoingContractError>)
    requires
        facts.payment_amount matches Some(a) ==> a.msats + facts.gateway_fee.msats <= u64::MAX,
    ensures
        r == contract_verdict(*facts, consensus_block_count),
{
    if facts.cancelled {
        return Err(OutgoingContractError::CancelledContract);
    }
    if !facts.our_key {
        return Err(OutgoingContractError::NotOurKey);
    }
    let payment_amount = match facts.payment_amount {
        Some(a) => a,
        None => return Err(OutgoingContractError::InvoiceMissingAmount),
    };
    let necessary_contract_amount = payment_amount + facts.gateway_fee;
    if facts.account_amount.msats < necessary_contract_amount.msats {
        return Err(
            OutgoingContractError::Underfunded(necessary_contract_amount, facts.account_amount),
        );
    }
    let passed = consensus_block_count.saturating_sub(1);
    let max_delay = match facts.timelock.checked_sub(passed) {
        Some(delta) => delta.checked_sub(TIMELOCK_DELTA),
        None => None,
    };
    let max_delay = match max_delay {
        Some(d) => d,
        None => return Err(OutgoingContractError::TimeoutTooClose),
    };
    if facts.invoice_expired {
        return Err(OutgoingContractError::InvoiceExpired(facts.expiry_timestamp));
    }
    Ok(PaymentParameters { max_delay, max_send_amount: facts.account_amount })
}

} // verus!
