use fedimint_core::amount::Amount;
use fedimint_core::codec::{consensus_decode_whole, consensus_encode_to_vec};
use fedimint_core::gateway_pay::{
    validate_outgoing_account, GatewayPayCommon, OutgoingContractError, OutgoingContractFacts,
    PaymentParameters,
};
use fedimint_core::ids::OperationId;

fn facts() -> OutgoingContractFacts {
    OutgoingContractFacts {
        cancelled: false,
        our_key: true,
        account_amount: Amount::from_msats(1_100),
        timelock: 120,
        payment_amount: Some(Amount::from_msats(1_000)),
        gateway_fee: Amount::from_msats(100),
        invoice_expired: false,
        expiry_timestamp: 1_700_000_000,
    }
}

#[test]
fn valid_contract_gives_payment_limits() {
    // 120 - (101 - 1) - 10 = 10 blocks
    assert_eq!(
        validate_outgoing_account(&facts(), 101),
        Ok(PaymentParameters { max_delay: 10, max_send_amount: Amount::from_msats(1_100) })
    );
}

#[test]
fn each_check_has_its_error() {
    let mut f = facts();
    f.cancelled = true;
    assert_eq!(validate_outgoing_account(&f, 101), Err(OutgoingContractError::CancelledContract));

    let mut f = facts();
    f.our_key = false;
    assert_eq!(validate_outgoing_account(&f, 101), Err(OutgoingContractError::NotOurKey));

    let mut f = facts();
    f.payment_amount = None;
    assert_eq!(
        validate_outgoing_account(&f, 101),
        Err(OutgoingContractError::InvoiceMissingAmount)
    );

    let mut f = facts();
    f.account_amount = Amount::from_msats(1_099);
    assert_eq!(
        validate_outgoing_account(&f, 101),
        Err(OutgoingContractError::Underfunded(
            Amount::from_msats(1_100),
            Amount::from_msats(1_099)
        ))
    );

    // 120 - (111 - 1) = 10 blocks: exactly the margin, no delay left
    assert_eq!(
        validate_outgoing_account(&facts(), 111),
        Ok(PaymentParameters { max_delay: 0, max_send_amount: Amount::from_msats(1_100) })
    );
    assert_eq!(
        validate_outgoing_account(&facts(), 112),
        Err(OutgoingContractError::TimeoutTooClose)
    );

    let mut f = facts();
    f.invoice_expired = true;
    assert_eq!(
        validate_outgoing_account(&f, 101),
        Err(OutgoingContractError::InvoiceExpired(1_700_000_000))
    );
}

#[test]
fn block_count_zero_counts_as_none_passed() {
    assert_eq!(
        validate_outgoing_account(&facts(), 0),
        Ok(PaymentParameters { max_delay: 110, max_send_amount: Amount::from_msats(1_100) })
    );
}

#[test]
fn common_state_round_trips() {
    let common = GatewayPayCommon { operation_id: OperationId([5; 32]) };
    let bytes = consensus_encode_to_vec(&common);
    assert_eq!(bytes, vec![5; 32]);
    assert_eq!(consensus_decode_whole::<GatewayPayCommon>(&bytes), Ok(common));
}
