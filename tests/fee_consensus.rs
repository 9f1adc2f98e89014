use fedimint_core::amount::Amount;
use fedimint_core::fee_consensus::{FeeConsensus, FeeConsensusError};

#[test]
fn fee_consensus_test_fee_consensus() {
    assert_eq!(
        FeeConsensus::default().fee(Amount::from_msats(999)),
        Amount::from_sats(1)
    );

    assert_eq!(
        FeeConsensus::default().fee(Amount::from_sats(1)),
        Amount::from_msats(1001)
    );

    assert_eq!(
        FeeConsensus::default().fee(Amount::from_sats(1000)),
        Amount::from_sats(2)
    );

    assert_eq!(
        FeeConsensus::default().fee(Amount::from_bitcoins(1)),
        Amount::from_sats(100_001)
    );

    assert_eq!(
        FeeConsensus::default().fee(Amount::from_bitcoins(100_000)),
        Amount::from_bitcoins(100) + Amount::from_sats(1)
    );
}

#[test]
fn config_test_fee_consensus() {
    let fee_consensus = FeeConsensus::new(1_000).expect("Relative fee is within range");

    assert_eq!(
        fee_consensus.fee(Amount::from_msats(999)),
        Amount::from_sats(1)
    );

    assert_eq!(
        fee_consensus.fee(Amount::from_sats(1)),
        Amount::from_msats(1) + Amount::from_sats(1)
    );

    assert_eq!(
        fee_consensus.fee(Amount::from_sats(1000)),
        Amount::from_sats(1) + Amount::from_sats(1)
    );

    assert_eq!(
        fee_consensus.fee(Amount::from_bitcoins(1)),
        Amount::from_sats(100_000) + Amount::from_sats(1)
    );

    assert_eq!(
        fee_consensus.fee(Amount::from_bitcoins(100_000)),
        Amount::from_bitcoins(100) + Amount::from_sats(1)
    );
}

#[test]
fn fee_consensus_rejects_excessive_relative_fee() {
    assert_eq!(
        FeeConsensus::new(1_001),
        Err(FeeConsensusError::ExcessiveRelativeFee)
    );
    assert!(FeeConsensus::new(0).is_ok());
}

#[test]
fn fee_consensus_zero_relative_fee_charges_base_only() {
    let fee_consensus = FeeConsensus::new(0).expect("zero is within range");
    assert_eq!(
        fee_consensus.fee(Amount::from_bitcoins(1)),
        Amount::from_sats(1)
    );
}

#[test]
fn fee_consensus_saturates_on_largest_amount() {
    // u64::MAX / 1_000_000 = 18_446_744_073_709, plus the base fee.
    assert_eq!(
        FeeConsensus::default().fee(Amount::from_msats(u64::MAX)),
        Amount::from_msats(18_446_744_073_709 + 1_000)
    );
}
