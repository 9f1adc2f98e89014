use fedimint_core::amount::Amount;
use fedimint_core::dummy::{
    await_dummy_output_outcome, get_funds, transition_in_store, DummyError, DummyStateMachine, DummyTrigger, OutcomeResponse,
    RetryDecision,
};
use fedimint_core::executor::{active_states, add_state, apply_transition, commit_transition};
use fedimint_core::codec::{consensus_decode_whole, consensus_encode_to_vec};
use fedimint_core::ids::{OperationId, OutPoint, TransactionId};
use fedimint_core::store::Tree;
use fedimint_core::time::Duration;

const MODULE: u16 = 3;

fn op() -> OperationId {
    OperationId([0x11; 32])
}

fn txid() -> TransactionId {
    TransactionId([0x22; 32])
}

fn start(tree: &mut Tree, state: &DummyStateMachine) {
    let mut tx = tree.begin_transaction();
    add_state(&mut tx, MODULE, state);
    tree.commit(tx).expect("no concurrent commit");
}

fn active(tree: &Tree) -> Vec<DummyStateMachine> {
    active_states(tree.snapshot(), MODULE, op()).expect("rows decode")
}

#[test]
fn input_accepted_adds_no_funds() {
    let mut tree = Tree::new();
    let input = DummyStateMachine::Input(Amount::from_msats(100), txid(), op());
    start(&mut tree, &input);
    assert_eq!(active(&tree), vec![input]);

    let funds = Amount::from_msats(0);
    let (next, funds) = input.transition(true, funds).expect("input has a transition");
    assert_eq!(next, DummyStateMachine::InputDone(op()));
    assert_eq!(funds, Amount::from_msats(0));
    assert!(next.transitions().is_empty());

    assert_eq!(commit_transition(&mut tree, MODULE, &input, &next), true);
    assert!(active(&tree).is_empty());
}

#[test]
fn output_accepted_adds_its_amount() {
    let mut tree = Tree::new();
    let output = DummyStateMachine::Output(Amount::from_msats(100), txid(), op());
    start(&mut tree, &output);

    let (next, funds) = output.transition(true, Amount::from_msats(5)).expect("transition");
    assert_eq!(
        next,
        DummyStateMachine::OutputDone(Amount::from_msats(100), txid(), op())
    );
    assert_eq!(funds, Amount::from_msats(105));
    assert_eq!(commit_transition(&mut tree, MODULE, &output, &next), true);
    assert!(active(&tree).is_empty());
}

#[test]
fn rejected_input_is_refunded_and_rejected_output_is_not() {
    let input = DummyStateMachine::Input(Amount::from_msats(40), txid(), op());
    assert_eq!(
        input.transition(false, Amount::from_msats(1)),
        Some((DummyStateMachine::Refund(op()), Amount::from_msats(41)))
    );
    let output = DummyStateMachine::Output(Amount::from_msats(40), txid(), op());
    assert_eq!(
        output.transition(false, Amount::from_msats(1)),
        Some((DummyStateMachine::Refund(op()), Amount::from_msats(1)))
    );
    assert_eq!(DummyStateMachine::Refund(op()).transition(true, Amount::from_msats(1)), None);
}

#[test]
fn triggers_of_each_state() {
    let input = DummyStateMachine::Input(Amount::from_msats(1), txid(), op());
    assert_eq!(input.transitions(), vec![DummyTrigger::AwaitTxAccepted(txid())]);
    let output = DummyStateMachine::Output(Amount::from_msats(1), txid(), op());
    assert_eq!(
        output.transitions(),
        vec![DummyTrigger::AwaitOutputOutcome(OutPoint { txid: txid(), out_idx: 0 })]
    );
    assert!(DummyStateMachine::Unreachable(op(), Amount::from_msats(1))
        .transitions()
        .is_empty());
    assert_eq!(DummyStateMachine::Refund(op()).operation_id(), op());
}

#[test]
fn racing_triggers_apply_exactly_once() {
    let mut tree = Tree::new();
    let input = DummyStateMachine::Input(Amount::from_msats(100), txid(), op());
    start(&mut tree, &input);
    let winner = DummyStateMachine::InputDone(op());
    let loser = DummyStateMachine::Refund(op());
    // both triggers' transactions start from the same store contents
    let mut tx_winner = tree.begin_transaction();
    let mut tx_loser = tree.begin_transaction();
    assert!(apply_transition(&mut tx_winner, MODULE, &input, &winner));
    assert!(apply_transition(&mut tx_loser, MODULE, &input, &loser));
    assert!(tree.commit(tx_winner).is_ok());
    assert!(tree.commit(tx_loser).is_err());
    // the loser retries on fresh contents and finds nothing to do
    assert_eq!(commit_transition(&mut tree, MODULE, &input, &loser), false);
    assert!(active(&tree).is_empty());
}

#[test]
fn recovery_resumes_uncommitted_state_once() {
    let mut tree = Tree::new();
    let output = DummyStateMachine::Output(Amount::from_msats(100), txid(), op());
    start(&mut tree, &output);
    // a transition begun but never committed: the process died
    {
        let mut tx = tree.begin_transaction();
        let next = DummyStateMachine::OutputDone(Amount::from_msats(100), txid(), op());
        assert!(apply_transition(&mut tx, MODULE, &output, &next));
    }
    assert_eq!(active(&tree), vec![output]);
    // after a commit the old state is not resumed again
    let next = DummyStateMachine::OutputDone(Amount::from_msats(100), txid(), op());
    assert_eq!(commit_transition(&mut tree, MODULE, &output, &next), true);
    assert!(active(&tree).is_empty());
}

#[test]
fn active_states_are_scoped_to_operation() {
    let mut tree = Tree::new();
    let other = OperationId([0x99; 32]);
    let mine = DummyStateMachine::Input(Amount::from_msats(1), txid(), op());
    let theirs = DummyStateMachine::Input(Amount::from_msats(2), txid(), other);
    start(&mut tree, &mine);
    start(&mut tree, &theirs);
    assert_eq!(active(&tree), vec![mine]);
    start(&mut tree, &DummyStateMachine::Refund(op()));
    assert_eq!(active(&tree), vec![mine]);
}

#[test]
fn state_encoding_round_trips() {
    let states = [
        DummyStateMachine::Input(Amount::from_msats(100), txid(), op()),
        DummyStateMachine::Output(Amount::from_msats(0xfd), txid(), op()),
        DummyStateMachine::InputDone(op()),
        DummyStateMachine::OutputDone(Amount::from_msats(u64::MAX), txid(), op()),
        DummyStateMachine::Refund(op()),
        DummyStateMachine::Unreachable(op(), Amount::from_msats(7)),
    ];
    for state in states {
        let bytes = consensus_encode_to_vec(&state);
        assert_eq!(consensus_decode_whole::<DummyStateMachine>(&bytes), Ok(state));
    }
    let bytes = consensus_encode_to_vec(&DummyStateMachine::InputDone(op()));
    // variant index, payload length, the 32 id bytes
    assert_eq!(bytes.len(), 1 + 1 + 32);
    assert_eq!(&bytes[..2], &[2, 32]);
    assert!(consensus_decode_whole::<DummyStateMachine>(&[6, 0]).is_err());
}

#[test]
fn output_outcome_wait_retries_until_authoritative() {
    assert_eq!(
        await_dummy_output_outcome(OutcomeResponse::Accepted),
        RetryDecision::Done(Ok(()))
    );
    assert_eq!(
        await_dummy_output_outcome(OutcomeResponse::Rejected),
        RetryDecision::Done(Err(DummyError::DummyInternalError))
    );
    assert_eq!(
        await_dummy_output_outcome(OutcomeResponse::Unavailable),
        RetryDecision::RetryAfter(Duration::from_secs(1))
    );
}

fn stored_funds(tree: &Tree) -> Amount {
    get_funds(&tree.begin_transaction()).expect("funds decode")
}

fn run_in_store(tree: &mut Tree, state: &DummyStateMachine, accepted: bool) -> Option<DummyStateMachine> {
    let mut tx = tree.begin_transaction();
    let next = transition_in_store(&mut tx, MODULE, state, accepted).expect("store readable");
    tree.commit(tx).expect("no concurrent commit");
    next
}

#[test]
fn scenario_input_accepted_leaves_balance() {
    let mut tree = Tree::new();
    let input = DummyStateMachine::Input(Amount::from_msats(100), txid(), op());
    start(&mut tree, &input);
    let next = run_in_store(&mut tree, &input, true);
    assert_eq!(next, Some(DummyStateMachine::InputDone(op())));
    assert!(next.unwrap().transitions().is_empty());
    assert_eq!(stored_funds(&tree), Amount::from_msats(0));
    assert!(active(&tree).is_empty());
}

#[test]
fn scenario_output_accepted_credits_balance() {
    let mut tree = Tree::new();
    let output = DummyStateMachine::Output(Amount::from_msats(100), txid(), op());
    start(&mut tree, &output);
    let next = run_in_store(&mut tree, &output, true);
    assert_eq!(
        next,
        Some(DummyStateMachine::OutputDone(Amount::from_msats(100), txid(), op()))
    );
    assert_eq!(stored_funds(&tree), Amount::from_msats(100));
    assert!(active(&tree).is_empty());
    // the trigger of the same state firing again finds no row and credits nothing
    assert_eq!(run_in_store(&mut tree, &output, true), None);
    assert_eq!(stored_funds(&tree), Amount::from_msats(100));
}

#[test]
fn scenario_input_rejected_refunds() {
    let mut tree = Tree::new();
    let input = DummyStateMachine::Input(Amount::from_msats(30), txid(), op());
    start(&mut tree, &input);
    assert_eq!(
        run_in_store(&mut tree, &input, false),
        Some(DummyStateMachine::Refund(op()))
    );
    assert_eq!(stored_funds(&tree), Amount::from_msats(30));
}

#[test]
fn unreadable_balance_only_matters_when_crediting() {
    let mut tree = Tree::new();
    let input = DummyStateMachine::Input(Amount::from_msats(30), txid(), op());
    start(&mut tree, &input);
    let mut tx = tree.begin_transaction();
    // a balance that does not decode as an amount
    tx.insert_raw(vec![fedimint_core::dummy::FUNDS_KEY_PREFIX], vec![0xfd]);
    tree.commit(tx).expect("no concurrent commit");

    let mut tx = tree.begin_transaction();
    assert_eq!(
        transition_in_store(&mut tx, MODULE, &input, false),
        Err(fedimint_core::store::DatabaseError::Decode(
            fedimint_core::encoding::DecodeError::ShortRead
        ))
    );
    let mut tx = tree.begin_transaction();
    assert_eq!(
        transition_in_store(&mut tx, MODULE, &input, true),
        Ok(Some(DummyStateMachine::InputDone(op())))
    );
}
