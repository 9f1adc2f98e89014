//! The dummy module's workflow: a transaction input or output followed
//! until the federation accepts or rejects it.
use vstd::prelude::*;

use crate::amount::Amount;
use crate::codec::{
    consensus_decode_whole, consensus_encode_to_vec, lemma_codec_round_trip, lemma_whole_canonical,
    whole_decoding,
};
use crate::encoding::{Codec, DecodeError};
use crate::executor::{active_key, apply_transition, transition_effect, State};
use crate::store::{DatabaseError, TransactionalTree};
use crate::ids::{OperationId, OutPoint, TransactionId};
use crate::time::Duration;

verus! {

/// Seconds to wait before asking the federation again.
pub const RETRY_DELAY_SECS: u64 = 1;

/// The fields of the input, output and output-done states.
pub type TxFields = (Amount, (TransactionId, OperationId));

/// Tracks a transaction.
#[derive(Debug, Clone, Copy, PartialEq, Eq, Hash)]
pub enum DummyStateMachine {
    Input(Amount, TransactionId, OperationId),
    Output(Amount, TransactionId, OperationId),
    InputDone(OperationId),
    OutputDone(Amount, TransactionId, OperationId),
    Refund(OperationId),
    Unreachable(OperationId, Amount),
}

/// The federation rejected the output.
#[derive(Debug, Clone, Copy, PartialEq, Eq, Structural)]
pub enum DummyError {
    DummyInternalError,
}

/// What a state waits for before it can move on.
#[derive(Debug, Clone, Copy, PartialEq, Eq)]
pub enum DummyTrigger {
    /// The federation's verdict on a transaction.
    AwaitTxAccepted(TransactionId),
    /// The federation's outcome for a transaction output.
    AwaitOutputOutcome(OutPoint),
}

/// An answer of the federation to a request for an output's outcome.
#[derive(Debug, Clone, Copy, PartialEq, Eq, Structural)]
pub enum OutcomeResponse {
    /// The outcome is there: the output was accepted.
    Accepted,
    /// The federation refused the output for good.
    Rejected,
    /// No authoritative answer yet, or the request failed on the way.
    Unavailable,
}

/// What to do after an answer: finish with a result, or ask again later.
#[derive(Debug, Clone, Copy, PartialEq, Eq)]
pub enum RetryDecision<T> {
    Done(T),
    RetryAfter(Duration),
}

impl DeepView for DummyStateMachine {
    type V = DummyStateMachine;

    open spec fn deep_view(&self) -> DummyStateMachine {
        *self
    }
}

/// A state with no transition: the operation performs no further work.
pub open spec fn is_terminal(s: DummyStateMachine) -> bool {
    !(s is Input || s is Output)
}

/// `funds` plus `amount`, capped at the largest amount.
pub open spec fn funds_after(funds: Amount, amount: Amount) -> Amount {
    Amount {
        msats: if funds.msats + amount.msats <= u64::MAX {
            (funds.msats + amount.msats) as u64
        } else {
            u64::MAX
        },
    }
}

/// The next state and the funds after the trigger of `s` came back with
/// `accepted`: an accepted input is done and adds nothing; a rejected input is
/// refunded; an accepted output adds its amount; a rejected output is refunded
/// without funds.
pub open spec fn next_state(s: DummyStateMachine, accepted: bool, funds: Amount) -> Option<
    (DummyStateMachine, Amount),
> {
    match s {
        DummyStateMachine::Input(amount, _, id) => if accepted {
            Some((DummyStateMachine::InputDone(id), funds))
        } else {
            Some((DummyStateMachine::Refund(id), funds_after(funds, amount)))
        },
        DummyStateMachine::Output(amount, txid, id) => if accepted {
            Some((DummyStateMachine::OutputDone(amount, txid, id), funds_after(funds, amount)))
        } else {
            Some((DummyStateMachine::Refund(id), funds))
        },
        _ => None,
    }
}

/// Adds `amount` to the balance, saturating.
pub fn add_funds(funds: Amount, amount: Amount) -> (r: Amount)
    ensures
        r == funds_after(funds, amount),
{
    funds.saturating_add(amount)
}

/// Decides on one answer while waiting for an output's outcome: accepted
/// and rejected end the wait; anything else is asked again after the delay.
pub fn await_dummy_output_outcome(response: OutcomeResponse) -> (r: RetryDecision<Result<(), DummyError>>)
    ensures
        match response {
            OutcomeResponse::Accepted => r == RetryDecision::<Result<(), DummyError>>::Done(Ok(())),
            OutcomeResponse::Rejected => r == RetryDecision::<Result<(), DummyError>>::Done(
                Err(DummyError::DummyInternalError),
            ),
            OutcomeResponse::Unavailable => r matches RetryDecision::RetryAfter(d) && d.spec_secs()
                == RETRY_DELAY_SECS && d.spec_nanos() == 0,
        },
{
    match response {
        OutcomeResponse::Accepted => RetryDecision::Done(Ok(())),
        OutcomeResponse::Rejected => RetryDecision::Done(Err(DummyError::DummyInternalError)),
        OutcomeResponse::Unavailable => RetryDecision::RetryAfter(Duration::from_secs(RETRY_DELAY_SECS)),
    }
}

impl DummyStateMachine {
    /// The operation the state belongs to.
    pub open spec fn spec_operation_id(&self) -> OperationId {
        match *self {
            DummyStateMachine::Input(_, _, id) => id,
            DummyStateMachine::Output(_, _, id) => id,
            DummyStateMachine::InputDone(id) => id,
            DummyStateMachine::OutputDone(_, _, id) => id,
            DummyStateMachine::Refund(id) => id,
            DummyStateMachine::Unreachable(id, _) => id,
        }
    }

    pub fn operation_id(&self) -> (r: OperationId)
        ensures
            r == self.spec_operation_id(),
    {
        match self {
            DummyStateMachine::Input(_, _, id) => *id,
            DummyStateMachine::Output(_, _, id) => *id,
            DummyStateMachine::InputDone(id) => *id,
            DummyStateMachine::OutputDone(_, _, id) => *id,
            DummyStateMachine::Refund(id) => *id,
            DummyStateMachine::Unreachable(id, _) => *id,
        }
    }

    /// What the state waits for; nothing for a terminal state.
    pub fn transitions(&self) -> (r: Vec<DummyTrigger>)
        ensures
            r@.len() == 0 <==> is_terminal(*self),
            match *self {
                DummyStateMachine::Input(_, txid, _) => r@ == seq![
                    DummyTrigger::AwaitTxAccepted(txid),
                ],
                DummyStateMachine::Output(_, txid, _) => r@ == seq![
                    DummyTrigger::AwaitOutputOutcome(OutPoint { txid, out_idx: 0 }),
                ],
                _ => r@.len() == 0,
            },
    {
        let mut r: Vec<DummyTrigger> = Vec::new();
        match self {
            DummyStateMachine::Input(_, txid, _) => {
                r.push(DummyTrigger::AwaitTxAccepted(*txid));
            },
            DummyStateMachine::Output(_, txid, _) => {
                r.push(DummyTrigger::AwaitOutputOutcome(OutPoint { txid: *txid, out_idx: 0 }));
            },
            _ => {},
        }
        r
    }

    /// Applies the result of the state's trigger; `None` for a terminal state.
    pub fn transition(&self, accepted: bool, funds: Amount) -> (r: Option<(DummyStateMachine, Amount)>)
        ensures
            r == next_state(*self, accepted, funds),
    {
        match *self {
            DummyStateMachine::Input(amount, _, id) => if accepted {
                Some((DummyStateMachine::InputDone(id), funds))
            } else {
                Some((DummyStateMachine::Refund(id), add_funds(funds, amount)))
            },
            DummyStateMachine::Output(amount, txid, id) => if accepted {
                Some((DummyStateMachine::OutputDone(amount, txid, id), add_funds(funds, amount)))
            } else {
                Some((DummyStateMachine::Refund(id), funds))
            },
            _ => None,
        }
    }
}

/// The variant index of a state.
pub open spec fn tag_of(s: DummyStateMachine) -> u64 {
    match s {
        DummyStateMachine::Input(..) => 0,
        DummyStateMachine::Output(..) => 1,
        DummyStateMachine::InputDone(..) => 2,
        DummyStateMachine::OutputDone(..) => 3,
        DummyStateMachine::Refund(..) => 4,
        DummyStateMachine::Unreachable(..) => 5,
    }
}

/// The encoded fields of a state.
pub open spec fn payload_of(s: DummyStateMachine) -> Seq<u8> {
    match s {
        DummyStateMachine::Input(a, t, o) => TxFields::encoding((a, (t, o))),
        DummyStateMachine::Output(a, t, o) => TxFields::encoding((a, (t, o))),
        DummyStateMachine::InputDone(o) => OperationId::encoding(o),
        DummyStateMachine::OutputDone(a, t, o) => TxFields::encoding((a, (t, o))),
        DummyStateMachine::Refund(o) => OperationId::encoding(o),
        DummyStateMachine::Unreachable(o, a) => <(OperationId, Amount)>::encoding((o, a)),
    }
}

/// The state that a variant index and its encoded fields stand for.
pub open spec fn state_from_payload(tag: u64, p: Seq<u8>) -> Result<DummyStateMachine, DecodeError> {
    if tag == 0 || tag == 1 || tag == 3 {
        match whole_decoding::<TxFields>(p) {
            Err(e) => Err(e),
            Ok((a, (t, o))) => Ok(
                if tag == 0 {
                    DummyStateMachine::Input(a, t, o)
                } else if tag == 1 {
                    DummyStateMachine::Output(a, t, o)
                } else {
                    DummyStateMachine::OutputDone(a, t, o)
                },
            ),
        }
    } else if tag == 2 || tag == 4 {
        match whole_decoding::<OperationId>(p) {
            Err(e) => Err(e),
            Ok(o) => Ok(
                if tag == 2 {
                    DummyStateMachine::InputDone(o)
                } else {
                    DummyStateMachine::Refund(o)
                },
            ),
        }
    } else if tag == 5 {
        match whole_decoding::<(OperationId, Amount)>(p) {
            Err(e) => Err(e),
            Ok((o, a)) => Ok(DummyStateMachine::Unreachable(o, a)),
        }
    } else {
        Err(DecodeError::InvalidFlag)
    }
}

/// The variant index, then the fields as a length-prefixed byte buffer.
impl Codec for DummyStateMachine {
    open spec fn encodable(v: DummyStateMachine) -> bool {
        true
    }

    open spec fn encoding(v: DummyStateMachine) -> Seq<u8> {
        <(u64, Vec<u8>)>::encoding((tag_of(v), payload_of(v)))
    }

    open spec fn decoding(b: Seq<u8>) -> Result<(DummyStateMachine, nat), DecodeError> {
        match <(u64, Vec<u8>)>::decoding(b) {
            Err(e) => Err(e),
            Ok(((tag, p), n)) => match state_from_payload(tag, p) {
                Err(e) => Err(e),
                Ok(s) => Ok((s, n)),
            },
        }
    }

    proof fn lemma_round_trip(v: DummyStateMachine, rest: Seq<u8>) {
        let p = payload_of(v);
        assert(<Vec<u8> as Codec>::encodable(p)) by {
            match v {
                DummyStateMachine::InputDone(o) => {},
                DummyStateMachine::Refund(o) => {},
                _ => {},
            }
            assert(p.len() <= u64::MAX) by {
                lemma_payload_short(v);
            }
        }
        <(u64, Vec<u8>)>::lemma_round_trip((tag_of(v), p), rest);
        match v {
            DummyStateMachine::Input(a, t, o) => lemma_codec_round_trip::<TxFields>((a, (t, o))),
            DummyStateMachine::Output(a, t, o) => lemma_codec_round_trip::<TxFields>((a, (t, o))),
            DummyStateMachine::InputDone(o) => lemma_codec_round_trip::<OperationId>(o),
            DummyStateMachine::OutputDone(a, t, o) => lemma_codec_round_trip::<TxFields>(
                (a, (t, o)),
            ),
            DummyStateMachine::Refund(o) => lemma_codec_round_trip::<OperationId>(o),
            DummyStateMachine::Unreachable(o, a) => lemma_codec_round_trip::<(OperationId, Amount)>(
                (o, a),
            ),
        }
    }

    proof fn lemma_canonical(b: Seq<u8>) {
        <(u64, Vec<u8>)>::lemma_canonical(b);
        match <(u64, Vec<u8>)>::decoding(b) {
            Ok(((tag, p), n)) => {
                lemma_whole_canonical::<TxFields>(p);
                lemma_whole_canonical::<OperationId>(p);
                lemma_whole_canonical::<(OperationId, Amount)>(p);
            },
            Err(_) => {},
        }
    }

    fn consensus_encode(&self, out: &mut Vec<u8>) {
        let payload: Vec<u8> = match *self {
            DummyStateMachine::Input(a, t, o) => consensus_encode_to_vec(&(a, (t, o))),
            DummyStateMachine::Output(a, t, o) => consensus_encode_to_vec(&(a, (t, o))),
            DummyStateMachine::InputDone(o) => consensus_encode_to_vec(&o),
            DummyStateMachine::OutputDone(a, t, o) => consensus_encode_to_vec(&(a, (t, o))),
            DummyStateMachine::Refund(o) => consensus_encode_to_vec(&o),
            DummyStateMachine::Unreachable(o, a) => consensus_encode_to_vec(&(o, a)),
        };
        let tag: u64 = match *self {
            DummyStateMachine::Input(..) => 0,
            DummyStateMachine::Output(..) => 1,
            DummyStateMachine::InputDone(..) => 2,
            DummyStateMachine::OutputDone(..) => 3,
            DummyStateMachine::Refund(..) => 4,
            DummyStateMachine::Unreachable(..) => 5,
        };
        let record = (tag, payload);
        assert(payload.deep_view() =~= payload@);
        record.consensus_encode(out);
    }

    fn consensus_decode(b: &[u8], pos: usize) -> (r: Result<(DummyStateMachine, usize), DecodeError>) {
        let ((tag, payload), end) = match <(u64, Vec<u8>)>::consensus_decode(b, pos) {
            Ok(x) => x,
            Err(e) => return Err(e),
        };
        assert(payload.deep_view() =~= payload@);
        let p = payload.as_slice();
        let state = if tag == 0 || tag == 1 || tag == 3 {
            match consensus_decode_whole::<TxFields>(p) {
                Err(e) => return Err(e),
                Ok((a, (t, o))) => if tag == 0 {
                    DummyStateMachine::Input(a, t, o)
                } else if tag == 1 {
                    DummyStateMachine::Output(a, t, o)
                } else {
                    DummyStateMachine::OutputDone(a, t, o)
                },
            }
        } else if tag == 2 || tag == 4 {
            match consensus_decode_whole::<OperationId>(p) {
                Err(e) => return Err(e),
                Ok(o) => if tag == 2 {
                    DummyStateMachine::InputDone(o)
                } else {
                    DummyStateMachine::Refund(o)
                },
            }
        } else if tag == 5 {
            match consensus_decode_whole::<(OperationId, Amount)>(p) {
                Err(e) => return Err(e),
                Ok((o, a)) => DummyStateMachine::Unreachable(o, a),
            }
        } else {
            return Err(DecodeError::InvalidFlag);
        };
        Ok((state, end))
    }
}

/// The fields of a state take far fewer bytes than a length can count.
proof fn lemma_payload_short(v: DummyStateMachine)
    ensures
        payload_of(v).len() <= 100,
{
    match v {
        DummyStateMachine::Input(a, _, _) => crate::encoding::lemma_bigsize_len(a.msats),
        DummyStateMachine::Output(a, _, _) => crate::encoding::lemma_bigsize_len(a.msats),
        DummyStateMachine::OutputDone(a, _, _) => crate::encoding::lemma_bigsize_len(a.msats),
        DummyStateMachine::Unreachable(_, a) => crate::encoding::lemma_bigsize_len(a.msats),
        _ => {},
    }
}

impl State for DummyStateMachine {
    open spec fn spec_operation_id(v: DummyStateMachine) -> OperationId {
        v.spec_operation_id()
    }

    open spec fn spec_is_terminal(v: DummyStateMachine) -> bool {
        is_terminal(v)
    }

    fn operation_id(&self) -> (r: OperationId) {
        DummyStateMachine::operation_id(self)
    }

    fn is_terminal(&self) -> (r: bool) {
        match self {
            DummyStateMachine::Input(..) | DummyStateMachine::Output(..) => false,
            _ => true,
        }
    }
}

/// The first byte of the key under which the module's balance is stored.
pub const FUNDS_KEY_PREFIX: u8 = 0x04;

/// The key of the module's balance.
pub open spec fn funds_key() -> Seq<u8> {
    seq![FUNDS_KEY_PREFIX]
}

/// The balance stored in `m`: zero when nothing is stored; a stored value
/// that does not decode is an error.
pub open spec fn stored_funds(m: Map<Seq<u8>, Seq<u8>>) -> Result<Amount, DatabaseError> {
    if !m.contains_key(funds_key()) {
        Ok(Amount { msats: 0 })
    } else {
        match whole_decoding::<Amount>(m[funds_key()]) {
            Ok(a) => Ok(a),
            Err(e) => Err(DatabaseError::Decode(e)),
        }
    }
}

/// Whether the transition of `s` on this result credits the balance: a
/// rejected input is refunded, an accepted output is received.
pub open spec fn credits_funds(s: DummyStateMachine, accepted: bool) -> bool {
    (s is Input && !accepted) || (s is Output && accepted)
}

/// The module's balance in the transaction.
pub fn get_funds(tx: &TransactionalTree) -> (r: Result<Amount, DatabaseError>)
    requires
        tx.wf(),
    ensures
        r == stored_funds(tx@),
{
    let key: Vec<u8> = vec![FUNDS_KEY_PREFIX];
    assert(key@ =~= funds_key());
    match tx.get_raw(key.as_slice()) {
        None => Ok(Amount::from_msats(0)),
        Some(bytes) => match consensus_decode_whole::<Amount>(bytes.as_slice()) {
            Ok(a) => Ok(a),
            Err(e) => Err(DatabaseError::Decode(e)),
        },
    }
}

/// Applies the transition of an active `state` for its trigger's result in
/// one transaction: where the workflow credits the balance (a rejected input,
/// an accepted output) reads and credits the stored balance, then replaces the
/// state's row by the next state's. Returns the next state; `None`, changing
/// nothing, for a terminal state or one whose row is gone. The balance is read
/// only on the crediting paths, so only there can an unreadable balance fail.
pub fn transition_in_store(
    tx: &mut TransactionalTree,
    module: u16,
    state: &DummyStateMachine,
    accepted: bool,
) -> (r: Result<Option<DummyStateMachine>, DatabaseError>)
    requires
        old(tx).wf(),
    ensures
        final(tx).wf(),
        final(tx).spec_base_version() == old(tx).spec_base_version(),
        ({
            let m = old(tx)@;
            if is_terminal(*state) || !m.contains_key(active_key::<DummyStateMachine>(module, *state)) {
                r == Ok::<Option<DummyStateMachine>, DatabaseError>(None) && final(tx)@ == m
            } else if credits_funds(*state, accepted) {
                match stored_funds(m) {
                    Err(e) => r == Err::<Option<DummyStateMachine>, DatabaseError>(e) && final(tx)@ == m,
                    Ok(f) => {
                        let (next, funds) = next_state(*state, accepted, f)->0;
                        &&& r == Ok::<Option<DummyStateMachine>, DatabaseError>(Some(next))
                        &&& final(tx)@ == transition_effect::<DummyStateMachine>(
                            m.insert(funds_key(), Amount::encoding(funds)),
                            module,
                            *state,
                            next,
                        )
                    },
                }
            } else {
                let next = (next_state(*state, accepted, Amount { msats: 0 })->0).0;
                &&& r == Ok::<Option<DummyStateMachine>, DatabaseError>(Some(next))
                &&& final(tx)@ == transition_effect::<DummyStateMachine>(m, module, *state, next)
            }
        }),
{
    if state.is_terminal() {
        return Ok(None);
    }
    let row = crate::executor::make_active_key(module, state);
    if tx.get_raw(row.as_slice()).is_none() {
        return Ok(None);
    }
    let credits = match state {
        DummyStateMachine::Input(..) => !accepted,
        _ => accepted,
    };
    if !credits {
        let (next, _) = match state.transition(accepted, Amount::from_msats(0)) {
            Some(x) => x,
            None => return Ok(None),
        };
        apply_transition(tx, module, state, &next);
        return Ok(Some(next));
    }
    let funds = match get_funds(tx) {
        Ok(f) => f,
        Err(e) => return Err(e),
    };
    let (next, new_funds) = match state.transition(accepted, funds) {
        Some(x) => x,
        None => return Ok(None),
    };
    let key: Vec<u8> = vec![FUNDS_KEY_PREFIX];
    assert(key@ =~= funds_key());
    let value = consensus_encode_to_vec(&new_funds);
    tx.insert_raw(key, value);
    assert(funds_key() != active_key::<DummyStateMachine>(module, *state)) by {
        assert(funds_key()[0] != active_key::<DummyStateMachine>(module, *state)[0]);
    }
    apply_transition(tx, module, state, &next);
    Ok(Some(next))
}

} // verus!
