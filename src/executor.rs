//! The persistence side of the state-machine executor: one row per active
//! state, replaced atomically when a transition is applied, and read back on
//! recovery.
use vstd::prelude::*;

use crate::codec::{lemma_whole_canonical, whole_decoding};
use crate::encoding::{Codec, DecodeError};
use crate::ids::OperationId;
use crate::store::{has_prefix, prefix_pred, DatabaseError, KvMap, Tree, TransactionalTree};

verus! {

/// The first byte of every active-state row key.
pub const ACTIVE_STATE_PREFIX: u8 = 0xa1;

/// A step of a workflow, as the executor sees it.
pub trait State: Codec {
    spec fn spec_operation_id(v: Self::V) -> OperationId;

    /// A terminal state offers no transition.
    spec fn spec_is_terminal(v: Self::V) -> bool;

    fn operation_id(&self) -> (r: OperationId)
        ensures
            r == Self::spec_operation_id(self.deep_view()),
    ;

    fn is_terminal(&self) -> (r: bool)
        ensures
            r == Self::spec_is_terminal(self.deep_view()),
    ;
}

/// The key prefix of all active states of an operation in a module instance.
pub open spec fn operation_prefix(module: u16, op: OperationId) -> Seq<u8> {
    seq![ACTIVE_STATE_PREFIX] + u16::encoding(module) + OperationId::encoding(op)
}

/// The row key of an active state.
pub open spec fn active_key<S: State>(module: u16, s: S::V) -> Seq<u8> {
    operation_prefix(module, S::spec_operation_id(s)) + S::encoding(s)
}

/// The store after the transition from `current` to `next` is applied: the row
/// of `current` is replaced by one for `next`, or by none when `next` is terminal.
/// Without a row for `current` nothing changes: the transition was applied already.
pub open spec fn transition_effect<S: State>(
    m: Map<Seq<u8>, Seq<u8>>,
    module: u16,
    current: S::V,
    next: S::V,
) -> Map<Seq<u8>, Seq<u8>> {
    if !m.contains_key(active_key::<S>(module, current)) {
        m
    } else if S::spec_is_terminal(next) {
        m.remove(active_key::<S>(module, current))
    } else {
        m.remove(active_key::<S>(module, current)).insert(active_key::<S>(module, next), Seq::empty())
    }
}

proof fn lemma_prefix_len(module: u16, op: OperationId)
    ensures
        operation_prefix(module, op).len() == 1 + u16::encoding(module).len() + 32,
{
    assert(op.0@.len() == 32);
}

/// Different states have different row keys.
pub proof fn lemma_active_key_injective<S: State>(module: u16, a: S::V, b: S::V)
    requires
        S::encodable(a),
        S::encodable(b),
        active_key::<S>(module, a) == active_key::<S>(module, b),
    ensures
        a == b,
{
    let pa = operation_prefix(module, S::spec_operation_id(a));
    let pb = operation_prefix(module, S::spec_operation_id(b));
    lemma_prefix_len(module, S::spec_operation_id(a));
    lemma_prefix_len(module, S::spec_operation_id(b));
    let ka = active_key::<S>(module, a);
    assert(ka.subrange(pa.len() as int, ka.len() as int) =~= S::encoding(a));
    assert(ka.subrange(pb.len() as int, ka.len() as int) =~= S::encoding(b));
    S::lemma_round_trip(a, Seq::empty());
    S::lemma_round_trip(b, Seq::empty());
    assert(S::encoding(a) + Seq::<u8>::empty() =~= S::encoding(a));
    assert(S::encoding(b) + Seq::<u8>::empty() =~= S::encoding(b));
}

/// Two triggers race for one state and both try to apply their transition:
/// only the first takes effect. Its row replaces the old one; the second
/// finds the old row gone and changes nothing.
pub proof fn lemma_transition_exactly_once<S: State>(
    m: Map<Seq<u8>, Seq<u8>>,
    module: u16,
    current: S::V,
    first: S::V,
    second: S::V,
)
    requires
        S::encodable(current),
        S::encodable(first),
        first != current,
        m.contains_key(active_key::<S>(module, current)),
    ensures
        ({
            let after = transition_effect::<S>(m, module, current, first);
            &&& !after.contains_key(active_key::<S>(module, current))
            &&& !S::spec_is_terminal(first) ==> after.contains_key(active_key::<S>(module, first))
            &&& transition_effect::<S>(after, module, current, second) == after
        }),
{
    if active_key::<S>(module, first) == active_key::<S>(module, current) {
        lemma_active_key_injective::<S>(module, first, current);
    }
}

/// After a crash the store holds what the last commit left: a transition
/// either committed, and its old state is no longer active, or did not, and
/// the old state is active as before and is raced again once.
pub proof fn lemma_recovery_sees_last_commit<S: State>(
    m: Map<Seq<u8>, Seq<u8>>,
    module: u16,
    current: S::V,
    next: S::V,
    committed: bool,
)
    requires
        S::encodable(current),
        S::encodable(next),
        next != current,
        m.contains_key(active_key::<S>(module, current)),
    ensures
        ({
            let after = if committed {
                transition_effect::<S>(m, module, current, next)
            } else {
                m
            };
            &&& after.contains_key(active_key::<S>(module, current)) <==> !committed
            &&& (committed && !S::spec_is_terminal(next)) ==> after.contains_key(
                active_key::<S>(module, next),
            )
        }),
{
    if active_key::<S>(module, next) == active_key::<S>(module, current) {
        lemma_active_key_injective::<S>(module, next, current);
    }
}

/// The row key of an active state.
pub fn make_active_key<S: State>(module: u16, state: &S) -> (r: Vec<u8>)
    requires
        S::encodable(state.deep_view()),
    ensures
        r@ == active_key::<S>(module, state.deep_view()),
{
    let mut k: Vec<u8> = Vec::new();
    k.push(ACTIVE_STATE_PREFIX);
    module.consensus_encode(&mut k);
    let op = state.operation_id();
    op.consensus_encode(&mut k);
    state.consensus_encode(&mut k);
    assert(k@ =~= active_key::<S>(module, state.deep_view()));
    k
}

/// Persists a newly started state; a terminal state leaves no row.
pub fn add_state<S: State>(tx: &mut TransactionalTree, module: u16, state: &S)
    requires
        old(tx).wf(),
        S::encodable(state.deep_view()),
    ensures
        final(tx).wf(),
        final(tx).spec_base_version() == old(tx).spec_base_version(),
        final(tx)@ == if S::spec_is_terminal(state.deep_view()) {
            old(tx)@
        } else {
            old(tx)@.insert(active_key::<S>(module, state.deep_view()), Seq::empty())
        },
{
    if !state.is_terminal() {
        let k = make_active_key(module, state);
        let empty: Vec<u8> = Vec::new();
        assert(empty@ =~= Seq::<u8>::empty());
        tx.insert_raw(k, empty);
    }
}

/// Applies the transition from `current` to `next` inside a transaction: removes
/// the row of `current` and adds one for `next` unless it is terminal. Returns
/// `false`, changing nothing, when `current` has no row.
pub fn apply_transition<S: State>(tx: &mut TransactionalTree, module: u16, current: &S, next: &S) -> (r:
    bool)
    requires
        old(tx).wf(),
        S::encodable(current.deep_view()),
        S::encodable(next.deep_view()),
    ensures
        final(tx).wf(),
        final(tx).spec_base_version() == old(tx).spec_base_version(),
        r == old(tx)@.contains_key(active_key::<S>(module, current.deep_view())),
        final(tx)@ == transition_effect::<S>(old(tx)@, module, current.deep_view(), next.deep_view()),
{
    let old_key = make_active_key(module, current);
    let removed = tx.remove_raw(old_key.as_slice());
    if removed.is_none() {
        assert(old(tx)@.remove(old_key@) =~= old(tx)@);
        return false;
    }
    if !next.is_terminal() {
        let new_key = make_active_key(module, next);
        let empty: Vec<u8> = Vec::new();
        assert(empty@ =~= Seq::<u8>::empty());
        tx.insert_raw(new_key, empty);
    }
    true
}

/// Applies a transition as one commit of a store held exclusively, so no
/// other commit can come between: returns whether a row was replaced.
pub fn commit_transition<S: State>(tree: &mut Tree, module: u16, current: &S, next: &S) -> (r: bool)
    requires
        old(tree).wf(),
        S::encodable(current.deep_view()),
        S::encodable(next.deep_view()),
    ensures
        final(tree).wf(),
        r == old(tree)@.contains_key(active_key::<S>(module, current.deep_view())),
        final(tree)@ == transition_effect::<S>(
            old(tree)@,
            module,
            current.deep_view(),
            next.deep_view(),
        ),
{
    let mut tx = tree.begin_transaction();
    let applied = apply_transition(&mut tx, module, current, next);
    let committed = tree.commit(tx);
    assert(committed is Ok);
    applied
}

/// The row key holds, after the operation's prefix, exactly the encoding of
/// a state of that operation.
pub open spec fn row_holds_state<S: State>(key: Seq<u8>, module: u16, op: OperationId) -> bool {
    let tail = key.skip(operation_prefix(module, op).len() as int);
    whole_decoding::<S>(tail) matches Ok(v) && S::spec_operation_id(v) == op
}

/// Reads back the active states of an operation, in key order, as on
/// recovery. A row that does not decode is a hard error.
pub fn active_states<S: State>(store: &KvMap, module: u16, op: OperationId) -> (r: Result<
    Vec<S>,
    DatabaseError,
>)
    requires
        store.wf(),
    ensures
        ({
            let rows = store.ordered().filter(prefix_pred(operation_prefix(module, op)));
            r is Ok <==> forall|i: int| 0 <= i < rows.len() ==> row_holds_state::<S>(
                #[trigger] rows[i].0,
                module,
                op,
            )
        }),
        r matches Ok(states) ==> {
            let rows = store.ordered().filter(prefix_pred(operation_prefix(module, op)));
            &&& states@.len() == rows.len()
            &&& forall|i: int|
                0 <= i < rows.len() ==> rows[i].0 == active_key::<S>(
                    module,
                    #[trigger] states@[i].deep_view(),
                ) && S::spec_operation_id(states@[i].deep_view()) == op
        },
{
    let mut prefix: Vec<u8> = Vec::new();
    prefix.push(ACTIVE_STATE_PREFIX);
    module.consensus_encode(&mut prefix);
    op.consensus_encode(&mut prefix);
    assert(prefix@ =~= operation_prefix(module, op));
    let rows = store.find_by_prefix(prefix.as_slice());
    let ghost rv = rows.deep_view();
    let mut states: Vec<S> = Vec::new();
    let mut i: usize = 0;
    while i < rows.len()
        invariant
            rv == rows.deep_view(),
            rv == store.ordered().filter(prefix_pred(prefix@)),
            prefix@ == operation_prefix(module, op),
            i <= rv.len(),
            states@.len() == i,
            forall|j: int|
                0 <= j < i ==> rv[j].0 == active_key::<S>(module, #[trigger] states@[j].deep_view())
                    && S::spec_operation_id(states@[j].deep_view()) == op,
            forall|j: int| 0 <= j < i ==> row_holds_state::<S>(#[trigger] rv[j].0, module, op),
        decreases rv.len() - i,
    {
        let key = rows[i].0.as_slice();
        assert(key@ == rv[i as int].0);
        proof {
            broadcast use vstd::seq_lib::group_filter_ensures;
            assert(rv.contains(rv[i as int]));
            assert(has_prefix(key@, prefix@));
        }
        let start = prefix.len();
        assert(key@.subrange(start as int, key@.len() as int) =~= key@.skip(start as int));
        match S::consensus_decode(key, start) {
            Ok((s, end)) => {
                if end != key.len() {
                    assert(!row_holds_state::<S>(rv[i as int].0, module, op));
                    return Err(DatabaseError::Decode(DecodeError::TrailingBytes));
                }
                if !s.operation_id().same_as(&op) {
                    assert(!row_holds_state::<S>(rv[i as int].0, module, op));
                    return Err(DatabaseError::MisplacedState);
                }
                proof {
                    let tail = key@.subrange(start as int, key@.len() as int);
                    lemma_whole_canonical::<S>(tail);
                    assert(tail.subrange(0, tail.len() as int) =~= tail);
                    assert(key@ =~= prefix@ + tail);
                }
                let ghost before = states@;
                states.push(s);
                assert(forall|j: int| 0 <= j < i ==> states@[j] == before[j]);
            },
            Err(e) => {
                assert(!row_holds_state::<S>(rv[i as int].0, module, op));
                return Err(DatabaseError::Decode(e));
            },
        }
        i = i + 1;
    }
    Ok(states)
}

} // verus!
