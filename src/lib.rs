//! The durable state-machine engine of a federated custody client: a
//! canonical binary codec, an ordered transactional key-value store, the
//! persistence rules of the executor, the decisions of task-group joins, and
//! the workflows and types built on them.
use vstd::prelude::*;

pub mod amount;
pub mod ids;
pub mod encoding;
pub mod collections;
pub mod bytes;
pub mod maps;
pub mod time;
pub mod codec;
pub mod fee_consensus;
pub mod task;
pub mod dummy;
pub mod store;
pub mod executor;
pub mod dlc;
pub mod gateway_pay;
pub mod routing_fees;
pub mod esplora;

verus! {

} // verus!
