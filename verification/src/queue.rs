//! The queue of blocks that wait to be handed back.
//!
//! It is a channel of `std::sync::mpsc`: handles send into it from wherever
//! they are dropped, and the bookkeeping alone receives. Verus does not look
//! into the channel. What comes out of it depends on what other owners of a
//! sender have done, so nothing is stated about it.

use crate::buddy::NodeId;
use std::sync::mpsc::{Receiver, Sender};
use vstd::prelude::*;

verus! {

/// `std::sync::mpsc::Sender`, opaque to the verifier.
#[verifier::external_type_specification]
#[verifier::external_body]
#[verifier::reject_recursive_types(T)]
pub struct ExSender<T>(Sender<T>);

/// `std::sync::mpsc::Receiver`, opaque to the verifier.
#[verifier::external_type_specification]
#[verifier::external_body]
#[verifier::reject_recursive_types(T)]
pub struct ExReceiver<T>(Receiver<T>);

/// `std::sync::mpsc::channel`: the two ends of a new unbounded channel.
#[verifier::external_body]
pub(crate) fn open_queue() -> (ends: (Sender<NodeId>, Receiver<NodeId>)) {
    std::sync::mpsc::channel()
}

/// `Sender::clone`: one more sending end of the same channel.
#[verifier::external_body]
pub(crate) fn share(sender: &Sender<NodeId>) -> (shared: Sender<NodeId>) {
    sender.clone()
}

/// `Receiver::try_recv`: the next entry that waits in the channel, without
/// blocking; `None` where none waits (or no sender is left).
#[verifier::external_body]
pub(crate) fn next_waiting(receiver: &Receiver<NodeId>) -> (entry: Option<NodeId>) {
    receiver.try_recv().ok()
}

} // verus!
