//! Outbound queues and reply channels.
//!
//! Each live connection owns an unbounded FIFO of `Message`s — the sending
//! half of a tokio channel whose receiving half is drained by that
//! connection's writer task.  Producers never block; a send on a queue whose
//! writer has exited fails, and that failure is the canonical dead-connection
//! signal used throughout the hub.
//!
//! A `ReplySender` is the sending half of a oneshot channel: one pending
//! ping-pong publish awaits the receiving half, and the reader task delivers
//! the subscriber's next data frame through it.

use vstd::prelude::*;

verus! {

use crate::message::{Message, MessageView};

#[verifier::external_type_specification]
#[verifier::external_body]
#[verifier::reject_recursive_types(T)]
pub struct ExUnboundedSender<T>(tokio::sync::mpsc::UnboundedSender<T>);

#[verifier::external_type_specification]
#[verifier::external_body]
#[verifier::reject_recursive_types(T)]
pub struct ExOneshotSender<T>(tokio::sync::oneshot::Sender<T>);

/// One connection's outbound queue: the sending half of the channel drained
/// by that connection's writer task, together with the sequence of messages
/// the queue has accepted so far.
pub struct OutboundQueue {
    pub tx: tokio::sync::mpsc::UnboundedSender<Message>,
    pub accepted: Ghost<Seq<MessageView>>,
}

impl View for OutboundQueue {
    type V = Seq<MessageView>;

    open spec fn view(&self) -> Seq<MessageView> {
        self.accepted@
    }
}

impl OutboundQueue {
    /// Wrap a fresh channel's sending half; nothing has been accepted yet.
    pub fn new(tx: tokio::sync::mpsc::UnboundedSender<Message>) -> (q: OutboundQueue)
        ensures
            q@ == Seq::<MessageView>::empty(),
    {
        OutboundQueue { tx, accepted: Ghost(Seq::empty()) }
    }

    /// Relies on tokio's `UnboundedSender::send`: the message is queued for
    /// the receiving half without blocking, unless the receiving half has
    /// been dropped, in which case nothing is queued and the send fails.
    #[verifier::external_body]
    pub(crate) fn enqueue(&mut self, m: Message) -> (ok: bool)
        ensures
            ok ==> final(self)@ == old(self)@.push(m@),
            !ok ==> final(self)@ == old(self)@,
    {
        self.tx.send(m).is_ok()
    }
}

/// The sending half of one pending publish's reply channel.
pub struct ReplySender {
    pub tx: tokio::sync::oneshot::Sender<Vec<u8>>,
}

impl ReplySender {
    pub fn new(tx: tokio::sync::oneshot::Sender<Vec<u8>>) -> (r: ReplySender) {
        ReplySender { tx }
    }

    /// Relies on tokio's oneshot `Sender::send`: the awaiting receiver, if it
    /// is still there, observes exactly these bytes; if it is gone the bytes
    /// are dropped and the send reports failure.
    #[verifier::external_body]
    pub(crate) fn deliver(self, data: Vec<u8>) -> (ok: bool) {
        self.tx.send(data).is_ok()
    }
}

} // verus!
