use crate::agent::protocol::{Response, ResponseView};
use tokio::sync::mpsc;
use vstd::prelude::*;

verus! {

/// The sending end of a client's queue.
#[verifier::external_type_specification]
#[verifier::external_body]
#[verifier::reject_recursive_types(T)]
pub struct ExSender<T>(mpsc::Sender<T>);

/// What came of handing a response to a client.
#[derive(Clone, Copy, Debug, PartialEq, Eq, Structural)]
pub enum SendOutcome {
    Sent,
    /// The client hung up.
    Closed,
    /// The client is still connected, but its queue is full.
    Full,
}

/// A response that was handed to a client, and what came of it.
pub struct Delivery {
    pub to: mpsc::Sender<Response>,
    pub response: ResponseView,
    pub outcome: SendOutcome,
}

/// A client that was looked at, and whether it had hung up.
pub struct Look {
    pub at: mpsc::Sender<Response>,
    pub gone: bool,
}

/// The way to the clients' queues. It stands for the record of everything that
/// was done on them, in order: only an attempt to send adds a delivery, and
/// only a look adds a look.
pub struct Outbox {
    sent: Ghost<Seq<Delivery>>,
    looked: Ghost<Seq<Look>>,
}

impl Outbox {
    /// The deliveries so far.
    pub closed spec fn sent(self) -> Seq<Delivery> {
        self.sent@
    }

    /// The looks so far.
    pub closed spec fn looked(self) -> Seq<Look> {
        self.looked@
    }

    pub fn new() -> (o: Outbox)
        ensures
            o.sent() == Seq::<Delivery>::empty(),
            o.looked() == Seq::<Look>::empty(),
    {
        Outbox { sent: Ghost(Seq::empty()), looked: Ghost(Seq::empty()) }
    }

    /// `tokio::sync::mpsc::Sender::try_send`: puts the response into the
    /// client's queue, unless the queue is full or the client is gone. Which of
    /// these holds depends on what the client has read, so nothing is promised
    /// of it; what was handed to whom, and with which outcome, is on record.
    #[verifier::external_body]
    pub(crate) fn try_send(&mut self, tx: &mpsc::Sender<Response>, response: Response) -> (r:
        SendOutcome)
        ensures
            final(self).sent() == old(self).sent().push(
                (Delivery { to: *tx, response: response@, outcome: r }),
            ),
            final(self).looked() == old(self).looked(),
    {
        match tx.try_send(response) {
            Ok(()) => SendOutcome::Sent,
            Err(mpsc::error::TrySendError::Closed(_)) => SendOutcome::Closed,
            Err(mpsc::error::TrySendError::Full(_)) => SendOutcome::Full,
        }
    }

    /// `tokio::sync::mpsc::Sender::is_closed`: whether the client is gone. That
    /// depends on the client, so nothing is promised of it; who was looked at,
    /// and what was seen, is on record.
    #[verifier::external_body]
    pub(crate) fn is_closed(&mut self, tx: &mpsc::Sender<Response>) -> (gone: bool)
        ensures
            final(self).looked() == old(self).looked().push((Look { at: *tx, gone })),
            final(self).sent() == old(self).sent(),
    {
        tx.is_closed()
    }
}

} // verus!
