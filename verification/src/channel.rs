//! The subscriber channel: the outbound path from a room to one connected
//! player. It wraps a bounded queue; a send either enqueues the snapshot or
//! fails because the peer is gone or cannot accept more, and the room treats
//! such a failure as a disconnect. The ghost log records every snapshot that
//! was actually enqueued, in order.

use crate::state::{GameStateV, PlayerGameState};
use vstd::prelude::*;

verus! {

#[verifier::external_type_specification]
#[verifier::external_body]
#[verifier::reject_recursive_types(T)]
pub struct ExSender<T>(tokio::sync::mpsc::Sender<T>);

#[verifier::external_type_specification]
#[verifier::external_body]
#[verifier::reject_recursive_types(T)]
pub struct ExReceiver<T>(tokio::sync::mpsc::Receiver<T>);

/// How many snapshots a subscriber may leave unread before the room treats
/// it as disconnected.
pub const SUBSCRIBER_QUEUE_LEN: usize = 128;

/// Relies on tokio's `sync::mpsc::channel`: creates a bounded queue and
/// returns its two ends. It panics only on a zero capacity, and this call
/// passes a positive constant.
#[verifier::external_body]
fn raw_channel() -> (r: (
    tokio::sync::mpsc::Sender<PlayerGameState>,
    tokio::sync::mpsc::Receiver<PlayerGameState>,
))
{
    tokio::sync::mpsc::channel(SUBSCRIBER_QUEUE_LEN)
}

/// The sending end of one player's snapshot queue, together with the log of
/// the snapshots enqueued so far.
pub struct Subscriber {
    tx: tokio::sync::mpsc::Sender<PlayerGameState>,
    sent: Ghost<Seq<GameStateV>>,
}

impl View for Subscriber {
    type V = Seq<GameStateV>;

    closed spec fn view(&self) -> Seq<GameStateV> {
        self.sent@
    }
}

impl Subscriber {
    /// Opens a fresh subscriber queue; the receiving end goes to the
    /// transport that serves the player.
    pub fn subscriber_channel() -> (r: (Subscriber, tokio::sync::mpsc::Receiver<PlayerGameState>))
        ensures
            r.0@ == Seq::<GameStateV>::empty(),
    {
        let (tx, rx) = raw_channel();
        (Subscriber { tx, sent: Ghost(Seq::empty()) }, rx)
    }

    /// Relies on tokio's `Sender::try_send`: without blocking, either
    /// enqueues the message and returns `Ok`, or returns it back in an
    /// error when the queue is full or the receiver is gone. Whether a
    /// given call succeeds depends on the peer, so nothing promises `true`.
    #[verifier::external_body]
    pub fn send(&mut self, msg: PlayerGameState) -> (r: bool)
        ensures
            r ==> final(self)@ == old(self)@.push(msg@),
            !r ==> final(self)@ == old(self)@,
    {
        self.tx.try_send(msg).is_ok()
    }
}

} // verus!
