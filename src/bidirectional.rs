//! A duplex channel: two matched endpoints over two unbounded FIFO queues,
//! each endpoint sending one message type and receiving the other.
use vstd::prelude::*;
use crossbeam_channel::{Receiver, RecvError, SendError, Sender, TryRecvError};
use crate::worker::Event;

verus! {

#[verifier::external_type_specification]
#[verifier::external_body]
#[verifier::reject_recursive_types(T)]
pub struct ExSender<T>(Sender<T>);

#[verifier::external_type_specification]
#[verifier::external_body]
#[verifier::reject_recursive_types(T)]
pub struct ExReceiver<T>(Receiver<T>);

#[verifier::external_type_specification]
#[verifier::external_body]
#[verifier::reject_recursive_types(T)]
pub struct ExSendError<T>(SendError<T>);

#[verifier::external_type_specification]
#[verifier::external_body]
pub struct ExRecvError(RecvError);

#[verifier::external_type_specification]
#[verifier::external_body]
pub struct ExTryRecvError(TryRecvError);

/// Relies on `crossbeam_channel::unbounded`: a new unbounded FIFO queue, as a
/// sending and a receiving end.
pub assume_specification<T>[ crossbeam_channel::unbounded::<T> ]() -> (Sender<T>, Receiver<T>);

/// Relies on `crossbeam_channel::Sender::send`: queues the message, or fails
/// when every receiver is gone; it never blocks on an unbounded queue.
pub assume_specification<T>[ Sender::<T>::send ](s: &Sender<T>, msg: T) -> Result<(), SendError<T>>;

/// Relies on `crossbeam_channel::Receiver::recv`: waits for the next message,
/// or fails once the queue is empty and every sender is gone.
pub assume_specification<T>[ Receiver::<T>::recv ](r: &Receiver<T>) -> Result<T, RecvError>;

/// Relies on `crossbeam_channel::Receiver::try_recv`: the next message if one
/// is queued, else `Empty`, or `Disconnected` once every sender is gone.
pub assume_specification<T>[ Receiver::<T>::try_recv ](r: &Receiver<T>) -> Result<
    T,
    TryRecvError,
>;

/// What a look at the incoming queue found.
#[derive(Debug, PartialEq, Eq)]
pub enum Polled<R> {
    Received(R),
    Empty,
    PeerGone,
}

/// Relies on the variants of `crossbeam_channel::TryRecvError`: `Empty` and
/// `Disconnected` become `Polled::Empty` and `Polled::PeerGone`.
#[verifier::external_body]
fn polled_of<R>(r: Result<R, TryRecvError>) -> (p: Polled<R>)
    ensures
        match r {
            Ok(v) => p == Polled::Received(v),
            Err(_) => !(p is Received),
        },
{
    match r {
        Ok(v) => Polled::Received(v),
        Err(TryRecvError::Empty) => Polled::Empty,
        Err(TryRecvError::Disconnected) => Polled::PeerGone,
    }
}

/// One endpoint: sends `S`, receives `R`.
#[verifier::reject_recursive_types(S)]
#[verifier::reject_recursive_types(R)]
pub struct Channel<S, R> {
    pub sender: Sender<S>,
    pub receiver: Receiver<R>,
}

impl<S, R> Channel<S, R> {
    /// Sends a message to the peer; fails only when the peer is gone.
    pub fn send(&self, s: S) -> Result<(), SendError<S>> {
        self.sender.send(s)
    }

    /// Waits for the next message from the peer; fails once the peer is gone
    /// and nothing is left queued.
    pub fn recv(&self) -> Result<R, RecvError> {
        self.receiver.recv()
    }

    /// The next message from the peer if one is queued, without waiting.
    pub fn try_recv(&self) -> Result<R, TryRecvError> {
        self.receiver.try_recv()
    }

    /// `try_recv`, told apart by what it found.
    pub fn poll(&self) -> (p: Polled<R>) {
        polled_of(self.receiver.try_recv())
    }
}

/// A matched pair of endpoints: what one sends, the other receives.
pub fn channel<S, R>() -> (Channel<S, R>, Channel<R, S>) {
    let (ls, lr) = crossbeam_channel::unbounded();
    let (rs, rr) = crossbeam_channel::unbounded();
    (Channel { sender: ls, receiver: rr }, Channel { sender: rs, receiver: lr })
}

/// What the consumer tells its user when the connection ends.
#[derive(Clone, Copy, Debug, PartialEq, Eq, Structural)]
pub enum Notice {
    /// The worker confirmed a requested disconnect.
    Disconnected,
    /// The worker stopped on a read or logging failure.
    Errored,
    /// The worker went away without a word.
    WorkerGone,
}

/// Whether a look at the event queue ends the connection, and with which
/// notice: every event does, and so does a vanished worker; an empty queue
/// does not.
pub fn notice_for(p: Polled<Event>) -> (r: Option<Notice>)
    ensures
        r == match p {
            Polled::Received(Event::Disconnected) => Some(Notice::Disconnected),
            Polled::Received(Event::Errored) => Some(Notice::Errored),
            Polled::PeerGone => Some(Notice::WorkerGone),
            Polled::Empty => None::<Notice>,
        },
{
    match p {
        Polled::Received(Event::Disconnected) => Some(Notice::Disconnected),
        Polled::Received(Event::Errored) => Some(Notice::Errored),
        Polled::PeerGone => Some(Notice::WorkerGone),
        Polled::Empty => None,
    }
}

} // verus!
