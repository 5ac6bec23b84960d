//! The channel primitives of `futures` and the task context of `std`, as the
//! verified code sees them. Whatever a channel hands back depends on what other
//! tasks did to it, so these items promise nothing about the values that come
//! back; the verified code is correct for each of them.
use crate::maybe::Poll;
use futures::channel::mpsc::{Receiver, SendError, Sender, TrySendError};
use futures::stream::{Peekable, StreamExt};
use futures::Sink;
use std::task::{Context, Waker};
use vstd::prelude::*;

verus! {

#[verifier::external_type_specification]
#[verifier::external_body]
#[verifier::reject_recursive_types(T)]
pub struct ExSender<T>(Sender<T>);

#[verifier::external_type_specification]
#[verifier::external_body]
#[verifier::reject_recursive_types(T)]
pub struct ExReceiver<T>(Receiver<T>);

/// A receiver that can look at its next item without taking it, built on
/// `futures::stream::Peekable` (whose declaration Verus does not take).
#[verifier::external_body]
#[verifier::reject_recursive_types(T)]
pub struct PeekRecv<T> {
    inner: Peekable<Receiver<T>>,
}

#[verifier::external_type_specification]
#[verifier::external_body]
pub struct ExSendError(SendError);

#[verifier::external_type_specification]
#[verifier::external_body]
#[verifier::reject_recursive_types(T)]
pub struct ExTrySendError<T>(TrySendError<T>);

#[verifier::external_type_specification]
#[verifier::external_body]
pub struct ExContext<'a>(Context<'a>);

#[verifier::external_type_specification]
#[verifier::external_body]
pub struct ExWaker(Waker);

/// A bound below which `futures::channel::mpsc::channel` accepts a buffer size
/// on every target: it asserts `buffer < usize::MAX >> 2`, which is this value
/// where `usize` has 32 bits.
pub const CHANNEL_BUFFER_LIMIT: usize = 0x3FFF_FFFF;

/// `futures::channel::mpsc::channel` builds a bounded channel; it panics when
/// the buffer size reaches `usize::MAX >> 2`.
pub assume_specification<T>[ futures::channel::mpsc::channel::<T> ](buffer: usize) -> (Sender<T>, Receiver<T>)
    requires
        buffer < CHANNEL_BUFFER_LIMIT,
;

/// `Sender::start_send` queues one message, or fails when the receiver is gone
/// or the channel is full.
pub assume_specification<T>[ Sender::<T>::start_send ](tx: &mut Sender<T>, msg: T) -> Result<(), SendError>;

/// `Sender::try_send` queues one message, or fails when the receiver is gone or
/// the channel is full.
pub assume_specification<T>[ Sender::<T>::try_send ](tx: &mut Sender<T>, msg: T) -> Result<(), TrySendError<T>>;

/// `Sender::close_channel` closes the channel for every sender.
pub assume_specification<T>[ Sender::<T>::close_channel ](tx: &mut Sender<T>);

/// `Waker::wake` schedules the task the waker belongs to.
pub assume_specification[ Waker::wake ](w: Waker);

/// Relies on `Sender::poll_ready`: whether one more message can be queued now.
/// An error means the receiver is gone.
#[verifier::external_body]
pub fn poll_send_ready<T>(tx: &mut Sender<T>, cx: &mut Context) -> Poll<Result<(), SendError>> {
    match tx.poll_ready(cx) {
        std::task::Poll::Ready(r) => Poll::Ready(r),
        std::task::Poll::Pending => Poll::Pending,
    }
}

/// Relies on the `Sink::poll_flush` of `Sender`: whether queued messages have
/// been handed over.
#[verifier::external_body]
pub fn poll_send_flush<T>(tx: &mut Sender<T>, cx: &mut Context) -> Poll<Result<(), SendError>> {
    match std::pin::Pin::new(tx).poll_flush(cx) {
        std::task::Poll::Ready(r) => Poll::Ready(r),
        std::task::Poll::Pending => Poll::Pending,
    }
}

/// Relies on `StreamExt::peekable`: a receiver that can look at its next item
/// without taking it.
#[verifier::external_body]
pub fn peekable<T>(rx: Receiver<T>) -> PeekRecv<T> {
    PeekRecv { inner: rx.peekable() }
}

/// Relies on the `Stream::poll_next` of a peekable receiver: the next item,
/// `None` once the channel is closed and drained, or `Pending`.
#[verifier::external_body]
pub fn poll_next<T>(rx: &mut PeekRecv<T>, cx: &mut Context) -> Poll<Option<T>> {
    match rx.inner.poll_next_unpin(cx) {
        std::task::Poll::Ready(r) => Poll::Ready(r),
        std::task::Poll::Pending => Poll::Pending,
    }
}

/// Relies on `Peekable::poll_peek`: whether the next `poll_next` would be
/// ready, without taking the item.
#[verifier::external_body]
pub fn poll_peek_ready<T>(rx: &mut PeekRecv<T>, cx: &mut Context) -> bool {
    std::pin::Pin::new(&mut rx.inner).poll_peek(cx).is_ready()
}

/// Relies on `Receiver::close`: no further messages can be sent, those already
/// queued can still be taken.
#[verifier::external_body]
pub fn close_receiver<T>(rx: &mut PeekRecv<T>) {
    rx.inner.get_mut().close()
}

/// Relies on `Waker::wake_by_ref` of the context's waker: the current task is
/// polled again.
#[verifier::external_body]
pub fn wake_current(cx: &mut Context) {
    cx.waker().wake_by_ref()
}

/// Relies on `Waker::clone` of the context's waker: a handle that wakes the
/// current task later.
#[verifier::external_body]
pub fn current_waker(cx: &Context) -> Waker {
    cx.waker().clone()
}

} // verus!
