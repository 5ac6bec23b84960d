use futures::task::{noop_waker, waker, ArcWake};
use plugin_fabric::guest::{Socket, SocketListener};
use plugin_fabric::maybe::{ErrorKind, Maybe, Poll};
use plugin_fabric::reactor::{poll_ffi, Reactor};
use std::sync::atomic::{AtomicUsize, Ordering};
use std::sync::Arc;
use std::task::Context;

struct Counter(AtomicUsize);

impl ArcWake for Counter {
    fn wake_by_ref(arc_self: &Arc<Self>) {
        arc_self.0.fetch_add(1, Ordering::SeqCst);
    }
}

#[test]
fn listener_from_the_host_reply() {
    assert_eq!(SocketListener::new(Maybe(3)).ok().map(|l| l.handle()), Some(3));
    assert_eq!(SocketListener::new(Maybe(-3)).err(), Some(ErrorKind::NotFound));
    assert_eq!(SocketListener::new(Maybe(-1)).err(), Some(ErrorKind::WouldBlock));
}

#[test]
fn socket_keeps_its_handle() {
    assert_eq!(Socket::from_handle(42).handle(), 42);
}

#[test]
fn pending_registers_the_task_and_wake_runs_it_once() {
    let counter = Arc::new(Counter(AtomicUsize::new(0)));
    let w = waker(counter.clone());
    let cx = Context::from_waker(&w);
    let mut reactor = Reactor::new();
    assert_eq!(poll_ffi(Maybe(-1), 5, &mut reactor, &cx), Poll::Pending);
    reactor.wake(4);
    assert_eq!(counter.0.load(Ordering::SeqCst), 0);
    reactor.wake(5);
    assert_eq!(counter.0.load(Ordering::SeqCst), 1);
    reactor.wake(5);
    assert_eq!(counter.0.load(Ordering::SeqCst), 1);
}

#[test]
fn ready_results_register_nothing() {
    let counter = Arc::new(Counter(AtomicUsize::new(0)));
    let w = waker(counter.clone());
    let cx = Context::from_waker(&w);
    let mut reactor = Reactor::new();
    assert_eq!(poll_ffi(Maybe(8), 5, &mut reactor, &cx), Poll::Ready(Ok(8)));
    assert_eq!(poll_ffi(Maybe(-4), 5, &mut reactor, &cx), Poll::Ready(Err(ErrorKind::NotConnected)));
    reactor.wake(5);
    assert_eq!(counter.0.load(Ordering::SeqCst), 0);
}

#[test]
fn registering_again_replaces_the_waker() {
    let first = Arc::new(Counter(AtomicUsize::new(0)));
    let second = Arc::new(Counter(AtomicUsize::new(0)));
    let mut reactor = Reactor::new();
    reactor.register(1, waker(first.clone()));
    reactor.register(1, waker(second.clone()));
    reactor.wake(1);
    assert_eq!(first.0.load(Ordering::SeqCst), 0);
    assert_eq!(second.0.load(Ordering::SeqCst), 1);
    let nw = noop_waker();
    let _ = Context::from_waker(&nw);
}
