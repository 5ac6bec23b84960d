//! The guest's waker table: for each handle, the waker of the task that last
//! saw `Pending` on it.
use crate::chan::current_waker;
use crate::maybe::{Handle, IoPoll, Maybe, decode};
use std::collections::HashMap;
use std::task::{Context, Waker};
use vstd::prelude::*;

verus! {

broadcast use vstd::std_specs::hash::group_hash_axioms;

/// The latest waker registered for each handle.
pub struct Reactor {
    wakers: HashMap<Handle, Waker>,
}

impl Reactor {
    /// The registered waker of each handle.
    pub closed spec fn view(&self) -> Map<Handle, Waker> {
        self.wakers@
    }

    pub fn new() -> (r: Self)
        ensures
            r@ == Map::<Handle, Waker>::empty(),
    {
        Reactor { wakers: HashMap::new() }
    }

    /// Registers `waker` for `handle`, replacing the one registered before.
    pub fn register(&mut self, handle: Handle, waker: Waker)
        ensures
            final(self)@ == old(self)@.insert(handle, waker),
    {
        self.wakers.insert(handle, waker);
    }

    /// Wakes the task registered for `handle`, if any, and forgets its waker:
    /// a task that pends again registers again.
    pub fn wake(&mut self, handle: Handle)
        ensures
            final(self)@ == old(self)@.remove(handle),
    {
        if let Some(waker) = self.wakers.remove(&handle) {
            waker.wake();
        }
    }
}

/// Turns the wire value a syscall returned into a poll result; on `Pending`
/// the current task is registered for `handle`, so that waking the handle
/// polls it again.
pub fn poll_ffi(retval: Maybe, handle: Handle, reactor: &mut Reactor, cx: &Context) -> (r: IoPoll)
    ensures
        r == decode(retval.0),
        r is Pending ==> final(reactor)@.dom() == old(reactor)@.dom().insert(handle) && forall|h: Handle|
            h != handle && #[trigger] old(reactor)@.contains_key(h) ==> final(reactor)@[h] == old(reactor)@[h],
        r is Ready ==> final(reactor)@ == old(reactor)@,
{
    let poll = retval.into_poll();
    if poll.is_pending() {
        reactor.register(handle, current_waker(cx));
    }
    poll
}

} // verus!
