//! The per-instance socket manager: it owns the handles of one plugin
//! instance (listeners, connectors waiting for a match, established sockets),
//! asks the matchmaker for rendezvous, and fronts the guest's socket calls.
use crate::chan::{close_receiver, peekable, poll_next, poll_peek_ready, PeekRecv};
use crate::loopback::{Loopback, MAX_BUFFER_SIZE};
use crate::matchmaker::{ConnType, ModuleId, Port, Request, MATCHMAKER_MAX_REQ};
use crate::maybe::{ErrorKind, Handle, Poll};
use crate::table::HandleTable;
use futures::channel::mpsc::{channel, Receiver, Sender};
use std::task::Context;
use vstd::math::min;
use vstd::prelude::*;

verus! {

/// Why a listener or connector could not be opened. Both are failures of the
/// host, not errors a guest is meant to see.
#[derive(Clone, Copy, Debug, PartialEq, Eq, Structural)]
pub enum HostFault {
    /// Every handle value has been given out.
    HandlesExhausted,
    /// The matchmaker's request channel is closed or full.
    MatchmakerUnavailable,
}

/// The handle tables of one plugin instance.
pub struct SocketManager {
    listeners: HandleTable<PeekRecv<Loopback>>,
    connectors: HandleTable<PeekRecv<Loopback>>,
    sockets: HandleTable<Loopback>,
    matchmaker: Sender<Request>,
    next_handle: Handle,
    id: ModuleId,
    requests: Ghost<Seq<RequestView>>,
}

/// A request as the contracts see it: module name, port and kind.
pub type RequestView = (Seq<char>, Port, ConnType);

/// No handle is in two of the three sets.
pub open spec fn disjoint3(a: Set<Handle>, b: Set<Handle>, c: Set<Handle>) -> bool {
    &&& a.disjoint(b)
    &&& a.disjoint(c)
    &&& b.disjoint(c)
}

impl SocketManager {
    /// Handles of the listeners.
    pub closed spec fn listener_handles(&self) -> Set<Handle> {
        self.listeners@.dom()
    }

    /// Handles of the connectors still waiting for their match.
    pub closed spec fn connector_handles(&self) -> Set<Handle> {
        self.connectors@.dom()
    }

    /// The established sockets, by handle.
    pub closed spec fn sockets(&self) -> Map<Handle, Loopback> {
        self.sockets@
    }

    /// The handle the next allocation gives out.
    pub closed spec fn next_handle(&self) -> Handle {
        self.next_handle
    }

    /// The module this manager belongs to.
    pub closed spec fn module_id(&self) -> Seq<char> {
        self.id@
    }

    /// Every request this manager has handed to the matchmaker, in order.
    pub closed spec fn requests(&self) -> Seq<RequestView> {
        self.requests@
    }

    /// The channel on which this manager sends its requests.
    pub closed spec fn matchmaker(&self) -> Sender<Request> {
        self.matchmaker
    }

    /// The order in which `wakes` visits the handles: listeners, connectors,
    /// then sockets, each in increasing handle order.
    pub closed spec fn walk(&self) -> Seq<Handle> {
        self.listeners.handles() + self.connectors.handles() + self.sockets.handles()
    }

    /// Every handle in use is in exactly one table and was allocated before.
    pub closed spec fn wf(&self) -> bool {
        &&& self.listeners.wf()
        &&& self.connectors.wf()
        &&& self.sockets.wf()
        &&& disjoint3(self.listeners@.dom(), self.connectors@.dom(), self.sockets@.dom())
        &&& forall|h: Handle| self.listeners@.contains_key(h) ==> h < self.next_handle
        &&& forall|h: Handle| self.connectors@.contains_key(h) ==> h < self.next_handle
        &&& forall|h: Handle| self.sockets@.contains_key(h) ==> h < self.next_handle
    }

    /// All handles in use.
    pub open spec fn handles(&self) -> Set<Handle> {
        self.listener_handles() + self.connector_handles() + self.sockets().dom()
    }

    /// The tables and the allocator are as in `other`.
    pub open spec fn same_tables(&self, other: &SocketManager) -> bool {
        &&& self.listener_handles() == other.listener_handles()
        &&& self.connector_handles() == other.connector_handles()
        &&& self.sockets().dom() == other.sockets().dom()
        &&& self.next_handle() == other.next_handle()
        &&& self.module_id() == other.module_id()
    }

    /// A handle names at most one listener, connector or socket.
    pub proof fn lemma_handles_disjoint(&self)
        requires
            self.wf(),
        ensures
            disjoint3(self.listener_handles(), self.connector_handles(), self.sockets().dom()),
    {
    }

    /// The walk visits every handle in use exactly once.
    pub proof fn lemma_walk(&self)
        requires
            self.wf(),
        ensures
            self.walk().no_duplicates(),
            forall|h: Handle| self.walk().contains(h) <==> self.handles().contains(h),
    {
        self.listeners.lemma_handles();
        self.connectors.lemma_handles();
        self.sockets.lemma_handles();
        let l = self.listeners.handles();
        let c = self.connectors.handles();
        let t = self.sockets.handles();
        let w = self.walk();
        assert forall|a: int, b: int| 0 <= a < w.len() && 0 <= b < w.len() && a != b implies w[a] != w[b] by {
            let la = l.len() as int;
            let lc = la + c.len();
            if a < la && b < la {
            } else if la <= a < lc && la <= b < lc {
                assert(w[a] == c[a - la] && w[b] == c[b - la]);
            } else if a >= lc && b >= lc {
                assert(w[a] == t[a - lc] && w[b] == t[b - lc]);
            } else {
                assert(w[a] == (if a < la { l[a] } else if a < lc { c[a - la] } else { t[a - lc] }));
                assert(w[b] == (if b < la { l[b] } else if b < lc { c[b - la] } else { t[b - lc] }));
                if a < la { assert(l.contains(w[a])); } else if a < lc { assert(c.contains(w[a])); } else { assert(t.contains(w[a])); }
                if b < la { assert(l.contains(w[b])); } else if b < lc { assert(c.contains(w[b])); } else { assert(t.contains(w[b])); }
            }
        }
        assert forall|h: Handle| w.contains(h) <==> self.handles().contains(h) by {
            if w.contains(h) {
                let a = choose|a: int| 0 <= a < w.len() && w[a] == h;
                let la = l.len() as int;
                let lc = la + c.len();
                if a < la {
                    assert(l[a] == h && l.contains(h));
                    assert(self.listeners@.contains_key(h));
                } else if a < lc {
                    assert(c[a - la] == h && c.contains(h));
                    assert(self.connectors@.contains_key(h));
                } else {
                    assert(t[a - lc] == h && t.contains(h));
                    assert(self.sockets@.contains_key(h));
                }
            }
            if self.handles().contains(h) {
                let la = l.len() as int;
                let lc = la + c.len();
                if self.listeners@.contains_key(h) {
                    assert(l.contains(h));
                    let i = choose|i: int| 0 <= i < l.len() && l[i] == h;
                    assert(w[i] == h);
                } else if self.connectors@.contains_key(h) {
                    assert(c.contains(h));
                    let i = choose|i: int| 0 <= i < c.len() && c[i] == h;
                    assert(w[la + i] == h);
                } else {
                    assert(self.sockets@.contains_key(h));
                    assert(t.contains(h));
                    let i = choose|i: int| 0 <= i < t.len() && t[i] == h;
                    assert(w[lc + i] == h);
                }
            }
        }
    }

    /// Every handle in use was given out before `next_handle`.
    pub proof fn lemma_handles_below(&self)
        requires
            self.wf(),
        ensures
            forall|h: Handle| #[trigger] self.handles().contains(h) ==> h < self.next_handle(),
    {
    }

    /// A manager for module `id` that sends its rendezvous requests on
    /// `matchmaker`; no handle is in use and the first one given out is 0.
    pub fn new(id: ModuleId, matchmaker: Sender<Request>) -> (r: Self)
        ensures
            r.wf(),
            r.listener_handles() == Set::<Handle>::empty(),
            r.connector_handles() == Set::<Handle>::empty(),
            r.sockets().dom() == Set::<Handle>::empty(),
            r.next_handle() == 0,
            r.module_id() == id@,
            r.matchmaker() == matchmaker,
            r.requests() == Seq::<RequestView>::empty(),
    {
        SocketManager {
            id,
            matchmaker,
            requests: Ghost(Seq::empty()),
            next_handle: 0,
            sockets: HandleTable::new(),
            listeners: HandleTable::new(),
            connectors: HandleTable::new(),
        }
    }

    fn create_handle(&mut self) -> (r: Handle)
        requires
            old(self).next_handle < Handle::MAX,
        ensures
            r == old(self).next_handle,
            final(self).next_handle == old(self).next_handle + 1,
            final(self).listeners == old(self).listeners,
            final(self).connectors == old(self).connectors,
            final(self).sockets == old(self).sockets,
            final(self).id == old(self).id,
            final(self).requests == old(self).requests,
    {
        let handle = self.next_handle;
        self.next_handle = self.next_handle + 1;
        handle
    }

    /// Takes the outcome of sending an open request: `sent` tells whether the
    /// matchmaker took it, `endpoint` is where its connections will arrive. A
    /// sent request gets the next handle, registered as a connector or a
    /// listener as `conn_type` says; an unsent one changes nothing.
    pub fn finish_open(&mut self, conn_type: ConnType, sent: bool, endpoint: Receiver<Loopback>) -> (r: Result<Handle, HostFault>)
        requires
            old(self).wf(),
        ensures
            final(self).wf(),
            final(self).sockets() == old(self).sockets(),
            final(self).module_id() == old(self).module_id(),
            final(self).requests() == old(self).requests(),
            old(self).next_handle() == Handle::MAX ==> r == Err::<Handle, HostFault>(HostFault::HandlesExhausted),
            old(self).next_handle() != Handle::MAX && !sent ==> r == Err::<Handle, HostFault>(
                HostFault::MatchmakerUnavailable,
            ),
            old(self).next_handle() != Handle::MAX && sent ==> r == Ok::<Handle, HostFault>(old(self).next_handle()),
            r is Err ==> final(self).same_tables(old(self)),
            r matches Ok(h) ==> {
                &&& final(self).next_handle() == old(self).next_handle() + 1
                &&& conn_type == ConnType::Connector ==> final(self).connector_handles()
                    == old(self).connector_handles().insert(h) && final(self).listener_handles()
                    == old(self).listener_handles()
                &&& conn_type == ConnType::Listener ==> final(self).listener_handles()
                    == old(self).listener_handles().insert(h) && final(self).connector_handles()
                    == old(self).connector_handles()
            },
    {
        if self.next_handle == Handle::MAX {
            return Err(HostFault::HandlesExhausted);
        }
        if !sent {
            return Err(HostFault::MatchmakerUnavailable);
        }
        let handle = self.create_handle();
        let pending = peekable(endpoint);
        match conn_type {
            ConnType::Connector => self.connectors.push(handle, pending),
            ConnType::Listener => self.listeners.push(handle, pending),
        }
        Ok(handle)
    }

    /// Sends the matchmaker a request for `(id, port)` of kind `conn_type`
    /// and registers its endpoint if the matchmaker took it.
    fn open(&mut self, id: ModuleId, port: Port, conn_type: ConnType) -> (r: Result<Handle, HostFault>)
        requires
            old(self).wf(),
        ensures
            final(self).wf(),
            final(self).sockets() == old(self).sockets(),
            final(self).module_id() == old(self).module_id(),
            old(self).next_handle() == Handle::MAX <==> r == Err::<Handle, HostFault>(
                HostFault::HandlesExhausted,
            ),
            r is Err ==> final(self).same_tables(old(self)) && final(self).requests() == old(self).requests(),
            r matches Ok(h) ==> {
                &&& h == old(self).next_handle()
                &&& final(self).next_handle() == old(self).next_handle() + 1
                &&& final(self).requests() == old(self).requests().push((id@, port, conn_type))
                &&& conn_type == ConnType::Connector ==> final(self).connector_handles()
                    == old(self).connector_handles().insert(h) && final(self).listener_handles()
                    == old(self).listener_handles()
                &&& conn_type == ConnType::Listener ==> final(self).listener_handles()
                    == old(self).listener_handles().insert(h) && final(self).connector_handles()
                    == old(self).connector_handles()
            },
    {
        if self.next_handle == Handle::MAX {
            return Err(HostFault::HandlesExhausted);
        }
        let ghost asked: RequestView = (id@, port, conn_type);
        let (tx, rx) = channel(MATCHMAKER_MAX_REQ);
        let request = Request::new(id, port, conn_type, tx);
        let sent = self.matchmaker.try_send(request).is_ok();
        let r = self.finish_open(conn_type, sent, rx);
        proof {
            if sent {
                self.requests@ = self.requests@.push(asked);
            }
        }
        r
    }

    /// Takes what the pending endpoint `handle` yielded when polled. A
    /// connection becomes a socket under the next handle; a connector handle
    /// is then gone, a listener handle stays. An endpoint whose channel has
    /// ended answers `NotFound`, one with nothing yet `Pending`. An unknown
    /// handle is `NotFound`; with no handle value left the answer is `Other`.
    pub fn take_delivery(&mut self, handle: Handle, polled: Poll<Option<Loopback>>) -> (r: Poll<Result<Handle, ErrorKind>>)
        requires
            old(self).wf(),
        ensures
            final(self).wf(),
            final(self).module_id() == old(self).module_id(),
            !old(self).listener_handles().contains(handle) && !old(self).connector_handles().contains(handle)
                ==> r == Poll::Ready(Err::<Handle, ErrorKind>(ErrorKind::NotFound)),
            (old(self).listener_handles().contains(handle) || old(self).connector_handles().contains(handle))
                && old(self).next_handle() == Handle::MAX ==> r == Poll::Ready(Err::<Handle, ErrorKind>(ErrorKind::Other)),
            (old(self).listener_handles().contains(handle) || old(self).connector_handles().contains(handle))
                && old(self).next_handle() != Handle::MAX ==> {
                &&& polled matches Poll::Ready(Some(c)) ==> {
                    &&& r == Poll::Ready(Ok::<Handle, ErrorKind>(old(self).next_handle()))
                    &&& final(self).next_handle() == old(self).next_handle() + 1
                    &&& final(self).sockets() == old(self).sockets().insert(old(self).next_handle(), c)
                    &&& final(self).listener_handles() == old(self).listener_handles()
                    &&& final(self).connector_handles() == old(self).connector_handles().remove(handle)
                }
                &&& polled == Poll::Ready(None::<Loopback>) ==> r == Poll::Ready(Err::<Handle, ErrorKind>(ErrorKind::NotFound))
                &&& polled is Pending ==> r is Pending
            },
            r is Pending || r is Ready && r->Ready_0 is Err ==> final(self).same_tables(old(self))
                && final(self).sockets() == old(self).sockets(),
    {
        let is_connector = self.connectors.contains(handle);
        if !is_connector && !self.listeners.contains(handle) {
            return Poll::Ready(Err(ErrorKind::NotFound));
        }
        if self.next_handle == Handle::MAX {
            return Poll::Ready(Err(ErrorKind::Other));
        }
        match polled {
            Poll::Ready(Some(conn)) => {
                if is_connector {
                    if let Some(mut endpoint) = self.connectors.remove(handle) {
                        close_receiver(&mut endpoint);
                    }
                } else {
                    assert(self.connectors@.remove(handle) =~= self.connectors@);
                }
                let new_handle = self.create_handle();
                self.sockets.push(new_handle, conn);
                Poll::Ready(Ok(new_handle))
            },
            Poll::Ready(None) => Poll::Ready(Err(ErrorKind::NotFound)),
            Poll::Pending => Poll::Pending,
        }
    }

    /// Polls the pending endpoint `handle` for its next connection and takes
    /// the outcome as `take_delivery` does.
    pub fn listen(&mut self, handle: Handle, cx: &mut Context) -> (r: Poll<Result<Handle, ErrorKind>>)
        requires
            old(self).wf(),
        ensures
            final(self).wf(),
            final(self).module_id() == old(self).module_id(),
            !old(self).listener_handles().contains(handle) && !old(self).connector_handles().contains(
                handle,
            ) ==> r == Poll::Ready(Err::<Handle, ErrorKind>(ErrorKind::NotFound)),
            ((old(self).listener_handles().contains(handle) || old(self).connector_handles().contains(handle))
                && old(self).next_handle() == Handle::MAX) <==> r == Poll::Ready(Err::<Handle, ErrorKind>(ErrorKind::Other)),
            r is Pending || r is Ready && r->Ready_0 is Err ==> final(self).same_tables(old(self))
                && final(self).sockets() == old(self).sockets(),
            r is Ready && r->Ready_0 is Err ==> r == Poll::Ready(Err::<Handle, ErrorKind>(ErrorKind::NotFound))
                || r == Poll::Ready(Err::<Handle, ErrorKind>(ErrorKind::Other)),
            r matches Poll::Ready(Ok(s)) ==> {
                &&& s == old(self).next_handle()
                &&& !old(self).handles().contains(s)
                &&& final(self).next_handle() == old(self).next_handle() + 1
                &&& final(self).sockets().dom() == old(self).sockets().dom().insert(s)
                &&& forall|k: Handle| #[trigger] old(self).sockets().contains_key(k) ==> final(self).sockets()[k] == old(self).sockets()[k]
                &&& final(self).listener_handles() == old(self).listener_handles()
                &&& final(self).connector_handles() == old(self).connector_handles().remove(handle)
                &&& old(self).listener_handles().contains(handle) || old(self).connector_handles().contains(handle)
                &&& old(self).connector_handles().contains(handle) ==> !final(self).handles().contains(handle)
            },
    {
        let is_connector = self.connectors.contains(handle);
        let found = if is_connector {
            self.connectors.find(handle)
        } else {
            self.listeners.find(handle)
        };
        let i = match found {
            Some(i) => i,
            None => {
                return Poll::Ready(Err(ErrorKind::NotFound));
            },
        };
        if self.next_handle == Handle::MAX {
            return Poll::Ready(Err(ErrorKind::Other));
        }
        proof {
            if is_connector {
                self.connectors.lemma_slot(i as int);
            } else {
                self.listeners.lemma_slot(i as int);
            }
        }
        let (h, mut pending) = if is_connector {
            self.connectors.take_at(i)
        } else {
            self.listeners.take_at(i)
        };
        let polled = poll_next(&mut pending, cx);
        self.put_back(is_connector, i, h, pending);
        assert(self.listeners@.dom() =~= old(self).listeners@.dom());
        assert(self.connectors@.dom() =~= old(self).connectors@.dom());
        let r = self.take_delivery(handle, polled);
        proof {
            if r is Ready && r->Ready_0 is Ok {
                let s = r->Ready_0->Ok_0;
                assert(!old(self).handles().contains(s));
                if old(self).connector_handles().contains(handle) {
                    assert(handle < s);
                    assert(!self.connector_handles().contains(handle));
                    assert(!self.listener_handles().contains(handle));
                    assert(!self.sockets().dom().contains(handle));
                }
            }
        }
        r
    }

    fn put_back(&mut self, is_connector: bool, i: usize, h: Handle, pending: PeekRecv<Loopback>)
        requires
            is_connector ==> old(self).connectors.wf() && i <= old(self).connectors.handles().len()
                && (i > 0 ==> old(self).connectors.handles()[i - 1] < h) && (i
                < old(self).connectors.handles().len() ==> h < old(self).connectors.handles()[i as int]),
            !is_connector ==> old(self).listeners.wf() && i <= old(self).listeners.handles().len()
                && (i > 0 ==> old(self).listeners.handles()[i - 1] < h) && (i
                < old(self).listeners.handles().len() ==> h < old(self).listeners.handles()[i as int]),
        ensures
            is_connector ==> final(self).connectors.wf() && final(self).connectors@ == old(self).connectors@.insert(h, pending)
                && final(self).listeners == old(self).listeners,
            !is_connector ==> final(self).listeners.wf() && final(self).listeners@ == old(self).listeners@.insert(h, pending)
                && final(self).connectors == old(self).connectors,
            final(self).sockets == old(self).sockets,
            final(self).next_handle == old(self).next_handle,
            final(self).id == old(self).id,
            final(self).requests == old(self).requests,
    {
        if is_connector {
            self.connectors.put_at(i, h, pending);
        } else {
            self.listeners.put_at(i, h, pending);
        }
    }

    /// Drops `handle` from whichever table holds it; nothing happens if none does.
    pub fn close(&mut self, handle: Handle)
        requires
            old(self).wf(),
        ensures
            final(self).wf(),
            final(self).listener_handles() == old(self).listener_handles().remove(handle),
            final(self).connector_handles() == old(self).connector_handles().remove(handle),
            final(self).sockets() == old(self).sockets().remove(handle),
            final(self).next_handle() == old(self).next_handle(),
            final(self).module_id() == old(self).module_id(),
    {
        let _ = self.listeners.remove(handle);
        let _ = self.connectors.remove(handle);
        let _ = self.sockets.remove(handle);
    }

    /// Takes the socket `handle` out of its table, if there is one, with its position.
    fn take_socket(&mut self, handle: Handle) -> (r: Option<(usize, Loopback)>)
        requires
            old(self).wf(),
        ensures
            r is None ==> *final(self) == *old(self) && !old(self).sockets@.contains_key(handle),
            r matches Some((i, lb)) ==> {
                &&& old(self).sockets@.contains_key(handle)
                &&& lb == old(self).sockets@[handle]
                &&& final(self).sockets.wf()
                &&& final(self).sockets@ == old(self).sockets@.remove(handle)
                &&& i <= final(self).sockets.handles().len()
                &&& (i > 0 ==> final(self).sockets.handles()[i - 1] < handle)
                &&& (i < final(self).sockets.handles().len() ==> handle < final(self).sockets.handles()[i as int])
                &&& final(self).listeners == old(self).listeners
                &&& final(self).connectors == old(self).connectors
                &&& final(self).next_handle == old(self).next_handle
                &&& final(self).id == old(self).id
            },
    {
        match self.sockets.find(handle) {
            None => None,
            Some(i) => {
                proof {
                    self.sockets.lemma_slot(i as int);
                }
                let (_, lb) = self.sockets.take_at(i);
                Some((i, lb))
            },
        }
    }

    /// Puts a socket taken by `take_socket` back in its place.
    fn restore_socket(&mut self, i: usize, handle: Handle, lb: Loopback)
        requires
            old(self).sockets.wf(),
            i <= old(self).sockets.handles().len(),
            i > 0 ==> old(self).sockets.handles()[i - 1] < handle,
            i < old(self).sockets.handles().len() ==> handle < old(self).sockets.handles()[i as int],
        ensures
            final(self).sockets.wf(),
            final(self).sockets@ == old(self).sockets@.insert(handle, lb),
            final(self).listeners == old(self).listeners,
            final(self).connectors == old(self).connectors,
            final(self).next_handle == old(self).next_handle,
            final(self).id == old(self).id,
    {
        self.sockets.put_at(i, handle, lb);
    }

    /// Reads from socket `handle` into `buf`, as the socket's `poll_read`
    /// does. An unknown handle is `NotFound`.
    pub fn read(&mut self, handle: Handle, buf: &mut [u8], cx: &mut Context) -> (r: Poll<Result<u32, ErrorKind>>)
        requires
            old(self).wf(),
            old(buf)@.len() <= u32::MAX,
        ensures
            final(self).wf(),
            final(self).same_tables(old(self)),
            final(buf)@.len() == old(buf)@.len(),
            forall|k: Handle| k != handle && #[trigger] old(self).sockets().contains_key(k) ==> final(self).sockets()[k] == old(self).sockets()[k],
            !old(self).sockets().contains_key(handle) ==> r == Poll::Ready(Err::<u32, ErrorKind>(ErrorKind::NotFound))
                && final(buf)@ == old(buf)@,
            old(self).sockets().contains_key(handle) ==> ({
                let a = old(self).sockets()[handle];
                let b = final(self).sockets()[handle];
                &&& b.same_outbound(&a)
                &&& old(buf)@.len() == 0 ==> r == Poll::Ready(Ok::<u32, ErrorKind>(0)) && b.same_inbound(&a)
                &&& old(buf)@.len() > 0 && a.staged_in().len() > 0 ==> r == Poll::Ready(
                    Ok::<u32, ErrorKind>(min(old(buf)@.len() as int, a.staged_in().len() as int) as u32))
                &&& r matches Poll::Ready(Ok(n)) ==> {
                    &&& n <= old(buf)@.len()
                    &&& (old(buf)@.len() > 0 ==> n > 0)
                    &&& b.delivered() == a.delivered() + final(buf)@.subrange(0, n as int)
                    &&& final(buf)@.subrange(n as int, old(buf)@.len() as int) == old(buf)@.subrange(n as int, old(buf)@.len() as int)
                }
                &&& old(buf)@.len() > 0 && a.staged_in().len() == 0 && b.received().len() > a.received().len()
                    ==> b.received().len() == a.received().len() + 1 && (b.received().last().len() > 0
                    ==> r == Poll::Ready(Ok::<u32, ErrorKind>(
                        min(old(buf)@.len() as int, b.received().last().len() as int) as u32,
                    ))) && (b.received().last().len() == 0 ==> r is Pending)
                &&& r is Pending && b.received().len() == a.received().len() ==> b.same_inbound(&a)
                &&& r matches Poll::Ready(Ok(n)) ==> (old(buf)@.len() > 0 && a.staged_in().len() > 0
                    ==> final(buf)@.subrange(0, n as int) == a.staged_in().subrange(0, n as int))
                &&& r matches Poll::Ready(Ok(n)) ==> (old(buf)@.len() > 0 && a.staged_in().len() == 0
                    ==> b.received().drop_last() == a.received() && b.received().len() == a.received().len() + 1
                    && final(buf)@.subrange(0, n as int) == b.received().last().subrange(0, n as int))
                &&& r is Pending || (r is Ready && r->Ready_0 is Err) ==> b.delivered() == a.delivered() && final(buf)@ == old(buf)@
                &&& r is Ready && r->Ready_0 is Err ==> r == Poll::Ready(Err::<u32, ErrorKind>(ErrorKind::NotConnected))
                    && a.staged_in().len() == 0
            }),
    {
        let (i, mut lb) = match self.take_socket(handle) {
            Some(t) => t,
            None => {
                return Poll::Ready(Err(ErrorKind::NotFound));
            },
        };
        let ghost a = lb;
        let res = lb.poll_read(cx, buf);
        self.restore_socket(i, handle, lb);
        assert(self.sockets@.dom() =~= old(self).sockets@.dom());
        match res {
            Poll::Ready(Ok(n)) => {
                assert(res == Poll::Ready(Ok::<usize, ErrorKind>(n)));
                assert(n <= old(buf)@.len());
                assert(n as u32 == n);
                Poll::Ready(Ok(n as u32))
            },
            Poll::Ready(Err(e)) => Poll::Ready(Err(e)),
            Poll::Pending => Poll::Pending,
        }
    }

    /// Writes `buf` to socket `handle`, as the socket's `poll_write` does. An
    /// unknown handle is `NotFound`.
    pub fn write(&mut self, handle: Handle, buf: &[u8], cx: &mut Context) -> (r: Poll<Result<u32, ErrorKind>>)
        requires
            old(self).wf(),
            buf@.len() <= u32::MAX,
        ensures
            final(self).wf(),
            final(self).same_tables(old(self)),
            forall|k: Handle| k != handle && #[trigger] old(self).sockets().contains_key(k) ==> final(self).sockets()[k] == old(self).sockets()[k],
            !old(self).sockets().contains_key(handle) ==> r == Poll::Ready(Err::<u32, ErrorKind>(ErrorKind::NotFound)),
            old(self).sockets().contains_key(handle) ==> ({
                let a = old(self).sockets()[handle];
                let b = final(self).sockets()[handle];
                &&& b.same_inbound(&a)
                &&& buf@.len() == 0 ==> r == Poll::Ready(Ok::<u32, ErrorKind>(0)) && b.same_outbound(&a)
                &&& a.staged_out().len() + buf@.len() <= MAX_BUFFER_SIZE ==> r == Poll::Ready(Ok::<u32, ErrorKind>(buf@.len() as u32))
                &&& a.staged_out().len() == 0 ==> r == Poll::Ready(Ok::<u32, ErrorKind>(buf@.len() as u32))
                &&& r == Poll::Ready(Ok::<u32, ErrorKind>(buf@.len() as u32)) ==> b.accepted() == a.accepted() + buf@
                &&& r != Poll::Ready(Ok::<u32, ErrorKind>(buf@.len() as u32)) ==> b.accepted() == a.accepted()
                &&& r is Ready && r != Poll::Ready(Ok::<u32, ErrorKind>(buf@.len() as u32)) ==> r
                    == Poll::Ready(Err::<u32, ErrorKind>(ErrorKind::NotConnected))
            }),
    {
        let (i, mut lb) = match self.take_socket(handle) {
            Some(t) => t,
            None => {
                return Poll::Ready(Err(ErrorKind::NotFound));
            },
        };
        let res = lb.poll_write(cx, buf);
        self.restore_socket(i, handle, lb);
        assert(self.sockets@.dom() =~= old(self).sockets@.dom());
        match res {
            Poll::Ready(Ok(n)) => Poll::Ready(Ok(n as u32)),
            Poll::Ready(Err(e)) => Poll::Ready(Err(e)),
            Poll::Pending => Poll::Pending,
        }
    }

    /// Flushes socket `handle`, as the socket's `poll_flush` does. An unknown
    /// handle is `NotFound`.
    pub fn flush(&mut self, handle: Handle, cx: &mut Context) -> (r: Poll<Result<(), ErrorKind>>)
        requires
            old(self).wf(),
        ensures
            final(self).wf(),
            final(self).same_tables(old(self)),
            forall|k: Handle| k != handle && #[trigger] old(self).sockets().contains_key(k) ==> final(self).sockets()[k] == old(self).sockets()[k],
            !old(self).sockets().contains_key(handle) ==> r == Poll::Ready(Err::<(), ErrorKind>(ErrorKind::NotFound)),
            old(self).sockets().contains_key(handle) ==> ({
                let a = old(self).sockets()[handle];
                let b = final(self).sockets()[handle];
                &&& b.same_inbound(&a)
                &&& b.accepted() == a.accepted()
                &&& a.staged_out().len() == 0 ==> r == Poll::Ready(Ok::<(), ErrorKind>(())) && b.same_outbound(&a)
                &&& r == Poll::Ready(Ok::<(), ErrorKind>(())) ==> b.staged_out().len() == 0
                &&& r is Ready && r != Poll::Ready(Ok::<(), ErrorKind>(())) ==> r == Poll::Ready(
                    Err::<(), ErrorKind>(ErrorKind::NotConnected))
            }),
    {
        let (i, mut lb) = match self.take_socket(handle) {
            Some(t) => t,
            None => {
                return Poll::Ready(Err(ErrorKind::NotFound));
            },
        };
        let res = lb.poll_flush(cx);
        self.restore_socket(i, handle, lb);
        assert(self.sockets@.dom() =~= old(self).sockets@.dom());
        res
    }

    /// The handles whose next operation can make progress now: listeners and
    /// connectors with a connection waiting, then sockets with bytes to read
    /// or room to write, each once, in walk order. Which of them are ready is
    /// what the channels answer; a socket with staged inbound bytes always is.
    pub fn wakes(&mut self, cx: &mut Context) -> (r: Vec<Handle>)
        requires
            old(self).wf(),
        ensures
            final(self).wf(),
            final(self).same_tables(old(self)),
            final(self).walk() == old(self).walk(),
            forall|k: Handle| #[trigger] old(self).sockets().contains_key(k) ==> final(self).sockets()[k].same_inbound(&old(self).sockets()[k])
                && final(self).sockets()[k].same_outbound(&old(self).sockets()[k]),
            exists|flags: Seq<bool>| flags.len() == old(self).walk().len() && r@ == #[trigger] select(old(self).walk(), flags),
            r@.no_duplicates(),
            forall|x: Handle| r@.contains(x) ==> old(self).handles().contains(x),
            forall|k: Handle| #[trigger] old(self).sockets().contains_key(k) && old(self).sockets()[k].staged_in().len() > 0 ==> r@.contains(k),
    {
        let mut hs: Vec<Handle> = Vec::new();
        let mut flags: Vec<bool> = Vec::new();
        peek_flags(&mut self.listeners, cx, &mut hs, &mut flags);
        peek_flags(&mut self.connectors, cx, &mut hs, &mut flags);
        let ghost hs0 = hs@;
        let ghost ss = self.sockets.handles();
        let ghost orig = self.sockets@;
        let mut i: usize = 0;
        while i < self.sockets.len()
            invariant
                self.sockets.wf(),
                self.sockets.handles() == ss,
                self.sockets@.dom() == orig.dom(),
                i <= ss.len(),
                forall|k: Handle| #[trigger] orig.contains_key(k) ==> self.sockets@[k].same_inbound(&orig[k])
                    && self.sockets@[k].same_outbound(&orig[k]),
                hs@ == hs0 + ss.subrange(0, i as int),
                flags@.len() == hs@.len(),
                forall|j: int| 0 <= j < i && orig[ss[j]].staged_in().len() > 0 ==> flags@[hs0.len() + j],
                self.listeners.wf(),
                self.connectors.wf(),
                self.listeners@.dom() == old(self).listeners@.dom(),
                self.connectors@.dom() == old(self).connectors@.dom(),
                self.listeners.handles() == old(self).listeners.handles(),
                self.connectors.handles() == old(self).connectors.handles(),
                hs0 == old(self).listeners.handles() + old(self).connectors.handles(),
                self.next_handle == old(self).next_handle,
                self.id == old(self).id,
                self.requests == old(self).requests,
                orig == old(self).sockets@,
                ss == old(self).sockets.handles(),
            decreases ss.len() - i,
        {
            proof {
                self.sockets.lemma_slot(i as int);
            }
            let (h, mut lb) = self.sockets.take_at(i);
            let ready = lb.has_data(cx);
            self.sockets.put_at(i, h, lb);
            assert(self.sockets@.dom() =~= orig.dom());
            hs.push(h);
            flags.push(ready);
            assert(hs@ =~= hs0 + ss.subrange(0, i + 1));
            i = i + 1;
        }
        assert(self.sockets@.dom() =~= old(self).sockets@.dom());
        assert(ss.subrange(0, ss.len() as int) =~= ss);
        let r = ready_handles(&hs, &flags);
        proof {
            let w = old(self).walk();
            assert(hs@ =~= w);
            old(self).lemma_walk();
            lemma_select_nodup(hs@, flags@);
            lemma_select_within(hs@, flags@);
            assert forall|k: Handle| #[trigger] old(self).sockets().contains_key(k) && old(self).sockets()[k].staged_in().len() > 0 implies r@.contains(k) by {
                old(self).sockets.lemma_handles();
                assert(ss.contains(k));
                let j = choose|j: int| 0 <= j < ss.len() && ss[j] == k;
                assert(hs@[hs0.len() + j] == k);
                lemma_select_has(hs@, flags@, hs0.len() + j);
            }
        }
        r
    }

    /// Asks the matchmaker for a connection to `port` of module `addr`. The
    /// new connector handle yields the connection through one `listen`.
    pub fn connect(&mut self, addr: &str, port: Port) -> (r: Result<Handle, HostFault>)
        requires
            old(self).wf(),
        ensures
            final(self).wf(),
            final(self).sockets() == old(self).sockets(),
            final(self).listener_handles() == old(self).listener_handles(),
            final(self).module_id() == old(self).module_id(),
            old(self).next_handle() == Handle::MAX <==> r == Err::<Handle, HostFault>(
                HostFault::HandlesExhausted,
            ),
            r is Err ==> final(self).same_tables(old(self)),
            r is Err ==> final(self).requests() == old(self).requests(),
            r matches Ok(h) ==> h == old(self).next_handle() && final(self).next_handle()
                == old(self).next_handle() + 1 && final(self).connector_handles()
                == old(self).connector_handles().insert(h) && final(self).requests()
                == old(self).requests().push((addr@, port, ConnType::Connector)),
    {
        self.open(addr.to_owned(), port, ConnType::Connector)
    }

    /// Registers a listener on `port` of this manager's module. The new handle
    /// yields one incoming connection per `listen`, until it is closed.
    pub fn listener_create(&mut self, port: Port) -> (r: Result<Handle, HostFault>)
        requires
            old(self).wf(),
        ensures
            final(self).wf(),
            final(self).sockets() == old(self).sockets(),
            final(self).connector_handles() == old(self).connector_handles(),
            final(self).module_id() == old(self).module_id(),
            old(self).next_handle() == Handle::MAX <==> r == Err::<Handle, HostFault>(
                HostFault::HandlesExhausted,
            ),
            r is Err ==> final(self).same_tables(old(self)),
            r is Err ==> final(self).requests() == old(self).requests(),
            r matches Ok(h) ==> h == old(self).next_handle() && final(self).next_handle()
                == old(self).next_handle() + 1 && final(self).listener_handles()
                == old(self).listener_handles().insert(h) && final(self).requests()
                == old(self).requests().push((old(self).module_id(), port, ConnType::Listener)),
    {
        let id = self.id.clone();
        self.open(id, port, ConnType::Listener)
    }
}

/// The handles of `hs` whose flag in `flags` is set, in order.
pub open spec fn select(hs: Seq<Handle>, flags: Seq<bool>) -> Seq<Handle>
    decreases hs.len(),
{
    if hs.len() == 0 || flags.len() != hs.len() {
        Seq::empty()
    } else if flags.last() {
        select(hs.drop_last(), flags.drop_last()).push(hs.last())
    } else {
        select(hs.drop_last(), flags.drop_last())
    }
}

/// Everything selected is among the handles.
pub proof fn lemma_select_within(hs: Seq<Handle>, flags: Seq<bool>)
    requires
        flags.len() == hs.len(),
    ensures
        forall|x: Handle| select(hs, flags).contains(x) ==> hs.contains(x),
    decreases hs.len(),
{
    if hs.len() > 0 {
        lemma_select_within(hs.drop_last(), flags.drop_last());
        assert forall|x: Handle| select(hs, flags).contains(x) implies hs.contains(x) by {
            let t = hs.drop_last();
            let rest = select(t, flags.drop_last());
            let out = select(hs, flags);
            let k = choose|k: int| 0 <= k < out.len() && out[k] == x;
            if k < rest.len() {
                assert(out[k] == rest[k]);
                assert(rest.contains(x));
                assert(t.contains(x));
                let i = choose|i: int| 0 <= i < t.len() && t[i] == x;
                assert(hs[i] == x);
            } else {
                assert(flags.last());
                assert(x == hs.last());
                assert(hs[hs.len() - 1] == x);
            }
        }
    }
}

/// Selecting from handles without repeats gives no repeats.
pub proof fn lemma_select_nodup(hs: Seq<Handle>, flags: Seq<bool>)
    requires
        flags.len() == hs.len(),
        hs.no_duplicates(),
    ensures
        select(hs, flags).no_duplicates(),
    decreases hs.len(),
{
    if hs.len() > 0 {
        let t = hs.drop_last();
        assert(t.no_duplicates()) by {
            assert forall|a: int, b: int| 0 <= a < t.len() && 0 <= b < t.len() && a != b implies t[a] != t[b] by {
                assert(t[a] == hs[a] && t[b] == hs[b]);
            }
        }
        lemma_select_nodup(t, flags.drop_last());
        lemma_select_within(t, flags.drop_last());
        if flags.last() {
            let rest = select(t, flags.drop_last());
            assert(!rest.contains(hs.last())) by {
                if rest.contains(hs.last()) {
                    assert(t.contains(hs.last()));
                    let i = choose|i: int| 0 <= i < t.len() && t[i] == hs.last();
                    assert(hs[i] == hs[hs.len() - 1]);
                }
            }
            let out = rest.push(hs.last());
            assert forall|a: int, b: int| 0 <= a < out.len() && 0 <= b < out.len() && a != b implies out[a] != out[b] by {
                if a < rest.len() && b < rest.len() {
                } else if a < rest.len() {
                    assert(rest.contains(out[a]));
                } else if b < rest.len() {
                    assert(rest.contains(out[b]));
                }
            }
        }
    }
}

/// A handle whose flag is set is selected.
pub proof fn lemma_select_has(hs: Seq<Handle>, flags: Seq<bool>, i: int)
    requires
        flags.len() == hs.len(),
        0 <= i < hs.len(),
        flags[i],
    ensures
        select(hs, flags).contains(hs[i]),
    decreases hs.len(),
{
    if i == hs.len() - 1 {
        let out = select(hs, flags);
        assert(out[out.len() - 1] == hs[i]);
    } else {
        lemma_select_has(hs.drop_last(), flags.drop_last(), i);
        let rest = select(hs.drop_last(), flags.drop_last());
        let j = choose|j: int| 0 <= j < rest.len() && rest[j] == hs[i];
        if flags.last() {
            assert(select(hs, flags)[j] == hs[i]);
        }
    }
}

/// The handles of `hs` whose flag in `flags` is set, in order.
pub fn ready_handles(hs: &Vec<Handle>, flags: &Vec<bool>) -> (r: Vec<Handle>)
    requires
        hs@.len() == flags@.len(),
    ensures
        r@ == select(hs@, flags@),
{
    let mut out: Vec<Handle> = Vec::new();
    let mut i: usize = 0;
    while i < hs.len()
        invariant
            i <= hs@.len(),
            hs@.len() == flags@.len(),
            out@ == select(hs@.subrange(0, i as int), flags@.subrange(0, i as int)),
        decreases hs@.len() - i,
    {
        let ghost h1 = hs@.subrange(0, i + 1);
        let ghost f1 = flags@.subrange(0, i + 1);
        assert(h1.drop_last() =~= hs@.subrange(0, i as int));
        assert(f1.drop_last() =~= flags@.subrange(0, i as int));
        if flags[i] {
            out.push(hs[i]);
        }
        i = i + 1;
    }
    assert(hs@.subrange(0, hs@.len() as int) =~= hs@);
    assert(flags@.subrange(0, flags@.len() as int) =~= flags@);
    out
}

/// Appends to `hs` the handles of the endpoints in `table`, in walk order,
/// and to `flags` whether each has a connection waiting.
fn peek_flags(table: &mut HandleTable<PeekRecv<Loopback>>, cx: &mut Context, hs: &mut Vec<Handle>, flags: &mut Vec<bool>)
    requires
        old(table).wf(),
        old(flags)@.len() == old(hs)@.len(),
    ensures
        final(table).wf(),
        final(table)@.dom() == old(table)@.dom(),
        final(table).handles() == old(table).handles(),
        final(hs)@ == old(hs)@ + old(table).handles(),
        final(flags)@.len() == final(hs)@.len(),
{
    let ghost ts = table.handles();
    let ghost orig = table@;
    let ghost h0 = hs@;
    let mut i: usize = 0;
    while i < table.len()
        invariant
            table.wf(),
            table.handles() == ts,
            table@.dom() == orig.dom(),
            i <= ts.len(),
            hs@ == h0 + ts.subrange(0, i as int),
            flags@.len() == hs@.len(),
        decreases ts.len() - i,
    {
        proof {
            table.lemma_slot(i as int);
        }
        let (h, mut pending) = table.take_at(i);
        let ready = poll_peek_ready(&mut pending, cx);
        table.put_at(i, h, pending);
        assert(table@.dom() =~= orig.dom());
        hs.push(h);
        flags.push(ready);
        assert(hs@ =~= h0 + ts.subrange(0, i + 1));
        i = i + 1;
    }
    assert(ts.subrange(0, ts.len() as int) =~= ts);
}

} // verus!
