//! The rendezvous registry. Listeners register at an address, connectors ask
//! for one; each match hands a fresh loopback pair to the two sides. The
//! decisions are a state machine: the task that drives it performs the
//! deliveries and reports whether the listener took its half.
use crate::chan::{peekable, poll_next, PeekRecv};
use crate::loopback::Loopback;
use crate::maybe::Poll;
use futures::channel::mpsc::{channel, Sender};
use std::task::Context;
use vstd::prelude::*;

verus! {

/// The name of a module, unique in one host process.
pub type ModuleId = String;

/// A port inside a module's namespace.
pub type Port = u16;

/// The channel on which a requester receives loopback halves.
pub type ConnSender = Sender<Loopback>;

/// Requests that may wait in the matchmaker's inbound channel, and loopbacks
/// that may wait for a requester.
pub const MATCHMAKER_MAX_REQ: usize = 32;

/// Connectors that may wait at one address; one more arriving there is
/// dropped, and its requester sees its channel end.
pub const MAX_WAITING_CONNECTORS: usize = 64;

/// Which side of a rendezvous a request is.
#[derive(Clone, Copy, Debug, PartialEq, Eq, Structural)]
pub enum ConnType {
    Connector,
    Listener,
}

/// A request to the matchmaker.
pub struct Request {
    /// Connector: the module to reach; listener: the module that listens.
    pub id: ModuleId,
    /// The port to reach or to listen on.
    pub port: Port,
    pub conn_type: ConnType,
    /// Where the matchmaker delivers loopback halves for this request.
    pub dest_socket: ConnSender,
}

impl Request {
    pub fn new(id: ModuleId, port: Port, conn_type: ConnType, dest_socket: ConnSender) -> (r: Request)
        ensures
            r.id == id,
            r.port == port,
            r.conn_type == conn_type,
            r.dest_socket == dest_socket,
    {
        Request { id, port, conn_type, dest_socket }
    }
}

/// A rendezvous address as the contracts see it: module name and port.
pub type AddrView = (Seq<char>, Port);

/// A table keyed by rendezvous address, in no particular order.
pub struct AddrTable<V> {
    entries: Vec<(ModuleId, Port, V)>,
    map: Ghost<Map<AddrView, V>>,
}

pub open spec fn addr_of<V>(e: (ModuleId, Port, V)) -> AddrView {
    (e.0@, e.1)
}

impl<V> AddrTable<V> {
    pub closed spec fn view(&self) -> Map<AddrView, V> {
        self.map@
    }

    pub closed spec fn wf(&self) -> bool {
        &&& forall|i: int, j: int|
            0 <= i < j < self.entries@.len() ==> addr_of(self.entries@[i]) != addr_of(self.entries@[j])
        &&& forall|i: int|
            0 <= i < self.entries@.len() ==> self.map@.contains_key(#[trigger] addr_of(self.entries@[i]))
                && self.map@[addr_of(self.entries@[i])] == self.entries@[i].2
        &&& forall|a: AddrView|
            #[trigger] self.map@.contains_key(a) ==> exists|i: int|
                0 <= i < self.entries@.len() && #[trigger] addr_of(self.entries@[i]) == a
    }

    pub fn new() -> (r: Self)
        ensures
            r.wf(),
            r@ == Map::<AddrView, V>::empty(),
    {
        AddrTable { entries: Vec::new(), map: Ghost(Map::empty()) }
    }

    fn find(&self, id: &ModuleId, port: Port) -> (r: Option<usize>)
        requires
            self.wf(),
        ensures
            r is None <==> !self@.contains_key((id@, port)),
            r matches Some(i) ==> i < self.entries@.len() && addr_of(self.entries@[i as int]) == (id@, port),
    {
        let mut i: usize = 0;
        while i < self.entries.len()
            invariant
                self.wf(),
                i <= self.entries@.len(),
                forall|j: int| 0 <= j < i ==> addr_of(self.entries@[j]) != (id@, port),
            decreases self.entries@.len() - i,
        {
            if self.entries[i].1 == port && self.entries[i].0 == *id {
                proof {
                    assert(self.map@.contains_key(addr_of(self.entries@[i as int])));
                }
                return Some(i);
            }
            i = i + 1;
        }
        proof {
            if self.map@.contains_key((id@, port)) {
                let k = choose|k: int| 0 <= k < self.entries@.len() && #[trigger] addr_of(self.entries@[k]) == (id@, port);
                assert(addr_of(self.entries@[k]) != (id@, port));
            }
        }
        None
    }

    /// Removes the entry at `(id, port)` and answers its value.
    pub fn take(&mut self, id: &ModuleId, port: Port) -> (r: Option<V>)
        requires
            old(self).wf(),
        ensures
            final(self).wf(),
            final(self)@ == old(self)@.remove((id@, port)),
            r == (if old(self)@.contains_key((id@, port)) { Some(old(self)@[(id@, port)]) } else { None::<V> }),
    {
        match self.find(id, port) {
            None => {
                assert(self.map@.remove((id@, port)) =~= self.map@);
                None
            },
            Some(i) => {
                let (_, _, v) = self.entries.remove(i);
                proof {
                    let o = old(self).entries@;
                    let n = self.entries@;
                    let a = (id@, port);
                    self.map@ = self.map@.remove(a);
                    assert forall|x: int, y: int| 0 <= x < y < n.len() implies addr_of(n[x]) != addr_of(n[y]) by {
                        let x0 = if x < i { x } else { x + 1 };
                        let y0 = if y < i { y } else { y + 1 };
                        assert(n[x] == o[x0] && n[y] == o[y0]);
                    }
                    assert forall|j: int| 0 <= j < n.len() implies self.map@.contains_key(#[trigger] addr_of(n[j]))
                        && self.map@[addr_of(n[j])] == n[j].2 by {
                        let j0 = if j < i { j } else { j + 1 };
                        assert(n[j] == o[j0]);
                        assert(addr_of(o[j0]) != addr_of(o[i as int]));
                        assert(old(self).map@.contains_key(addr_of(o[j0])));
                    }
                    assert forall|b: AddrView| #[trigger] self.map@.contains_key(b) implies exists|j: int|
                        0 <= j < self.entries@.len() && #[trigger] addr_of(self.entries@[j]) == b by {
                        assert(old(self).map@.contains_key(b));
                        let j0 = choose|j0: int| 0 <= j0 < old(self).entries@.len() && #[trigger] addr_of(old(self).entries@[j0]) == b;
                        if j0 < i {
                            assert(addr_of(self.entries@[j0]) == b);
                        } else {
                            assert(j0 != i);
                            assert(addr_of(self.entries@[j0 - 1]) == b);
                        }
                    }
                }
                Some(v)
            },
        }
    }

    /// Adds an entry at an address the table does not hold.
    pub fn put(&mut self, id: ModuleId, port: Port, v: V)
        requires
            old(self).wf(),
            !old(self)@.contains_key((id@, port)),
        ensures
            final(self).wf(),
            final(self)@ == old(self)@.insert((id@, port), v),
    {
        let ghost a = (id@, port);
        self.entries.push((id, port, v));
        proof {
            let o = old(self).entries@;
            let n = self.entries@;
            self.map@ = self.map@.insert(a, v);
            assert(addr_of(n[n.len() - 1]) == a);
            assert forall|x: int, y: int| 0 <= x < y < n.len() implies addr_of(n[x]) != addr_of(n[y]) by {
                if y == n.len() - 1 {
                    assert(n[x] == o[x]);
                    assert(old(self).map@.contains_key(addr_of(o[x])));
                } else {
                    assert(n[x] == o[x] && n[y] == o[y]);
                }
            }
            assert forall|j: int| 0 <= j < n.len() implies self.map@.contains_key(#[trigger] addr_of(n[j]))
                && self.map@[addr_of(n[j])] == n[j].2 by {
                if j < n.len() - 1 {
                    assert(n[j] == o[j]);
                    assert(old(self).map@.contains_key(addr_of(o[j])));
                }
            }
            assert forall|b: AddrView| #[trigger] self.map@.contains_key(b) implies exists|j: int|
                0 <= j < self.entries@.len() && #[trigger] addr_of(self.entries@[j]) == b by {
                if b != a {
                    assert(old(self).map@.contains_key(b));
                    let j0 = choose|j0: int| 0 <= j0 < old(self).entries@.len() && #[trigger] addr_of(old(self).entries@[j0]) == b;
                    assert(self.entries@[j0] == old(self).entries@[j0]);
                    assert(addr_of(self.entries@[j0]) == b);
                } else {
                    assert(addr_of(self.entries@[self.entries@.len() - 1]) == b);
                }
            }
        }
    }
}

/// A match to carry out: make a loopback pair, send one half to `listener`
/// and, if that succeeds, the other half to `connector`; then report the
/// outcome with `MatchMaker::delivered`.
pub struct Delivery {
    pub id: ModuleId,
    pub port: Port,
    /// Whether the match was made for an arriving connector or listener.
    pub origin: ConnType,
    pub listener: ConnSender,
    pub connector: ConnSender,
}

/// The rendezvous registry: registered listeners, and the connectors that
/// wait for a listener, per address.
pub struct MatchMaker {
    receiver: PeekRecv<Request>,
    listeners: AddrTable<ConnSender>,
    pending: AddrTable<Vec<ConnSender>>,
}

impl MatchMaker {
    /// The registered listener of each address.
    pub closed spec fn listeners(&self) -> Map<AddrView, ConnSender> {
        self.listeners@
    }

    /// The connectors waiting at address `a`, oldest first.
    pub closed spec fn queue(&self, a: AddrView) -> Seq<ConnSender> {
        if self.pending@.contains_key(a) {
            self.pending@[a]@
        } else {
            Seq::empty()
        }
    }

    /// No address has both a listener and waiting connectors.
    pub closed spec fn wf(&self) -> bool {
        &&& self.listeners.wf()
        &&& self.pending.wf()
        &&& forall|a: AddrView| #[trigger] self.pending@.contains_key(a) ==> self.pending@[a]@.len() > 0
        &&& forall|a: AddrView| #[trigger] self.listeners@.contains_key(a) ==> !self.pending@.contains_key(a)
    }

    /// An address with a registered listener has no connector waiting.
    pub proof fn lemma_listener_excludes_queue(&self, a: AddrView)
        requires
            self.wf(),
            self.listeners().contains_key(a),
        ensures
            self.queue(a).len() == 0,
    {
    }

    /// A matchmaker with no listener and no waiting connector, and the channel
    /// on which it takes requests.
    pub fn new() -> (r: (MatchMaker, Sender<Request>))
        ensures
            r.0.wf(),
            r.0.listeners() == Map::<AddrView, ConnSender>::empty(),
            forall|a: AddrView| r.0.queue(a) == Seq::<ConnSender>::empty(),
    {
        let (sender, receiver) = channel(MATCHMAKER_MAX_REQ);
        let mm = MatchMaker { receiver: peekable(receiver), listeners: AddrTable::new(), pending: AddrTable::new() };
        (mm, sender)
    }

    /// The next request, `None` once every sender is gone, or `Pending`.
    pub fn poll_request(&mut self, cx: &mut Context) -> (r: Poll<Option<Request>>)
        requires
            old(self).wf(),
        ensures
            final(self).wf(),
            final(self).listeners() == old(self).listeners(),
            forall|a: AddrView| final(self).queue(a) == old(self).queue(a),
    {
        poll_next(&mut self.receiver, cx)
    }

    /// A connector for `(id, port)`: matched with the registered listener if
    /// there is one, else queued behind the connectors already waiting there.
    fn connector_arrived(&mut self, id: ModuleId, port: Port, connector: ConnSender, front: bool) -> (r: Option<Delivery>)
        requires
            old(self).wf(),
        ensures
            final(self).wf(),
            ({
                let a = (id@, port);
                if old(self).listeners().contains_key(a) {
                    &&& r == Some(Delivery { id, port, origin: ConnType::Connector, listener: old(self).listeners()[a], connector })
                    &&& final(self).listeners() == old(self).listeners().remove(a)
                    &&& forall|b: AddrView| final(self).queue(b) == old(self).queue(b)
                } else {
                    &&& r is None
                    &&& final(self).listeners() == old(self).listeners()
                    &&& final(self).queue(a) == (if front { seq![connector].add(old(self).queue(a)) }
                        else if old(self).queue(a).len() < MAX_WAITING_CONNECTORS { old(self).queue(a).push(connector) }
                        else { old(self).queue(a) })
                    &&& forall|b: AddrView| b != a ==> final(self).queue(b) == old(self).queue(b)
                }
            }),
    {
        let ghost a = (id@, port);
        match self.listeners.take(&id, port) {
            Some(listener) => {
                proof {
                    assert forall|b: AddrView| #[trigger] self.listeners@.contains_key(b) implies !self.pending@.contains_key(b) by {
                        assert(old(self).listeners@.contains_key(b));
                    }
                }
                Some(Delivery { id, port, origin: ConnType::Connector, listener, connector })
            },
            None => {
                let mut queue = match self.pending.take(&id, port) {
                    Some(q) => q,
                    None => Vec::new(),
                };
                let ghost q0 = queue@;
                if front {
                    queue.insert(0, connector);
                } else if queue.len() < MAX_WAITING_CONNECTORS {
                    queue.push(connector);
                }
                self.pending.put(id, port, queue);
                proof {
                    if front {
                        assert(queue@ =~= seq![connector].add(q0));
                    }
                    assert forall|b: AddrView| b != a implies #[trigger] self.queue(b) == old(self).queue(b) by {
                        assert(self.pending@.contains_key(b) == old(self).pending@.contains_key(b));
                    }
                    assert forall|b: AddrView| #[trigger] self.listeners@.contains_key(b) implies !self.pending@.contains_key(b) by {
                        assert(b != a);
                    }
                }
                None
            },
        }
    }

    /// A listener for `(id, port)` is available: it is matched with the oldest
    /// waiting connector there, or registered if none waits.
    fn listener_available(&mut self, id: ModuleId, port: Port, listener: ConnSender) -> (r: Option<Delivery>)
        requires
            old(self).wf(),
        ensures
            final(self).wf(),
            ({
                let a = (id@, port);
                if old(self).queue(a).len() > 0 {
                    &&& r == Some(Delivery { id, port, origin: ConnType::Listener, listener, connector: old(self).queue(a)[0] })
                    &&& final(self).queue(a) == old(self).queue(a).drop_first()
                    &&& final(self).listeners() == old(self).listeners()
                    &&& forall|b: AddrView| b != a ==> final(self).queue(b) == old(self).queue(b)
                } else {
                    &&& r is None
                    &&& final(self).listeners() == old(self).listeners().insert(a, listener)
                    &&& forall|b: AddrView| final(self).queue(b) == old(self).queue(b)
                }
            }),
    {
        let ghost a = (id@, port);
        match self.pending.take(&id, port) {
            Some(queue) => {
                let mut queue = queue;
                let ghost q0 = queue@;
                let connector = queue.remove(0);
                if queue.len() > 0 {
                    self.pending.put(id.clone(), port, queue);
                }
                proof {
                    assert(queue@ =~= q0.drop_first());
                    assert forall|b: AddrView| b != a implies #[trigger] self.queue(b) == old(self).queue(b) by {
                        assert(self.pending@.contains_key(b) == old(self).pending@.contains_key(b));
                    }
                    assert forall|b: AddrView| #[trigger] self.listeners@.contains_key(b) implies !self.pending@.contains_key(b) by {
                        assert(old(self).listeners@.contains_key(b));
                        assert(b != a);
                    }
                }
                Some(Delivery { id, port, origin: ConnType::Listener, listener, connector })
            },
            None => {
                let _ = self.listeners.take(&id, port);
                self.listeners.put(id, port, listener);
                None
            },
        }
    }

    /// Takes one request. A connector meets the registered listener of its
    /// address or joins the back of the queue there, unless
    /// `MAX_WAITING_CONNECTORS` already wait, in which case it is dropped; a listener meets the
    /// oldest waiting connector or becomes the address's listener, replacing
    /// any earlier one. `Some` is a match to carry out.
    pub fn handle(&mut self, req: Request) -> (r: Option<Delivery>)
        requires
            old(self).wf(),
        ensures
            final(self).wf(),
            ({
                let a = (req.id@, req.port);
                if req.conn_type == ConnType::Connector {
                    if old(self).listeners().contains_key(a) {
                        &&& r == Some(Delivery { id: req.id, port: req.port, origin: ConnType::Connector, listener: old(self).listeners()[a], connector: req.dest_socket })
                        &&& final(self).listeners() == old(self).listeners().remove(a)
                        &&& forall|b: AddrView| final(self).queue(b) == old(self).queue(b)
                    } else {
                        &&& r is None
                        &&& final(self).listeners() == old(self).listeners()
                        &&& final(self).queue(a) == (if old(self).queue(a).len() < MAX_WAITING_CONNECTORS {
                            old(self).queue(a).push(req.dest_socket)
                        } else {
                            old(self).queue(a)
                        })
                        &&& forall|b: AddrView| b != a ==> final(self).queue(b) == old(self).queue(b)
                    }
                } else if old(self).queue(a).len() > 0 {
                    &&& r == Some(Delivery { id: req.id, port: req.port, origin: ConnType::Listener, listener: req.dest_socket, connector: old(self).queue(a)[0] })
                    &&& final(self).queue(a) == old(self).queue(a).drop_first()
                    &&& final(self).listeners() == old(self).listeners()
                    &&& forall|b: AddrView| b != a ==> final(self).queue(b) == old(self).queue(b)
                } else {
                    &&& r is None
                    &&& final(self).listeners() == old(self).listeners().insert(a, req.dest_socket)
                    &&& forall|b: AddrView| final(self).queue(b) == old(self).queue(b)
                }
            }),
    {
        let Request { id, port, conn_type, dest_socket } = req;
        match conn_type {
            ConnType::Connector => self.connector_arrived(id, port, dest_socket, false),
            ConnType::Listener => self.listener_available(id, port, dest_socket),
        }
    }

    /// Reports how a match went: `listener_took` tells whether the listener's
    /// half was delivered. A listener that took its half is available again
    /// and meets the next waiting connector, if any; one that did not is
    /// dropped. A connector whose listener failed waits again, at the front of
    /// the queue if it was taken from there.
    pub fn delivered(&mut self, d: Delivery, listener_took: bool) -> (r: Option<Delivery>)
        requires
            old(self).wf(),
        ensures
            final(self).wf(),
            ({
                let a = (d.id@, d.port);
                if listener_took {
                    if old(self).queue(a).len() > 0 {
                        &&& r == Some(Delivery { id: d.id, port: d.port, origin: ConnType::Listener, listener: d.listener, connector: old(self).queue(a)[0] })
                        &&& final(self).queue(a) == old(self).queue(a).drop_first()
                        &&& final(self).listeners() == old(self).listeners()
                        &&& forall|b: AddrView| b != a ==> final(self).queue(b) == old(self).queue(b)
                    } else {
                        &&& r is None
                        &&& final(self).listeners() == old(self).listeners().insert(a, d.listener)
                        &&& forall|b: AddrView| final(self).queue(b) == old(self).queue(b)
                    }
                } else if old(self).listeners().contains_key(a) {
                    &&& r == Some(Delivery { id: d.id, port: d.port, origin: ConnType::Connector, listener: old(self).listeners()[a], connector: d.connector })
                    &&& final(self).listeners() == old(self).listeners().remove(a)
                    &&& forall|b: AddrView| final(self).queue(b) == old(self).queue(b)
                } else {
                    &&& r is None
                    &&& final(self).listeners() == old(self).listeners()
                    &&& final(self).queue(a) == (if d.origin == ConnType::Listener { seq![d.connector].add(old(self).queue(a)) }
                        else if old(self).queue(a).len() < MAX_WAITING_CONNECTORS { old(self).queue(a).push(d.connector) }
                        else { old(self).queue(a) })
                    &&& forall|b: AddrView| b != a ==> final(self).queue(b) == old(self).queue(b)
                }
            }),
    {
        let Delivery { id, port, origin, listener, connector } = d;
        if listener_took {
            self.listener_available(id, port, listener)
        } else {
            let front = match origin {
                ConnType::Listener => true,
                ConnType::Connector => false,
            };
            self.connector_arrived(id, port, connector, front)
        }
    }
}

} // verus!
