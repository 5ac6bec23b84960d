//! A full-duplex in-memory byte stream made of two halves. Each half owns the
//! sending end of one chunk channel and the receiving end of the other, with a
//! staging buffer on each side: writes gather bytes until a flush sends them as
//! one chunk, and reads hand a received chunk out in pieces of any size.
use crate::chan::{
    close_receiver, peekable, poll_next, poll_peek_ready, poll_send_flush, poll_send_ready,
    wake_current, PeekRecv,
};
use crate::maybe::{ErrorKind, Poll};
use futures::channel::mpsc::{channel, Sender};
use std::task::Context;
use vstd::math::min;
use vstd::prelude::*;

verus! {

/// Chunks that may wait in each direction.
pub const CHANNEL_CAP: usize = 32;

/// Staged bytes beyond which a write first flushes what is staged.
pub const MAX_BUFFER_SIZE: usize = 16384;

/// The bytes of a sequence of chunks, one after the other.
pub open spec fn concat(chunks: Seq<Seq<u8>>) -> Seq<u8>
    decreases chunks.len(),
{
    if chunks.len() == 0 {
        Seq::empty()
    } else {
        concat(chunks.drop_last()) + chunks.last()
    }
}

/// `p` is `s` or an initial part of it.
pub open spec fn is_prefix<T>(p: Seq<T>, s: Seq<T>) -> bool {
    p.len() <= s.len() && p == s.subrange(0, p.len() as int)
}

pub proof fn lemma_concat_push(chunks: Seq<Seq<u8>>, c: Seq<u8>)
    ensures
        concat(chunks.push(c)) == concat(chunks) + c,
{
    assert(chunks.push(c).drop_last() =~= chunks);
}

/// The bytes of the first chunks of a sequence come first in its bytes.
pub proof fn lemma_concat_prefix(p: Seq<Seq<u8>>, s: Seq<Seq<u8>>)
    requires
        is_prefix(p, s),
    ensures
        is_prefix(concat(p), concat(s)),
    decreases s.len(),
{
    if p.len() < s.len() {
        assert(is_prefix(p, s.drop_last())) by {
            assert(p =~= s.drop_last().subrange(0, p.len() as int));
        }
        lemma_concat_prefix(p, s.drop_last());
        assert(concat(s) == concat(s.drop_last()) + s.last());
        assert(concat(p) =~= concat(s).subrange(0, concat(p).len() as int));
    } else {
        assert(p =~= s);
        assert(concat(s).subrange(0, concat(s).len() as int) =~= concat(s));
    }
}

/// The bytes of a sequence of chunks are those of its first chunks followed by
/// those of the rest.
pub proof fn lemma_concat_split(s: Seq<Seq<u8>>, k: int)
    requires
        0 <= k <= s.len(),
    ensures
        concat(s) == concat(s.subrange(0, k)) + concat(s.subrange(k, s.len() as int)),
    decreases s.len(),
{
    if k == s.len() {
        assert(s.subrange(0, k) =~= s);
        assert(s.subrange(k, s.len() as int) =~= Seq::<Seq<u8>>::empty());
        assert(concat(s) + Seq::<u8>::empty() =~= concat(s));
    } else {
        let t = s.drop_last();
        lemma_concat_split(t, k);
        assert(t.subrange(0, k) =~= s.subrange(0, k));
        assert(s.subrange(k, s.len() as int).drop_last() =~= t.subrange(k, t.len() as int));
        assert(s.subrange(k, s.len() as int).last() == s.last());
        assert(concat(s) =~= concat(s.subrange(0, k)) + concat(s.subrange(k, s.len() as int)));
    }
}

/// The staged bytes of a half and the history of its two directions. Every
/// value of this type keeps the history consistent with the staging.
struct Staging {
    tx_buf: Vec<u8>,
    rx_buf: Vec<u8>,
    rx_pos: usize,
    accepted: Ghost<Seq<u8>>,
    sent: Ghost<Seq<Seq<u8>>>,
    received: Ghost<Seq<Seq<u8>>>,
    delivered: Ghost<Seq<u8>>,
}

impl Staging {
    spec fn staged_in(&self) -> Seq<u8> {
        self.rx_buf@.subrange(self.rx_pos as int, self.rx_buf@.len() as int)
    }

    #[verifier::type_invariant]
    spec fn inv(&self) -> bool {
        &&& self.rx_pos <= self.rx_buf@.len()
        &&& self.accepted@ == concat(self.sent@) + self.tx_buf@
        &&& concat(self.received@) == self.delivered@ + self.staged_in()
    }

    fn new() -> (r: Staging)
        ensures
            r.accepted@ == Seq::<u8>::empty(),
            r.sent@ == Seq::<Seq<u8>>::empty(),
            r.tx_buf@ == Seq::<u8>::empty(),
            r.received@ == Seq::<Seq<u8>>::empty(),
            r.delivered@ == Seq::<u8>::empty(),
            r.staged_in() == Seq::<u8>::empty(),
    {
        let r = Staging {
            tx_buf: Vec::new(),
            rx_buf: Vec::new(),
            rx_pos: 0,
            accepted: Ghost(Seq::empty()),
            sent: Ghost(Seq::empty()),
            received: Ghost(Seq::empty()),
            delivered: Ghost(Seq::empty()),
        };
        assert(r.staged_in() =~= Seq::<u8>::empty());
        assert(concat(Seq::<Seq<u8>>::empty()) + Seq::<u8>::empty() =~= Seq::<u8>::empty());
        r
    }

    fn staged_out_len(&self) -> (r: usize)
        ensures
            r == self.tx_buf@.len(),
    {
        self.tx_buf.len()
    }

    fn has_staged_in(&self) -> (r: bool)
        ensures
            r == (self.staged_in().len() > 0),
    {
        proof {
            use_type_invariant(self);
        }
        self.rx_pos < self.rx_buf.len()
    }

    /// Appends `buf` to the outbound staging.
    fn append(self, buf: &[u8]) -> (r: Staging)
        ensures
            r.accepted@ == self.accepted@ + buf@,
            r.tx_buf@ == self.tx_buf@ + buf@,
            r.sent@ == self.sent@,
            r.received@ == self.received@,
            r.delivered@ == self.delivered@,
            r.staged_in() == self.staged_in(),
    {
        proof {
            use_type_invariant(&self);
        }
        let Staging { tx_buf, rx_buf, rx_pos, accepted, sent, received, delivered } = self;
        let mut tx_buf = tx_buf;
        let ghost before = tx_buf@;
        let mut i: usize = 0;
        while i < buf.len()
            invariant
                i <= buf@.len(),
                tx_buf@ == before + buf@.subrange(0, i as int),
            decreases buf@.len() - i,
        {
            tx_buf.push(buf[i]);
            i = i + 1;
            assert(tx_buf@ =~= before + buf@.subrange(0, i as int));
        }
        assert(buf@.subrange(0, buf@.len() as int) =~= buf@);
        let ghost acc = accepted@ + buf@;
        assert(acc =~= concat(sent@) + tx_buf@);
        Staging { tx_buf, rx_buf, rx_pos, accepted: Ghost(acc), sent, received, delivered }
    }

    /// Moves the outbound staging out as one chunk, counted as sent.
    fn take_chunk(self) -> (r: (Staging, Vec<u8>))
        ensures
            r.1@ == self.tx_buf@,
            r.0.accepted@ == self.accepted@,
            r.0.tx_buf@ == Seq::<u8>::empty(),
            r.0.sent@ == self.sent@.push(self.tx_buf@),
            r.0.received@ == self.received@,
            r.0.delivered@ == self.delivered@,
            r.0.staged_in() == self.staged_in(),
    {
        proof {
            use_type_invariant(&self);
        }
        let Staging { tx_buf, rx_buf, rx_pos, accepted, sent, received, delivered } = self;
        proof {
            lemma_concat_push(sent@, tx_buf@);
        }
        let ghost sent2 = sent@.push(tx_buf@);
        assert(accepted@ =~= concat(sent2) + Seq::<u8>::empty());
        (Staging { tx_buf: Vec::new(), rx_buf, rx_pos, accepted, sent: Ghost(sent2), received, delivered }, tx_buf)
    }

    /// Makes a received chunk the inbound staging.
    fn receive(self, chunk: Vec<u8>) -> (r: Staging)
        requires
            self.staged_in().len() == 0,
        ensures
            r.accepted@ == self.accepted@,
            r.tx_buf@ == self.tx_buf@,
            r.sent@ == self.sent@,
            r.received@ == self.received@.push(chunk@),
            r.delivered@ == self.delivered@,
            r.staged_in() == chunk@,
    {
        proof {
            use_type_invariant(&self);
        }
        let Staging { tx_buf, rx_buf, rx_pos, accepted, sent, received, delivered } = self;
        proof {
            lemma_concat_push(received@, chunk@);
            assert(rx_buf@.subrange(rx_pos as int, rx_buf@.len() as int).len() == 0);
            assert(concat(received@) =~= delivered@);
        }
        let ghost received2 = received@.push(chunk@);
        assert(chunk@.subrange(0, chunk@.len() as int) =~= chunk@);
        assert(concat(received2) =~= delivered@ + chunk@.subrange(0, chunk@.len() as int));
        let r = Staging { tx_buf, rx_buf: chunk, rx_pos: 0, accepted, sent, received: Ghost(received2), delivered };
        assert(r.staged_in() =~= r.rx_buf@);
        r
    }

    /// Copies the first staged inbound bytes into `buf`, as many as fit, and
    /// counts them as delivered.
    fn read_into(self, buf: &mut [u8]) -> (r: (Staging, usize))
        ensures
            r.1 == min(old(buf)@.len() as int, self.staged_in().len() as int),
            final(buf)@.len() == old(buf)@.len(),
            final(buf)@.subrange(0, r.1 as int) == self.staged_in().subrange(0, r.1 as int),
            final(buf)@.subrange(r.1 as int, final(buf)@.len() as int) == old(buf)@.subrange(
                r.1 as int,
                old(buf)@.len() as int,
            ),
            r.0.accepted@ == self.accepted@,
            r.0.tx_buf@ == self.tx_buf@,
            r.0.sent@ == self.sent@,
            r.0.received@ == self.received@,
            r.0.delivered@ == self.delivered@ + self.staged_in().subrange(0, r.1 as int),
            r.0.staged_in() == self.staged_in().subrange(r.1 as int, self.staged_in().len() as int),
    {
        proof {
            use_type_invariant(&self);
        }
        let Staging { tx_buf, rx_buf, rx_pos, accepted, sent, received, delivered } = self;
        let ghost staged = rx_buf@.subrange(rx_pos as int, rx_buf@.len() as int);
        let avail = rx_buf.len() - rx_pos;
        let n: usize = if buf.len() < avail {
            buf.len()
        } else {
            avail
        };
        let ghost orig = buf@;
        let mut i: usize = 0;
        while i < n
            invariant
                i <= n,
                n <= buf@.len(),
                rx_pos + n <= rx_buf.len(),
                staged == rx_buf@.subrange(rx_pos as int, rx_buf@.len() as int),
                buf@.len() == orig.len(),
                buf@.subrange(0, i as int) == staged.subrange(0, i as int),
                buf@.subrange(n as int, buf@.len() as int) == orig.subrange(n as int, orig.len() as int),
            decreases n - i,
        {
            buf[i] = rx_buf[rx_pos + i];
            i = i + 1;
            assert(buf@.subrange(0, i as int) =~= staged.subrange(0, i as int));
            assert(buf@.subrange(n as int, buf@.len() as int) =~= orig.subrange(
                n as int,
                orig.len() as int,
            ));
        }
        let ghost delivered2 = delivered@ + staged.subrange(0, n as int);
        assert(staged =~= staged.subrange(0, n as int) + staged.subrange(n as int, staged.len() as int));
        if rx_pos + n == rx_buf.len() {
            let r = Staging {
                tx_buf,
                rx_buf: Vec::new(),
                rx_pos: 0,
                accepted,
                sent,
                received,
                delivered: Ghost(delivered2),
            };
            assert(r.staged_in() =~= staged.subrange(n as int, staged.len() as int));
            assert(concat(received@) =~= delivered2 + r.staged_in());
            (r, n)
        } else {
            let ghost rest = rx_buf@.subrange(rx_pos + n, rx_buf@.len() as int);
            assert(rest =~= staged.subrange(n as int, staged.len() as int));
            assert(concat(received@) =~= delivered2 + rest);
            let r = Staging {
                tx_buf,
                rx_buf,
                rx_pos: rx_pos + n,
                accepted,
                sent,
                received,
                delivered: Ghost(delivered2),
            };
            assert(r.staged_in() =~= staged.subrange(n as int, staged.len() as int));
            assert(concat(received@) =~= delivered2 + r.staged_in());
            (r, n)
        }
    }
}

/// Whether a half can make progress, given whether inbound bytes are staged,
/// whether the inbound channel is ready, and whether the outbound one is.
pub fn progress_possible(staged: bool, inbound_ready: bool, outbound_ready: bool) -> (r: bool)
    ensures
        r == (staged || inbound_ready || outbound_ready),
{
    staged || inbound_ready || outbound_ready
}

/// A failure of a channel, as the transport error it stands for.
fn ncerror<E>(_e: E) -> (r: ErrorKind)
    ensures
        r == ErrorKind::NotConnected,
{
    ErrorKind::NotConnected
}

/// One half of a connected pair.
pub struct Loopback {
    tx: Sender<Vec<u8>>,
    rx: PeekRecv<Vec<u8>>,
    st: Staging,
    closed: Ghost<bool>,
    link: Ghost<(int, int)>,
}

impl Loopback {
    /// Every byte that writes on this half have accepted, in order.
    pub closed spec fn accepted(&self) -> Seq<u8> {
        self.st.accepted@
    }

    /// Every chunk this half has handed to its outbound channel, in order.
    pub closed spec fn sent(&self) -> Seq<Seq<u8>> {
        self.st.sent@
    }

    /// Every chunk this half has taken from its inbound channel, in order.
    pub closed spec fn received(&self) -> Seq<Seq<u8>> {
        self.st.received@
    }

    /// Every byte that reads on this half have returned, in order.
    pub closed spec fn delivered(&self) -> Seq<u8> {
        self.st.delivered@
    }

    /// Accepted bytes that no flush has sent yet.
    pub closed spec fn staged_out(&self) -> Seq<u8> {
        self.st.tx_buf@
    }

    /// Names of this half's two directions, outbound then inbound. `pair`
    /// gives the two halves it builds crossed names: what one sends on is what
    /// the other receives from.
    pub closed spec fn link(&self) -> (int, int) {
        self.link@
    }

    /// Whether `poll_close` has closed both channels of this half.
    pub closed spec fn closed(&self) -> bool {
        self.closed@
    }

    /// Received bytes that no read has returned yet.
    pub closed spec fn staged_in(&self) -> Seq<u8> {
        self.st.staged_in()
    }

    /// The history is consistent: accepted bytes are the sent chunks followed
    /// by the outbound staging, and the received chunks are the delivered bytes
    /// followed by the inbound staging. Every half keeps it at all times.
    pub closed spec fn wf(&self) -> bool {
        self.st.inv()
    }

    /// What the consistency of the history means.
    pub proof fn lemma_history(&self)
        requires
            self.wf(),
        ensures
            self.accepted() == concat(self.sent()) + self.staged_out(),
            concat(self.received()) == self.delivered() + self.staged_in(),
    {
    }

    /// The outbound side of `self` and `other` are the same.
    pub open spec fn same_outbound(&self, other: &Loopback) -> bool {
        &&& self.accepted() == other.accepted()
        &&& self.sent() == other.sent()
        &&& self.staged_out() == other.staged_out()
    }

    /// The inbound side of `self` and `other` are the same.
    pub open spec fn same_inbound(&self, other: &Loopback) -> bool {
        &&& self.received() == other.received()
        &&& self.delivered() == other.delivered()
        &&& self.staged_in() == other.staged_in()
    }

    /// A fresh half: nothing accepted, sent, received or delivered.
    pub open spec fn is_fresh(&self) -> bool {
        &&& !self.closed()
        &&& self.accepted() == Seq::<u8>::empty()
        &&& self.sent() == Seq::<Seq<u8>>::empty()
        &&& self.staged_out() == Seq::<u8>::empty()
        &&& self.received() == Seq::<Seq<u8>>::empty()
        &&& self.delivered() == Seq::<u8>::empty()
        &&& self.staged_in() == Seq::<u8>::empty()
    }

    fn with_channels(tx: Sender<Vec<u8>>, rx: futures::channel::mpsc::Receiver<Vec<u8>>, link: Ghost<(int, int)>) -> (r: Self)
        ensures
            r.is_fresh(),
            r.wf(),
            r.link() == link@,
    {
        let r = Loopback { tx, rx: peekable(rx), st: Staging::new(), closed: Ghost(false), link };
        proof {
            use_type_invariant(&r.st);
        }
        r
    }

    /// Two connected halves: what one sends, the other receives.
    pub fn pair() -> (r: (Loopback, Loopback))
        ensures
            r.0.is_fresh(),
            r.1.is_fresh(),
            r.0.wf(),
            r.1.wf(),
            r.0.link().0 == r.1.link().1,
            r.1.link().0 == r.0.link().1,
            r.0.link().0 != r.0.link().1,
    {
        let ghost a_to_b: int = vstd::pervasive::arbitrary();
        let ghost b_to_a: int = a_to_b + 1;
        let (a_tx, b_rx) = channel(CHANNEL_CAP);
        let (b_tx, a_rx) = channel(CHANNEL_CAP);
        (
            Loopback::with_channels(a_tx, a_rx, Ghost((a_to_b, b_to_a))),
            Loopback::with_channels(b_tx, b_rx, Ghost((b_to_a, a_to_b))),
        )
    }

    fn take_staging(&mut self) -> (r: Staging)
        ensures
            r == old(self).st,
            final(self).tx == old(self).tx,
            final(self).rx == old(self).rx,
            final(self).closed == old(self).closed,
            final(self).link == old(self).link,
    {
        let mut st = Staging::new();
        std::mem::swap(&mut st, &mut self.st);
        st
    }

    /// Sends the staged outbound bytes as one chunk. `Ready(Ok(()))` means
    /// nothing accepted is left staged; a failure of the channel is
    /// `NotConnected`.
    pub fn poll_flush(&mut self, cx: &mut Context) -> (r: Poll<Result<(), ErrorKind>>)
        ensures
            final(self).wf(),
            final(self).same_inbound(old(self)),
            final(self).accepted() == old(self).accepted(),
            old(self).staged_out().len() == 0 ==> r == Poll::Ready(Ok::<(), ErrorKind>(()))
                && final(self).same_outbound(old(self)),
            r == Poll::Ready(Ok::<(), ErrorKind>(())) ==> final(self).staged_out().len() == 0,
            r is Ready && r != Poll::Ready(Ok::<(), ErrorKind>(())) ==> r == Poll::Ready(
                Err::<(), ErrorKind>(ErrorKind::NotConnected),
            ),
            final(self).same_outbound(old(self)) || (final(self).sent() == old(self).sent().push(
                old(self).staged_out(),
            ) && final(self).staged_out().len() == 0),
            final(self).closed() == old(self).closed(),
            final(self).link() == old(self).link(),
    {
        if self.st.staged_out_len() == 0 {
            proof {
                use_type_invariant(&self.st);
            }
            return Poll::Ready(Ok(()));
        }
        match poll_send_ready(&mut self.tx, cx) {
            Poll::Pending => {
                proof {
                    use_type_invariant(&self.st);
                }
                return Poll::Pending;
            },
            Poll::Ready(Err(e)) => {
                proof {
                    use_type_invariant(&self.st);
                }
                return Poll::Ready(Err(ncerror(e)));
            },
            Poll::Ready(Ok(())) => {},
        }
        let st = self.take_staging();
        let (st, chunk) = st.take_chunk();
        self.st = st;
        if let Err(e) = self.tx.start_send(chunk) {
            proof {
                use_type_invariant(&self.st);
            }
            return Poll::Ready(Err(ncerror(e)));
        }
        proof {
            use_type_invariant(&self.st);
        }
        match poll_send_flush(&mut self.tx, cx) {
            Poll::Pending => Poll::Pending,
            Poll::Ready(Err(e)) => Poll::Ready(Err(ncerror(e))),
            Poll::Ready(Ok(())) => Poll::Ready(Ok(())),
        }
    }

    /// Accepts all of `buf` into the outbound staging and answers its length.
    /// Writing nothing answers `Ready(Ok(0))` and touches nothing. When the
    /// staging would grow past `MAX_BUFFER_SIZE`, what is staged is flushed
    /// first; if that cannot finish now, nothing is accepted and the answer is
    /// `Pending` (the waker is registered by the channel), never `Ready(Ok(0))`,
    /// which writers read as a stream that takes no more bytes. A single write
    /// onto an empty staging is accepted whole, however long, and leaves as
    /// one chunk at the next flush.
    pub fn poll_write(&mut self, cx: &mut Context, buf: &[u8]) -> (r: Poll<Result<usize, ErrorKind>>)
        ensures
            final(self).wf(),
            final(self).same_inbound(old(self)),
            buf@.len() == 0 ==> r == Poll::Ready(Ok::<usize, ErrorKind>(0)) && final(self).same_outbound(
                old(self),
            ),
            old(self).staged_out().len() + buf@.len() <= MAX_BUFFER_SIZE ==> r == Poll::Ready(
                Ok::<usize, ErrorKind>(buf@.len() as usize),
            ),
            old(self).staged_out().len() == 0 ==> r == Poll::Ready(
                Ok::<usize, ErrorKind>(buf@.len() as usize),
            ),
            r == Poll::Ready(Ok::<usize, ErrorKind>(buf@.len() as usize)) ==> final(self).accepted()
                == old(self).accepted() + buf@,
            r != Poll::Ready(Ok::<usize, ErrorKind>(buf@.len() as usize)) ==> final(self).accepted()
                == old(self).accepted(),
            r is Ready && r != Poll::Ready(Ok::<usize, ErrorKind>(buf@.len() as usize)) ==> r
                == Poll::Ready(Err::<usize, ErrorKind>(ErrorKind::NotConnected)),
            final(self).closed() == old(self).closed(),
            final(self).link() == old(self).link(),
    {
        if buf.len() == 0 {
            proof {
                use_type_invariant(&self.st);
            }
            return Poll::Ready(Ok(0));
        }
        let staged = self.st.staged_out_len();
        if staged > 0 && (buf.len() > MAX_BUFFER_SIZE || staged > MAX_BUFFER_SIZE - buf.len()) {
            match self.poll_flush(cx) {
                Poll::Pending => {
                    proof {
                        use_type_invariant(&self.st);
                    }
                    return Poll::Pending;
                },
                Poll::Ready(Err(e)) => {
                    proof {
                        use_type_invariant(&self.st);
                    }
                    return Poll::Ready(Err(e));
                },
                Poll::Ready(Ok(())) => {},
            }
        }
        let st = self.take_staging();
        self.st = st.append(buf);
        proof {
            use_type_invariant(&self.st);
        }
        Poll::Ready(Ok(buf.len()))
    }

    /// Copies up to `buf.len()` received bytes into `buf`, in order, and
    /// answers how many. Staged bytes are handed out before the channel is
    /// consulted; once the peer has closed and nothing is staged, the answer is
    /// `NotConnected`. A zero-length `buf` answers `Ready(Ok(0))` and consumes
    /// nothing.
    pub fn poll_read(&mut self, cx: &mut Context, buf: &mut [u8]) -> (r: Poll<Result<usize, ErrorKind>>)
        ensures
            final(self).wf(),
            final(self).same_outbound(old(self)),
            final(buf)@.len() == old(buf)@.len(),
            old(buf)@.len() == 0 ==> r == Poll::Ready(Ok::<usize, ErrorKind>(0))
                && final(self).same_inbound(old(self)),
            old(buf)@.len() > 0 && old(self).staged_in().len() > 0 ==> final(self).received()
                == old(self).received() && r == Poll::Ready(
                Ok::<usize, ErrorKind>(
                    min(old(buf)@.len() as int, old(self).staged_in().len() as int) as usize,
                ),
            ),
            r matches Poll::Ready(Ok(n)) ==> {
                    &&& n <= old(buf)@.len()
                    &&& (old(buf)@.len() > 0 ==> n > 0)
                    &&& final(self).delivered() == old(self).delivered() + final(buf)@.subrange(
                        0,
                        n as int,
                    )
                    &&& final(buf)@.subrange(n as int, final(buf)@.len() as int) == old(
                        buf,
                    )@.subrange(n as int, old(buf)@.len() as int)
                },
            r matches Poll::Ready(Ok(n)) ==> (old(buf)@.len() > 0 && old(self).staged_in().len() > 0
                ==> final(buf)@.subrange(0, n as int) == old(self).staged_in().subrange(0, n as int)
                && final(self).staged_in() == old(self).staged_in().subrange(
                n as int,
                old(self).staged_in().len() as int,
            )),
            r matches Poll::Ready(Ok(n)) ==> (old(buf)@.len() > 0 && old(self).staged_in().len() == 0
                ==> final(self).received().len() == old(self).received().len() + 1
                && final(self).received().drop_last() == old(self).received()
                && final(buf)@.subrange(0, n as int) == final(self).received().last().subrange(0, n as int)
                && final(self).staged_in() == final(self).received().last().subrange(
                n as int,
                final(self).received().last().len() as int,
            )),
            r is Pending || (r is Ready && r->Ready_0 is Err) ==> final(self).delivered() == old(
                self,
            ).delivered() && final(buf)@ == old(buf)@,
            old(buf)@.len() > 0 && old(self).staged_in().len() == 0 && final(self).received().len()
                > old(self).received().len() ==> final(self).received().len() == old(self).received().len() + 1
                && (final(self).received().last().len() > 0 ==> r == Poll::Ready(
                Ok::<usize, ErrorKind>(
                    min(old(buf)@.len() as int, final(self).received().last().len() as int) as usize,
                ),
            )) && (final(self).received().last().len() == 0 ==> r is Pending),
            r is Pending && final(self).received().len() == old(self).received().len() ==> final(self).same_inbound(old(self)),
            final(self).closed() == old(self).closed(),
            r is Ready && r->Ready_0 is Err ==> r == Poll::Ready(
                Err::<usize, ErrorKind>(ErrorKind::NotConnected),
            ) && old(self).staged_in().len() == 0 && final(self).same_inbound(old(self)),
            final(self).link() == old(self).link(),
    {
        if buf.len() == 0 {
            proof {
                use_type_invariant(&self.st);
            }
            return Poll::Ready(Ok(0));
        }
        if !self.st.has_staged_in() {
            match poll_next(&mut self.rx, cx) {
                Poll::Ready(Some(chunk)) => {
                    let empty = chunk.len() == 0;
                    let st = self.take_staging();
                    self.st = st.receive(chunk);
                    if empty {
                        wake_current(cx);
                        proof {
                            use_type_invariant(&self.st);
                        }
                        return Poll::Pending;
                    }
                },
                Poll::Ready(None) => {
                    proof {
                        use_type_invariant(&self.st);
                    }
                    return Poll::Ready(Err(ErrorKind::NotConnected));
                },
                Poll::Pending => {
                    proof {
                        use_type_invariant(&self.st);
                    }
                    return Poll::Pending;
                },
            }
        }
        let st = self.take_staging();
        let (st, n) = st.read_into(buf);
        self.st = st;
        proof {
            use_type_invariant(&self.st);
        }
        Poll::Ready(Ok(n))
    }

    /// Flushes what is staged, then closes both channels: the peer reads what
    /// was sent and then `NotConnected`, and can send nothing more here.
    /// `Pending` while staged bytes wait for room in the channel; a flush that
    /// fails answers its error and closes nothing.
    pub fn poll_close(&mut self, cx: &mut Context) -> (r: Poll<Result<(), ErrorKind>>)
        ensures
            final(self).wf(),
            final(self).same_inbound(old(self)),
            final(self).accepted() == old(self).accepted(),
            old(self).staged_out().len() == 0 ==> r == Poll::Ready(Ok::<(), ErrorKind>(()))
                && final(self).same_outbound(old(self)),
            r == Poll::Ready(Ok::<(), ErrorKind>(())) ==> final(self).staged_out().len() == 0,
            r is Ready && r != Poll::Ready(Ok::<(), ErrorKind>(())) ==> r == Poll::Ready(
                Err::<(), ErrorKind>(ErrorKind::NotConnected),
            ),
            final(self).same_outbound(old(self)) || (final(self).sent() == old(self).sent().push(
                old(self).staged_out(),
            ) && final(self).staged_out().len() == 0),
            r == Poll::Ready(Ok::<(), ErrorKind>(())) ==> final(self).closed(),
            r != Poll::Ready(Ok::<(), ErrorKind>(())) ==> final(self).closed() == old(self).closed(),
            final(self).link() == old(self).link(),
    {
        match self.poll_flush(cx) {
            Poll::Pending => Poll::Pending,
            Poll::Ready(Err(e)) => Poll::Ready(Err(e)),
            Poll::Ready(Ok(())) => {
                self.tx.close_channel();
                close_receiver(&mut self.rx);
                proof {
                    self.closed@ = true;
                }
                Poll::Ready(Ok(()))
            },
        }
    }

    /// Whether a read or a write on this half could make progress now: bytes
    /// are staged, the inbound channel has an item or has ended, or the
    /// outbound channel has room or has failed.
    pub fn has_data(&mut self, cx: &mut Context) -> (r: bool)
        ensures
            final(self).wf(),
            final(self).same_outbound(old(self)),
            final(self).same_inbound(old(self)),
            old(self).staged_in().len() > 0 ==> r,
            final(self).closed() == old(self).closed(),
            final(self).link() == old(self).link(),
    {
        proof {
            use_type_invariant(&self.st);
        }
        let staged = self.st.has_staged_in();
        let inbound = poll_peek_ready(&mut self.rx, cx);
        let outbound = poll_send_ready(&mut self.tx, cx).is_ready();
        progress_possible(staged, inbound, outbound)
    }
}

} // verus!

verus! {

/// Bytes leave a half in the order its peer accepted them: for `b` receiving
/// from the direction `a` sends on, when the chunks `b` has received are the
/// first chunks `a` sent, as a channel that keeps order gives them, the bytes
/// read from `b` are the first bytes written to `a`.
pub proof fn lemma_byte_order(a: &Loopback, b: &Loopback)
    requires
        a.wf(),
        b.wf(),
        a.link().0 == b.link().1,
        is_prefix(b.received(), a.sent()),
    ensures
        is_prefix(b.delivered(), a.accepted()),
{
    lemma_concat_prefix(b.received(), a.sent());
    let d = b.delivered();
    let r = concat(b.received());
    let s = concat(a.sent());
    let acc = a.accepted();
    assert(d =~= r.subrange(0, d.len() as int));
    assert(r =~= s.subrange(0, r.len() as int));
    assert(s =~= acc.subrange(0, s.len() as int));
    assert(d =~= acc.subrange(0, d.len() as int));
}

/// Once `a` has nothing staged, as after its flush answered `Ready(Ok(()))`,
/// and `b` receives from the direction `a` sends on, every byte written to `a`
/// has been read from `b`, waits in `b`'s staging, or
/// is in a chunk that the channel still holds, in that order.
pub proof fn lemma_flushed_bytes_reach_peer(a: &Loopback, b: &Loopback)
    requires
        a.wf(),
        b.wf(),
        a.link().0 == b.link().1,
        a.staged_out().len() == 0,
        is_prefix(b.received(), a.sent()),
    ensures
        a.accepted() == b.delivered() + b.staged_in() + concat(
            a.sent().subrange(b.received().len() as int, a.sent().len() as int),
        ),
{
    let k = b.received().len() as int;
    lemma_concat_split(a.sent(), k);
    assert(a.sent().subrange(0, k) =~= b.received());
    assert(a.accepted() =~= concat(a.sent()));
    assert(a.accepted() =~= b.delivered() + b.staged_in() + concat(
        a.sent().subrange(k, a.sent().len() as int),
    ));
}

} // verus!
