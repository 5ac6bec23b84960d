//! The scalar encoding of `Poll<Result<u32>>` shared by guest and host.
use vstd::prelude::*;

verus! {

/// The 32-bit name of a listener, connector or socket inside one plugin instance.
pub type Handle = u32;

/// The error classes that cross the guest/host boundary.
#[derive(Clone, Copy, Debug, PartialEq, Eq, Structural)]
pub enum ErrorKind {
    /// The operation would block; encoded as `Pending`, never seen as an error by guests.
    WouldBlock,
    AlreadyExists,
    NotFound,
    NotConnected,
    InvalidData,
    Other,
}

/// The outcome of a non-blocking operation: finished with a value, or not yet.
#[derive(Clone, Copy, Debug, PartialEq, Eq, Structural)]
pub enum Poll<T> {
    Ready(T),
    Pending,
}

impl<T> Poll<T> {
    pub open spec fn spec_is_ready(&self) -> bool {
        self is Ready
    }

    #[verifier::when_used_as_spec(spec_is_ready)]
    pub fn is_ready(&self) -> (r: bool)
        ensures
            r == self is Ready,
    {
        match self {
            Poll::Ready(_) => true,
            Poll::Pending => false,
        }
    }

    pub open spec fn spec_is_pending(&self) -> bool {
        self is Pending
    }

    #[verifier::when_used_as_spec(spec_is_pending)]
    pub fn is_pending(&self) -> (r: bool)
        ensures
            r == self is Pending,
    {
        match self {
            Poll::Ready(_) => false,
            Poll::Pending => true,
        }
    }
}

/// A poll result of an I/O operation that yields a count or a handle.
pub type IoPoll = Poll<Result<u32, ErrorKind>>;

/// Wire value of `Pending`.
pub const PENDING_CODE: i64 = -1;
/// Wire value of `AlreadyExists`.
pub const ALREADY_EXISTS_CODE: i64 = -2;
/// Wire value of `NotFound`.
pub const NOT_FOUND_CODE: i64 = -3;
/// Wire value of `NotConnected`.
pub const NOT_CONNECTED_CODE: i64 = -4;

/// What a wire value means, before `WouldBlock` is turned into `Pending`.
pub open spec fn errorkind_of(v: i64) -> Result<u32, ErrorKind> {
    if v >= 0 {
        Ok(v as u32)
    } else if v == PENDING_CODE {
        Err(ErrorKind::WouldBlock)
    } else if v == ALREADY_EXISTS_CODE {
        Err(ErrorKind::AlreadyExists)
    } else if v == NOT_FOUND_CODE {
        Err(ErrorKind::NotFound)
    } else if v == NOT_CONNECTED_CODE {
        Err(ErrorKind::NotConnected)
    } else {
        Err(ErrorKind::Other)
    }
}

/// The poll result that a wire value stands for.
pub open spec fn decode(v: i64) -> IoPoll {
    match errorkind_of(v) {
        Ok(n) => Poll::Ready(Ok(n)),
        Err(ErrorKind::WouldBlock) => Poll::Pending,
        Err(k) => Poll::Ready(Err(k)),
    }
}

/// The wire value of a poll result.
pub open spec fn encode_spec(p: IoPoll) -> i64 {
    match p {
        Poll::Ready(Ok(n)) => n as i64,
        Poll::Pending => PENDING_CODE,
        Poll::Ready(Err(ErrorKind::AlreadyExists)) => ALREADY_EXISTS_CODE,
        Poll::Ready(Err(ErrorKind::NotFound)) => NOT_FOUND_CODE,
        Poll::Ready(Err(ErrorKind::NotConnected)) => NOT_CONNECTED_CODE,
        Poll::Ready(Err(_)) => i64::MIN,
    }
}

/// The poll results that survive an encode/decode trip unchanged: every count,
/// `Pending`, and the errors that have a wire value of their own or are `Other`.
pub open spec fn round_trips(p: IoPoll) -> bool {
    match p {
        Poll::Ready(Err(k)) => k == ErrorKind::AlreadyExists || k == ErrorKind::NotFound
            || k == ErrorKind::NotConnected || k == ErrorKind::Other,
        _ => true,
    }
}

/// Either an error or a `u32`, packed in one signed 64-bit scalar.
pub struct Maybe(pub i64);

impl Maybe {
    /// Splits the wire value into a count or the error class it names.
    pub fn errorkind(&self) -> (r: Result<u32, ErrorKind>)
        ensures
            r == errorkind_of(self.0),
    {
        let e = self.0;
        if e >= 0 {
            Ok(e as u32)
        } else if e == PENDING_CODE {
            Err(ErrorKind::WouldBlock)
        } else if e == ALREADY_EXISTS_CODE {
            Err(ErrorKind::AlreadyExists)
        } else if e == NOT_FOUND_CODE {
            Err(ErrorKind::NotFound)
        } else if e == NOT_CONNECTED_CODE {
            Err(ErrorKind::NotConnected)
        } else {
            Err(ErrorKind::Other)
        }
    }

    /// The poll result this wire value stands for.
    pub fn into_poll(self) -> (r: IoPoll)
        ensures
            r == decode(self.0),
    {
        match self.errorkind() {
            Ok(n) => Poll::Ready(Ok(n)),
            Err(ErrorKind::WouldBlock) => Poll::Pending,
            Err(k) => Poll::Ready(Err(k)),
        }
    }

    /// The wire value of a poll result.
    pub fn encode(poll: IoPoll) -> (r: i64)
        ensures
            r == encode_spec(poll),
    {
        Self::from_poll(poll).0
    }

    /// Packs a poll result.
    pub fn from_poll(poll: IoPoll) -> (r: Maybe)
        ensures
            r.0 == encode_spec(poll),
    {
        Maybe(
            match poll {
                Poll::Ready(Ok(n)) => n as i64,
                Poll::Pending => PENDING_CODE,
                Poll::Ready(Err(ErrorKind::AlreadyExists)) => ALREADY_EXISTS_CODE,
                Poll::Ready(Err(ErrorKind::NotFound)) => NOT_FOUND_CODE,
                Poll::Ready(Err(ErrorKind::NotConnected)) => NOT_CONNECTED_CODE,
                Poll::Ready(Err(_)) => i64::MIN,
            },
        )
    }
}

impl From<IoPoll> for Maybe {
    fn from(poll: IoPoll) -> (r: Maybe)
        ensures
            r.0 == encode_spec(poll),
    {
        Maybe::from_poll(poll)
    }
}

impl vstd::std_specs::convert::FromSpecImpl<IoPoll> for Maybe {
    open spec fn obeys_from_spec() -> bool {
        true
    }

    open spec fn from_spec(poll: IoPoll) -> Maybe {
        Maybe(encode_spec(poll))
    }
}

/// Decoding the encoding of a poll result gives it back, for every count, for
/// `Pending`, and for the errors `AlreadyExists`, `NotFound`, `NotConnected` and
/// `Other`.
pub proof fn lemma_maybe_round_trip(p: IoPoll)
    requires
        round_trips(p),
    ensures
        decode(encode_spec(p)) == p,
{
}

} // verus!
