//! What a guest holds: socket and listener handles, built from the wire values
//! the host returns, and the frame information the renderer service sends.
use crate::maybe::{errorkind_of, ErrorKind, Handle, Maybe};
use vstd::prelude::*;

verus! {

/// An established connection, named by its handle in the host.
pub struct Socket {
    handle: Handle,
}

impl Socket {
    /// The handle that names this socket in the host.
    pub closed spec fn spec_handle(&self) -> Handle {
        self.handle
    }

    pub fn from_handle(handle: Handle) -> (r: Socket)
        ensures
            r.spec_handle() == handle,
    {
        Socket { handle }
    }

    pub fn handle(&self) -> (r: Handle)
        ensures
            r == self.spec_handle(),
    {
        self.handle
    }
}

/// A listener, named by its handle in the host.
pub struct SocketListener {
    handle: Handle,
}

impl SocketListener {
    /// The handle that names this listener in the host.
    pub closed spec fn spec_handle(&self) -> Handle {
        self.handle
    }

    /// The listener that a `listener_create` call answered with `created`, or
    /// the error it answered.
    pub fn new(created: Maybe) -> (r: Result<SocketListener, ErrorKind>)
        ensures
            errorkind_of(created.0) matches Ok(h) ==> r matches Ok(l) && l.spec_handle() == h,
            errorkind_of(created.0) matches Err(k) ==> r == Err::<SocketListener, ErrorKind>(k),
    {
        match created.errorkind() {
            Ok(handle) => Ok(SocketListener { handle }),
            Err(k) => Err(k),
        }
    }

    pub fn handle(&self) -> (r: Handle)
        ensures
            r == self.spec_handle(),
    {
        self.handle
    }
}

/// What the renderer reports about a frame: the keys held down.
pub struct FrameInfo {
    pub keys: Vec<char>,
}

} // verus!
