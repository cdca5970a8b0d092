//! The address on which the server listens.

use vstd::prelude::*;

verus! {

/// A server bound to a socket address, such as `127.0.0.1:3000`.
pub struct Server<'a> {
    socket_addr: &'a str,
}

impl<'a> Server<'a> {
    /// The address on which the server listens.
    pub closed spec fn address(&self) -> Seq<char> {
        self.socket_addr@
    }

    /// A server that will listen on `socket_addr`.
    pub fn new(socket_addr: &'a str) -> (server: Self)
        ensures
            server.address() == socket_addr@,
    {
        Server { socket_addr }
    }

    /// The address on which the server listens.
    pub fn socket_addr(&self) -> (addr: &'a str)
        ensures
            addr@ == self.address(),
    {
        self.socket_addr
    }
}

} // verus!
