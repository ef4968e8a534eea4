//! One connection as the reactor sees it: a socket handle and two byte
//! buffers.

use vstd::prelude::*;

verus! {

/// The readiness an endpoint asks to be polled for.
#[derive(Clone, Copy, Debug, PartialEq, Eq, Structural)]
pub enum Interest {
    Readable,
    Writable,
    Both,
}

/// The mathematical value of an [`Endpoint`].
pub struct EndpointView {
    /// The handle under which the caller knows the socket.
    pub sock: u64,
    /// Bytes received and not yet handed to the peer.
    pub inbound: Seq<u8>,
    /// Bytes waiting to be written to the socket.
    pub outbound: Seq<u8>,
}

/// The interest of an endpoint: it always listens, and asks for
/// write-readiness exactly while it has buffered output.
pub open spec fn spec_interest(e: EndpointView) -> Interest {
    if e.outbound.len() == 0 {
        Interest::Readable
    } else {
        Interest::Both
    }
}

/// The endpoint after `bytes` were received from its socket.
pub open spec fn spec_receive(e: EndpointView, bytes: Seq<u8>) -> EndpointView {
    EndpointView { inbound: e.inbound + bytes, ..e }
}

/// The endpoint after its received bytes were taken out.
pub open spec fn spec_pull(e: EndpointView) -> EndpointView {
    EndpointView { inbound: Seq::empty(), ..e }
}

/// The endpoint after `bytes` were queued for sending.
pub open spec fn spec_push(e: EndpointView, bytes: Seq<u8>) -> EndpointView {
    EndpointView { outbound: e.outbound + bytes, ..e }
}

/// The endpoint after its socket took `n` bytes; a count beyond the buffer
/// empties it.
pub open spec fn spec_consume(e: EndpointView, n: nat) -> EndpointView {
    if n <= e.outbound.len() {
        EndpointView { outbound: e.outbound.skip(n as int), ..e }
    } else {
        EndpointView { outbound: Seq::empty(), ..e }
    }
}

/// One connection: the handle of its socket, the bytes it has received
/// for its peer, and the bytes it still has to send.
pub struct Endpoint {
    sock: u64,
    inbound: Vec<u8>,
    outbound: Vec<u8>,
}

impl View for Endpoint {
    type V = EndpointView;

    closed spec fn view(&self) -> EndpointView {
        EndpointView { sock: self.sock, inbound: self.inbound@, outbound: self.outbound@ }
    }
}

impl Endpoint {
    /// A fresh endpoint for the socket `sock`, with empty buffers.
    pub fn new(sock: u64) -> (e: Endpoint)
        ensures
            e@ == (EndpointView { sock, inbound: Seq::empty(), outbound: Seq::empty() }),
    {
        Endpoint { sock, inbound: Vec::new(), outbound: Vec::new() }
    }

    /// The handle of the endpoint's socket.
    pub fn sock(&self) -> (sock: u64)
        ensures
            sock == self@.sock,
    {
        self.sock
    }

    /// The readiness the endpoint wants to be polled for.
    pub fn interest(&self) -> (interest: Interest)
        ensures
            interest == spec_interest(self@),
    {
        if self.outbound.len() == 0 {
            Interest::Readable
        } else {
            Interest::Both
        }
    }

    /// The bytes received and not yet relayed.
    pub fn inbound(&self) -> (bytes: &Vec<u8>)
        ensures
            bytes@ == self@.inbound,
    {
        &self.inbound
    }

    /// The bytes waiting to be written to the socket.
    pub fn outbound(&self) -> (bytes: &Vec<u8>)
        ensures
            bytes@ == self@.outbound,
    {
        &self.outbound
    }

    /// Appends bytes that arrived on the socket to the inbound buffer.
    pub fn receive(&mut self, bytes: Vec<u8>)
        ensures
            final(self)@ == spec_receive(old(self)@, bytes@),
    {
        let mut bytes = bytes;
        self.inbound.append(&mut bytes);
    }

    /// Removes and returns everything in the inbound buffer.
    pub fn pull(&mut self) -> (bytes: Vec<u8>)
        ensures
            bytes@ == old(self)@.inbound,
            final(self)@ == spec_pull(old(self)@),
    {
        let mut bytes: Vec<u8> = Vec::new();
        std::mem::swap(&mut self.inbound, &mut bytes);
        bytes
    }

    /// Appends `bytes` to the outbound buffer; nothing already queued is
    /// lost or reordered.
    pub fn push(&mut self, bytes: Vec<u8>)
        ensures
            final(self)@ == spec_push(old(self)@, bytes@),
    {
        let mut bytes = bytes;
        self.outbound.append(&mut bytes);
    }

    /// Drops the first `n` bytes of the outbound buffer, which the socket
    /// has taken.
    pub fn consume(&mut self, n: usize)
        ensures
            final(self)@ == spec_consume(old(self)@, n as nat),
    {
        if n <= self.outbound.len() {
            let rest = self.outbound.split_off(n);
            self.outbound = rest;
        } else {
            self.outbound.clear();
        }
    }
}

} // verus!
