//! One-frame-at-a-time send and receive over byte buffers.
//!
//! A connection pairs one incoming byte buffer with one outgoing one and
//! is owned exclusively by the worker that created it. It is transport
//! agnostic: whatever reads the socket appends the bytes it received with
//! `feed` and writes out what `take_outgoing` hands back. `receive_frame`
//! consumes exactly one frame per call and never peeks into the next; an
//! incomplete frame leaves the buffer untouched, so the caller can feed
//! more bytes and retry.

use vstd::prelude::*;

use crate::frame::DecodeOutcome;
use crate::frame::DecodingError;
use crate::frame::Frame;
use crate::frame::copy_range;
use crate::frame::spec_decode;
use crate::frame::spec_encode;

verus! {

/// A failure while sending or receiving one frame.
#[derive(Debug)]
pub enum ConnectionError {
    /// A transport fault of the underlying streams.
    Io,
    /// The incoming bytes do not hold a well-formed frame.
    DecodingError(DecodingError),
}

/// A connection: the bytes received from the peer and not yet consumed,
/// and the bytes to be written to the peer.
#[derive(Debug)]
pub struct Connection {
    incoming: Vec<u8>,
    outgoing: Vec<u8>,
}

impl Connection {
    /// The bytes received and not yet consumed as frames.
    pub closed spec fn spec_incoming(&self) -> Seq<u8> {
        self.incoming@
    }

    /// The bytes encoded and not yet handed to the transport.
    pub closed spec fn spec_outgoing(&self) -> Seq<u8> {
        self.outgoing@
    }

    /// Creates a connection with empty buffers.
    pub fn new() -> (c: Connection)
        ensures
            c.spec_incoming() == Seq::<u8>::empty(),
            c.spec_outgoing() == Seq::<u8>::empty(),
    {
        Connection { incoming: Vec::new(), outgoing: Vec::new() }
    }

    /// Hands the connection bytes read from the transport.
    pub fn feed(&mut self, data: &Vec<u8>)
        ensures
            final(self).spec_incoming() == old(self).spec_incoming() + data@,
            final(self).spec_outgoing() == old(self).spec_outgoing(),
    {
        self.incoming.extend_from_slice(data.as_slice());
        assert(self.incoming@ =~= old(self).incoming@ + data@);
    }

    /// Takes the bytes waiting to be written to the transport, leaving the
    /// outgoing buffer empty.
    pub fn take_outgoing(&mut self) -> (out: Vec<u8>)
        ensures
            out@ == old(self).spec_outgoing(),
            final(self).spec_outgoing() == Seq::<u8>::empty(),
            final(self).spec_incoming() == old(self).spec_incoming(),
    {
        let mut out: Vec<u8> = Vec::new();
        core::mem::swap(&mut out, &mut self.outgoing);
        out
    }

    /// Encodes one frame and appends its bytes to the outgoing buffer.
    pub fn send_frame(&mut self, frame: &Frame)
        ensures
            final(self).spec_outgoing() == old(self).spec_outgoing() + spec_encode(frame@),
            final(self).spec_incoming() == old(self).spec_incoming(),
    {
        let bytes = frame.encode();
        self.outgoing.extend_from_slice(bytes.as_slice());
        assert(self.outgoing@ =~= old(self).outgoing@ + spec_encode(frame@));
    }

    /// Consumes exactly one frame from the incoming buffer.
    ///
    /// `Incomplete` leaves the buffer untouched: the bytes received so far
    /// are only a prefix of a frame, and the call can be retried once more
    /// bytes arrive. `InvalidFormat` reports a malformed frame.
    pub fn receive_frame(&mut self) -> (r: Result<Frame, ConnectionError>)
        ensures
            final(self).spec_outgoing() == old(self).spec_outgoing(),
            match r {
                Ok(f) => {
                    &&& spec_decode(old(self).spec_incoming()) matches DecodeOutcome::Done(
                        fm,
                        used,
                    ) && fm == f@ && final(self).spec_incoming() == old(
                        self,
                    ).spec_incoming().skip(used)
                },
                Err(e) => {
                    &&& final(self).spec_incoming() == old(self).spec_incoming()
                    &&& match e {
                        ConnectionError::Io => false,
                        ConnectionError::DecodingError(d) => match d {
                            DecodingError::Incomplete => spec_decode(old(self).spec_incoming())
                                is MoreNeeded,
                            DecodingError::InvalidFormat => spec_decode(
                                old(self).spec_incoming(),
                            ) is Invalid,
                            DecodingError::EOF => false,
                            DecodingError::Other => false,
                        },
                    }
                },
            },
    {
        proof {
            assert(self.incoming@.skip(0) =~= self.incoming@);
        }
        match Frame::decode(&self.incoming, 0) {
            Ok(pair) => {
                let (f, end) = pair;
                let rest = copy_range(&self.incoming, end, self.incoming.len());
                proof {
                    assert(rest@ =~= old(self).incoming@.skip(end as int));
                }
                self.incoming = rest;
                Ok(f)
            },
            Err(e) => Err(ConnectionError::DecodingError(e)),
        }
    }
}

} // verus!
