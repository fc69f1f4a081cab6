use crate::buf::{advance_buffer, buffer_of, buffer_slice, extend_buffer, new_buffer};
use crate::error::{Error, Result};
use bytes::BytesMut;
use crate::resp::{lemma_span, parse_spec, Parsed, RESP};
use vstd::prelude::*;

verus! {

/// The receive side of a connection: bytes read from the peer that do not
/// yet form a whole frame. The caller performs the reads and hands the bytes
/// over; this type decides what they mean.
pub struct Connection {
    buffer: BytesMut,
}

impl View for Connection {
    type V = Seq<u8>;

    closed spec fn view(&self) -> Seq<u8> {
        buffer_of(self.buffer)
    }
}

impl Connection {
    /// A connection with nothing buffered.
    pub fn new() -> (c: Connection)
        ensures
            c@ == Seq::<u8>::empty(),
    {
        Connection { buffer: new_buffer(4096) }
    }

    /// Whether no byte is buffered.
    pub fn is_empty(&self) -> (r: bool)
        ensures
            r == (self@.len() == 0),
    {
        buffer_slice(&self.buffer).len() == 0
    }

    /// Takes one frame off the front of the buffer if a whole one is there.
    /// `Ok(None)` asks for more bytes; a malformed buffer is an error and is
    /// left as it was.
    pub fn parse_frame(&mut self) -> (r: Result<Option<RESP>>)
        ensures
            match parse_spec(old(self)@) {
                Parsed::Complete(f, n) => r matches Ok(Some(x)) && x@ == f && n <= old(self)@.len()
                    && final(self)@ == old(self)@.subrange(n as int, old(self)@.len() as int),
                Parsed::Incomplete => r matches Ok(None) && final(self)@ == old(self)@,
                Parsed::Malformed => r matches Err(Error::InvalidRequestData) && final(self)@
                    == old(self)@,
            },
    {
        proof {
            lemma_span(self@);
        }
        match RESP::parse(buffer_slice(&self.buffer)) {
            Ok((resp, offset)) => {
                advance_buffer(&mut self.buffer, offset);
                Ok(Some(resp))
            },
            Err(Error::IncompleteRequestData) => Ok(None),
            Err(e) => Err(e),
        }
    }

    /// Takes the bytes of one read. An empty read means the peer closed the
    /// stream: `Ok(false)` when nothing was pending, an error when a frame was
    /// cut short. Otherwise the bytes are appended and `Ok(true)` asks the
    /// caller to parse again.
    pub fn receive(&mut self, data: &[u8]) -> (r: Result<bool>)
        ensures
            data@.len() > 0 ==> (r matches Ok(true)) && final(self)@ == old(self)@ + data@,
            data@.len() == 0 && old(self)@.len() == 0 ==> (r matches Ok(false)) && final(self)@
                == old(self)@,
            data@.len() == 0 && old(self)@.len() > 0 ==> (r matches Err(Error::ConnectionClosed))
                && final(self)@ == old(self)@,
    {
        if data.len() == 0 {
            if buffer_slice(&self.buffer).len() == 0 {
                return Ok(false);
            } else {
                return Err(Error::ConnectionClosed);
            }
        }
        extend_buffer(&mut self.buffer, data);
        Ok(true)
    }
}

} // verus!
