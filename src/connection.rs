//! The buffering side of a connection: bytes read from a stream gather in a
//! buffer until a whole frame is there; frames to send gather as bytes until
//! they are flushed. The stream itself is driven by the caller.
use vstd::prelude::*;
use bytes::BytesMut;
use crate::frame::{Checked, Frame, Parsed, Scan, decode, encode};

verus! {

#[verifier::external_type_specification]
#[verifier::external_body]
pub struct ExBytesMut(BytesMut);

/// The bytes that a `BytesMut` holds.
pub uninterp spec fn contents(b: BytesMut) -> Seq<u8>;

/// Relies on `BytesMut::with_capacity`: the new buffer holds no bytes.
#[verifier::external_body]
fn new_buffer(capacity: usize) -> (r: BytesMut)
    ensures
        contents(r) == Seq::<u8>::empty(),
{
    BytesMut::with_capacity(capacity)
}

/// Relies on `Deref` for `BytesMut`: the slice is the bytes it holds.
#[verifier::external_body]
fn buffer_bytes(b: &BytesMut) -> (r: &[u8])
    ensures
        r@ == contents(*b),
{
    &b[..]
}

/// Relies on `BytesMut::extend_from_slice`: the bytes are added at the end.
#[verifier::external_body]
fn buffer_append(b: &mut BytesMut, data: &[u8])
    ensures
        contents(*final(b)) == contents(*old(b)) + data@,
{
    b.extend_from_slice(data)
}

/// Relies on `Buf::advance` for `BytesMut`: the first `cnt` bytes are dropped.
/// It panics when `cnt` exceeds the length, which `requires` rules out.
#[verifier::external_body]
fn buffer_advance(b: &mut BytesMut, cnt: usize)
    requires
        cnt <= contents(*old(b)).len(),
    ensures
        contents(*final(b)) == contents(*old(b)).skip(cnt as int),
{
    bytes::Buf::advance(b, cnt)
}

/// Room set aside for incoming bytes when a connection starts.
pub const INITIAL_CAPACITY: usize = 4096;

/// Why a connection cannot go on.
#[derive(Debug, PartialEq, Eq, Structural)]
pub enum ConnectionError {
    /// The buffered bytes break the encoding.
    MalformedFrame,
    /// The stream closed with part of a frame buffered.
    ConnectionReset,
}

/// What a read attempt on the buffered bytes found.
#[derive(Debug, PartialEq, Eq)]
pub enum ReadStep {
    /// A whole frame, now removed from the buffer.
    Frame(Frame),
    /// No whole frame yet: more bytes must be read from the stream.
    NeedData,
    /// The buffered bytes can never form a frame.
    Failed(ConnectionError),
}

/// The state of one connection: bytes read but not yet consumed, and bytes
/// written but not yet flushed.
pub struct Connection {
    buffer: BytesMut,
    output: Vec<u8>,
}

impl Connection {
    /// The bytes received and not yet consumed by a frame.
    pub closed spec fn buffered(&self) -> Seq<u8> {
        contents(self.buffer)
    }

    /// The bytes of written frames not yet handed to the stream.
    pub closed spec fn pending(&self) -> Seq<u8> {
        self.output@
    }

    /// A connection with nothing received and nothing to send.
    pub fn new() -> (r: Connection)
        ensures
            r.buffered() == Seq::<u8>::empty(),
            r.pending() == Seq::<u8>::empty(),
    {
        Connection { buffer: new_buffer(INITIAL_CAPACITY), output: Vec::new() }
    }

    /// Adds bytes read from the stream to the end of the buffer.
    pub fn receive(&mut self, data: &[u8])
        ensures
            final(self).buffered() == old(self).buffered() + data@,
            final(self).pending() == old(self).pending(),
    {
        buffer_append(&mut self.buffer, data);
    }

    /// Takes the first frame out of the buffer, if a whole one is there.
    /// The frame's bytes are found first, then the frame is built and exactly
    /// those bytes are dropped; the rest stays for the next call.
    pub fn read_frame(&mut self) -> (r: ReadStep)
        ensures
            final(self).pending() == old(self).pending(),
            match decode(old(self).buffered()) {
                Scan::Complete(f, n) => r matches ReadStep::Frame(fr) && fr@ == f
                    && final(self).buffered() == old(self).buffered().skip(n),
                Scan::Incomplete => r is NeedData && final(self).buffered() == old(
                    self,
                ).buffered(),
                Scan::Malformed => r == ReadStep::Failed(ConnectionError::MalformedFrame)
                    && final(self).buffered() == old(self).buffered(),
            },
    {
        let bytes = buffer_bytes(&self.buffer);
        match Frame::check(bytes) {
            Checked::Complete(len) => {
                let parsed = Frame::parse(bytes);
                match parsed {
                    Parsed::Complete(frame, _) => {
                        buffer_advance(&mut self.buffer, len);
                        ReadStep::Frame(frame)
                    },
                    _ => ReadStep::Failed(ConnectionError::MalformedFrame),
                }
            },
            Checked::Incomplete => ReadStep::NeedData,
            Checked::Malformed => ReadStep::Failed(ConnectionError::MalformedFrame),
        }
    }

    /// What the end of the stream means: the end of the session when the
    /// buffer is empty, a reset by the peer when part of a frame is left.
    pub fn stream_closed(&self) -> (r: Result<(), ConnectionError>)
        ensures
            r is Ok <==> self.buffered().len() == 0,
            r is Err ==> r == Err::<(), ConnectionError>(ConnectionError::ConnectionReset),
    {
        if buffer_bytes(&self.buffer).len() == 0 {
            Ok(())
        } else {
            Err(ConnectionError::ConnectionReset)
        }
    }

    /// Queues the encoding of `frame` to be sent.
    pub fn write_frame(&mut self, frame: &Frame)
        ensures
            final(self).pending() == old(self).pending() + encode(frame@),
            final(self).buffered() == old(self).buffered(),
    {
        frame.encode(&mut self.output);
    }

    /// Hands over the queued bytes, to be written to the stream and flushed
    /// at once, and empties the queue.
    pub fn take_output(&mut self) -> (r: Vec<u8>)
        ensures
            r@ == old(self).pending(),
            final(self).pending() == Seq::<u8>::empty(),
            final(self).buffered() == old(self).buffered(),
    {
        let mut out: Vec<u8> = Vec::new();
        std::mem::swap(&mut out, &mut self.output);
        out
    }
}

} // verus!
