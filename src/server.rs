//! The per-connection state machine of the service: buffered input cut
//! into frames, responses queued for writing, and the readiness the
//! connection waits for. Sockets and the event loop drive it from outside:
//! they hand in the bytes read, take out the bytes to write, and report how
//! many were written.

use vstd::prelude::*;
use vstd::bytes::spec_u64_to_le_bytes;
use vstd::slice::{slice_subrange, slice_to_vec};
use crate::engine::{Reply, StorageError};
use crate::protocol::{
    Command, DecodeError, OpCode, Status, decode, decode_frame, declared_size, encode_records,
    encode_value, encode_values, header_bytes, opcode_number, opcode_value, records_bytes, response_byte,
    response_frame, values_bytes,
};

verus! {

/// The readiness a connection waits for: more requests, or room to write
/// its queued responses.
#[derive(Debug, Clone, Copy, PartialEq, Eq, Structural)]
pub enum Interest {
    Readable,
    Writable,
}

/// The status that reports a storage failure.
pub open spec fn storage_status(e: StorageError) -> Status {
    match e {
        StorageError::NotFound => Status::TsNotFound,
        StorageError::AlreadyExists => Status::TsExists,
        StorageError::EmptyAggregate => Status::TsNoData,
        StorageError::ZeroInterval => Status::TsBadRequest,
    }
}

/// The status that reports a frame that could not be read.
pub open spec fn decode_status(e: DecodeError) -> Status {
    match e {
        DecodeError::UnknownCommand => Status::TsUnknownCmd,
        _ => Status::TsMalformed,
    }
}

fn decode_status_of(e: DecodeError) -> (r: Status)
    ensures
        r == decode_status(e),
{
    match e {
        DecodeError::UnknownCommand => Status::TsUnknownCmd,
        _ => Status::TsMalformed,
    }
}

fn storage_status_of(e: StorageError) -> (r: Status)
    ensures
        r == storage_status(e),
{
    match e {
        StorageError::NotFound => Status::TsNotFound,
        StorageError::AlreadyExists => Status::TsExists,
        StorageError::EmptyAggregate => Status::TsNoData,
        StorageError::ZeroInterval => Status::TsBadRequest,
    }
}

/// The status a reply reports.
pub open spec fn reply_status(reply: Reply) -> Status {
    match reply {
        Reply::Failed(e) => storage_status(e),
        _ => Status::TsOk,
    }
}

/// The payload that carries a reply; `folded` holds the results of the
/// floating-point folds that an aggregate or windowed reply asks for (one
/// value, or one per window), as bit patterns.
pub open spec fn reply_payload(reply: Reply, folded: Seq<u64>) -> Seq<u8> {
    match reply {
        Reply::Records(v) => spec_u64_to_le_bytes(v@.len() as u64) + records_bytes(v@),
        Reply::Aggregate { .. } => spec_u64_to_le_bytes(folded[0]),
        Reply::Windows(_) => spec_u64_to_le_bytes(folded.len() as u64) + values_bytes(folded),
        _ => Seq::<u8>::empty(),
    }
}

/// The response frame that answers a command with opcode `op`.
pub fn answer_frame(op: OpCode, reply: &Reply, folded: &Vec<u64>) -> (r: Vec<u8>)
    requires
        reply is Aggregate ==> folded@.len() == 1,
        reply matches Reply::Windows(g) ==> folded@.len() == g@.len(),
    ensures
        r@ == header_bytes(
            response_byte(opcode_number(op), reply_status(*reply)),
            reply_payload(*reply, folded@).len() as u64,
        ) + reply_payload(*reply, folded@),
{
    let nibble = opcode_value(op);
    match reply {
        Reply::Done => response_frame(nibble, Status::TsOk, &[]),
        Reply::Failed(e) => response_frame(nibble, storage_status_of(*e), &[]),
        Reply::Records(v) => {
            let p = encode_records(v);
            response_frame(nibble, Status::TsOk, p.as_slice())
        },
        Reply::Aggregate { .. } => {
            let p = encode_value(folded[0]);
            response_frame(nibble, Status::TsOk, p.as_slice())
        },
        Reply::Windows(_) => {
            let p = encode_values(folded);
            response_frame(nibble, Status::TsOk, p.as_slice())
        },
    }
}

/// What one read or write attempt on a non-blocking socket came to.
#[derive(Debug, Clone, Copy, PartialEq, Eq, Structural)]
pub enum IoOutcome {
    /// That many bytes went through; zero on a read means the peer closed.
    Transferred(usize),
    /// Nothing can go through now; the next readiness event will tell.
    WouldBlock,
    /// The call was interrupted before anything went through.
    Interrupted,
    /// Any other error.
    Failed,
}

/// What the event loop does next with a connection.
#[derive(Debug, Clone, Copy, PartialEq, Eq, Structural)]
pub enum Next {
    /// Try the same operation again at once.
    Again,
    /// Stop until the socket is ready for the connection's interest.
    Wait,
    /// Drop the connection and whatever it still buffers.
    Close,
}

/// The bytes of `v` from position `n` on.
fn tail(v: &Vec<u8>, n: usize) -> (r: Vec<u8>)
    requires
        n <= v@.len(),
    ensures
        r@ == v@.subrange(n as int, v@.len() as int),
{
    slice_to_vec(slice_subrange(v.as_slice(), n, v.len()))
}

/// One client connection: the bytes received and not yet read as frames,
/// the responses not yet written, and the readiness awaited.
pub struct Connection {
    input: Vec<u8>,
    output: Vec<u8>,
    interest: Interest,
}

impl Connection {
    /// The bytes received that are not yet read as frames.
    pub closed spec fn spec_input(&self) -> Seq<u8> {
        self.input@
    }

    /// The response bytes that are not yet written.
    pub closed spec fn spec_output(&self) -> Seq<u8> {
        self.output@
    }

    pub closed spec fn spec_interest(&self) -> Interest {
        self.interest
    }

    /// A connection just accepted: nothing buffered, waiting for requests.
    pub fn new() -> (r: Connection)
        ensures
            r.spec_input() == Seq::<u8>::empty(),
            r.spec_output() == Seq::<u8>::empty(),
            r.spec_interest() == Interest::Readable,
    {
        Connection { input: Vec::new(), output: Vec::new(), interest: Interest::Readable }
    }

    pub fn interest(&self) -> (r: Interest)
        ensures
            r == self.spec_interest(),
    {
        self.interest
    }

    /// The response bytes waiting to be written.
    pub fn pending(&self) -> (r: &[u8])
        ensures
            r@ == self.spec_output(),
    {
        self.output.as_slice()
    }

    /// Takes in bytes read from the socket.
    pub fn receive(&mut self, bytes: &[u8])
        ensures
            final(self).spec_input() == old(self).spec_input() + bytes@,
            final(self).spec_output() == old(self).spec_output(),
            final(self).spec_interest() == old(self).spec_interest(),
    {
        let mut more = slice_to_vec(bytes);
        self.input.append(&mut more);
    }

    /// Queues a response and waits for room to write it.
    pub fn respond(&mut self, frame: Vec<u8>)
        ensures
            final(self).spec_input() == old(self).spec_input(),
            final(self).spec_output() == old(self).spec_output() + frame@,
            final(self).spec_interest() == Interest::Writable,
    {
        let mut frame = frame;
        self.output.append(&mut frame);
        self.interest = Interest::Writable;
    }

    /// Takes the first complete frame off the input. A command comes back
    /// as `Some(Ok(..))`. A frame that cannot be read is dropped, answered
    /// with an error status under its own opcode nibble, and reported as
    /// `Some(Err(..))`. With no complete frame yet, nothing changes and the
    /// result is `None`.
    pub fn next_request(&mut self) -> (r: Option<Result<Command, DecodeError>>)
        ensures
            match decode_frame(old(self).spec_input()) {
                Ok((c, n)) => r matches Some(Ok(x)) && x@ == c && final(self).spec_input()
                    == old(self).spec_input().subrange(n, old(self).spec_input().len() as int)
                    && final(self).spec_output() == old(self).spec_output()
                    && final(self).spec_interest() == old(self).spec_interest(),
                Err(DecodeError::Incomplete) => r is None && final(self).spec_input() == old(
                    self,
                ).spec_input() && final(self).spec_output() == old(self).spec_output()
                    && final(self).spec_interest() == old(self).spec_interest(),
                Err(e) => r == Some(Err::<Command, DecodeError>(e)) && final(self).spec_input()
                    == old(self).spec_input().subrange(
                    9 + declared_size(old(self).spec_input()),
                    old(self).spec_input().len() as int,
                ) && final(self).spec_output() == old(self).spec_output() + header_bytes(
                    response_byte(old(self).spec_input()[0] >> 4, decode_status(e)),
                    0,
                ) && final(self).spec_interest() == Interest::Writable,
            },
    {
        match decode(self.input.as_slice()) {
            Ok((c, n)) => {
                self.input = tail(&self.input, n);
                Some(Ok(c))
            },
            Err(DecodeError::Incomplete) => None,
            Err(e) => {
                let first = self.input[0];
                let size = declared_frame_len(&self.input);
                self.input = tail(&self.input, size);
                let status = match e {
                    DecodeError::UnknownCommand => Status::TsUnknownCmd,
                    _ => Status::TsMalformed,
                };
                assert(first >> 4 < 16) by (bit_vector);
                let frame = response_frame(first >> 4, status, &[]);
                self.respond(frame);
                Some(Err(e))
            },
        }
    }

    /// Takes in the outcome of a read into `data`: the bytes read are
    /// buffered and reading goes on; a read of zero bytes (the peer closed)
    /// or an error closes the connection; a read that would block waits.
    pub fn after_read(&mut self, outcome: IoOutcome, data: &[u8]) -> (r: Next)
        requires
            outcome matches IoOutcome::Transferred(n) ==> n <= data@.len(),
        ensures
            final(self).spec_output() == old(self).spec_output(),
            final(self).spec_interest() == old(self).spec_interest(),
            match outcome {
                IoOutcome::Transferred(n) => if n == 0 {
                    r == Next::Close && final(self).spec_input() == old(self).spec_input()
                } else {
                    r == Next::Again && final(self).spec_input() == old(self).spec_input()
                        + data@.subrange(0, n as int)
                },
                IoOutcome::WouldBlock => r == Next::Wait && final(self).spec_input() == old(
                    self,
                ).spec_input(),
                IoOutcome::Interrupted => r == Next::Again && final(self).spec_input() == old(
                    self,
                ).spec_input(),
                IoOutcome::Failed => r == Next::Close && final(self).spec_input() == old(
                    self,
                ).spec_input(),
            },
    {
        match outcome {
            IoOutcome::Transferred(0) => Next::Close,
            IoOutcome::Transferred(n) => {
                self.receive(slice_subrange(data, 0, n));
                Next::Again
            },
            IoOutcome::WouldBlock => Next::Wait,
            IoOutcome::Interrupted => Next::Again,
            IoOutcome::Failed => Next::Close,
        }
    }

    /// Takes in the outcome of writing the pending bytes: those written
    /// leave the queue, and writing goes on while some remain; a write
    /// that would block waits; a write of nothing while bytes were pending,
    /// or an error, closes the connection.
    pub fn after_write(&mut self, outcome: IoOutcome) -> (r: Next)
        requires
            outcome matches IoOutcome::Transferred(n) ==> n <= old(self).spec_output().len(),
        ensures
            final(self).spec_input() == old(self).spec_input(),
            match outcome {
                IoOutcome::Transferred(n) => if n == 0 && old(self).spec_output().len() > 0 {
                    r == Next::Close && final(self).spec_output() == old(self).spec_output()
                        && final(self).spec_interest() == old(self).spec_interest()
                } else {
                    final(self).spec_output() == old(self).spec_output().subrange(
                        n as int,
                        old(self).spec_output().len() as int,
                    ) && (final(self).spec_output().len() == 0 ==> r == Next::Wait
                        && final(self).spec_interest() == Interest::Readable) && (
                    final(self).spec_output().len() > 0 ==> r == Next::Again
                        && final(self).spec_interest() == Interest::Writable)
                },
                IoOutcome::WouldBlock => r == Next::Wait && final(self).spec_output() == old(
                    self,
                ).spec_output() && final(self).spec_interest() == old(self).spec_interest(),
                IoOutcome::Interrupted => r == Next::Again && final(self).spec_output() == old(
                    self,
                ).spec_output() && final(self).spec_interest() == old(self).spec_interest(),
                IoOutcome::Failed => r == Next::Close && final(self).spec_output() == old(
                    self,
                ).spec_output() && final(self).spec_interest() == old(self).spec_interest(),
            },
    {
        match outcome {
            IoOutcome::Transferred(n) => {
                if n == 0 && self.output.len() > 0 {
                    return Next::Close;
                }
                self.written(n);
                if self.output.len() == 0 {
                    Next::Wait
                } else {
                    Next::Again
                }
            },
            IoOutcome::WouldBlock => Next::Wait,
            IoOutcome::Interrupted => Next::Again,
            IoOutcome::Failed => Next::Close,
        }
    }

    /// Records that the first `n` queued bytes were written; once all are,
    /// the connection waits for requests again.
    pub fn written(&mut self, n: usize)
        requires
            n <= old(self).spec_output().len(),
        ensures
            final(self).spec_input() == old(self).spec_input(),
            final(self).spec_output() == old(self).spec_output().subrange(
                n as int,
                old(self).spec_output().len() as int,
            ),
            final(self).spec_interest() == if n == old(self).spec_output().len() {
                Interest::Readable
            } else {
                Interest::Writable
            },
    {
        self.output = tail(&self.output, n);
        if self.output.len() == 0 {
            self.interest = Interest::Readable;
        } else {
            self.interest = Interest::Writable;
        }
    }
}

/// The length of the frame at the front of `b`, whose header and payload
/// are known to be there.
fn declared_frame_len(b: &Vec<u8>) -> (r: usize)
    requires
        b@.len() >= 9,
        b@.len() - 9 >= declared_size(b@),
    ensures
        r == 9 + declared_size(b@),
{
    let len = b.len();
    let bytes = b.as_slice();
    let size = vstd::bytes::u64_from_le_bytes(slice_subrange(bytes, 1, 9));
    assert(size <= len - 9);
    9 + size as usize
}

} // verus!
