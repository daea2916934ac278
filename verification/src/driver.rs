//! What the encoder asks of the program around it, and what it is told in return.
//!
//! Opening a file, encoding rows and closing a file are dialogues: each begins with a first
//! action, and goes on with the action that answers the outcome of the one before, up to
//! `Finished`.
use crate::options::ZlibOptions;
use vstd::prelude::*;
use vstd::string::*;

verus! {

/// The compressor did its step.
pub const Z_OK: i32 = 0;

/// The compressor has given out the end of its stream.
pub const Z_STREAM_END: i32 = 1;

/// The compressor could not go on without more input or more room.
pub const Z_BUF_ERROR: i32 = -5;

/// How a step of the compressor is to end.
#[derive(Clone, Copy, Debug, PartialEq, Eq, Structural)]
pub enum Flush {
    /// More input will follow.
    No,
    /// The stream is to be brought to its end.
    Finish,
}

/// What the program is asked to do.
#[derive(Debug)]
pub enum Action {
    /// Create the output file.
    CreateFile,
    /// Write all of these bytes.
    Write(Vec<u8>),
    /// Set up the compressor.
    InitDeflate(ZlibOptions),
    /// Run the compressor on the encoder's pending input, with as much room as it offers.
    Deflate(Flush),
    /// Flush what has been written.
    FlushWriter,
    /// Release the compressor.
    EndDeflate,
    /// Nothing more; whether all went well.
    Finished(bool),
}

/// An action as a mathematical value.
pub enum Request {
    CreateFile,
    Write(Seq<u8>),
    InitDeflate(ZlibOptions),
    Deflate(Flush),
    FlushWriter,
    EndDeflate,
    Finished(bool),
}

impl View for Action {
    type V = Request;

    open spec fn view(&self) -> Request {
        match self {
            Action::CreateFile => Request::CreateFile,
            Action::Write(bytes) => Request::Write(bytes@),
            Action::InitDeflate(options) => Request::InitDeflate(*options),
            Action::Deflate(flush) => Request::Deflate(*flush),
            Action::FlushWriter => Request::FlushWriter,
            Action::EndDeflate => Request::EndDeflate,
            Action::Finished(ok) => Request::Finished(*ok),
        }
    }
}

/// How an action went.
#[derive(Clone, Copy, Debug)]
pub enum Event<'a> {
    /// The file has been created.
    Created,
    /// All bytes have been written.
    Written,
    /// The set-up of the compressor returned this code.
    Initialized { code: i32 },
    /// A step of the compressor returned this code, left that much of its input, and produced
    /// these bytes.
    Deflated { code: i32, avail_in: u32, produced: &'a [u8] },
    /// All has been flushed.
    Flushed,
    /// The compressor has been released.
    Ended,
    /// Creating, writing or flushing failed for this reason.
    Failed { message: &'a str },
}

/// An event as a mathematical value.
pub enum Outcome {
    Created,
    Written,
    Initialized { code: i32 },
    Deflated { code: i32, avail_in: nat, produced: Seq<u8> },
    Flushed,
    Ended,
    Failed { message: Seq<char> },
}

impl<'a> View for Event<'a> {
    type V = Outcome;

    open spec fn view(&self) -> Outcome {
        match self {
            Event::Created => Outcome::Created,
            Event::Written => Outcome::Written,
            Event::Initialized { code } => Outcome::Initialized { code: *code },
            Event::Deflated { code, avail_in, produced } => Outcome::Deflated {
                code: *code,
                avail_in: *avail_in as nat,
                produced: produced@,
            },
            Event::Flushed => Outcome::Flushed,
            Event::Ended => Outcome::Ended,
            Event::Failed { message } => Outcome::Failed { message: message@ },
        }
    }
}

/// An action is what it is seen as: bytes, options and modes are all there.
pub proof fn law_actions_are_seen_whole(action: Action)
    ensures
        action is CreateFile <==> action@ == Request::CreateFile,
        action is FlushWriter <==> action@ == Request::FlushWriter,
        action is EndDeflate <==> action@ == Request::EndDeflate,
        action matches Action::Write(bytes) ==> action@ == Request::Write(bytes@),
        action matches Action::InitDeflate(o) ==> action@ == Request::InitDeflate(o),
        action matches Action::Deflate(flush) ==> action@ == Request::Deflate(flush),
        action matches Action::Finished(ok) ==> action@ == Request::Finished(ok),
{
}

/// An event is what it is seen as.
pub proof fn law_events_are_seen_whole(event: Event<'_>)
    ensures
        event is Created <==> event@ == Outcome::Created,
        event is Written <==> event@ == Outcome::Written,
        event is Flushed <==> event@ == Outcome::Flushed,
        event is Ended <==> event@ == Outcome::Ended,
        event matches Event::Initialized { code } ==> event@ == (Outcome::Initialized { code }),
        event matches Event::Deflated { code, avail_in, produced } ==> event@
            == (Outcome::Deflated { code, avail_in: avail_in as nat, produced: produced@ }),
        event matches Event::Failed { message } ==> event@ == (Outcome::Failed {
            message: message@,
        }),
{
}

/// A message with a number behind it.
pub(crate) fn coded(text: &str, code: i32) -> (r: String)
    ensures
        r@ == text@ + crate::text::signed_decimal(code as int),
{
    let mut message = text.to_owned();
    crate::text::push_signed_decimal(&mut message, code);
    message
}

/// A message with a reason behind it.
pub(crate) fn reasoned(text: &str, reason: &str) -> (r: String)
    ensures
        r@ == text@ + reason@,
{
    let mut message = text.to_owned();
    message.append(reason);
    message
}

/// What a write through a callback comes to: as many bytes as the callback says it has taken.
/// None at all is a failure unless there was nothing to write.
pub fn callback_outcome(bytes_written: usize, buf_len: usize) -> (r: Result<usize, String>)
    ensures
        match r {
            Ok(n) => n == bytes_written && (bytes_written > 0 || buf_len == 0),
            Err(message) => {
                &&& bytes_written == 0
                &&& buf_len > 0
                &&& message@ == "FFI callback wrote 0 bytes"@
            },
        },
{
    if bytes_written == 0 && buf_len != 0 {
        Err("FFI callback wrote 0 bytes".to_owned())
    } else {
        Ok(bytes_written)
    }
}

/// What the last error is after a step: the step's own, if it had one.
pub open spec fn error_after(before: Seq<char>, error: Option<Seq<char>>) -> Seq<char> {
    match error {
        Some(message) => message,
        None => before,
    }
}

} // verus!
