//! The per-pair decisions of the task-based variant.
//!
//! One control task per pair waits on whichever comes first: a frame from
//! the client, bytes from the upstream, or a failure on either. It hands
//! each such event to `Session::step` and performs the command that comes
//! back. The first event that ends the pair ends it for good: the task then
//! returns, which cancels the pair's remaining tasks and no other pair's.
use vstd::prelude::*;
use vstd::utf8::valid_utf8;

use crate::codec::{encode, Message, Opcode};

verus! {

/// The kind of a stream failure.
#[derive(Clone, Copy, Debug, PartialEq, Eq, Structural)]
pub enum ErrorKind {
    /// The peer shut its side down.
    BrokenPipe,
    Other,
}

/// A failure on one leg of a pair, with a message for the operator.
#[derive(Clone, Debug)]
pub struct StreamError {
    pub kind: ErrorKind,
    pub message: String,
}

/// A stream error of kind `Other` with this message.
pub fn io_error(err: &str) -> (r: StreamError)
    ensures
        r.kind == ErrorKind::Other,
        r.message@ == err@,
{
    StreamError { kind: ErrorKind::Other, message: err.to_owned() }
}

/// Something that happened on one of the pair's legs.
pub enum Event {
    /// A whole frame arrived from the client.
    ClientFrame(Opcode, Vec<u8>),
    /// Reading from or writing to the client failed.
    ClientFailed,
    /// A read on the upstream returned these bytes; none means the
    /// upstream shut down its write side.
    UpstreamRead(Vec<u8>),
    /// Reading from or writing to the upstream failed.
    UpstreamFailed,
}

/// Why a pair ended.
#[derive(Clone, Copy, Debug, PartialEq, Eq, Structural)]
pub enum Ending {
    /// The client sent a close frame.
    ClientClosed,
    ClientFailed,
    /// The upstream shut down its write side.
    UpstreamEnded,
    UpstreamFailed,
}

/// What the control task does next.
pub enum Command {
    /// Write these bytes, in full, to the upstream.
    ToUpstream(Vec<u8>),
    /// Send this message to the client.
    ToClient(Message),
    /// Nothing to do; wait for the next event.
    Idle,
    /// Tear the pair down, both legs.
    Finish(Ending),
}

/// The state of one pair in the task-based variant.
pub struct Session {
    pub open: bool,
}

impl Ending {
    /// The error to report for this ending; a close asked for by the client
    /// is no error, and an upstream that shut down is a broken pipe.
    pub fn error(&self) -> (r: Option<StreamError>)
        ensures
            r is None <==> *self == Ending::ClientClosed,
            *self == Ending::UpstreamEnded ==> r->Some_0.kind == ErrorKind::BrokenPipe,
            *self == Ending::ClientFailed ==> r->Some_0.kind == ErrorKind::Other,
            *self == Ending::UpstreamFailed ==> r->Some_0.kind == ErrorKind::Other,
            *self == Ending::ClientFailed ==> r->Some_0.message@ == "WebSocket failed"@,
            *self == Ending::UpstreamEnded ==> r->Some_0.message@ == "End of file"@,
            *self == Ending::UpstreamFailed ==> r->Some_0.message@ == "upstream failed"@,
    {
        match self {
            Ending::ClientClosed => None,
            Ending::ClientFailed => Some(io_error("WebSocket failed")),
            Ending::UpstreamEnded => Some(
                StreamError { kind: ErrorKind::BrokenPipe, message: "End of file".to_owned() },
            ),
            Ending::UpstreamFailed => Some(io_error("upstream failed")),
        }
    }
}

/// Whether the pair is still open after this event.
pub open spec fn next_open(open: bool, ev: Event) -> bool {
    open && match ev {
        Event::ClientFrame(op, _) => op != Opcode::Close,
        Event::UpstreamRead(b) => b@.len() > 0,
        _ => false,
    }
}

/// The bytes this event has written to the upstream.
pub open spec fn to_upstream(open: bool, ev: Event) -> Seq<u8> {
    match ev {
        Event::ClientFrame(op, p) => if open && op != Opcode::Close {
            p@
        } else {
            Seq::empty()
        },
        _ => Seq::empty(),
    }
}

/// The payload this event has sent to the client.
pub open spec fn to_client(open: bool, ev: Event) -> Seq<u8> {
    match ev {
        Event::UpstreamRead(b) => if open {
            b@
        } else {
            Seq::empty()
        },
        _ => Seq::empty(),
    }
}

impl Session {
    /// A session whose pair is open.
    pub fn new() -> (r: Session)
        ensures
            r.open,
    {
        Session { open: true }
    }

    /// Decides what one event means for the pair. Client data goes to the
    /// upstream as it came; upstream bytes go to the client as one frame;
    /// a close frame, an end of stream or a failure on either leg finishes
    /// the pair, and a finished pair does nothing more.
    pub fn step(&mut self, ev: Event) -> (r: Command)
        ensures
            final(self).open == next_open(old(self).open, ev),
            r is ToUpstream ==> r->ToUpstream_0@ == to_upstream(old(self).open, ev),
            !(r is ToUpstream) ==> to_upstream(old(self).open, ev).len() == 0,
            r is ToClient ==> r->ToClient_0.spec_payload() == to_client(old(self).open, ev),
            !(r is ToClient) ==> to_client(old(self).open, ev).len() == 0,
            !old(self).open ==> r is Idle && !final(self).open,
            old(self).open ==> match ev {
                Event::ClientFrame(op, p) => if op == Opcode::Close {
                    r == Command::Finish(Ending::ClientClosed) && !final(self).open
                } else if p@.len() == 0 {
                    r is Idle && final(self).open
                } else {
                    r is ToUpstream && r->ToUpstream_0@ == p@ && final(self).open
                },
                Event::ClientFailed => r == Command::Finish(Ending::ClientFailed)
                    && !final(self).open,
                Event::UpstreamRead(b) => if b@.len() == 0 {
                    r == Command::Finish(Ending::UpstreamEnded) && !final(self).open
                } else {
                    &&& r is ToClient
                    &&& r->ToClient_0.spec_payload() == b@
                    &&& (r->ToClient_0 is Text <==> valid_utf8(b@))
                    &&& (r->ToClient_0 is Binary <==> !valid_utf8(b@))
                    &&& final(self).open
                },
                Event::UpstreamFailed => r == Command::Finish(Ending::UpstreamFailed)
                    && !final(self).open,
            },
    {
        if !self.open {
            return Command::Idle;
        }
        match ev {
            Event::ClientFrame(op, p) => {
                if matches!(op, Opcode::Close) {
                    self.open = false;
                    Command::Finish(Ending::ClientClosed)
                } else if p.len() == 0 {
                    Command::Idle
                } else {
                    Command::ToUpstream(p)
                }
            },
            Event::ClientFailed => {
                self.open = false;
                Command::Finish(Ending::ClientFailed)
            },
            Event::UpstreamRead(b) => {
                if b.len() == 0 {
                    self.open = false;
                    Command::Finish(Ending::UpstreamEnded)
                } else {
                    Command::ToClient(encode(b))
                }
            },
            Event::UpstreamFailed => {
                self.open = false;
                Command::Finish(Ending::UpstreamFailed)
            },
        }
    }
}

} // verus!
