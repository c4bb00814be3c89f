//! WebSocket frames as the bridge sees them: an opcode and a payload.
//!
//! Inbound, data frames yield their payload and a close frame ends the
//! connection; ping and pong payloads are forwarded like any other data.
//! Outbound, bytes go out as a text frame when they are valid UTF-8 and as a
//! binary frame otherwise, so no byte sequence is ever refused or altered.
use vstd::prelude::*;
use vstd::string::StringSliceAdditionalSpecFns;
use vstd::utf8::{decode_utf8, encode_utf8, valid_utf8};

verus! {

/// The opcode of a WebSocket frame.
#[derive(Clone, Copy, Debug, PartialEq, Eq, Structural)]
pub enum Opcode {
    Continuation,
    Text,
    Binary,
    Close,
    Ping,
    Pong,
}

/// An outbound WebSocket message.
#[derive(Clone, Debug)]
pub enum Message {
    Text(String),
    Binary(Vec<u8>),
    Pong(Vec<u8>),
    /// A close code and a reason.
    Close(u16, String),
}

/// What an inbound frame means for the connection it arrived on.
#[derive(Debug)]
pub enum Inbound {
    /// Bytes to forward to the peer.
    Data(Vec<u8>),
    /// The client asked to close.
    Close,
}

/// The two bytes of a close code, most significant first.
pub open spec fn code_bytes(code: u16) -> Seq<u8> {
    seq![(code / 256) as u8, (code % 256) as u8]
}

impl Message {
    /// The opcode of the frame that carries this message.
    pub open spec fn spec_opcode(&self) -> Opcode {
        match self {
            Message::Text(_) => Opcode::Text,
            Message::Binary(_) => Opcode::Binary,
            Message::Pong(_) => Opcode::Pong,
            Message::Close(_, _) => Opcode::Close,
        }
    }

    /// The payload bytes of the frame that carries this message.
    pub open spec fn spec_payload(&self) -> Seq<u8> {
        match self {
            Message::Text(s) => encode_utf8(s@),
            Message::Binary(b) => b@,
            Message::Pong(b) => b@,
            Message::Close(code, reason) => code_bytes(*code) + encode_utf8(reason@),
        }
    }

    /// The opcode of the frame that carries this message.
    pub fn opcode(&self) -> (r: Opcode)
        ensures
            r == self.spec_opcode(),
    {
        match self {
            Message::Text(_) => Opcode::Text,
            Message::Binary(_) => Opcode::Binary,
            Message::Pong(_) => Opcode::Pong,
            Message::Close(_, _) => Opcode::Close,
        }
    }

    /// The payload bytes of the frame that carries this message.
    pub fn payload(&self) -> (r: Vec<u8>)
        ensures
            r@ == self.spec_payload(),
    {
        match self {
            Message::Text(s) => vstd::slice::slice_to_vec(s.as_str().as_bytes()),
            Message::Binary(b) => b.clone(),
            Message::Pong(b) => b.clone(),
            Message::Close(code, reason) => {
                let mut r: Vec<u8> = Vec::new();
                r.push((*code / 256) as u8);
                r.push((*code % 256) as u8);
                let mut rest = vstd::slice::slice_to_vec(reason.as_str().as_bytes());
                r.append(&mut rest);
                assert(r@ =~= self.spec_payload());
                r
            },
        }
    }
}

/// Relies on `String::from_utf8`: it succeeds exactly on valid UTF-8 and
/// then holds the characters the bytes encode; on failure the error gives
/// the bytes back.
#[verifier::external_body]
fn text_from_utf8(data: Vec<u8>) -> (r: Result<String, Vec<u8>>)
    ensures
        r is Ok <==> valid_utf8(data@),
        r is Ok ==> r->Ok_0@ == decode_utf8(data@),
        r is Err ==> r->Err_0@ == data@,
{
    match String::from_utf8(data) {
        Ok(s) => Ok(s),
        Err(e) => Err(e.into_bytes()),
    }
}

/// Wraps outbound bytes in a message: text when they are valid UTF-8,
/// binary otherwise. The frame's payload is exactly the bytes given.
pub fn encode(data: Vec<u8>) -> (r: Message)
    ensures
        valid_utf8(data@) ==> r is Text,
        !valid_utf8(data@) ==> r is Binary,
        r.spec_payload() == data@,
{
    match text_from_utf8(data) {
        Ok(s) => {
            proof {
                vstd::utf8::decode_utf8_encode_utf8(data@);
            }
            Message::Text(s)
        },
        Err(b) => Message::Binary(b),
    }
}

/// What an inbound frame means: a close frame closes, every other frame
/// (ping and pong included) yields its payload for forwarding.
pub fn decode(op: Opcode, payload: Vec<u8>) -> (r: Inbound)
    ensures
        r is Close <==> op == Opcode::Close,
        r is Data ==> r->Data_0@ == payload@,
{
    match op {
        Opcode::Close => Inbound::Close,
        _ => Inbound::Data(payload),
    }
}

} // verus!
