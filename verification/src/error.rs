//! What can go wrong in an exchange, and the model that contracts use for it.

use crate::packet::{PacketView, RconPacket};
use vstd::prelude::*;

verus! {

/// `std::io::Error`, carried through unread: a transport failure is handed
/// on to the caller exactly as the stream reported it.
#[verifier::external_type_specification]
#[verifier::external_body]
pub struct ExIoError(std::io::Error);

/// The failures of the codec and of the session.
#[derive(Debug)]
pub enum RconError {
    /// The stream failed, or closed before a frame was complete.
    IoError(std::io::Error),
    /// The bytes are not a frame.
    InvalidPacket { buffer: Vec<u8>, message: &'static str },
    /// A well-formed reply that answers some other request.
    InvalidResponse { resp: RconPacket },
    /// A well-formed reply of a type that the exchange does not expect.
    InvalidResponseType { resp: RconPacket, expected: i32 },
    /// A request that no frame can hold.
    InvalidRequest { req: RconPacket },
    /// The peer refused the password.
    AuthFailed,
}

/// The mathematical value of an [`RconError`]. A transport failure is one
/// value, whatever the stream said of it.
pub enum Fault {
    Transport,
    Malformed { buffer: Seq<u8>, message: Seq<char> },
    UnexpectedId { resp: PacketView },
    UnexpectedType { resp: PacketView, expected: i32 },
    BadRequest { req: PacketView },
    AuthFailed,
}

impl View for RconError {
    type V = Fault;

    open spec fn view(&self) -> Fault {
        match *self {
            RconError::IoError(_) => Fault::Transport,
            RconError::InvalidPacket { buffer, message } => Fault::Malformed {
                buffer: buffer@,
                message: message@,
            },
            RconError::InvalidResponse { resp } => Fault::UnexpectedId { resp: resp@ },
            RconError::InvalidResponseType { resp, expected } => Fault::UnexpectedType {
                resp: resp@,
                expected,
            },
            RconError::InvalidRequest { req } => Fault::BadRequest { req: req@ },
            RconError::AuthFailed => Fault::AuthFailed,
        }
    }
}

impl From<std::io::Error> for RconError {
    fn from(value: std::io::Error) -> (e: Self) {
        RconError::IoError(value)
    }
}

impl vstd::std_specs::convert::FromSpecImpl<std::io::Error> for RconError {
    open spec fn obeys_from_spec() -> bool {
        true
    }

    open spec fn from_spec(value: std::io::Error) -> Self {
        RconError::IoError(value)
    }
}

/// The diagnostic of a frame whose length prefix does not fit its length.
pub open spec fn length_message() -> Seq<char> {
    "length different from expected"@
}

/// The diagnostic of a frame that does not end in two zero bytes.
pub open spec fn terminator_message() -> Seq<char> {
    "packet didn't end with 0x0000"@
}

} // verus!
