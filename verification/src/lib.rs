//! A client for a length-prefixed remote-console protocol, written without
//! any I/O of its own: the codec turns packets into frames and back, the
//! frame reader reassembles a frame from partial reads, and the session
//! decides what each reply means. Every function is verified against a
//! mathematical model of the wire format.

pub mod client;
pub mod error;
pub mod packet;
pub mod reader;
pub mod wire;

pub use crate::error::RconError;
pub use crate::packet::{RconPacket, RconPacketType};
