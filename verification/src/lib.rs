//! Core of a persistent message-streaming broker: a durable, checksum-protected
//! log of administrative commands, the binary codecs shared by the wire and the
//! on-disk log, and the decision logic of the connection front end.

pub mod bytes;
pub mod command;
pub mod clock;
pub mod encryptor;
pub mod messages;
pub mod server;
pub mod state;

use vstd::prelude::*;

verus! {

/// Errors surfaced by the codecs.
#[derive(Clone, Copy, PartialEq, Eq, Structural, Debug)]
pub enum Error {
    /// The bytes do not hold a well-formed value of the expected shape.
    InvalidBytes,
}

} // verus!
