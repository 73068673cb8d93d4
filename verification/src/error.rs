//! Errors raised by the protocol layer and the journal.

use vstd::prelude::*;

verus! {

/// An I/O error coming from the operating system.
#[verifier::external_type_specification]
#[verifier::external_body]
pub struct ExIoError(std::io::Error);

/// Everything that can go wrong while decoding frames or handling I/O.
#[derive(Debug)]
pub enum Error {
    /// The buffer holds fewer bytes than the frame needs.
    ShortBuffer { need: usize, have: usize },
    /// The header does not start with the protocol magic.
    BadMagic { expected: u32, got: u32 },
    /// The header carries an unsupported protocol version.
    BadVersion(u8),
    /// The header carries a message type that is not accepted inbound.
    UnknownMsgType(u8),
    /// The header's body length does not match the message type.
    LengthMismatch { header: u32, body: usize },
    /// The symbol id has no order book.
    UnknownSymbol(u32),
    /// The order id is already resting.
    DuplicateOrderId(u64),
    /// The order id is not known.
    UnknownOrderId(u64),
    /// An operating-system I/O error.
    Io(std::io::Error),
}

} // verus!
