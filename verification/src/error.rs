use vstd::prelude::*;

verus! {

/// Reasons a datagram or command payload is rejected.
#[derive(Debug, Clone, Copy, PartialEq, Eq, Structural)]
pub enum ProtocolError {
    /// Fewer bytes than a header needs; holds the buffer length.
    TooShort(usize),
    /// The declared packet length is below the header size or beyond the buffer.
    LengthMismatch { declared: usize, actual: usize },
    /// Invalid command framing at the given payload offset.
    BadCommand(usize),
    /// The command name is missing or is not valid text.
    BadCommandName,
}

} // verus!
