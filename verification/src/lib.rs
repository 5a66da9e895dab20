//! Wire codec for DNS messages carried over UDP.
//!
//! The crate reads a fixed-size datagram into a structured message, writes a
//! structured message back into bytes, and resolves the name-compression
//! pointers that refer to earlier offsets of the same datagram. Every function
//! carries a contract over the byte-level model of the wire format and is
//! proved against it.

pub mod dns;
pub mod error;
