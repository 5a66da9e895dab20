//! Errors reported by the codec.

use vstd::prelude::*;

verus! {

/// The header field whose bits carry a code outside its enumeration.
#[derive(Clone, Copy, Debug, PartialEq, Eq, Structural)]
pub enum HeaderFault {
    /// The four OPCODE bits name no known operation.
    InvalidOpcode,
    /// The four RCODE bits name no known response code.
    InvalidRcode,
    /// The three reserved Z bits are not all zero.
    InvalidZ,
}

/// Why a datagram could not be decoded or a message could not be built.
#[derive(Clone, Copy, Debug, PartialEq, Eq, Structural)]
pub enum DnsError {
    /// A sub-byte field of the header holds a code with no variant.
    MalformedHeader(HeaderFault),
    /// A name runs past the end of the buffer, holds a label the format does
    /// not allow, or chains one compression pointer to another.
    MalformedName,
    /// The buffer ends before the records that the header counts declare.
    TruncatedBuffer,
    /// A record carries a TYPE code outside the supported set.
    InvalidType,
    /// A record carries a CLASS code outside the supported set.
    InvalidClass,
    /// The upstream resolver could not be reached.
    UpstreamUnavailable,
    /// A merge was asked of no messages at all.
    EmptyMerge,
}

} // verus!
