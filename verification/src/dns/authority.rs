//! The authority section, of which the codec keeps only the shape.

use vstd::prelude::*;

verus! {

/// One record of the authority section. The codec neither reads nor writes
/// this section; the type marks its place in a message.
#[derive(Debug, PartialEq, Eq)]
#[allow(dead_code)]
pub struct DnsAuthority {
    name: String,
    qtype: u16,
    qclass: u16,
    ttl: u32,
    data: Vec<u8>,
}

} // verus!
