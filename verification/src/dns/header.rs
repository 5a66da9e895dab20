//! The fixed twelve-byte header: its bit-packed flags and its four counts.

use crate::dns::bits::{bits_value, get_bits_value};
use crate::dns::buffer::{be16, buf_bytes, new_buf, put_u16, put_u8, read_u16, word16};
use crate::error::{DnsError, HeaderFault};
use bytes::BytesMut;
use vstd::prelude::*;

verus! {

/// QR: whether the message is a question or a reply.
#[derive(Copy, Clone, Debug, PartialEq, Eq, Structural)]
pub enum DnsHeaderQR {
    Question,
    Reply,
}

impl DnsHeaderQR {
    /// The number that stands for the variant on the wire.
    pub open spec fn spec_code(self) -> u8 {
        match self {
            DnsHeaderQR::Question => 0,
            DnsHeaderQR::Reply => 1,
        }
    }

    /// The positions of the field, most significant bit first:
    /// bit 7 of the first flags byte.
    pub open spec fn positions() -> Seq<u8> {
        seq![7u8]
    }

    /// The variant that a bit stands for.
    pub open spec fn of_code(code: int) -> Self {
        if code == 0 {
            DnsHeaderQR::Question
        } else {
            DnsHeaderQR::Reply
        }
    }

    /// What reading the field from a flags byte gives.
    pub open spec fn of_flags(data: u8) -> Self {
        Self::of_code(bits_value(data, Self::positions()))
    }

    /// The number that stands for the variant on the wire.
    #[verifier::when_used_as_spec(spec_code)]
    pub fn code(self) -> (c: u8)
        ensures
            c == self.spec_code(),
    {
        match self {
            DnsHeaderQR::Question => 0,
            DnsHeaderQR::Reply => 1,
        }
    }

    /// Reads the field from bit 7 of the first flags byte.
    pub fn from(data: u8) -> (r: Self)
        ensures
            r == Self::of_flags(data),
    {
        let positions: [u8; 1] = [7];
        assert(positions@ == Self::positions());
        match get_bits_value(data, &positions) {
            0 => DnsHeaderQR::Question,
            _ => DnsHeaderQR::Reply,
        }
    }
}

/// OPCODE: the kind of query, numbered as in RFC 1035 and its updates.
#[derive(Copy, Clone, Debug, PartialEq, Eq, Structural)]
pub enum DnsHeaderOpcode {
    Query,
    IQuery,
    Status,
    Notify,
    Update,
}

impl DnsHeaderOpcode {
    /// The number that stands for the variant on the wire.
    pub open spec fn spec_code(self) -> u8 {
        match self {
            DnsHeaderOpcode::Query => 0,
            DnsHeaderOpcode::IQuery => 1,
            DnsHeaderOpcode::Status => 2,
            DnsHeaderOpcode::Notify => 4,
            DnsHeaderOpcode::Update => 5,
        }
    }

    /// The positions of the field, most significant bit first:
    /// bits 6 to 3 of the first flags byte.
    pub open spec fn positions() -> Seq<u8> {
        seq![6u8, 5, 4, 3]
    }

    /// The variant that a number stands for, if it stands for one.
    pub open spec fn of_code(code: int) -> Option<Self> {
        if code == 0 {
            Some(DnsHeaderOpcode::Query)
        } else if code == 1 {
            Some(DnsHeaderOpcode::IQuery)
        } else if code == 2 {
            Some(DnsHeaderOpcode::Status)
        } else if code == 4 {
            Some(DnsHeaderOpcode::Notify)
        } else if code == 5 {
            Some(DnsHeaderOpcode::Update)
        } else {
            None
        }
    }

    /// What reading the field from a flags byte gives: the variant, or the
    /// fault that names this field.
    pub open spec fn of_flags(data: u8) -> Result<Self, DnsError> {
        match Self::of_code(bits_value(data, Self::positions())) {
            Some(v) => Ok(v),
            None => Err(DnsError::MalformedHeader(HeaderFault::InvalidOpcode)),
        }
    }

    /// The number that stands for the variant on the wire.
    #[verifier::when_used_as_spec(spec_code)]
    pub fn code(self) -> (c: u8)
        ensures
            c == self.spec_code(),
    {
        match self {
            DnsHeaderOpcode::Query => 0,
            DnsHeaderOpcode::IQuery => 1,
            DnsHeaderOpcode::Status => 2,
            DnsHeaderOpcode::Notify => 4,
            DnsHeaderOpcode::Update => 5,
        }
    }

    /// Reads the field from bits 6 to 3 of the first flags byte, and fails on a number that no
    /// variant stands for.
    pub fn from(data: u8) -> (r: Result<Self, DnsError>)
        ensures
            r == Self::of_flags(data),
    {
        let positions: [u8; 4] = [6, 5, 4, 3];
        assert(positions@ == Self::positions());
        match get_bits_value(data, &positions) {
            0 => Ok(DnsHeaderOpcode::Query),
            1 => Ok(DnsHeaderOpcode::IQuery),
            2 => Ok(DnsHeaderOpcode::Status),
            4 => Ok(DnsHeaderOpcode::Notify),
            5 => Ok(DnsHeaderOpcode::Update),
            _ => Err(DnsError::MalformedHeader(HeaderFault::InvalidOpcode)),
        }
    }
}

/// AA: whether the responding server is an authority for the name.
#[derive(Copy, Clone, Debug, PartialEq, Eq, Structural)]
pub enum DnsHeaderAA {
    NonAuthoritative,
    Authoritative,
}

impl DnsHeaderAA {
    /// The number that stands for the variant on the wire.
    pub open spec fn spec_code(self) -> u8 {
        match self {
            DnsHeaderAA::NonAuthoritative => 0,
            DnsHeaderAA::Authoritative => 1,
        }
    }

    /// The positions of the field, most significant bit first:
    /// bit 2 of the first flags byte.
    pub open spec fn positions() -> Seq<u8> {
        seq![2u8]
    }

    /// The variant that a bit stands for.
    pub open spec fn of_code(code: int) -> Self {
        if code == 0 {
            DnsHeaderAA::NonAuthoritative
        } else {
            DnsHeaderAA::Authoritative
        }
    }

    /// What reading the field from a flags byte gives.
    pub open spec fn of_flags(data: u8) -> Self {
        Self::of_code(bits_value(data, Self::positions()))
    }

    /// The number that stands for the variant on the wire.
    #[verifier::when_used_as_spec(spec_code)]
    pub fn code(self) -> (c: u8)
        ensures
            c == self.spec_code(),
    {
        match self {
            DnsHeaderAA::NonAuthoritative => 0,
            DnsHeaderAA::Authoritative => 1,
        }
    }

    /// Reads the field from bit 2 of the first flags byte.
    pub fn from(data: u8) -> (r: Self)
        ensures
            r == Self::of_flags(data),
    {
        let positions: [u8; 1] = [2];
        assert(positions@ == Self::positions());
        match get_bits_value(data, &positions) {
            0 => DnsHeaderAA::NonAuthoritative,
            _ => DnsHeaderAA::Authoritative,
        }
    }
}

/// TC: whether the message was cut short by the transport.
#[derive(Copy, Clone, Debug, PartialEq, Eq, Structural)]
pub enum DnsHeaderTC {
    NotTruncated,
    Truncated,
}

impl DnsHeaderTC {
    /// The number that stands for the variant on the wire.
    pub open spec fn spec_code(self) -> u8 {
        match self {
            DnsHeaderTC::NotTruncated => 0,
            DnsHeaderTC::Truncated => 1,
        }
    }

    /// The positions of the field, most significant bit first:
    /// bit 1 of the first flags byte.
    pub open spec fn positions() -> Seq<u8> {
        seq![1u8]
    }

    /// The variant that a bit stands for.
    pub open spec fn of_code(code: int) -> Self {
        if code == 0 {
            DnsHeaderTC::NotTruncated
        } else {
            DnsHeaderTC::Truncated
        }
    }

    /// What reading the field from a flags byte gives.
    pub open spec fn of_flags(data: u8) -> Self {
        Self::of_code(bits_value(data, Self::positions()))
    }

    /// The number that stands for the variant on the wire.
    #[verifier::when_used_as_spec(spec_code)]
    pub fn code(self) -> (c: u8)
        ensures
            c == self.spec_code(),
    {
        match self {
            DnsHeaderTC::NotTruncated => 0,
            DnsHeaderTC::Truncated => 1,
        }
    }

    /// Reads the field from bit 1 of the first flags byte.
    pub fn from(data: u8) -> (r: Self)
        ensures
            r == Self::of_flags(data),
    {
        let positions: [u8; 1] = [1];
        assert(positions@ == Self::positions());
        match get_bits_value(data, &positions) {
            0 => DnsHeaderTC::NotTruncated,
            _ => DnsHeaderTC::Truncated,
        }
    }
}

/// RD: whether the client asks for recursion.
#[derive(Copy, Clone, Debug, PartialEq, Eq, Structural)]
pub enum DnsHeaderRD {
    RecursionNotDesired,
    RecursionDesired,
}

impl DnsHeaderRD {
    /// The number that stands for the variant on the wire.
    pub open spec fn spec_code(self) -> u8 {
        match self {
            DnsHeaderRD::RecursionNotDesired => 0,
            DnsHeaderRD::RecursionDesired => 1,
        }
    }

    /// The positions of the field, most significant bit first:
    /// bit 0 of the first flags byte.
    pub open spec fn positions() -> Seq<u8> {
        seq![0u8]
    }

    /// The variant that a bit stands for.
    pub open spec fn of_code(code: int) -> Self {
        if code == 0 {
            DnsHeaderRD::RecursionNotDesired
        } else {
            DnsHeaderRD::RecursionDesired
        }
    }

    /// What reading the field from a flags byte gives.
    pub open spec fn of_flags(data: u8) -> Self {
        Self::of_code(bits_value(data, Self::positions()))
    }

    /// The number that stands for the variant on the wire.
    #[verifier::when_used_as_spec(spec_code)]
    pub fn code(self) -> (c: u8)
        ensures
            c == self.spec_code(),
    {
        match self {
            DnsHeaderRD::RecursionNotDesired => 0,
            DnsHeaderRD::RecursionDesired => 1,
        }
    }

    /// Reads the field from bit 0 of the first flags byte.
    pub fn from(data: u8) -> (r: Self)
        ensures
            r == Self::of_flags(data),
    {
        let positions: [u8; 1] = [0];
        assert(positions@ == Self::positions());
        match get_bits_value(data, &positions) {
            0 => DnsHeaderRD::RecursionNotDesired,
            _ => DnsHeaderRD::RecursionDesired,
        }
    }
}

/// RA: whether the server offers recursion. As in RFC 1035, a set bit means
/// that it does.
#[derive(Copy, Clone, Debug, PartialEq, Eq, Structural)]
pub enum DnsHeaderRA {
    RecursionNotAvailable,
    RecursionAvailable,
}

impl DnsHeaderRA {
    /// The number that stands for the variant on the wire.
    pub open spec fn spec_code(self) -> u8 {
        match self {
            DnsHeaderRA::RecursionNotAvailable => 0,
            DnsHeaderRA::RecursionAvailable => 1,
        }
    }

    /// The positions of the field, most significant bit first:
    /// bit 7 of the second flags byte.
    pub open spec fn positions() -> Seq<u8> {
        seq![7u8]
    }

    /// The variant that a bit stands for.
    pub open spec fn of_code(code: int) -> Self {
        if code == 0 {
            DnsHeaderRA::RecursionNotAvailable
        } else {
            DnsHeaderRA::RecursionAvailable
        }
    }

    /// What reading the field from a flags byte gives.
    pub open spec fn of_flags(data: u8) -> Self {
        Self::of_code(bits_value(data, Self::positions()))
    }

    /// The number that stands for the variant on the wire.
    #[verifier::when_used_as_spec(spec_code)]
    pub fn code(self) -> (c: u8)
        ensures
            c == self.spec_code(),
    {
        match self {
            DnsHeaderRA::RecursionNotAvailable => 0,
            DnsHeaderRA::RecursionAvailable => 1,
        }
    }

    /// Reads the field from bit 7 of the second flags byte.
    pub fn from(data: u8) -> (r: Self)
        ensures
            r == Self::of_flags(data),
    {
        let positions: [u8; 1] = [7];
        assert(positions@ == Self::positions());
        match get_bits_value(data, &positions) {
            0 => DnsHeaderRA::RecursionNotAvailable,
            _ => DnsHeaderRA::RecursionAvailable,
        }
    }
}

/// Z: three reserved bits, always zero.
#[derive(Copy, Clone, Debug, PartialEq, Eq, Structural)]
pub enum DnsHeaderZ {
    Reserved,
}

impl DnsHeaderZ {
    /// The number that stands for the variant on the wire.
    pub open spec fn spec_code(self) -> u8 {
        match self {
            DnsHeaderZ::Reserved => 0,
        }
    }

    /// The positions of the field, most significant bit first:
    /// bits 6 to 4 of the second flags byte.
    pub open spec fn positions() -> Seq<u8> {
        seq![6u8, 5, 4]
    }

    /// The variant that a number stands for, if it stands for one.
    pub open spec fn of_code(code: int) -> Option<Self> {
        if code == 0 {
            Some(DnsHeaderZ::Reserved)
        } else {
            None
        }
    }

    /// What reading the field from a flags byte gives: the variant, or the
    /// fault that names this field.
    pub open spec fn of_flags(data: u8) -> Result<Self, DnsError> {
        match Self::of_code(bits_value(data, Self::positions())) {
            Some(v) => Ok(v),
            None => Err(DnsError::MalformedHeader(HeaderFault::InvalidZ)),
        }
    }

    /// The number that stands for the variant on the wire.
    #[verifier::when_used_as_spec(spec_code)]
    pub fn code(self) -> (c: u8)
        ensures
            c == self.spec_code(),
    {
        match self {
            DnsHeaderZ::Reserved => 0,
        }
    }

    /// Reads the field from bits 6 to 4 of the second flags byte, and fails on a number that no
    /// variant stands for.
    pub fn from(data: u8) -> (r: Result<Self, DnsError>)
        ensures
            r == Self::of_flags(data),
    {
        let positions: [u8; 3] = [6, 5, 4];
        assert(positions@ == Self::positions());
        match get_bits_value(data, &positions) {
            0 => Ok(DnsHeaderZ::Reserved),
            _ => Err(DnsError::MalformedHeader(HeaderFault::InvalidZ)),
        }
    }
}

/// RCODE: the status of a reply.
#[derive(Copy, Clone, Debug, PartialEq, Eq, Structural)]
pub enum DnsHeaderRcode {
    NoError,
    FormatError,
    ServerFailure,
    NameError,
    NotImplemented,
    Refused,
}

impl DnsHeaderRcode {
    /// The number that stands for the variant on the wire.
    pub open spec fn spec_code(self) -> u8 {
        match self {
            DnsHeaderRcode::NoError => 0,
            DnsHeaderRcode::FormatError => 1,
            DnsHeaderRcode::ServerFailure => 2,
            DnsHeaderRcode::NameError => 3,
            DnsHeaderRcode::NotImplemented => 4,
            DnsHeaderRcode::Refused => 5,
        }
    }

    /// The positions of the field, most significant bit first:
    /// bits 3 to 0 of the second flags byte.
    pub open spec fn positions() -> Seq<u8> {
        seq![3u8, 2, 1, 0]
    }

    /// The variant that a number stands for, if it stands for one.
    pub open spec fn of_code(code: int) -> Option<Self> {
        if code == 0 {
            Some(DnsHeaderRcode::NoError)
        } else if code == 1 {
            Some(DnsHeaderRcode::FormatError)
        } else if code == 2 {
            Some(DnsHeaderRcode::ServerFailure)
        } else if code == 3 {
            Some(DnsHeaderRcode::NameError)
        } else if code == 4 {
            Some(DnsHeaderRcode::NotImplemented)
        } else if code == 5 {
            Some(DnsHeaderRcode::Refused)
        } else {
            None
        }
    }

    /// What reading the field from a flags byte gives: the variant, or the
    /// fault that names this field.
    pub open spec fn of_flags(data: u8) -> Result<Self, DnsError> {
        match Self::of_code(bits_value(data, Self::positions())) {
            Some(v) => Ok(v),
            None => Err(DnsError::MalformedHeader(HeaderFault::InvalidRcode)),
        }
    }

    /// The number that stands for the variant on the wire.
    #[verifier::when_used_as_spec(spec_code)]
    pub fn code(self) -> (c: u8)
        ensures
            c == self.spec_code(),
    {
        match self {
            DnsHeaderRcode::NoError => 0,
            DnsHeaderRcode::FormatError => 1,
            DnsHeaderRcode::ServerFailure => 2,
            DnsHeaderRcode::NameError => 3,
            DnsHeaderRcode::NotImplemented => 4,
            DnsHeaderRcode::Refused => 5,
        }
    }

    /// Reads the field from bits 3 to 0 of the second flags byte, and fails on a number that no
    /// variant stands for.
    pub fn from(data: u8) -> (r: Result<Self, DnsError>)
        ensures
            r == Self::of_flags(data),
    {
        let positions: [u8; 4] = [3, 2, 1, 0];
        assert(positions@ == Self::positions());
        match get_bits_value(data, &positions) {
            0 => Ok(DnsHeaderRcode::NoError),
            1 => Ok(DnsHeaderRcode::FormatError),
            2 => Ok(DnsHeaderRcode::ServerFailure),
            3 => Ok(DnsHeaderRcode::NameError),
            4 => Ok(DnsHeaderRcode::NotImplemented),
            5 => Ok(DnsHeaderRcode::Refused),
            _ => Err(DnsError::MalformedHeader(HeaderFault::InvalidRcode)),
        }
    }
}

/// The header of a message.
#[derive(Copy, Clone, Debug, PartialEq, Eq, Structural)]
pub struct DnsHeader {
    /// The identifier that the client chose; a reply repeats it.
    pub id: u16,
    pub query_response: DnsHeaderQR,
    pub opcode: DnsHeaderOpcode,
    pub authoritative_answer: DnsHeaderAA,
    pub truncation: DnsHeaderTC,
    pub recursion_desired: DnsHeaderRD,
    pub recursion_available: DnsHeaderRA,
    pub z: DnsHeaderZ,
    pub rcode: DnsHeaderRcode,
    /// QDCOUNT: the number of questions that follow the header.
    pub question_count: u16,
    /// ANCOUNT: the number of answers that follow the questions.
    pub answer_count: u16,
    /// NSCOUNT: the number of authority records.
    pub authority_count: u16,
    /// ARCOUNT: the number of additional records.
    pub additional_count: u16,
}

/// The length of an encoded header.
pub const HEADER_LEN: usize = 12;

/// The first flags byte: QR, OPCODE, AA, TC and RD, from the most significant
/// bit down.
pub open spec fn flags_hi(h: DnsHeader) -> u8 {
    (128 * h.query_response.code() + 8 * h.opcode.code() + 4 * h.authoritative_answer.code() + 2
        * h.truncation.code() + h.recursion_desired.code()) as u8
}

/// The second flags byte: RA, Z and RCODE, from the most significant bit down.
pub open spec fn flags_lo(h: DnsHeader) -> u8 {
    (128 * h.recursion_available.code() + 16 * h.z.code() + h.rcode.code()) as u8
}

/// The twelve bytes of a header: the identifier, the two flags bytes and the
/// four counts, each number big-endian.
pub open spec fn encode_header(h: DnsHeader) -> Seq<u8> {
    be16(h.id) + seq![flags_hi(h), flags_lo(h)] + be16(h.question_count) + be16(h.answer_count)
        + be16(h.authority_count) + be16(h.additional_count)
}

/// What the first twelve bytes of `bytes` say as a header. The fields are
/// checked in the order OPCODE, Z, RCODE, and the first bad one is reported.
pub open spec fn decode_header(bytes: Seq<u8>) -> Result<DnsHeader, DnsError> {
    if bytes.len() < HEADER_LEN {
        Err(DnsError::TruncatedBuffer)
    } else {
        match DnsHeaderOpcode::of_flags(bytes[2]) {
            Err(e) => Err(e),
            Ok(opcode) => match DnsHeaderZ::of_flags(bytes[3]) {
                Err(e) => Err(e),
                Ok(z) => match DnsHeaderRcode::of_flags(bytes[3]) {
                    Err(e) => Err(e),
                    Ok(rcode) => Ok(
                        DnsHeader {
                            id: word16(bytes[0], bytes[1]),
                            query_response: DnsHeaderQR::of_flags(bytes[2]),
                            opcode,
                            authoritative_answer: DnsHeaderAA::of_flags(bytes[2]),
                            truncation: DnsHeaderTC::of_flags(bytes[2]),
                            recursion_desired: DnsHeaderRD::of_flags(bytes[2]),
                            recursion_available: DnsHeaderRA::of_flags(bytes[3]),
                            z,
                            rcode,
                            question_count: word16(bytes[4], bytes[5]),
                            answer_count: word16(bytes[6], bytes[7]),
                            authority_count: word16(bytes[8], bytes[9]),
                            additional_count: word16(bytes[10], bytes[11]),
                        },
                    ),
                },
            },
        }
    }
}

impl DnsHeader {
    /// Writes the header as its twelve bytes.
    pub fn as_buf(&self) -> (buf: BytesMut)
        ensures
            buf_bytes(buf) == encode_header(*self),
    {
        let mut buf = new_buf();
        put_u16(&mut buf, self.id);
        let qr = self.query_response.code();
        let opcode = self.opcode.code();
        let aa = self.authoritative_answer.code();
        let tc = self.truncation.code();
        let rd = self.recursion_desired.code();
        let hi = qr << 7 | opcode << 3 | aa << 2 | tc << 1 | rd;
        assert(hi == 128 * qr + 8 * opcode + 4 * aa + 2 * tc + rd) by (bit_vector)
            requires
                hi == qr << 7 | opcode << 3 | aa << 2 | tc << 1 | rd,
                qr <= 1,
                opcode <= 5,
                aa <= 1,
                tc <= 1,
                rd <= 1,
        ;
        put_u8(&mut buf, hi);
        let ra = self.recursion_available.code();
        let z = self.z.code();
        let rcode = self.rcode.code();
        let lo = ra << 7 | z << 4 | rcode;
        assert(lo == 128 * ra + 16 * z + rcode) by (bit_vector)
            requires
                lo == ra << 7 | z << 4 | rcode,
                ra <= 1,
                z == 0,
                rcode <= 5,
        ;
        put_u8(&mut buf, lo);
        put_u16(&mut buf, self.question_count);
        put_u16(&mut buf, self.answer_count);
        put_u16(&mut buf, self.authority_count);
        put_u16(&mut buf, self.additional_count);
        assert(buf_bytes(buf) =~= encode_header(*self));
        buf
    }

    /// Reads a header from the first twelve bytes of `data`.
    pub fn from(data: &[u8]) -> (r: Result<DnsHeader, DnsError>)
        ensures
            r == decode_header(data@),
    {
        if data.len() < HEADER_LEN {
            return Err(DnsError::TruncatedBuffer);
        }
        let opcode = match DnsHeaderOpcode::from(data[2]) {
            Ok(v) => v,
            Err(e) => {
                return Err(e);
            },
        };
        let z = match DnsHeaderZ::from(data[3]) {
            Ok(v) => v,
            Err(e) => {
                return Err(e);
            },
        };
        let rcode = match DnsHeaderRcode::from(data[3]) {
            Ok(v) => v,
            Err(e) => {
                return Err(e);
            },
        };
        Ok(
            DnsHeader {
                id: read_u16(data, 0),
                query_response: DnsHeaderQR::from(data[2]),
                opcode,
                authoritative_answer: DnsHeaderAA::from(data[2]),
                truncation: DnsHeaderTC::from(data[2]),
                recursion_desired: DnsHeaderRD::from(data[2]),
                recursion_available: DnsHeaderRA::from(data[3]),
                z,
                rcode,
                question_count: read_u16(data, 4),
                answer_count: read_u16(data, 6),
                authority_count: read_u16(data, 8),
                additional_count: read_u16(data, 10),
            },
        )
    }
}

/// Reading a field back from a packed flags byte: each field of either byte
/// is the quotient and remainder that its position implies.
pub proof fn lemma_flag_fields(b: u8)
    ensures
        bits_value(b, seq![7u8]) == b / 128,
        bits_value(b, seq![6u8, 5, 4, 3]) == b / 8 % 16,
        bits_value(b, seq![2u8]) == b / 4 % 2,
        bits_value(b, seq![1u8]) == b / 2 % 2,
        bits_value(b, seq![0u8]) == b % 2,
        bits_value(b, seq![6u8, 5, 4]) == b / 16 % 8,
        bits_value(b, seq![3u8, 2, 1, 0]) == b % 16,
{
    reveal_with_fuel(bits_value, 5);
    assert(seq![6u8, 5, 4, 3].drop_last() == seq![6u8, 5, 4]);
    assert(seq![6u8, 5, 4].drop_last() == seq![6u8, 5]);
    assert(seq![6u8, 5].drop_last() == seq![6u8]);
    assert(seq![3u8, 2, 1, 0].drop_last() == seq![3u8, 2, 1]);
    assert(seq![3u8, 2, 1].drop_last() == seq![3u8, 2]);
    assert(seq![3u8, 2].drop_last() == seq![3u8]);
    assert((b >> 7u8) & 1 == b / 128) by (bit_vector);
    assert(8 * ((b >> 6u8) & 1) + 4 * ((b >> 5u8) & 1) + 2 * ((b >> 4u8) & 1) + ((b >> 3u8) & 1)
        == b / 8 % 16) by (bit_vector);
    assert((b >> 2u8) & 1 == b / 4 % 2) by (bit_vector);
    assert((b >> 1u8) & 1 == b / 2 % 2) by (bit_vector);
    assert((b >> 0u8) & 1 == b % 2) by (bit_vector);
    assert(4 * ((b >> 6u8) & 1) + 2 * ((b >> 5u8) & 1) + ((b >> 4u8) & 1) == b / 16 % 8)
        by (bit_vector);
    assert(8 * ((b >> 3u8) & 1) + 4 * ((b >> 2u8) & 1) + 2 * ((b >> 1u8) & 1) + ((b >> 0u8) & 1)
        == b % 16) by (bit_vector);
}

/// Unpacking the first flags byte gives back the five fields packed into it.
proof fn lemma_unpack_hi(qr: u8, opcode: u8, aa: u8, tc: u8, rd: u8)
    requires
        qr <= 1,
        opcode <= 15,
        aa <= 1,
        tc <= 1,
        rd <= 1,
    ensures
        ({
            let b = (128 * qr + 8 * opcode + 4 * aa + 2 * tc + rd) as u8;
            &&& b / 128 == qr
            &&& b / 8 % 16 == opcode
            &&& b / 4 % 2 == aa
            &&& b / 2 % 2 == tc
            &&& b % 2 == rd
        }),
{
    let v = 128 * qr + 8 * opcode + 4 * aa + 2 * tc + rd;
    assert(0 <= v < 256);
}

/// Unpacking the second flags byte gives back the three fields packed into it.
proof fn lemma_unpack_lo(ra: u8, z: u8, rcode: u8)
    requires
        ra <= 1,
        z <= 7,
        rcode <= 15,
    ensures
        ({
            let b = (128 * ra + 16 * z + rcode) as u8;
            &&& b / 128 == ra
            &&& b / 16 % 8 == z
            &&& b % 16 == rcode
        }),
{
    let v = 128 * ra + 16 * z + rcode;
    assert(0 <= v < 256);
}

/// Decoding the bytes of a header gives the header back, whatever its fields.
pub proof fn lemma_header_round_trip(h: DnsHeader)
    ensures
        decode_header(encode_header(h)) == Ok::<DnsHeader, DnsError>(h),
{
    let bytes = encode_header(h);
    assert(bytes.len() == 12);
    let hi = flags_hi(h);
    let lo = flags_lo(h);
    assert(bytes[2] == hi);
    assert(bytes[3] == lo);
    lemma_flag_fields(hi);
    lemma_flag_fields(lo);
    lemma_unpack_hi(
        h.query_response.code(),
        h.opcode.code(),
        h.authoritative_answer.code(),
        h.truncation.code(),
        h.recursion_desired.code(),
    );
    lemma_unpack_lo(h.recursion_available.code(), h.z.code(), h.rcode.code());
    assert(DnsHeaderQR::of_flags(hi) == h.query_response);
    assert(DnsHeaderOpcode::of_flags(hi) == Ok::<DnsHeaderOpcode, DnsError>(h.opcode));
    assert(DnsHeaderAA::of_flags(hi) == h.authoritative_answer);
    assert(DnsHeaderTC::of_flags(hi) == h.truncation);
    assert(DnsHeaderRD::of_flags(hi) == h.recursion_desired);
    assert(DnsHeaderRA::of_flags(lo) == h.recursion_available);
    assert(DnsHeaderZ::of_flags(lo) == Ok::<DnsHeaderZ, DnsError>(h.z));
    assert(DnsHeaderRcode::of_flags(lo) == Ok::<DnsHeaderRcode, DnsError>(h.rcode));
    assert(word16(bytes[0], bytes[1]) == h.id);
    assert(word16(bytes[4], bytes[5]) == h.question_count);
    assert(word16(bytes[6], bytes[7]) == h.answer_count);
    assert(word16(bytes[8], bytes[9]) == h.authority_count);
    assert(word16(bytes[10], bytes[11]) == h.additional_count);
}

} // verus!
