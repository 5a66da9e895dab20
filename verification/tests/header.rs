use codecrafters_dns_server::dns::bits::get_bits_value;
use codecrafters_dns_server::dns::header::{
    DnsHeader, DnsHeaderAA, DnsHeaderOpcode, DnsHeaderQR, DnsHeaderRA, DnsHeaderRD,
    DnsHeaderRcode, DnsHeaderTC, DnsHeaderZ,
};
use codecrafters_dns_server::error::{DnsError, HeaderFault};

fn query_header() -> DnsHeader {
    DnsHeader {
        id: 0x04D2,
        query_response: DnsHeaderQR::Question,
        opcode: DnsHeaderOpcode::Query,
        authoritative_answer: DnsHeaderAA::NonAuthoritative,
        truncation: DnsHeaderTC::NotTruncated,
        recursion_desired: DnsHeaderRD::RecursionDesired,
        recursion_available: DnsHeaderRA::RecursionNotAvailable,
        z: DnsHeaderZ::Reserved,
        rcode: DnsHeaderRcode::NoError,
        question_count: 1,
        answer_count: 0,
        authority_count: 0,
        additional_count: 0,
    }
}

#[test]
fn test_dns_message_from_bytes() {
    let header = DnsHeader {
        id: 1234,
        query_response: DnsHeaderQR::Reply,
        opcode: DnsHeaderOpcode::Query,
        authoritative_answer: DnsHeaderAA::Authoritative,
        truncation: DnsHeaderTC::NotTruncated,
        recursion_desired: DnsHeaderRD::RecursionNotDesired,
        recursion_available: DnsHeaderRA::RecursionAvailable,
        z: DnsHeaderZ::Reserved,
        rcode: DnsHeaderRcode::Refused,
        question_count: 1,
        answer_count: 1,
        authority_count: 0,
        additional_count: 0,
    };

    let header_buf = header.as_buf();
    let header_parsed = DnsHeader::from(&header_buf[0..12]);

    assert_eq!(Ok(header), header_parsed);
}

#[test]
fn header_encodes_to_its_twelve_bytes() {
    let buf = query_header().as_buf();
    assert_eq!(&buf[..], &[0x04, 0xD2, 0x01, 0x00, 0, 1, 0, 0, 0, 0, 0, 0]);
}

#[test]
fn header_packs_every_flag_at_its_position() {
    let header = DnsHeader {
        id: 0xBEEF,
        query_response: DnsHeaderQR::Reply,
        opcode: DnsHeaderOpcode::Update,
        authoritative_answer: DnsHeaderAA::Authoritative,
        truncation: DnsHeaderTC::Truncated,
        recursion_desired: DnsHeaderRD::RecursionDesired,
        recursion_available: DnsHeaderRA::RecursionAvailable,
        z: DnsHeaderZ::Reserved,
        rcode: DnsHeaderRcode::Refused,
        question_count: 0x0102,
        answer_count: 0x0304,
        authority_count: 0x0506,
        additional_count: 0x0708,
    };
    let buf = header.as_buf();
    // 1 0101 1 1 1 = 0xAF; 1 000 0101 = 0x85
    assert_eq!(&buf[..], &[0xBE, 0xEF, 0xAF, 0x85, 1, 2, 3, 4, 5, 6, 7, 8]);
    assert_eq!(DnsHeader::from(&buf[..]), Ok(header));
}

#[test]
fn header_round_trips_for_every_opcode_and_rcode() {
    let opcodes = [
        DnsHeaderOpcode::Query,
        DnsHeaderOpcode::IQuery,
        DnsHeaderOpcode::Status,
        DnsHeaderOpcode::Notify,
        DnsHeaderOpcode::Update,
    ];
    let rcodes = [
        DnsHeaderRcode::NoError,
        DnsHeaderRcode::FormatError,
        DnsHeaderRcode::ServerFailure,
        DnsHeaderRcode::NameError,
        DnsHeaderRcode::NotImplemented,
        DnsHeaderRcode::Refused,
    ];
    for opcode in opcodes {
        for rcode in rcodes {
            for flags in 0u8..32 {
                let header = DnsHeader {
                    id: 0xFFFF,
                    query_response: if flags & 1 == 0 {
                        DnsHeaderQR::Question
                    } else {
                        DnsHeaderQR::Reply
                    },
                    opcode,
                    authoritative_answer: if flags & 2 == 0 {
                        DnsHeaderAA::NonAuthoritative
                    } else {
                        DnsHeaderAA::Authoritative
                    },
                    truncation: if flags & 4 == 0 {
                        DnsHeaderTC::NotTruncated
                    } else {
                        DnsHeaderTC::Truncated
                    },
                    recursion_desired: if flags & 8 == 0 {
                        DnsHeaderRD::RecursionNotDesired
                    } else {
                        DnsHeaderRD::RecursionDesired
                    },
                    recursion_available: if flags & 16 == 0 {
                        DnsHeaderRA::RecursionNotAvailable
                    } else {
                        DnsHeaderRA::RecursionAvailable
                    },
                    z: DnsHeaderZ::Reserved,
                    rcode,
                    question_count: 65535,
                    answer_count: 0,
                    authority_count: 256,
                    additional_count: 255,
                };
                let buf = header.as_buf();
                assert_eq!(buf.len(), 12);
                assert_eq!(DnsHeader::from(&buf[..]), Ok(header));
            }
        }
    }
}

#[test]
fn header_codes_follow_rfc_1035() {
    assert_eq!(DnsHeaderOpcode::Query.code(), 0);
    assert_eq!(DnsHeaderOpcode::IQuery.code(), 1);
    assert_eq!(DnsHeaderOpcode::Status.code(), 2);
    assert_eq!(DnsHeaderOpcode::Notify.code(), 4);
    assert_eq!(DnsHeaderOpcode::Update.code(), 5);
    assert_eq!(DnsHeaderRA::RecursionAvailable.code(), 1);
    assert_eq!(DnsHeaderRA::RecursionNotAvailable.code(), 0);
    assert_eq!(DnsHeaderRcode::NotImplemented.code(), 4);
    assert_eq!(DnsHeaderRcode::Refused.code(), 5);
    assert_eq!(DnsHeaderQR::Reply.code(), 1);
    assert_eq!(DnsHeaderAA::Authoritative.code(), 1);
    assert_eq!(DnsHeaderTC::Truncated.code(), 1);
    assert_eq!(DnsHeaderRD::RecursionDesired.code(), 1);
    assert_eq!(DnsHeaderZ::Reserved.code(), 0);
}

#[test]
fn flag_fields_are_read_from_their_bits() {
    assert_eq!(DnsHeaderQR::from(0x80), DnsHeaderQR::Reply);
    assert_eq!(DnsHeaderQR::from(0x7F), DnsHeaderQR::Question);
    assert_eq!(DnsHeaderOpcode::from(0x28), Ok(DnsHeaderOpcode::Update));
    assert_eq!(DnsHeaderOpcode::from(0x87), Ok(DnsHeaderOpcode::Query));
    assert_eq!(DnsHeaderAA::from(0x04), DnsHeaderAA::Authoritative);
    assert_eq!(DnsHeaderAA::from(0xFB), DnsHeaderAA::NonAuthoritative);
    assert_eq!(DnsHeaderTC::from(0x02), DnsHeaderTC::Truncated);
    assert_eq!(DnsHeaderRD::from(0x01), DnsHeaderRD::RecursionDesired);
    assert_eq!(DnsHeaderRD::from(0xFE), DnsHeaderRD::RecursionNotDesired);
    assert_eq!(DnsHeaderRA::from(0x80), DnsHeaderRA::RecursionAvailable);
    assert_eq!(DnsHeaderRA::from(0x00), DnsHeaderRA::RecursionNotAvailable);
    assert_eq!(DnsHeaderZ::from(0x8F), Ok(DnsHeaderZ::Reserved));
    assert_eq!(DnsHeaderRcode::from(0xF3), Ok(DnsHeaderRcode::NameError));
}

#[test]
fn header_with_unknown_opcode_is_malformed() {
    // OPCODE 3 has no variant.
    let bytes = [0, 1, 0x18, 0, 0, 0, 0, 0, 0, 0, 0, 0];
    assert_eq!(
        DnsHeader::from(&bytes),
        Err(DnsError::MalformedHeader(HeaderFault::InvalidOpcode))
    );
    assert_eq!(
        DnsHeaderOpcode::from(0x78),
        Err(DnsError::MalformedHeader(HeaderFault::InvalidOpcode))
    );
}

#[test]
fn header_with_reserved_bits_set_is_malformed() {
    let bytes = [0, 1, 0, 0x10, 0, 0, 0, 0, 0, 0, 0, 0];
    assert_eq!(DnsHeader::from(&bytes), Err(DnsError::MalformedHeader(HeaderFault::InvalidZ)));
    assert_eq!(DnsHeaderZ::from(0x70), Err(DnsError::MalformedHeader(HeaderFault::InvalidZ)));
}

#[test]
fn header_with_unknown_rcode_is_malformed() {
    let bytes = [0, 1, 0, 0x06, 0, 0, 0, 0, 0, 0, 0, 0];
    assert_eq!(
        DnsHeader::from(&bytes),
        Err(DnsError::MalformedHeader(HeaderFault::InvalidRcode))
    );
    assert_eq!(
        DnsHeaderRcode::from(0x0F),
        Err(DnsError::MalformedHeader(HeaderFault::InvalidRcode))
    );
}

#[test]
fn header_faults_are_reported_in_field_order() {
    // Bad OPCODE, bad Z and bad RCODE at once: the OPCODE is named.
    let bytes = [0, 1, 0x18, 0x7F, 0, 0, 0, 0, 0, 0, 0, 0];
    assert_eq!(
        DnsHeader::from(&bytes),
        Err(DnsError::MalformedHeader(HeaderFault::InvalidOpcode))
    );
    // Bad Z and bad RCODE: Z is named.
    let bytes = [0, 1, 0, 0x7F, 0, 0, 0, 0, 0, 0, 0, 0];
    assert_eq!(DnsHeader::from(&bytes), Err(DnsError::MalformedHeader(HeaderFault::InvalidZ)));
}

#[test]
fn header_shorter_than_twelve_bytes_is_truncated() {
    let bytes = [0u8; 11];
    assert_eq!(DnsHeader::from(&bytes), Err(DnsError::TruncatedBuffer));
    assert_eq!(DnsHeader::from(&[]), Err(DnsError::TruncatedBuffer));
}

#[test]
fn header_ignores_what_follows_it() {
    let mut bytes = vec![0x04, 0xD2, 0x01, 0x00, 0, 1, 0, 0, 0, 0, 0, 0];
    bytes.extend_from_slice(&[0xFF; 20]);
    assert_eq!(DnsHeader::from(&bytes), Ok(query_header()));
}

#[test]
fn bits_are_read_in_the_order_given() {
    assert_eq!(get_bits_value(0b0010_1000, &[6, 5, 4, 3]), 5);
    assert_eq!(get_bits_value(0b0010_1000, &[3, 4, 5, 6]), 10);
    assert_eq!(get_bits_value(0b1000_0000, &[7]), 1);
    assert_eq!(get_bits_value(0b0111_1111, &[7]), 0);
    assert_eq!(get_bits_value(0xA5, &[7, 6, 5, 4, 3, 2, 1, 0]), 0xA5);
    assert_eq!(get_bits_value(0xA5, &[0, 1, 2, 3, 4, 5, 6, 7]), 0xA5);
    assert_eq!(get_bits_value(0xFF, &[]), 0);
    assert_eq!(get_bits_value(0b0000_0100, &[2, 2, 2]), 7);
}
