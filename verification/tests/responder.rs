use codecrafters_dns_server::dns::header::DnsHeaderRcode;
use codecrafters_dns_server::dns::responder::{rcode_for, report, respond};
use codecrafters_dns_server::error::{DnsError, HeaderFault};

fn datagram(bytes: &[u8]) -> [u8; 512] {
    let mut data = [0u8; 512];
    data[..bytes.len()].copy_from_slice(bytes);
    data
}

fn codecrafters_question() -> Vec<u8> {
    let mut wire = vec![12u8];
    wire.extend_from_slice(b"codecrafters");
    wire.push(2);
    wire.extend_from_slice(b"io");
    wire.extend_from_slice(&[0, 0, 1, 0, 1]);
    wire
}

#[test]
fn query_for_an_address_is_answered_with_8_8_8_8() {
    let mut request = vec![0x04, 0xD2, 0x01, 0x00, 0, 1, 0, 0, 0, 0, 0, 0];
    request.extend_from_slice(&codecrafters_question());
    let reply = respond(datagram(&request)).to_vec();

    let mut expected = vec![0x04, 0xD2, 0x81, 0x80, 0, 1, 0, 1, 0, 0, 0, 0];
    expected.extend_from_slice(&codecrafters_question());
    expected.extend_from_slice(&codecrafters_question());
    expected.extend_from_slice(&[0, 0, 0, 60, 0, 4, 8, 8, 8, 8]);
    assert_eq!(reply, expected);
}

#[test]
fn update_request_is_answered_with_not_implemented() {
    // OPCODE 5, no questions
    let request = [0xAB, 0xCD, 0x28, 0x00, 0, 0, 0, 0, 0, 0, 0, 0];
    let reply = respond(datagram(&request)).to_vec();
    // QR=1 OPCODE=5 RD=0; RA=1 RCODE=4; ANCOUNT=0
    assert_eq!(reply, vec![0xAB, 0xCD, 0xA8, 0x84, 0, 0, 0, 0, 0, 0, 0, 0]);
}

#[test]
fn reply_writes_compressed_questions_in_full() {
    let mut request = vec![0, 9, 0x00, 0x00, 0, 2, 0, 0, 0, 0, 0, 0];
    request.extend_from_slice(&[1, b'a', 1, b'b', 0, 0, 1, 0, 1]);
    request.extend_from_slice(&[1, b'c', 0xC0, 12, 0, 2, 0, 1]);
    let reply = respond(datagram(&request)).to_vec();
    let mut expected = vec![0, 9, 0x80, 0x80, 0, 2, 0, 2, 0, 0, 0, 0];
    expected.extend_from_slice(&[1, b'a', 1, b'b', 0, 0, 1, 0, 1]);
    expected.extend_from_slice(&[1, b'c', 1, b'a', 1, b'b', 0, 0, 2, 0, 1]);
    expected.extend_from_slice(&[1, b'a', 1, b'b', 0, 0, 1, 0, 1, 0, 0, 0, 60, 0, 4, 8, 8, 8, 8]);
    expected.extend_from_slice(&[
        1, b'c', 1, b'a', 1, b'b', 0, 0, 2, 0, 1, 0, 0, 0, 60, 0, 4, 8, 8, 8, 8,
    ]);
    assert_eq!(reply, expected);
}

#[test]
fn malformed_datagram_is_answered_with_a_format_error_and_no_records() {
    // OPCODE 3
    let request = [0x11, 0x22, 0x19, 0x00, 0, 1, 0, 0, 0, 0, 0, 0];
    let reply = respond(datagram(&request)).to_vec();
    assert_eq!(reply, vec![0x11, 0x22, 0x81, 0x81, 0, 0, 0, 0, 0, 0, 0, 0]);

    // a label that runs past the datagram
    let mut request = [0u8; 512];
    request[1] = 7;
    request[5] = 1;
    request[12] = 63;
    request[76] = 63;
    request[140] = 63;
    request[204] = 63;
    request[268] = 63;
    request[332] = 63;
    request[396] = 63;
    request[460] = 63;
    let reply = respond(request).to_vec();
    assert_eq!(reply, vec![0, 7, 0x80, 0x81, 0, 0, 0, 0, 0, 0, 0, 0]);
}

#[test]
fn unsupported_type_is_answered_with_not_implemented() {
    let mut request = vec![0, 1, 0x01, 0x00, 0, 1, 0, 0, 0, 0, 0, 0];
    request.extend_from_slice(&[1, b'a', 0, 0, 28, 0, 1]);
    let reply = respond(datagram(&request)).to_vec();
    assert_eq!(reply, vec![0, 1, 0x81, 0x84, 0, 0, 0, 0, 0, 0, 0, 0]);
}

#[test]
fn every_error_has_its_response_code() {
    assert_eq!(
        rcode_for(DnsError::MalformedHeader(HeaderFault::InvalidOpcode)),
        DnsHeaderRcode::FormatError
    );
    assert_eq!(
        rcode_for(DnsError::MalformedHeader(HeaderFault::InvalidRcode)),
        DnsHeaderRcode::FormatError
    );
    assert_eq!(
        rcode_for(DnsError::MalformedHeader(HeaderFault::InvalidZ)),
        DnsHeaderRcode::FormatError
    );
    assert_eq!(rcode_for(DnsError::MalformedName), DnsHeaderRcode::FormatError);
    assert_eq!(rcode_for(DnsError::TruncatedBuffer), DnsHeaderRcode::FormatError);
    assert_eq!(rcode_for(DnsError::InvalidType), DnsHeaderRcode::NotImplemented);
    assert_eq!(rcode_for(DnsError::InvalidClass), DnsHeaderRcode::NotImplemented);
    assert_eq!(rcode_for(DnsError::UpstreamUnavailable), DnsHeaderRcode::ServerFailure);
    assert_eq!(rcode_for(DnsError::EmptyMerge), DnsHeaderRcode::ServerFailure);
}

#[test]
fn upstream_failure_is_reported_as_server_failure() {
    let mut request = vec![0x04, 0xD2, 0x01, 0x00, 0, 1, 0, 0, 0, 0, 0, 0];
    request.extend_from_slice(&codecrafters_question());
    let reply = report(&datagram(&request), DnsError::UpstreamUnavailable).to_vec();
    assert_eq!(reply, vec![0x04, 0xD2, 0x81, 0x82, 0, 0, 0, 0, 0, 0, 0, 0]);
    let reply = report(&datagram(&[0xFF, 0xFE, 0xFE]), DnsError::EmptyMerge).to_vec();
    assert_eq!(reply, vec![0xFF, 0xFE, 0x80, 0x82, 0, 0, 0, 0, 0, 0, 0, 0]);
}
