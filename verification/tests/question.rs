use codecrafters_dns_server::dns::common::{DnsClass, DnsType};
use codecrafters_dns_server::dns::question::DnsQuestion;
use codecrafters_dns_server::error::DnsError;

fn datagram_of(bytes: &[u8]) -> [u8; 512] {
    let mut data = [0u8; 512];
    data[..bytes.len()].copy_from_slice(bytes);
    data
}

fn codecrafters_wire() -> Vec<u8> {
    let mut wire = vec![12u8];
    wire.extend_from_slice(b"codecrafters");
    wire.push(2);
    wire.extend_from_slice(b"io");
    wire.push(0);
    wire
}

#[test]
fn new_question_has_not_been_read_from_the_wire() {
    let q = DnsQuestion::new("codecrafters.io", DnsType::A, DnsClass::IN);
    assert_eq!(q.name.name, "codecrafters.io");
    assert_eq!(q.name.offset, None);
    assert_eq!(q.name.length, 17);
    assert_eq!(q.qtype, DnsType::A);
    assert_eq!(q.qclass, DnsClass::IN);
    assert_eq!(q.length, 0);
    assert!(q.is_valid());
}

#[test]
fn question_encodes_name_type_and_class() {
    let q = DnsQuestion::new("codecrafters.io", DnsType::A, DnsClass::IN);
    let mut expected = codecrafters_wire();
    expected.extend_from_slice(&[0, 1, 0, 1]);
    assert_eq!(q.as_buf().to_vec(), expected);
    assert_eq!(q.wire_len(), Some(21));

    let q = DnsQuestion::new("a.b", DnsType::PTR, DnsClass::HS);
    assert_eq!(q.as_buf().to_vec(), vec![1, b'a', 1, b'b', 0, 0, 12, 0, 4]);
}

#[test]
fn question_is_read_at_its_offset() {
    let mut bytes = vec![0u8; 12];
    bytes.extend_from_slice(&codecrafters_wire());
    bytes.extend_from_slice(&[0, 1, 0, 1]);
    let data = datagram_of(&bytes);
    let q = DnsQuestion::from_buf(&data, 12).unwrap();
    assert_eq!(q.name.name, "codecrafters.io");
    assert_eq!(q.name.length, 17);
    assert_eq!(q.name.offset, None);
    assert_eq!(q.qtype, DnsType::A);
    assert_eq!(q.qclass, DnsClass::IN);
    assert_eq!(q.length, 21);
    assert!(q.is_valid());
}

#[test]
fn question_round_trips() {
    for (text, qtype, qclass) in [
        ("codecrafters.io", DnsType::A, DnsClass::IN),
        ("example.com", DnsType::NS, DnsClass::CS),
        ("a", DnsType::CNAME, DnsClass::CH),
        ("", DnsType::SOA, DnsClass::HS),
        ("x.y.z", DnsType::WKS, DnsClass::IN),
        ("ptr.example", DnsType::PTR, DnsClass::IN),
    ] {
        let q = DnsQuestion::new(text, qtype, qclass);
        let wire = q.as_buf().to_vec();
        let read = DnsQuestion::from_buf(&datagram_of(&wire), 0).unwrap();
        assert_eq!(read.name.name, text);
        assert_eq!(read.qtype, qtype);
        assert_eq!(read.qclass, qclass);
        assert_eq!(read.length, wire.len());
    }
}

#[test]
fn question_with_a_compressed_name_counts_the_pointer_only() {
    let mut bytes = vec![0u8; 12];
    bytes.extend_from_slice(&codecrafters_wire());
    bytes.extend_from_slice(&[0, 1, 0, 1]);
    // second question at 33: "www" and a pointer to offset 12
    bytes.extend_from_slice(&[3, b'w', b'w', b'w', 0xC0, 0x0C, 0, 5, 0, 1]);
    let data = datagram_of(&bytes);
    let q = DnsQuestion::from_buf(&data, 33).unwrap();
    assert_eq!(q.name.name, "www.codecrafters.io");
    assert_eq!(q.name.length, 6);
    assert_eq!(q.name.offset, None);
    assert_eq!(q.qtype, DnsType::CNAME);
    assert_eq!(q.qclass, DnsClass::IN);
    assert_eq!(q.length, 10);

    // a question whose name is a pointer and nothing else
    let mut bytes = vec![0u8; 12];
    bytes.extend_from_slice(&codecrafters_wire());
    bytes.extend_from_slice(&[0xC0, 0x0C, 0, 2, 0, 3]);
    let data = datagram_of(&bytes);
    let q = DnsQuestion::from_buf(&data, 29).unwrap();
    assert_eq!(q.name.name, "codecrafters.io");
    assert_eq!(q.length, 6);
    assert_eq!(q.qtype, DnsType::NS);
    assert_eq!(q.qclass, DnsClass::CH);
}

#[test]
fn question_with_unknown_type_is_rejected() {
    let data = datagram_of(&[1, b'a', 0, 0, 28, 0, 1]);
    assert_eq!(DnsQuestion::from_buf(&data, 0), Err(DnsError::InvalidType));
}

#[test]
fn question_with_unknown_class_is_rejected() {
    let data = datagram_of(&[1, b'a', 0, 0, 1, 0, 255]);
    assert_eq!(DnsQuestion::from_buf(&data, 0), Err(DnsError::InvalidClass));
}

#[test]
fn question_names_the_type_before_the_class() {
    let data = datagram_of(&[1, b'a', 0, 0, 99, 0, 99]);
    assert_eq!(DnsQuestion::from_buf(&data, 0), Err(DnsError::InvalidType));
}

#[test]
fn question_with_a_malformed_name_is_rejected() {
    let data = datagram_of(&[0x41, b'a', 0, 0, 1, 0, 1]);
    assert_eq!(DnsQuestion::from_buf(&data, 0), Err(DnsError::MalformedName));
    let mut data = [0u8; 512];
    data[510] = 5;
    assert_eq!(DnsQuestion::from_buf(&data, 510), Err(DnsError::MalformedName));
}

#[test]
fn question_cut_off_by_the_end_of_the_datagram_is_truncated() {
    let mut data = [0u8; 512];
    // the root name at 509 leaves three bytes where four are needed
    data[510] = 0;
    assert_eq!(DnsQuestion::from_buf(&data, 509), Err(DnsError::TruncatedBuffer));
    assert_eq!(DnsQuestion::from_buf(&data, 511), Err(DnsError::TruncatedBuffer));
    // at 507 the four bytes are there
    data[508] = 0;
    data[509] = 1;
    data[510] = 0;
    data[511] = 1;
    let q = DnsQuestion::from_buf(&data, 507).unwrap();
    assert_eq!(q.name.name, "");
    assert_eq!(q.length, 5);
}

#[test]
fn question_that_starts_beyond_the_datagram_is_truncated() {
    let data = [0u8; 512];
    assert_eq!(DnsQuestion::from_buf(&data, 512), Err(DnsError::TruncatedBuffer));
    assert_eq!(DnsQuestion::from_buf(&data, 9999), Err(DnsError::TruncatedBuffer));
}

#[test]
fn question_validity_is_that_of_its_name() {
    assert!(DnsQuestion::new("ok.example", DnsType::A, DnsClass::IN).is_valid());
    let long = "y".repeat(64);
    assert!(!DnsQuestion::new(&long, DnsType::A, DnsClass::IN).is_valid());
}

#[test]
fn cloned_question_equals_the_original() {
    let q = DnsQuestion::new("codecrafters.io", DnsType::A, DnsClass::IN);
    assert_eq!(q.clone(), q);
}
