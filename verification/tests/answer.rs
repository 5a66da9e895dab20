use codecrafters_dns_server::dns::answer::DnsAnswer;
use codecrafters_dns_server::dns::common::{DnsClass, DnsName, DnsType};
use codecrafters_dns_server::error::DnsError;

fn datagram_with(bytes: &[u8]) -> [u8; 512] {
    let mut data = [0u8; 512];
    data[..bytes.len()].copy_from_slice(bytes);
    data
}

#[test]
fn new_answer_counts_its_data() {
    let a = DnsAnswer::new("codecrafters.io", DnsType::A, DnsClass::IN, 60, vec![8, 8, 8, 8]);
    assert_eq!(a.name.name, "codecrafters.io");
    assert_eq!(a.name.length, 17);
    assert_eq!(a.name.offset, None);
    assert_eq!(a.qtype, DnsType::A);
    assert_eq!(a.qclass, DnsClass::IN);
    assert_eq!(a.ttl, 60);
    assert_eq!(a.length, 4);
    assert_eq!(a.data, vec![8, 8, 8, 8]);
    assert!(a.is_valid());
}

#[test]
fn answer_encodes_all_its_fields() {
    let a = DnsAnswer::new("a.b", DnsType::A, DnsClass::IN, 60, vec![8, 8, 8, 8]);
    assert_eq!(
        a.as_buf().to_vec(),
        vec![1, b'a', 1, b'b', 0, 0, 1, 0, 1, 0, 0, 0, 60, 0, 4, 8, 8, 8, 8]
    );
    assert_eq!(a.wire_len(), Some(19));
}

#[test]
fn answer_writes_ttl_and_length_big_endian() {
    let data: Vec<u8> = (0..=255u8).cycle().take(0x0123).collect();
    let a = DnsAnswer::new("", DnsType::CNAME, DnsClass::CH, 0x0A0B0C0D, data.clone());
    let wire = a.as_buf().to_vec();
    assert_eq!(&wire[..11], &[0, 0, 5, 0, 3, 0x0A, 0x0B, 0x0C, 0x0D, 0x01, 0x23]);
    assert_eq!(&wire[11..], &data[..]);
}

#[test]
fn answer_is_read_with_the_data_it_declares() {
    let bytes = [1, b'a', 1, b'b', 0, 0, 1, 0, 1, 0, 0, 0x0E, 0x10, 0, 4, 192, 0, 2, 1, 0xEE];
    let a = DnsAnswer::from_buf(&datagram_with(&bytes), 0).unwrap();
    assert_eq!(a.name.name, "a.b");
    assert_eq!(a.name.length, 5);
    assert_eq!(a.qtype, DnsType::A);
    assert_eq!(a.qclass, DnsClass::IN);
    assert_eq!(a.ttl, 3600);
    assert_eq!(a.length, 4);
    assert_eq!(a.data, vec![192, 0, 2, 1]);
    assert!(a.is_valid());
}

#[test]
fn answer_round_trips() {
    let a = DnsAnswer::new("mail.example.com", DnsType::PTR, DnsClass::HS, u32::MAX, vec![1, 2, 3]);
    let wire = a.as_buf().to_vec();
    let mut bytes = vec![0xAAu8; 30];
    bytes.extend_from_slice(&wire);
    let read = DnsAnswer::from_buf(&datagram_with(&bytes), 30).unwrap();
    assert_eq!(read, a);
}

#[test]
fn answer_may_have_no_data() {
    let a = DnsAnswer::new("a", DnsType::NS, DnsClass::IN, 0, vec![]);
    let wire = a.as_buf().to_vec();
    assert_eq!(wire, vec![1, b'a', 0, 0, 2, 0, 1, 0, 0, 0, 0, 0, 0]);
    let read = DnsAnswer::from_buf(&datagram_with(&wire), 0).unwrap();
    assert_eq!(read.length, 0);
    assert_eq!(read.data, Vec::<u8>::new());
}

#[test]
fn answer_with_a_compressed_name_is_resolved() {
    let mut bytes = vec![0u8; 12];
    bytes.extend_from_slice(&[7, b'e', b'x', b'a', b'm', b'p', b'l', b'e', 3, b'c', b'o', b'm', 0]);
    bytes.extend_from_slice(&[0, 1, 0, 1]);
    // the answer at 29: pointer to 12
    bytes.extend_from_slice(&[0xC0, 0x0C, 0, 1, 0, 1, 0, 0, 0, 60, 0, 4, 93, 184, 216, 34]);
    let a = DnsAnswer::from_buf(&datagram_with(&bytes), 29).unwrap();
    assert_eq!(a.name.name, "example.com");
    assert_eq!(a.name.length, 2);
    assert_eq!(a.ttl, 60);
    assert_eq!(a.data, vec![93, 184, 216, 34]);
}

#[test]
fn answer_whose_data_runs_past_the_datagram_is_truncated() {
    let mut data = [0u8; 512];
    // root name at 497, fixed fields at 498..508, four bytes left, five declared
    data[498..508].copy_from_slice(&[0, 1, 0, 1, 0, 0, 0, 60, 0, 5]);
    assert_eq!(DnsAnswer::from_buf(&data, 497), Err(DnsError::TruncatedBuffer));
    data[507] = 4;
    let a = DnsAnswer::from_buf(&data, 497).unwrap();
    assert_eq!(a.data, vec![0, 0, 0, 0]);
}

#[test]
fn answer_whose_fixed_fields_are_cut_off_is_truncated() {
    let data = [0u8; 512];
    assert_eq!(DnsAnswer::from_buf(&data, 502), Err(DnsError::TruncatedBuffer));
    assert_eq!(DnsAnswer::from_buf(&data, 511), Err(DnsError::TruncatedBuffer));
    assert_eq!(DnsAnswer::from_buf(&data, 512), Err(DnsError::TruncatedBuffer));
    assert_eq!(DnsAnswer::from_buf(&data, 70000), Err(DnsError::TruncatedBuffer));
}

#[test]
fn answer_with_unknown_type_or_class_is_rejected() {
    let bytes = [0, 0, 16, 0, 1, 0, 0, 0, 60, 0, 0];
    assert_eq!(DnsAnswer::from_buf(&datagram_with(&bytes), 0), Err(DnsError::InvalidType));
    let bytes = [0, 0, 1, 0, 9, 0, 0, 0, 60, 0, 0];
    assert_eq!(DnsAnswer::from_buf(&datagram_with(&bytes), 0), Err(DnsError::InvalidClass));
    // an unknown type is named before data that is cut off
    let mut data = [0u8; 512];
    data[498..508].copy_from_slice(&[0, 77, 0, 1, 0, 0, 0, 60, 0xFF, 0xFF]);
    assert_eq!(DnsAnswer::from_buf(&data, 497), Err(DnsError::InvalidType));
}

#[test]
fn answer_with_a_malformed_name_is_rejected() {
    let bytes = [0x80, 0, 0, 1, 0, 1, 0, 0, 0, 60, 0, 0];
    assert_eq!(DnsAnswer::from_buf(&datagram_with(&bytes), 0), Err(DnsError::MalformedName));
}

#[test]
fn answer_validity_asks_for_matching_length() {
    let good = DnsAnswer::new("a", DnsType::A, DnsClass::IN, 1, vec![1, 2, 3, 4]);
    assert!(good.is_valid());
    let wrong_length = DnsAnswer {
        name: DnsName::new("a".to_string()),
        qtype: DnsType::A,
        qclass: DnsClass::IN,
        ttl: 1,
        length: 3,
        data: vec![1, 2, 3, 4],
    };
    assert!(!wrong_length.is_valid());
    let too_much = DnsAnswer::new("a", DnsType::A, DnsClass::IN, 1, vec![0; 65536]);
    assert!(!too_much.is_valid());
    let most = DnsAnswer::new("a", DnsType::A, DnsClass::IN, 1, vec![0; 65535]);
    assert!(most.is_valid());
    assert_eq!(most.as_buf().len(), 3 + 10 + 65535);
    let bad_name = DnsAnswer::new(&"z".repeat(64), DnsType::A, DnsClass::IN, 1, vec![]);
    assert!(!bad_name.is_valid());
}
