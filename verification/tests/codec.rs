use dns_relay::codes::{Qclass, Qtype};
use dns_relay::header::DnsHeader;
use dns_relay::message::{DnsPacket, DnsQuestion, DnsRecord};
use dns_relay::name::{decode_domain_name, encode_domain_name, is_valid_name};

fn sample_header() -> DnsHeader {
    let mut h = DnsHeader::new();
    h.id = 0x1234;
    h.qr = true;
    h.opcode = 4;
    h.aa = true;
    h.tc = false;
    h.rd = true;
    h.ra = true;
    h.z = 2;
    h.rcode = 3;
    h.qdcount = 2;
    h.ancount = 1;
    h.nscount = 0;
    h.arcount = 5;
    h
}

#[test]
fn header_example_decodes() {
    // 04 D2 81 80 00 01 00 01 00 00 00 00
    let bytes: Vec<u8> = vec![0x04, 0xD2, 0x81, 0x80, 0x00, 0x01, 0x00, 0x01, 0x00, 0x00, 0x00, 0x00];
    let h = DnsHeader::parse(&bytes).unwrap();
    assert_eq!(h.id, 1234);
    assert!(h.qr);
    assert_eq!(h.opcode, 0);
    assert_eq!(h.rcode, 0);
    assert_eq!(h.qdcount, 1);
    assert_eq!(h.ancount, 1);
    assert!(h.rd);
    assert!(h.ra);
    assert!(!h.aa);
    assert!(!h.tc);
    assert_eq!(h.z, 0);
    assert_eq!(h.nscount, 0);
    assert_eq!(h.arcount, 0);
}

#[test]
fn header_too_short_is_rejected() {
    let bytes: Vec<u8> = vec![0x04, 0xD2, 0x81];
    assert!(DnsHeader::parse(&bytes).is_none());
}

#[test]
fn header_round_trip() {
    let h = sample_header();
    let bytes = h.to_bytes();
    assert_eq!(bytes.len(), 12);
    let back = DnsHeader::parse(&bytes).unwrap();
    assert_eq!(back, h);
}

#[test]
fn header_example_re_encodes() {
    let bytes: Vec<u8> = vec![0x04, 0xD2, 0x81, 0x80, 0x00, 0x01, 0x00, 0x01, 0x00, 0x00, 0x00, 0x00];
    let h = DnsHeader::parse(&bytes).unwrap();
    assert_eq!(h.to_bytes(), bytes);
}

#[test]
fn qtype_codes_round_trip() {
    assert!(matches!(Qtype::from(1), Qtype::A));
    assert!(matches!(Qtype::from(5), Qtype::CNAME));
    assert!(matches!(Qtype::from(15), Qtype::MX));
    assert!(matches!(Qtype::from(16), Qtype::TXT));
    assert_eq!(Qtype::from(1).code(), 1);
    assert_eq!(Qtype::from(16).code(), 16);
    // an unknown code decodes to the explicit sentinel, keeping the value
    assert_eq!(Qtype::from(99), Qtype::Unrecognized(99));
    assert_eq!(Qtype::from(99).code(), 99);
}

#[test]
fn qclass_codes_round_trip() {
    assert!(matches!(Qclass::from(1), Qclass::IN));
    assert!(matches!(Qclass::from(4), Qclass::HS));
    assert!(matches!(Qclass::from(255), Qclass::ANY));
    assert_eq!(Qclass::from(255).code(), 255);
    assert_eq!(Qclass::from(7), Qclass::Unrecognized(7));
    assert_eq!(Qclass::from(7).code(), 7);
}

#[test]
fn name_encodes_length_prefixed() {
    let name: Vec<u8> = b"example.com".to_vec();
    let bytes = encode_domain_name(&name);
    let mut expected: Vec<u8> = vec![7];
    expected.extend_from_slice(b"example");
    expected.push(3);
    expected.extend_from_slice(b"com");
    expected.push(0);
    assert_eq!(bytes, expected);
}

#[test]
fn name_round_trip() {
    let name: Vec<u8> = b"www.example.com".to_vec();
    let bytes = encode_domain_name(&name);
    let (back, consumed) = decode_domain_name(&bytes, 0).unwrap();
    assert_eq!(back, name);
    assert_eq!(consumed, bytes.len());
}

#[test]
fn root_name_round_trip() {
    let name: Vec<u8> = Vec::new();
    let bytes = encode_domain_name(&name);
    assert_eq!(bytes, vec![0u8]);
    let (back, consumed) = decode_domain_name(&bytes, 0).unwrap();
    assert!(back.is_empty());
    assert_eq!(consumed, 1);
}

#[test]
fn name_compression_expands_pointer() {
    // a 12-byte header, "foo.bar" at offset 12, "www" + a pointer to 12
    let mut msg: Vec<u8> = vec![0; 12];
    msg.push(3);
    msg.extend_from_slice(b"foo");
    msg.push(3);
    msg.extend_from_slice(b"bar");
    msg.push(0);
    let ptr_at = msg.len();
    msg.push(3);
    msg.extend_from_slice(b"www");
    msg.push(0xC0);
    msg.push(12);
    let (expanded, _) = decode_domain_name(&msg, 12).unwrap();
    assert_eq!(expanded, b"foo.bar".to_vec());
    let (name, consumed) = decode_domain_name(&msg, ptr_at).unwrap();
    // the labels before the pointer, then the fully expanded name at the target
    assert_eq!(name, b"www.foo.bar".to_vec());
    // only the pointer's own two bytes count, not the bytes at its target
    assert_eq!(consumed, 6);
}

#[test]
fn name_truncated_label_is_rejected() {
    let msg: Vec<u8> = vec![5, b'a'];
    assert!(decode_domain_name(&msg, 0).is_none());
}

#[test]
fn name_pointer_loop_is_rejected() {
    // a pointer to itself never terminates
    let msg: Vec<u8> = vec![0xC0, 0x00];
    assert!(decode_domain_name(&msg, 0).is_none());
}

#[test]
fn name_pointer_past_end_is_rejected() {
    let msg: Vec<u8> = vec![0xC0, 0x50];
    assert!(decode_domain_name(&msg, 0).is_none());
}

#[test]
fn name_validity() {
    assert!(is_valid_name(&Vec::new()));
    assert!(is_valid_name(&b"a.bc.def".to_vec()));
    assert!(!is_valid_name(&b".a".to_vec()));
    assert!(!is_valid_name(&b"a.".to_vec()));
    assert!(!is_valid_name(&b"a..b".to_vec()));
    let long_label: Vec<u8> = vec![b'x'; 200];
    assert!(!is_valid_name(&long_label));
    let just_fits: Vec<u8> = vec![b'x'; 191];
    assert!(is_valid_name(&just_fits));
}

#[test]
fn question_section_round_trip() {
    let q0 = DnsQuestion::new(b"example.com".to_vec(), Qtype::A, Qclass::IN);
    let q1 = DnsQuestion::new(b"mail.example.com".to_vec(), Qtype::MX, Qclass::ANY);
    let mut msg: Vec<u8> = vec![0; 12];
    msg.extend(q0.to_bytes());
    msg.extend(q1.to_bytes());
    let (qs, consumed) = DnsQuestion::parse(&msg, 12, 2).unwrap();
    assert_eq!(qs.len(), 2);
    assert_eq!(consumed, msg.len() - 12);
    assert_eq!(qs[0].qname, b"example.com".to_vec());
    assert!(matches!(qs[0].qtype, Qtype::A));
    assert!(matches!(qs[0].qclass, Qclass::IN));
    assert_eq!(qs[1].qname, b"mail.example.com".to_vec());
    assert!(matches!(qs[1].qtype, Qtype::MX));
    assert!(matches!(qs[1].qclass, Qclass::ANY));
}

#[test]
fn question_with_pointer_keeps_section_arithmetic() {
    // one question spelled out, a second one whose name is just a pointer
    let mut msg: Vec<u8> = vec![0; 12];
    msg.push(3);
    msg.extend_from_slice(b"abc");
    msg.push(0);
    msg.extend_from_slice(&[0x00, 0x01, 0x00, 0x01]);
    msg.extend_from_slice(&[0xC0, 12]);
    msg.extend_from_slice(&[0x00, 0x0F, 0x00, 0xFF]);
    let (qs, consumed) = DnsQuestion::parse(&msg, 12, 2).unwrap();
    assert_eq!(qs.len(), 2);
    assert_eq!(consumed, 9 + 6);
    assert_eq!(qs[0].qname, b"abc".to_vec());
    assert_eq!(qs[1].qname, b"abc".to_vec());
    assert!(matches!(qs[1].qtype, Qtype::MX));
    assert!(matches!(qs[1].qclass, Qclass::ANY));
}

#[test]
fn record_round_trip() {
    let rec = DnsRecord::new(
        b"example.com".to_vec(),
        Qtype::A,
        Qclass::IN,
        3600,
        4,
        vec![93, 184, 216, 34],
    );
    let bytes = rec.to_bytes();
    let (rs, consumed) = DnsRecord::parse(&bytes, 0, 1).unwrap();
    assert_eq!(rs.len(), 1);
    assert_eq!(consumed, bytes.len());
    assert_eq!(rs[0].qname, b"example.com".to_vec());
    assert!(matches!(rs[0].qtype, Qtype::A));
    assert!(matches!(rs[0].qclass, Qclass::IN));
    assert_eq!(rs[0].ttl, 3600);
    assert_eq!(rs[0].rdlen, 4);
    assert_eq!(rs[0].rdata, vec![93, 184, 216, 34]);
}

#[test]
fn record_truncated_rdata_is_rejected() {
    let rec = DnsRecord::new(b"a".to_vec(), Qtype::A, Qclass::IN, 60, 4, vec![1, 2, 3, 4]);
    let mut bytes = rec.to_bytes();
    bytes.truncate(bytes.len() - 2);
    assert!(DnsRecord::parse(&bytes, 0, 1).is_none());
}

#[test]
fn packet_round_trip() {
    let mut packet = DnsPacket::new();
    packet.header.id = 99;
    packet.header.rd = true;
    packet.header.qr = true;
    packet.header.qdcount = 2;
    packet.header.ancount = 1;
    packet.questions.push(DnsQuestion::new(b"example.com".to_vec(), Qtype::A, Qclass::IN));
    packet.questions.push(DnsQuestion::new(b"foo.io".to_vec(), Qtype::TXT, Qclass::CH));
    packet.answers.push(DnsRecord::new(
        b"example.com".to_vec(),
        Qtype::A,
        Qclass::IN,
        120,
        4,
        vec![10, 0, 0, 1],
    ));
    assert!(packet.is_encodable());
    let bytes = packet.to_bytes();
    let back = DnsPacket::parse(&bytes).unwrap();
    assert_eq!(back.header, packet.header);
    assert_eq!(back.questions.len(), 2);
    assert_eq!(back.questions[0].qname, b"example.com".to_vec());
    assert!(matches!(back.questions[1].qtype, Qtype::TXT));
    assert!(matches!(back.questions[1].qclass, Qclass::CH));
    assert_eq!(back.answers.len(), 1);
    assert_eq!(back.answers[0].ttl, 120);
    assert_eq!(back.answers[0].rdata, vec![10, 0, 0, 1]);
    // the round trip is exact at the byte level too
    assert_eq!(back.to_bytes(), bytes);
}

#[test]
fn encode_recomputes_counts() {
    // whatever the header fields held, the wire counts equal the lists
    let mut packet = DnsPacket::new();
    packet.header.id = 7;
    packet.header.qdcount = 50;
    packet.header.ancount = 9;
    packet.questions.push(DnsQuestion::new(b"a.b".to_vec(), Qtype::A, Qclass::IN));
    let bytes = packet.to_bytes();
    let h = DnsHeader::parse(&bytes).unwrap();
    assert_eq!(h.qdcount, 1);
    assert_eq!(h.ancount, 0);
}

#[test]
fn packet_truncated_section_is_rejected() {
    let mut packet = DnsPacket::new();
    packet.header.qdcount = 1;
    packet.questions.push(DnsQuestion::new(b"abc".to_vec(), Qtype::A, Qclass::IN));
    let mut bytes = packet.to_bytes();
    bytes.truncate(14);
    assert!(DnsPacket::parse(&bytes).is_none());
}

#[test]
fn packet_with_long_label_is_not_encodable() {
    let mut packet = DnsPacket::new();
    packet.questions.push(DnsQuestion::new(vec![b'x'; 200], Qtype::A, Qclass::IN));
    assert!(!packet.is_encodable());
}

#[test]
fn unknown_codes_survive_decode() {
    let mut packet = DnsPacket::new();
    packet.questions.push(DnsQuestion::new(
        b"odd.example".to_vec(),
        Qtype::Unrecognized(777),
        Qclass::Unrecognized(32),
    ));
    let bytes = packet.to_bytes();
    let back = DnsPacket::parse(&bytes).unwrap();
    assert_eq!(back.questions[0].qtype, Qtype::Unrecognized(777));
    assert_eq!(back.questions[0].qclass, Qclass::Unrecognized(32));
}
