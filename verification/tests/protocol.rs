use hermes::buffer::{read_qname, PacketBuffer, VectorPacketBuffer};
use hermes::protocol::{
    DnsHeader, DnsPacket, DnsQuestion, DnsRecord, Ipv4Addr, QueryType, ResultCode,
};

#[test]
fn test_packet() {
    let mut packet = DnsPacket::new();
    packet.header.id = 1337;
    packet.header.response = true;

    packet
        .questions
        .push(DnsQuestion::new(&"google.com".to_string(), QueryType::NS));
    packet.answers.push(DnsRecord::NS {
        domain: "google.com".to_string(),
        host: "ns1.google.com".to_string(),
        ttl: 3600,
    });
    packet.answers.push(DnsRecord::NS {
        domain: "google.com".to_string(),
        host: "ns2.google.com".to_string(),
        ttl: 3600,
    });
    packet.answers.push(DnsRecord::NS {
        domain: "google.com".to_string(),
        host: "ns3.google.com".to_string(),
        ttl: 3600,
    });
    packet.answers.push(DnsRecord::NS {
        domain: "google.com".to_string(),
        host: "ns4.google.com".to_string(),
        ttl: 3600,
    });

    let mut buffer = VectorPacketBuffer::new();
    packet.write(&mut buffer, 0xFFFF).unwrap();

    buffer.seek(0).unwrap();

    let parsed_packet = DnsPacket::from_buffer(&mut buffer).unwrap();

    assert_eq!(packet.questions[0], parsed_packet.questions[0]);
    assert_eq!(packet.answers[0], parsed_packet.answers[0]);
    assert_eq!(packet.answers[1], parsed_packet.answers[1]);
    assert_eq!(packet.answers[2], parsed_packet.answers[2]);
    assert_eq!(packet.answers[3], parsed_packet.answers[3]);
}

#[test]
fn test_querytype_roundtrip_all_numbers() {
    for n in 0..=65535u16 {
        assert_eq!(QueryType::from_num(n).to_num(), n);
    }
    assert_eq!(
        QueryType::from_num(QueryType::UNKNOWN(999).to_num()),
        QueryType::UNKNOWN(999)
    );
    assert_eq!(QueryType::from_num(1), QueryType::A);
    assert_eq!(QueryType::from_num(28), QueryType::AAAA);
}

#[test]
fn test_header_bit_layout() {
    let mut header = DnsHeader::new();
    header.recursion_desired = true;
    header.truncated_message = false;
    header.authoritative_answer = true;
    header.opcode = 2;
    header.response = true;
    header.rescode = ResultCode::NXDOMAIN;
    header.checking_disabled = true;
    header.authed_data = false;
    header.z = false;
    header.recursion_available = true;

    let mut buffer = VectorPacketBuffer::new();
    header.write(&mut buffer).unwrap();

    buffer.seek(0).unwrap();
    let mut decoded = DnsHeader::new();
    decoded.read(&mut buffer).unwrap();

    assert_eq!(header, decoded);
}

#[test]
fn test_truncation_sets_tc_and_counts() {
    let mut packet = DnsPacket::new();
    packet
        .questions
        .push(DnsQuestion::new(&"example.com".to_string(), QueryType::A));
    for i in 0..20u8 {
        packet.answers.push(DnsRecord::A {
            domain: "example.com".to_string(),
            addr: Ipv4Addr::new(10, 0, 0, i),
            ttl: 3600,
        });
    }

    // every answer record takes 27 bytes; the header and question take 41
    let mut buffer = VectorPacketBuffer::new();
    packet.write(&mut buffer, 150).unwrap();
    assert!(packet.header.truncated_message);
    let written = packet.header.answers as usize;
    assert!(written < 20);
    assert_eq!(written, (150 - 41) / 27);

    // the wire image parses back with exactly the counted records
    buffer.seek(0).unwrap();
    let parsed = DnsPacket::from_buffer(&mut buffer).unwrap();
    assert!(parsed.header.truncated_message);
    assert_eq!(parsed.answers.len(), written);
    assert_eq!(parsed.questions.len(), 1);
    // and nothing else follows: the buffer was consumed exactly
    assert!(buffer.read_u8().is_err());
}

#[test]
fn test_codec_roundtrip_mixed_records() {
    let mut packet = DnsPacket::new();
    packet.header.id = 77;
    packet
        .questions
        .push(DnsQuestion::new(&"example.com".to_string(), QueryType::MX));
    packet.answers.push(DnsRecord::MX {
        domain: "example.com".to_string(),
        priority: 10,
        host: "mail.example.com".to_string(),
        ttl: 120,
    });
    packet.answers.push(DnsRecord::TXT {
        domain: "example.com".to_string(),
        data: "hello world".to_string(),
        ttl: 60,
    });
    packet.authorities.push(DnsRecord::SOA {
        domain: "example.com".to_string(),
        mname: "ns1.example.com".to_string(),
        rname: "admin.example.com".to_string(),
        serial: 1,
        refresh: 2,
        retry: 3,
        expire: 4,
        minimum: 5,
        ttl: 600,
    });
    packet.resources.push(DnsRecord::SRV {
        domain: "_sip._tcp.example.com".to_string(),
        priority: 1,
        weight: 2,
        port: 5060,
        host: "sip.example.com".to_string(),
        ttl: 300,
    });
    packet.resources.push(DnsRecord::AAAA {
        domain: "example.com".to_string(),
        addr: hermes::protocol::Ipv6Addr::new(0x2001, 0xdb8, 0, 0, 0, 0, 0, 1),
        ttl: 300,
    });

    let mut buffer = VectorPacketBuffer::new();
    packet.write(&mut buffer, 0xFFFF).unwrap();
    buffer.seek(0).unwrap();
    let parsed = DnsPacket::from_buffer(&mut buffer).unwrap();

    assert_eq!(packet.questions, parsed.questions);
    assert_eq!(packet.answers, parsed.answers);
    assert_eq!(packet.authorities, parsed.authorities);
    assert_eq!(packet.resources, parsed.resources);
}

#[test]
fn test_read_qname_follows_pointer() {
    // "foo" at offset 0, then a pointer back to it at offset 5
    let bytes = vec![3, b'f', b'o', b'o', 0, 0xC0, 0x00];
    let mut buffer = VectorPacketBuffer::from_bytes(bytes);
    buffer.seek(5).unwrap();
    let mut name = String::new();
    read_qname(&mut buffer, &mut name).unwrap();
    assert_eq!(name, "foo");
    assert_eq!(buffer.pos(), 7);
}

#[test]
fn test_read_qname_rejects_pointer_loop() {
    // a pointer that points at itself loops forever without the jump bound
    let bytes = vec![0xC0, 0x00];
    let mut buffer = VectorPacketBuffer::from_bytes(bytes);
    let mut name = String::new();
    assert!(read_qname(&mut buffer, &mut name).is_err());
}

#[test]
fn test_write_qname_rejects_long_label() {
    let mut buffer = VectorPacketBuffer::new();
    let long_label = "a".repeat(64);
    assert!(hermes::buffer::write_qname(&mut buffer, &long_label).is_err());
    let mut buffer2 = VectorPacketBuffer::new();
    let ok_label = "a".repeat(63);
    assert!(hermes::buffer::write_qname(&mut buffer2, &ok_label).is_ok());
}

#[test]
fn test_ipv4_to_string() {
    assert_eq!(Ipv4Addr::new(127, 0, 0, 1).to_string(), "127.0.0.1");
    assert_eq!(Ipv4Addr::new(255, 255, 255, 255).to_string(), "255.255.255.255");
    assert_eq!(Ipv4Addr::new(0, 0, 0, 0).to_string(), "0.0.0.0");
    assert_eq!(Ipv4Addr::new(198, 41, 0, 4).to_string(), "198.41.0.4");
}

#[test]
fn test_short_buffer_is_an_error_not_a_panic() {
    // a header that declares one answer but provides none
    let mut packet = DnsPacket::new();
    packet.header.answers = 1;
    let mut buffer = VectorPacketBuffer::new();
    // write only the header bytes
    packet.header.write(&mut buffer).unwrap();
    buffer.seek(0).unwrap();
    assert!(DnsPacket::from_buffer(&mut buffer).is_err());
}
