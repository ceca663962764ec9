use dns_resolver::header::DnsHeader;
use dns_resolver::packet::DnsPacket;
use dns_resolver::pb::{BufferError, PacketBuffer};
use dns_resolver::question::{DnsQuestion, QueryType};
use dns_resolver::rc::ResultCode;
use dns_resolver::record::DnsRecord;

#[test]
fn u16_u32_roundtrip() {
    let mut buf = PacketBuffer::new();
    buf.write_u16(0xBEEF).unwrap();
    buf.write_u32(0xDEADBEEF).unwrap();
    buf.pos = 0;
    assert_eq!(buf.read_u16().unwrap(), 0xBEEF);
    assert_eq!(buf.read_u32().unwrap(), 0xDEADBEEF);
}

#[test]
fn write_past_end_fails() {
    let mut buf = PacketBuffer::new();
    buf.pos = 511;
    assert!(buf.write_u8(1).is_ok());
    assert!(matches!(buf.write_u8(2), Err(BufferError::EndOfBuffer)));
}

#[test]
fn get_range_excludes_last_byte() {
    let buf = PacketBuffer::new();
    // The strict bound check refuses a range that would touch the very
    // last byte, on purpose.
    assert!(buf.get_range(0, 511).is_ok());
    assert!(matches!(buf.get_range(511, 1), Err(BufferError::EndOfBuffer)));
    assert!(matches!(buf.get_range(0, 512), Err(BufferError::EndOfBuffer)));
}

#[test]
fn name_roundtrip_www_example_com() {
    let mut buf = PacketBuffer::new();
    buf.write_qname("www.example.com").unwrap();
    buf.pos = 0;
    let mut out = String::new();
    buf.read_qname(&mut out).unwrap();
    assert_eq!(out, "www.example.com");
}

#[test]
fn name_read_lowercases() {
    let mut buf = PacketBuffer::new();
    buf.write_qname("WWW.Example.COM").unwrap();
    buf.pos = 0;
    let mut out = String::new();
    buf.read_qname(&mut out).unwrap();
    assert_eq!(out, "www.example.com");
}

#[test]
fn self_pointer_hits_jump_limit() {
    let mut buf = PacketBuffer::new();
    // A compression pointer that targets itself: a one-hop cycle.
    buf.buf[0] = 0xC0;
    buf.buf[1] = 0x00;
    let mut out = String::new();
    let r = buf.read_qname(&mut out);
    assert!(matches!(r, Err(BufferError::JumpsLimitExceeded(5))));
}

#[test]
fn label_length_boundary() {
    let long63 = "a".repeat(63);
    let mut buf = PacketBuffer::new();
    assert!(buf.write_qname(&long63).is_ok());

    let long64 = "a".repeat(64);
    let mut buf2 = PacketBuffer::new();
    assert!(matches!(buf2.write_qname(&long64), Err(BufferError::LabelTooLong)));
}

#[test]
fn header_bit_packing_roundtrip() {
    let mut header = DnsHeader::new();
    header.id = 0x1A2B;
    header.recursion_desired = true;
    header.truncated_message = false;
    header.authoritative_answer = true;
    header.opcode = 0b1010;
    header.response = true;
    header.rescode = ResultCode::NXDOMAIN;
    header.checking_disabled = true;
    header.authed_data = false;
    header.z = true;
    header.recursion_available = false;
    header.questions = 3;
    header.answers = 7;
    header.authoritative_entries = 1;
    header.resource_entries = 2;

    let mut buf = PacketBuffer::new();
    header.write(&mut buf).unwrap();
    buf.pos = 0;
    let mut back = DnsHeader::new();
    back.read(&mut buf).unwrap();
    assert_eq!(back, header);
}

#[test]
fn query_type_number_table() {
    assert_eq!(QueryType::A.to_num(), 1);
    assert_eq!(QueryType::NS.to_num(), 2);
    assert_eq!(QueryType::CNAME.to_num(), 5);
    assert_eq!(QueryType::MX.to_num(), 15);
    assert_eq!(QueryType::AAAA.to_num(), 28);
    assert_eq!(QueryType::from_num(1), QueryType::A);
    assert_eq!(QueryType::from_num(28), QueryType::AAAA);
    assert_eq!(QueryType::from_num(99), QueryType::UNKNOWN(99));
    assert_eq!(QueryType::from_num(QueryType::UNKNOWN(300).to_num()), QueryType::UNKNOWN(300));
}

#[test]
fn result_code_table() {
    assert_eq!(ResultCode::from_num(0), ResultCode::NOERROR);
    assert_eq!(ResultCode::from_num(1), ResultCode::FORMERR);
    assert_eq!(ResultCode::from_num(2), ResultCode::SERVFAIL);
    assert_eq!(ResultCode::from_num(3), ResultCode::NXDOMAIN);
    assert_eq!(ResultCode::from_num(4), ResultCode::NOTIMP);
    assert_eq!(ResultCode::from_num(5), ResultCode::REFUSED);
    assert_eq!(ResultCode::from_num(9), ResultCode::NOERROR);
    assert_eq!(ResultCode::NXDOMAIN.to_num(), 3);
}

fn sample_packet() -> DnsPacket {
    let mut packet = DnsPacket::new();
    packet.header.id = 0x77AA;
    packet.questions.push(DnsQuestion::new("example.com".to_string(), QueryType::A));
    packet.answers.push(DnsRecord::A {
        domain: "example.com".to_string(),
        addr: [93, 184, 216, 34],
        ttl: 3600,
    });
    packet.answers.push(DnsRecord::AAAA {
        domain: "example.com".to_string(),
        addr: [0x2606, 0x2800, 0x220, 0x1, 0x248, 0x1893, 0x25c8, 0x1946],
        ttl: 60,
    });
    packet.authorities.push(DnsRecord::NS {
        domain: "example.com".to_string(),
        host: "ns1.example.com".to_string(),
        ttl: 86400,
    });
    packet.answers.push(DnsRecord::CNAME {
        domain: "alias.example.com".to_string(),
        host: "example.com".to_string(),
        ttl: 30,
    });
    packet.answers.push(DnsRecord::MX {
        domain: "example.com".to_string(),
        priority: 10,
        host: "mail.example.com".to_string(),
        ttl: 120,
    });
    packet.resources.push(DnsRecord::A {
        domain: "ns1.example.com".to_string(),
        addr: [10, 1, 2, 3],
        ttl: 86400,
    });
    packet
}

#[test]
fn packet_roundtrip_mixed_records() {
    let mut packet = sample_packet();
    let mut buf = PacketBuffer::new();
    packet.write(&mut buf).unwrap();
    buf.pos = 0;
    let back = DnsPacket::from_buffer(&mut buf).unwrap();
    // The encoder derives the counts, so the decoded header carries them.
    assert_eq!(back.header.questions, 1);
    assert_eq!(back.header.answers, 4);
    assert_eq!(back.header.authoritative_entries, 1);
    assert_eq!(back.header.resource_entries, 1);
    assert_eq!(back.header, packet.header);
    assert_eq!(back.questions, packet.questions);
    assert_eq!(back.answers, packet.answers);
    assert_eq!(back.authorities, packet.authorities);
    assert_eq!(back.resources, packet.resources);
}

#[test]
fn unknown_record_is_not_roundtrippable() {
    let unknown = DnsRecord::UNKNOWN {
        domain: "odd.example.com".to_string(),
        qtype: 99,
        data_len: 4,
        ttl: 7,
    };
    let mut packet = DnsPacket::new();
    packet.answers.push(unknown.clone());
    let mut buf = PacketBuffer::new();
    packet.write(&mut buf).unwrap();
    buf.pos = 0;
    let back = DnsPacket::from_buffer(&mut buf).unwrap();
    // The encoder emits nothing for an UNKNOWN record, so what the decoder
    // finds at that spot is the zeroed buffer, not the original record.
    assert_eq!(back.header.answers, 1);
    assert_ne!(back.answers[0], unknown);
    assert_eq!(
        back.answers[0],
        DnsRecord::UNKNOWN { domain: String::new(), qtype: 0, data_len: 0, ttl: 0 }
    );
}

#[test]
fn stale_counts_are_recomputed_on_encode() {
    let mut packet = sample_packet();
    // Stale stored counts: the encoder must ignore every one of them.
    packet.header.questions = 40;
    packet.header.answers = 0;
    packet.header.authoritative_entries = 9;
    packet.header.resource_entries = 77;
    let mut buf = PacketBuffer::new();
    packet.write(&mut buf).unwrap();
    buf.pos = 0;
    let back = DnsPacket::from_buffer(&mut buf).unwrap();
    assert_eq!(back.header.questions, 1);
    assert_eq!(back.header.answers, 4);
    assert_eq!(back.header.authoritative_entries, 1);
    assert_eq!(back.header.resource_entries, 1);
    assert_eq!(back.answers, packet.answers);
}

#[test]
fn question_class_is_written_as_one() {
    let q = DnsQuestion::new("a.b".to_string(), QueryType::A);
    let mut buf = PacketBuffer::new();
    q.write(&mut buf).unwrap();
    // name: 1 'a' 1 'b' 0, type 0 1, class 0 1
    assert_eq!(&buf.buf[..9], &[1, b'a', 1, b'b', 0, 0, 1, 0, 1]);
}

#[test]
fn record_read_skips_unknown_payload() {
    let mut buf = PacketBuffer::new();
    // name "x", type 200 (unknown), class 1, ttl 9, data_len 3, payload.
    buf.write_qname("x").unwrap();
    buf.write_u16(200).unwrap();
    buf.write_u16(1).unwrap();
    buf.write_u32(9).unwrap();
    buf.write_u16(3).unwrap();
    buf.write_u8(0xAA).unwrap();
    buf.write_u8(0xBB).unwrap();
    buf.write_u8(0xCC).unwrap();
    let end = buf.pos;
    buf.pos = 0;
    let rec = DnsRecord::read(&mut buf).unwrap();
    assert_eq!(
        rec,
        DnsRecord::UNKNOWN { domain: "x".to_string(), qtype: 200, data_len: 3, ttl: 9 }
    );
    assert_eq!(buf.pos, end);
}

#[test]
fn compressed_name_is_followed() {
    let mut buf = PacketBuffer::new();
    buf.write_qname("example.com").unwrap();
    let after_first = buf.pos;
    // A pointer back to offset 0, where the name above starts.
    buf.write_u8(0xC0).unwrap();
    buf.write_u8(0x00).unwrap();
    buf.pos = after_first;
    let mut out = String::new();
    buf.read_qname(&mut out).unwrap();
    assert_eq!(out, "example.com");
    // The cursor rests right past the two pointer bytes.
    assert_eq!(buf.pos, after_first + 2);
}

#[test]
fn non_ascii_label_is_lossily_decoded_and_lowercased() {
    let mut buf = PacketBuffer::new();
    // One label of three bytes: an uppercase E-acute in UTF-8, then an
    // invalid byte.  The decoder must lowercase the letter and replace the
    // invalid byte, not hand the bytes through.
    buf.buf[0] = 3;
    buf.buf[1] = 0xC3;
    buf.buf[2] = 0x89;
    buf.buf[3] = 0xFF;
    buf.buf[4] = 0;
    let mut out = String::new();
    buf.read_qname(&mut out).unwrap();
    assert_eq!(out, "\u{e9}\u{fffd}");
}

#[test]
fn empty_name_writes_two_zero_bytes() {
    let mut buf = PacketBuffer::new();
    // The empty name splits into one empty label, so the encoder emits its
    // zero length byte and then the terminator.
    buf.write_qname("").unwrap();
    assert_eq!(buf.pos, 2);
    assert_eq!(&buf.buf[..2], &[0, 0]);
    // The decoder stops at the first zero byte: the terminator alone.
    buf.pos = 0;
    let mut out = String::new();
    buf.read_qname(&mut out).unwrap();
    assert_eq!(out, "");
    assert_eq!(buf.pos, 1);
}
