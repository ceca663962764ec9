use dns_resolver::packet::DnsPacket;
use dns_resolver::pb::PacketBuffer;
use dns_resolver::question::{DnsQuestion, QueryType};
use dns_resolver::rc::ResultCode;
use dns_resolver::record::DnsRecord;
use dns_resolver::resolver::{build_lookup_query, build_response, root_server_addr, NextStep};

fn nxdomain_reply() -> DnsPacket {
    let mut reply = DnsPacket::new();
    reply.header.response = true;
    reply.header.rescode = ResultCode::NXDOMAIN;
    reply
}

fn referral_reply(zone: &str, ns_host: &str, glue: Option<[u8; 4]>) -> DnsPacket {
    let mut reply = DnsPacket::new();
    reply.header.response = true;
    reply.authorities.push(DnsRecord::NS {
        domain: zone.to_string(),
        host: ns_host.to_string(),
        ttl: 172800,
    });
    if let Some(addr) = glue {
        reply.resources.push(DnsRecord::A {
            domain: ns_host.to_string(),
            addr,
            ttl: 172800,
        });
    }
    reply
}

fn answer_reply(name: &str, addr: [u8; 4]) -> DnsPacket {
    let mut reply = DnsPacket::new();
    reply.header.response = true;
    reply.answers.push(DnsRecord::A { domain: name.to_string(), addr, ttl: 3600 });
    reply
}

/// Drive the resolution loop against a fixed transcript of replies, the
/// way the transport loop does against real upstream servers.  Returns the
/// final reply, the number of exchanges, and the address each exchange
/// targeted.
fn resolve_scripted(qname: &str, replies: &[DnsPacket]) -> (DnsPacket, usize, Vec<[u8; 4]>) {
    let mut ns = root_server_addr();
    let mut targets = Vec::new();
    let mut exchanges = 0;
    for reply in replies {
        targets.push(ns);
        exchanges += 1;
        match reply.next_step(qname) {
            NextStep::Finished => return (reply.clone(), exchanges, targets),
            NextStep::QueryNameserver(addr) => {
                ns = addr;
            }
            NextStep::ResolveNameserver(_) => {
                panic!("scripted chain does not expect a nested resolution");
            }
        }
    }
    panic!("transcript exhausted without a terminal reply");
}

#[test]
fn nxdomain_is_terminal_immediately() {
    let reply = nxdomain_reply();
    assert_eq!(reply.next_step("nowhere.example"), NextStep::Finished);

    let (last, exchanges, targets) = resolve_scripted("nowhere.example", &[reply]);
    assert_eq!(exchanges, 1);
    assert_eq!(targets, vec![root_server_addr()]);
    assert_eq!(last.header.rescode, ResultCode::NXDOMAIN);
}

#[test]
fn referral_chain_is_followed_hop_by_hop() {
    let tld = referral_reply("com", "a.gtld-servers.net", Some([192, 5, 6, 30]));
    let auth = referral_reply("example.com", "ns1.example.com", Some([10, 9, 8, 7]));
    let final_answer = answer_reply("example.com", [93, 184, 216, 34]);

    let (last, exchanges, targets) =
        resolve_scripted("example.com", &[tld, auth, final_answer]);
    assert_eq!(exchanges, 3);
    assert_eq!(targets, vec![root_server_addr(), [192, 5, 6, 30], [10, 9, 8, 7]]);
    assert_eq!(
        last.answers[0],
        DnsRecord::A { domain: "example.com".to_string(), addr: [93, 184, 216, 34], ttl: 3600 }
    );
}

#[test]
fn referral_without_glue_asks_for_the_nameserver() {
    let reply = referral_reply("com", "a.gtld-servers.net", None);
    assert_eq!(
        reply.next_step("example.com"),
        NextStep::ResolveNameserver("a.gtld-servers.net".to_string())
    );
}

#[test]
fn reply_with_no_referral_is_terminal() {
    let mut reply = DnsPacket::new();
    reply.header.response = true;
    reply.header.rescode = ResultCode::SERVFAIL;
    assert_eq!(reply.next_step("example.com"), NextStep::Finished);
}

#[test]
fn referral_for_unrelated_zone_is_ignored() {
    let reply = referral_reply("org", "a.org-servers.net", Some([199, 19, 56, 1]));
    // The NS record's zone is not a suffix of the query name.
    assert_eq!(reply.next_step("example.com"), NextStep::Finished);
}

#[test]
fn first_a_record_is_picked() {
    let mut reply = DnsPacket::new();
    reply.answers.push(DnsRecord::NS {
        domain: "example.com".to_string(),
        host: "ns1.example.com".to_string(),
        ttl: 60,
    });
    reply.answers.push(DnsRecord::A {
        domain: "example.com".to_string(),
        addr: [1, 2, 3, 4],
        ttl: 60,
    });
    reply.answers.push(DnsRecord::A {
        domain: "example.com".to_string(),
        addr: [5, 6, 7, 8],
        ttl: 60,
    });
    assert_eq!(reply.get_random_a(), Some([1, 2, 3, 4]));
    assert_eq!(DnsPacket::new().get_random_a(), None);
}

#[test]
fn lookup_query_has_one_question() {
    let query = build_lookup_query("example.com", QueryType::MX);
    assert_eq!(query.questions.len(), 1);
    assert_eq!(query.questions[0], DnsQuestion::new("example.com".to_string(), QueryType::MX));
    assert_eq!(query.header.questions, 1);
    assert!(query.header.recursion_desired);
    assert!(!query.header.response);
}

#[test]
fn response_to_empty_request_is_formerr() {
    let mut request = DnsPacket::new();
    request.header.id = 0x4242;
    let response = build_response(request, None);
    assert_eq!(response.header.id, 0x4242);
    assert_eq!(response.header.rescode, ResultCode::FORMERR);
    assert!(response.header.response);
    assert!(response.questions.is_empty());
}

#[test]
fn response_to_failed_resolution_is_servfail() {
    let mut request = DnsPacket::new();
    request.header.id = 7;
    request.questions.push(DnsQuestion::new("example.com".to_string(), QueryType::A));
    let response = build_response(request, None);
    assert_eq!(response.header.rescode, ResultCode::SERVFAIL);
    assert!(response.answers.is_empty());
}

#[test]
fn end_to_end_single_a_question() {
    // A raw client datagram: 12-byte header with one question, then the
    // question for "example.com" type A (type number one).
    let mut req_buffer = PacketBuffer::new();
    let raw_header: [u8; 12] = [0xAB, 0xCD, 0x01, 0x00, 0, 1, 0, 0, 0, 0, 0, 0];
    req_buffer.buf[..12].copy_from_slice(&raw_header);
    let raw_question: &[u8] = &[
        7, b'e', b'x', b'a', b'm', b'p', b'l', b'e', 3, b'c', b'o', b'm', 0, 0, 1, 0, 1,
    ];
    req_buffer.buf[12..12 + raw_question.len()].copy_from_slice(raw_question);

    let request = DnsPacket::from_buffer(&mut req_buffer).unwrap();
    assert_eq!(request.header.id, 0xABCD);
    assert_eq!(request.questions.len(), 1);
    assert_eq!(request.questions[0].name, "example.com");
    assert_eq!(request.questions[0].qtype, QueryType::A);

    // A stub resolver returns one A record for the name.
    let stub_result = answer_reply("example.com", [93, 184, 216, 34]);
    let mut response = build_response(request, Some(stub_result));

    let mut res_buffer = PacketBuffer::new();
    response.write(&mut res_buffer).unwrap();
    res_buffer.pos = 0;
    let on_the_wire = DnsPacket::from_buffer(&mut res_buffer).unwrap();
    assert_eq!(on_the_wire.header.id, 0xABCD);
    assert_eq!(on_the_wire.header.answers, 1);
    assert_eq!(on_the_wire.header.rescode, ResultCode::NOERROR);
    assert_eq!(
        on_the_wire.answers[0],
        DnsRecord::A { domain: "example.com".to_string(), addr: [93, 184, 216, 34], ttl: 3600 }
    );
}
