//! The decision core of the iterative resolver: what to do with one
//! upstream reply, how to build the upstream query, and how to assemble the
//! final response to the client.  The surrounding transport loop performs
//! the datagram exchanges and feeds every reply back in.

use vstd::prelude::*;
use vstd::string::StringExecFns;
use crate::packet::{DnsPacket, first_resolved_ns, first_ns_host};
use crate::question::{DnsQuestion, QueryType, QuestionModel};
use crate::rc::ResultCode;
use crate::record::{DnsRecord, RecordModel};

verus! {

/// The address resolution starts from: a.root-servers.net.
pub fn root_server_addr() -> (r: [u8; 4])
    ensures
        r@ == seq![198u8, 41u8, 0u8, 4u8],
{
    let r = [198u8, 41u8, 0u8, 4u8];
    proof {
        assert(r@ =~= seq![198u8, 41u8, 0u8, 4u8]);
    }
    r
}

/// What the resolution loop does after one upstream exchange: stop and
/// return the last reply, query a better nameserver by address, or first
/// resolve a nameserver's own name starting over from the root.
#[derive(Debug, Clone, PartialEq, Eq)]
pub enum NextStep {
    Finished,
    QueryNameserver([u8; 4]),
    ResolveNameserver(String),
}

/// The reply is terminal: it answers with no error, or it authoritatively
/// says the name does not exist.
pub open spec fn terminal_reply(m: crate::packet::PacketModel) -> bool {
    (m.answers.len() > 0 && m.header.rescode == ResultCode::NOERROR) || m.header.rescode
        == ResultCode::NXDOMAIN
}

impl DnsPacket {
    /// Decide the next step of the resolution loop from one upstream
    /// reply.  An answered query and an authoritative name-does-not-exist
    /// reply are both terminal; otherwise the best referral with an
    /// address is followed, then a referral by name, and a reply with no
    /// usable referral is returned as-is.
    pub fn next_step(&self, qname: &str) -> (r: NextStep)
        ensures
            terminal_reply(self@) ==> r == NextStep::Finished,
            match r {
                NextStep::Finished => terminal_reply(self@) || (first_resolved_ns(
                    self@.authorities,
                    self@.resources,
                    qname@,
                ) is None && first_ns_host(self@.authorities, qname@) is None),
                NextStep::QueryNameserver(a) => !terminal_reply(self@) && first_resolved_ns(
                    self@.authorities,
                    self@.resources,
                    qname@,
                ) == Some(a@),
                NextStep::ResolveNameserver(h) => !terminal_reply(self@) && first_resolved_ns(
                    self@.authorities,
                    self@.resources,
                    qname@,
                ) is None && first_ns_host(self@.authorities, qname@) == Some(h@),
            },
    {
        if self.answers.len() > 0 && self.header.rescode == ResultCode::NOERROR {
            return NextStep::Finished;
        }
        if self.header.rescode == ResultCode::NXDOMAIN {
            return NextStep::Finished;
        }
        match self.get_resolved_ns(qname) {
            Some(addr) => NextStep::QueryNameserver(addr),
            None => match self.get_unresolved_ns(qname) {
                Some(host) => NextStep::ResolveNameserver(String::from_str(host)),
                None => NextStep::Finished,
            },
        }
    }
}

/// Relies on `rand::random`: a fresh query id; nothing is promised of the
/// value drawn.
#[verifier::external_body]
fn random_u16() -> u16 {
    rand::random()
}

/// Build the packet for one upstream exchange: a single question carrying
/// the query name and type, a randomized id, and recursion desired.
pub fn build_lookup_query(qname: &str, qtype: QueryType) -> (r: DnsPacket)
    ensures
        r@.questions == seq![QuestionModel { name: qname@, qtype }],
        r.header.questions == 1,
        r.header.recursion_desired,
        !r.header.response,
        r.header.rescode == ResultCode::NOERROR,
        r@.answers.len() == 0,
        r@.authorities.len() == 0,
        r@.resources.len() == 0,
{
    let mut packet = DnsPacket::new();
    packet.header.id = random_u16();
    packet.header.questions = 1;
    packet.header.recursion_desired = true;
    packet.questions.push(DnsQuestion::new(String::from_str(qname), qtype));
    proof {
        assert(packet@.questions =~= seq![QuestionModel { name: qname@, qtype }]);
    }
    packet
}

/// Assemble the reply to the client.  The reply echoes the request id and
/// sets the recursion and response flags.  Only the first question of the
/// request is answered; a request without a question is a format error; a
/// failed resolution is a server failure; otherwise the resolver's answer
/// sections and response code are carried over.
pub fn build_response(request: DnsPacket, outcome: Option<DnsPacket>) -> (r: DnsPacket)
    ensures
        r.header.id == request.header.id,
        r.header.recursion_desired,
        r.header.recursion_available,
        r.header.response,
        request@.questions.len() == 0 ==> {
            &&& r.header.rescode == ResultCode::FORMERR
            &&& r@.questions.len() == 0
            &&& r@.answers.len() == 0
            &&& r@.authorities.len() == 0
            &&& r@.resources.len() == 0
        },
        request@.questions.len() > 0 ==> match outcome {
            Some(result) => {
                &&& r.header.rescode == result.header.rescode
                &&& r@.questions == seq![request@.questions[0]]
                &&& r@.answers == result@.answers
                &&& r@.authorities == result@.authorities
                &&& r@.resources == result@.resources
            },
            None => {
                &&& r.header.rescode == ResultCode::SERVFAIL
                &&& r@.questions.len() == 0
                &&& r@.answers.len() == 0
                &&& r@.authorities.len() == 0
                &&& r@.resources.len() == 0
            },
        },
{
    let mut req = request;
    let ghost reqm = req@;
    let mut packet = DnsPacket::new();
    packet.header.id = req.header.id;
    packet.header.recursion_desired = true;
    packet.header.recursion_available = true;
    packet.header.response = true;

    if req.questions.len() > 0 {
        let question = req.questions.remove(0);
        match outcome {
            Some(result) => {
                let mut res = result;
                let ghost resm = res@;
                let ghost rva = res.answers@;
                let ghost rvu = res.authorities@;
                let ghost rvr = res.resources@;
                packet.questions.push(question);
                packet.header.rescode = res.header.rescode;
                proof {
                    assert(packet@.answers.len() == packet.answers@.len());
                    assert(packet@.authorities.len() == packet.authorities@.len());
                    assert(packet@.resources.len() == packet.resources@.len());
                    assert(packet.answers@ =~= Seq::<DnsRecord>::empty());
                    assert(packet.authorities@ =~= Seq::<DnsRecord>::empty());
                    assert(packet.resources@ =~= Seq::<DnsRecord>::empty());
                }
                packet.answers.append(&mut res.answers);
                packet.authorities.append(&mut res.authorities);
                packet.resources.append(&mut res.resources);
                proof {
                    assert(packet.answers@ =~= rva);
                    assert(packet.authorities@ =~= rvu);
                    assert(packet.resources@ =~= rvr);
                    assert(packet@.questions =~= seq![reqm.questions[0]]);
                    assert(packet@.answers =~= resm.answers);
                    assert(packet@.authorities =~= resm.authorities);
                    assert(packet@.resources =~= resm.resources);
                }
            },
            None => {
                packet.header.rescode = ResultCode::SERVFAIL;
            },
        }
    } else {
        packet.header.rescode = ResultCode::FORMERR;
    }
    packet
}

} // verus!
