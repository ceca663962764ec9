//! A whole DNS message: the header, the question section and the three
//! record sections, with whole-message decode and encode, and the
//! referral-extraction helpers the resolver uses.

use vstd::prelude::*;
use vstd::string::StrSliceExecFns;
use vstd::utf8::encode_utf8;
use crate::header::{DnsHeader, header_wire, parse_header, default_header};
use crate::pb::{BufferError, PacketBuffer, lemma_splice_concat, lemma_splice_prefix};
use crate::question::{
    DnsQuestion, QuestionModel, QueryType, question_wire, parse_question, wf_question,
    lemma_question_roundtrip,
};
use crate::record::{
    DnsRecord, RecordModel, record_wire, record_writable, parse_record, wf_record,
    lemma_record_roundtrip,
};
use crate::header::lemma_header_roundtrip;
use crate::name::{labels_fit, split_bytes, lemma_write_labels_ltl};

verus! {

/// A DNS message: one header and the four sections.
#[derive(Debug, Clone, PartialEq, Eq)]
pub struct DnsPacket {
    pub header: DnsHeader,
    pub questions: Vec<DnsQuestion>,
    pub answers: Vec<DnsRecord>,
    pub authorities: Vec<DnsRecord>,
    pub resources: Vec<DnsRecord>,
}

/// The mathematical value of a packet.
pub struct PacketModel {
    pub header: DnsHeader,
    pub questions: Seq<QuestionModel>,
    pub answers: Seq<RecordModel>,
    pub authorities: Seq<RecordModel>,
    pub resources: Seq<RecordModel>,
}

impl View for DnsPacket {
    type V = PacketModel;

    open spec fn view(&self) -> PacketModel {
        PacketModel {
            header: self.header,
            questions: self.questions@.map_values(|q: DnsQuestion| q@),
            answers: self.answers@.map_values(|r: DnsRecord| r@),
            authorities: self.authorities@.map_values(|r: DnsRecord| r@),
            resources: self.resources@.map_values(|r: DnsRecord| r@),
        }
    }
}

/// What decoding `n` consecutive questions at a position yields.
pub open spec fn parse_questions(buf: Seq<u8>, pos: int, n: int) -> Result<
    (Seq<QuestionModel>, int),
    BufferError,
>
    decreases n,
{
    if n <= 0 {
        Ok((Seq::<QuestionModel>::empty(), pos))
    } else {
        match parse_question(buf, pos) {
            Ok((name, qt, p2)) => match parse_questions(buf, p2, n - 1) {
                Ok((rest, e)) => Ok((seq![QuestionModel { name, qtype: qt }] + rest, e)),
                Err(e) => Err(e),
            },
            Err(e) => Err(e),
        }
    }
}

/// What decoding `n` consecutive records at a position yields.
pub open spec fn parse_records(buf: Seq<u8>, pos: int, n: int) -> Result<
    (Seq<RecordModel>, int),
    BufferError,
>
    decreases n,
{
    if n <= 0 {
        Ok((Seq::<RecordModel>::empty(), pos))
    } else {
        match parse_record(buf, pos) {
            Ok((rec, p2)) => match parse_records(buf, p2, n - 1) {
                Ok((rest, e)) => Ok((seq![rec] + rest, e)),
                Err(e) => Err(e),
            },
            Err(e) => Err(e),
        }
    }
}

/// What decoding a whole message at a position yields: the header, then
/// exactly as many questions and records as the header's counts say.
pub open spec fn parse_packet(buf: Seq<u8>, pos: int) -> Result<(PacketModel, int), BufferError> {
    if pos + 12 > 512 {
        Err(BufferError::EndOfBuffer)
    } else {
        let h = parse_header(buf.subrange(pos, pos + 12));
        match parse_questions(buf, pos + 12, h.questions as int) {
            Ok((qs, p1)) => match parse_records(buf, p1, h.answers as int) {
                Ok((ans, p2)) => match parse_records(buf, p2, h.authoritative_entries as int) {
                    Ok((auth, p3)) => match parse_records(buf, p3, h.resource_entries as int) {
                        Ok((res, p4)) => Ok(
                            (
                                PacketModel {
                                    header: h,
                                    questions: qs,
                                    answers: ans,
                                    authorities: auth,
                                    resources: res,
                                },
                                p4,
                            ),
                        ),
                        Err(e) => Err(e),
                    },
                    Err(e) => Err(e),
                },
                Err(e) => Err(e),
            },
            Err(e) => Err(e),
        }
    }
}

/// The wire form of a question section.
pub open spec fn questions_wire(qs: Seq<QuestionModel>) -> Seq<u8>
    decreases qs.len(),
{
    if qs.len() == 0 {
        Seq::<u8>::empty()
    } else {
        question_wire(qs[0]) + questions_wire(qs.skip(1))
    }
}

/// The wire form of a record section.
pub open spec fn records_wire(rs: Seq<RecordModel>) -> Seq<u8>
    decreases rs.len(),
{
    if rs.len() == 0 {
        Seq::<u8>::empty()
    } else {
        record_wire(rs[0]) + records_wire(rs.skip(1))
    }
}

/// The header as the encoder writes it: the stored counts are replaced by
/// the actual section lengths.
pub open spec fn counted_header(p: PacketModel) -> DnsHeader {
    DnsHeader {
        questions: p.questions.len() as u16,
        answers: p.answers.len() as u16,
        authoritative_entries: p.authorities.len() as u16,
        resource_entries: p.resources.len() as u16,
        ..p.header
    }
}

/// The bytes a packet encodes to: the count-corrected header, then every
/// question and record in order.
pub open spec fn packet_wire(p: PacketModel) -> Seq<u8> {
    header_wire(counted_header(p)) + questions_wire(p.questions) + records_wire(p.answers)
        + records_wire(p.authorities) + records_wire(p.resources)
}

/// Every name the encoder writes for this packet fits the label length
/// field.
pub open spec fn packet_writable(p: PacketModel) -> bool {
    &&& forall|i: int|
        0 <= i < p.questions.len() ==> labels_fit(encode_utf8(#[trigger] p.questions[i].name))
    &&& forall|i: int| 0 <= i < p.answers.len() ==> record_writable(#[trigger] p.answers[i])
    &&& forall|i: int|
        0 <= i < p.authorities.len() ==> record_writable(#[trigger] p.authorities[i])
    &&& forall|i: int| 0 <= i < p.resources.len() ==> record_writable(#[trigger] p.resources[i])
}

/// One name is a suffix of another: the NS record's zone covers the query.
pub open spec fn is_suffix(dom: Seq<char>, q: Seq<char>) -> bool {
    dom.len() <= q.len() && q.skip(q.len() - dom.len()) == dom
}

/// The address of the first A record of a section.
pub open spec fn first_a_addr(rs: Seq<RecordModel>) -> Option<Seq<u8>>
    decreases rs.len(),
{
    if rs.len() == 0 {
        None
    } else {
        match rs[0] {
            RecordModel::A { addr, .. } => Some(addr),
            _ => first_a_addr(rs.skip(1)),
        }
    }
}

/// The address of the first A record for exactly the given host name.
pub open spec fn a_for_host(res: Seq<RecordModel>, host: Seq<char>) -> Option<Seq<u8>>
    decreases res.len(),
{
    if res.len() == 0 {
        None
    } else {
        match res[0] {
            RecordModel::A { domain, addr, .. } => if domain == host {
                Some(addr)
            } else {
                a_for_host(res.skip(1), host)
            },
            _ => a_for_host(res.skip(1), host),
        }
    }
}

/// The host of the first authority NS record whose zone is a suffix of the
/// query name.
pub open spec fn first_ns_host(auths: Seq<RecordModel>, q: Seq<char>) -> Option<Seq<char>>
    decreases auths.len(),
{
    if auths.len() == 0 {
        None
    } else {
        match auths[0] {
            RecordModel::NS { domain, host, .. } => if is_suffix(domain, q) {
                Some(host)
            } else {
                first_ns_host(auths.skip(1), q)
            },
            _ => first_ns_host(auths.skip(1), q),
        }
    }
}

/// The first matching NS record, walked in order, whose host has an A
/// record in the additional section; the address of that A record.
pub open spec fn first_resolved_ns(
    auths: Seq<RecordModel>,
    res: Seq<RecordModel>,
    q: Seq<char>,
) -> Option<Seq<u8>>
    decreases auths.len(),
{
    if auths.len() == 0 {
        None
    } else {
        match auths[0] {
            RecordModel::NS { domain, host, .. } => if is_suffix(domain, q) {
                match a_for_host(res, host) {
                    Some(a) => Some(a),
                    None => first_resolved_ns(auths.skip(1), res, q),
                }
            } else {
                first_resolved_ns(auths.skip(1), res, q)
            },
            _ => first_resolved_ns(auths.skip(1), res, q),
        }
    }
}

/// A packet whose wire form decodes back to itself, counts corrected:
/// every name well formed, every record round-trippable, the opcode within
/// its four-bit field, and every section short enough for its count field.
pub open spec fn wf_packet(p: PacketModel) -> bool {
    &&& p.header.opcode < 16
    &&& p.questions.len() <= 65535
    &&& p.answers.len() <= 65535
    &&& p.authorities.len() <= 65535
    &&& p.resources.len() <= 65535
    &&& forall|i: int| 0 <= i < p.questions.len() ==> wf_question(#[trigger] p.questions[i])
    &&& forall|i: int| 0 <= i < p.answers.len() ==> wf_record(#[trigger] p.answers[i])
    &&& forall|i: int| 0 <= i < p.authorities.len() ==> wf_record(#[trigger] p.authorities[i])
    &&& forall|i: int| 0 <= i < p.resources.len() ==> wf_record(#[trigger] p.resources[i])
}

/// Decoding an encoded question section gives every question back.
proof fn lemma_questions_section_roundtrip(buf: Seq<u8>, pos: int, qs: Seq<QuestionModel>)
    requires
        forall|i: int| 0 <= i < qs.len() ==> wf_question(#[trigger] qs[i]),
        0 <= pos,
        buf.len() == 512,
        pos + questions_wire(qs).len() <= 512,
        buf.subrange(pos, pos + questions_wire(qs).len()) == questions_wire(qs),
    ensures
        parse_questions(buf, pos, qs.len() as int) == Ok::<(Seq<QuestionModel>, int), BufferError>(
            (qs, pos + questions_wire(qs).len()),
        ),
    decreases qs.len(),
{
    let w = questions_wire(qs);
    if qs.len() == 0 {
        assert(qs =~= Seq::<QuestionModel>::empty());
    } else {
        let q0 = qs[0];
        let q0w = question_wire(q0);
        assert(w == q0w + questions_wire(qs.skip(1)));
        assert(buf.subrange(pos, pos + q0w.len()) =~= q0w) by {
            assert forall|k: int| 0 <= k < q0w.len() implies buf.subrange(pos, pos + q0w.len())[k]
                == q0w[k] by {
                assert(buf[pos + k] == w[k]);
            }
        }
        lemma_question_roundtrip(buf, pos, q0);
        let pos2 = pos + q0w.len();
        assert(buf.subrange(pos2, pos2 + questions_wire(qs.skip(1)).len()) =~= questions_wire(
            qs.skip(1),
        )) by {
            assert forall|k: int| 0 <= k < questions_wire(qs.skip(1)).len() implies buf.subrange(
                pos2,
                pos2 + questions_wire(qs.skip(1)).len(),
            )[k] == questions_wire(qs.skip(1))[k] by {
                assert(buf[pos2 + k] == w[q0w.len() + k]);
            }
        }
        lemma_questions_section_roundtrip(buf, pos2, qs.skip(1));
        assert((QuestionModel { name: q0.name, qtype: q0.qtype }) == q0);
        assert(seq![q0] + qs.skip(1) =~= qs);
    }
}

/// Decoding an encoded record section gives every record back.
proof fn lemma_records_section_roundtrip(buf: Seq<u8>, pos: int, rs: Seq<RecordModel>)
    requires
        forall|i: int| 0 <= i < rs.len() ==> wf_record(#[trigger] rs[i]),
        0 <= pos,
        buf.len() == 512,
        pos + records_wire(rs).len() <= 512,
        buf.subrange(pos, pos + records_wire(rs).len()) == records_wire(rs),
    ensures
        parse_records(buf, pos, rs.len() as int) == Ok::<(Seq<RecordModel>, int), BufferError>(
            (rs, pos + records_wire(rs).len()),
        ),
    decreases rs.len(),
{
    let w = records_wire(rs);
    if rs.len() == 0 {
        assert(rs =~= Seq::<RecordModel>::empty());
    } else {
        let r0 = rs[0];
        let r0w = record_wire(r0);
        assert(w == r0w + records_wire(rs.skip(1)));
        assert(buf.subrange(pos, pos + r0w.len()) =~= r0w) by {
            assert forall|k: int| 0 <= k < r0w.len() implies buf.subrange(pos, pos + r0w.len())[k]
                == r0w[k] by {
                assert(buf[pos + k] == w[k]);
            }
        }
        lemma_record_roundtrip(buf, pos, r0);
        let pos2 = pos + r0w.len();
        assert(buf.subrange(pos2, pos2 + records_wire(rs.skip(1)).len()) =~= records_wire(
            rs.skip(1),
        )) by {
            assert forall|k: int| 0 <= k < records_wire(rs.skip(1)).len() implies buf.subrange(
                pos2,
                pos2 + records_wire(rs.skip(1)).len(),
            )[k] == records_wire(rs.skip(1))[k] by {
                assert(buf[pos2 + k] == w[r0w.len() + k]);
            }
        }
        lemma_records_section_roundtrip(buf, pos2, rs.skip(1));
        assert(seq![r0] + rs.skip(1) =~= rs);
    }
}

/// The pieces of a five-way concatenation, each at its own offset.
proof fn lemma_concat5_parts(a: Seq<u8>, b: Seq<u8>, c: Seq<u8>, d: Seq<u8>, e: Seq<u8>)
    ensures
        ({
            let w = a + b + c + d + e;
            &&& w.subrange(0, a.len() as int) =~= a
            &&& w.subrange(a.len() as int, a.len() as int + b.len()) =~= b
            &&& w.subrange(a.len() as int + b.len(), a.len() as int + b.len() + c.len()) =~= c
            &&& w.subrange(
                a.len() as int + b.len() + c.len(),
                a.len() as int + b.len() + c.len() + d.len(),
            ) =~= d
            &&& w.subrange(a.len() as int + b.len() + c.len() + d.len(), w.len() as int) =~= e
        }),
{
}

/// A slice of an already sliced stretch of a buffer.
proof fn lemma_subrange_at(buf: Seq<u8>, pos: int, w: Seq<u8>, off: int, part: Seq<u8>)
    requires
        0 <= pos,
        0 <= off,
        off + part.len() <= w.len(),
        pos + w.len() <= buf.len(),
        buf.subrange(pos, pos + w.len()) == w,
        part == w.subrange(off, off + part.len()),
    ensures
        buf.subrange(pos + off, pos + off + part.len()) == part,
{
    assert(buf.subrange(pos + off, pos + off + part.len()) =~= part) by {
        assert forall|k: int| 0 <= k < part.len() implies buf.subrange(
            pos + off,
            pos + off + part.len(),
        )[k] == part[k] by {
            assert(buf[pos + off + k] == w[off + k]);
        }
    }
}

/// The whole-message round trip: decoding an encoded well-formed packet
/// gives back the same packet, with the header counts corrected to the
/// actual section lengths.  Records of unrecognized type are excluded by
/// well-formedness: their payload is dropped on decode by design.
#[verifier::rlimit(100)]
pub proof fn lemma_packet_roundtrip(buf: Seq<u8>, pos: int, p: PacketModel)
    requires
        wf_packet(p),
        0 <= pos,
        buf.len() == 512,
        pos + packet_wire(p).len() <= 512,
        buf.subrange(pos, pos + packet_wire(p).len()) == packet_wire(p),
    ensures
        parse_packet(buf, pos) == Ok::<(PacketModel, int), BufferError>(
            (
                PacketModel {
                    header: counted_header(p),
                    questions: p.questions,
                    answers: p.answers,
                    authorities: p.authorities,
                    resources: p.resources,
                },
                pos + packet_wire(p).len(),
            ),
        ),
{
    let w = packet_wire(p);
    let ch = counted_header(p);
    let hw = header_wire(ch);
    let qw = questions_wire(p.questions);
    let aw = records_wire(p.answers);
    let uw = records_wire(p.authorities);
    let rw = records_wire(p.resources);
    assert(hw.len() == 12);
    lemma_concat5_parts(hw, qw, aw, uw, rw);
    lemma_subrange_at(buf, pos, w, 0, hw);
    assert(buf.subrange(pos, pos + 12) == hw);
    lemma_header_roundtrip(ch);
    let p1 = pos + 12;
    lemma_subrange_at(buf, pos, w, 12, qw);
    lemma_questions_section_roundtrip(buf, p1, p.questions);
    let p2 = p1 + qw.len();
    lemma_subrange_at(buf, pos, w, 12 + qw.len() as int, aw);
    lemma_records_section_roundtrip(buf, p2, p.answers);
    let p3 = p2 + aw.len();
    lemma_subrange_at(buf, pos, w, 12 + qw.len() as int + aw.len(), uw);
    lemma_records_section_roundtrip(buf, p3, p.authorities);
    let p4 = p3 + uw.len();
    lemma_subrange_at(buf, pos, w, 12 + qw.len() as int + aw.len() + uw.len(), rw);
    lemma_records_section_roundtrip(buf, p4, p.resources);
    assert(ch.questions as int == p.questions.len());
    assert(ch.answers as int == p.answers.len());
    assert(ch.authoritative_entries as int == p.authorities.len());
    assert(ch.resource_entries as int == p.resources.len());
}

/// A section's wire is compositional over concatenation.
pub proof fn lemma_records_wire_concat(a: Seq<RecordModel>, b: Seq<RecordModel>)
    ensures
        records_wire(a + b) =~= records_wire(a) + records_wire(b),
    decreases a.len(),
{
    if a.len() == 0 {
        assert(a + b =~= b);
    } else {
        assert((a + b).skip(1) =~= a.skip(1) + b);
        lemma_records_wire_concat(a.skip(1), b);
        assert((a + b)[0] == a[0]);
    }
}

/// A question section's wire is compositional over concatenation.
pub proof fn lemma_questions_wire_concat(a: Seq<QuestionModel>, b: Seq<QuestionModel>)
    ensures
        questions_wire(a + b) =~= questions_wire(a) + questions_wire(b),
    decreases a.len(),
{
    if a.len() == 0 {
        assert(a + b =~= b);
    } else {
        assert((a + b).skip(1) =~= a.skip(1) + b);
        lemma_questions_wire_concat(a.skip(1), b);
        assert((a + b)[0] == a[0]);
    }
}

/// A whole name is a suffix of the query exactly when the two match at the
/// tail, checked character by character.
fn ends_with_name(q: &str, dom: &str) -> (r: bool)
    ensures
        r == is_suffix(dom@, q@),
{
    let ql = q.unicode_len();
    let dl = dom.unicode_len();
    if dl > ql {
        return false;
    }
    let off = ql - dl;
    let mut k: usize = 0;
    while k < dl
        invariant
            k <= dl,
            dl <= ql,
            off == ql - dl,
            ql == q@.len(),
            dl == dom@.len(),
            forall|t: int| 0 <= t < k ==> q@[off + t] == dom@[t],
        decreases dl - k,
    {
        if q.get_char(off + k) != dom.get_char(k) {
            proof {
                assert(q@.skip(q@.len() - dom@.len())[k as int] == q@[off + k]);
            }
            return false;
        }
        k += 1;
    }
    proof {
        assert(q@.skip(q@.len() - dom@.len()) =~= dom@);
    }
    true
}

/// Encode a question section in order at the buffer's cursor.
#[verifier::rlimit(100)]
fn write_question_section(qs: &Vec<DnsQuestion>, buffer: &mut PacketBuffer) -> (r: Result<
    (),
    BufferError,
>)
    ensures
        ({
            let sm = qs@.map_values(|q: DnsQuestion| q@);
            match r {
                Ok(()) => {
                    &&& forall|i: int|
                        0 <= i < sm.len() ==> labels_fit(encode_utf8(#[trigger] sm[i].name))
                    &&& final(buffer).pos == old(buffer).pos + questions_wire(sm).len()
                    &&& (old(buffer).pos > 512 ==> questions_wire(sm).len() == 0
                        && final(buffer).buf@ == old(buffer).buf@)
                    &&& (old(buffer).pos <= 512 ==> old(buffer).pos + questions_wire(sm).len()
                        <= 512 && final(buffer).buf@ == old(buffer).buf@.take(
                        old(buffer).pos as int,
                    ) + questions_wire(sm) + old(buffer).buf@.skip(
                        old(buffer).pos + questions_wire(sm).len(),
                    ))
                },
                Err(e) => {
                    &&& (e == BufferError::LabelTooLong || e == BufferError::EndOfBuffer)
                    &&& (e == BufferError::LabelTooLong ==> !(forall|i: int|
                        0 <= i < sm.len() ==> labels_fit(encode_utf8(#[trigger] sm[i].name))))
                    &&& !((forall|i: int|
                        0 <= i < sm.len() ==> labels_fit(encode_utf8(#[trigger] sm[i].name)))
                        && old(buffer).pos + questions_wire(sm).len() <= 512)
                    &&& forall|t: int|
                        0 <= t < old(buffer).pos ==> final(buffer).buf@[t] == old(
                            buffer,
                        ).buf@[t]
                    &&& final(buffer).buf@.len() == 512
                    &&& final(buffer).pos >= old(buffer).pos
                },
            }
        }),
{
    let ghost sm = qs@.map_values(|q: DnsQuestion| q@);
    let ghost buf0 = buffer.buf@;
    let ghost p0 = buffer.pos as int;
    let n = qs.len();
    let mut i: usize = 0;
    proof {
        assert(sm.skip(0) =~= sm);
        assert(questions_wire(sm.take(0)) =~= Seq::<u8>::empty());
        assert(buf0.take(p0) + Seq::<u8>::empty() =~= buf0.take(p0));
        if p0 <= 512 {
            assert(buf0.take(p0) + Seq::<u8>::empty() + buf0.skip(p0) =~= buf0);
        }
    }
    while i < n
        invariant
            i <= n,
            n == qs@.len(),
            sm == qs@.map_values(|q: DnsQuestion| q@),
            buf0 == old(buffer).buf@,
            p0 == old(buffer).pos as int,
            buf0.len() == 512,
            0 <= p0,
            buffer.pos as int == p0 + questions_wire(sm.take(i as int)).len(),
            p0 <= 512 ==> buffer.pos <= 512,
            p0 <= 512 ==> buffer.buf@ == buf0.take(p0) + questions_wire(sm.take(i as int))
                + buf0.skip(buffer.pos as int),
            p0 > 512 ==> i == 0 && buffer.buf@ == buf0 && buffer.pos as int == p0,
            forall|t: int| 0 <= t < sm.take(i as int).len() ==> labels_fit(
                encode_utf8(#[trigger] sm.take(i as int)[t].name),
            ),
        decreases n - i,
    {
        let ghost wk = questions_wire(sm.take(i as int));
        proof {
            if p0 <= 512 {
                lemma_splice_prefix(buf0, p0, wk);
            }
            lemma_questions_wire_concat(sm.take(i as int), sm.skip(i as int));
            assert(sm.take(i as int) + sm.skip(i as int) =~= sm);
            assert(sm.skip(i as int)[0] == sm[i as int]);
            assert(sm[i as int] == qs@[i as int]@);
            assert(sm.skip(i as int).skip(1) =~= sm.skip(i + 1));
            assert(questions_wire(sm.skip(i as int)) == question_wire(sm[i as int])
                + questions_wire(sm.skip(i + 1)));
            lemma_write_labels_ltl(
                split_bytes(encode_utf8(sm[i as int].name)),
                buffer.pos as int,
            );
        }
        let q = &qs[i];
        q.write(buffer)?;
        proof {
            lemma_splice_concat(buf0, p0, wk, question_wire(q@));
            lemma_questions_wire_concat(sm.take(i as int), seq![sm[i as int]]);
            assert(sm.take(i as int) + seq![sm[i as int]] =~= sm.take(i + 1));
            assert(seq![sm[i as int]].skip(1) =~= Seq::<QuestionModel>::empty());
            assert(questions_wire(Seq::<QuestionModel>::empty()) =~= Seq::<u8>::empty());
            assert(questions_wire(seq![sm[i as int]]) =~= question_wire(sm[i as int]));
            assert(wk + question_wire(q@) =~= questions_wire(sm.take(i + 1)));
            assert(forall|t: int|
                0 <= t < sm.take(i + 1).len() ==> labels_fit(
                    encode_utf8(#[trigger] sm.take(i + 1)[t].name),
                ));
        }
        i += 1;
    }
    proof {
        assert(sm.take(n as int) =~= sm);
    }
    Ok(())
}

/// Encode a record section in order at the buffer's cursor.
#[verifier::rlimit(100)]
fn write_record_section(rs: &Vec<DnsRecord>, buffer: &mut PacketBuffer) -> (r: Result<
    (),
    BufferError,
>)
    ensures
        ({
            let sm = rs@.map_values(|x: DnsRecord| x@);
            match r {
                Ok(()) => {
                    &&& forall|i: int| 0 <= i < sm.len() ==> record_writable(#[trigger] sm[i])
                    &&& final(buffer).pos == old(buffer).pos + records_wire(sm).len()
                    &&& (old(buffer).pos > 512 ==> records_wire(sm).len() == 0
                        && final(buffer).buf@ == old(buffer).buf@)
                    &&& (old(buffer).pos <= 512 ==> old(buffer).pos + records_wire(sm).len()
                        <= 512 && final(buffer).buf@ == old(buffer).buf@.take(
                        old(buffer).pos as int,
                    ) + records_wire(sm) + old(buffer).buf@.skip(
                        old(buffer).pos + records_wire(sm).len(),
                    ))
                },
                Err(e) => {
                    &&& (e == BufferError::LabelTooLong || e == BufferError::EndOfBuffer)
                    &&& (e == BufferError::LabelTooLong ==> !(forall|i: int|
                        0 <= i < sm.len() ==> record_writable(#[trigger] sm[i])))
                    &&& !((forall|i: int| 0 <= i < sm.len() ==> record_writable(
                        #[trigger] sm[i],
                    )) && old(buffer).pos + records_wire(sm).len() <= 512)
                    &&& forall|t: int|
                        0 <= t < old(buffer).pos ==> final(buffer).buf@[t] == old(
                            buffer,
                        ).buf@[t]
                    &&& final(buffer).buf@.len() == 512
                    &&& final(buffer).pos >= old(buffer).pos
                },
            }
        }),
{
    let ghost sm = rs@.map_values(|x: DnsRecord| x@);
    let ghost buf0 = buffer.buf@;
    let ghost p0 = buffer.pos as int;
    let n = rs.len();
    let mut i: usize = 0;
    proof {
        assert(sm.skip(0) =~= sm);
        assert(records_wire(sm.take(0)) =~= Seq::<u8>::empty());
        if p0 <= 512 {
            assert(buf0.take(p0) + Seq::<u8>::empty() + buf0.skip(p0) =~= buf0);
        }
    }
    while i < n
        invariant
            i <= n,
            n == rs@.len(),
            sm == rs@.map_values(|x: DnsRecord| x@),
            buf0 == old(buffer).buf@,
            p0 == old(buffer).pos as int,
            buf0.len() == 512,
            0 <= p0,
            buffer.pos as int == p0 + records_wire(sm.take(i as int)).len(),
            p0 <= 512 ==> buffer.pos <= 512,
            p0 <= 512 ==> buffer.buf@ == buf0.take(p0) + records_wire(sm.take(i as int))
                + buf0.skip(buffer.pos as int),
            p0 > 512 ==> buffer.buf@ == buf0 && buffer.pos as int == p0 && records_wire(
                sm.take(i as int),
            ).len() == 0,
            forall|t: int| 0 <= t < sm.take(i as int).len() ==> record_writable(
                #[trigger] sm.take(i as int)[t],
            ),
        decreases n - i,
    {
        let ghost wk = records_wire(sm.take(i as int));
        proof {
            if p0 <= 512 {
                lemma_splice_prefix(buf0, p0, wk);
            }
            lemma_records_wire_concat(sm.take(i as int), sm.skip(i as int));
            assert(sm.take(i as int) + sm.skip(i as int) =~= sm);
            assert(sm.skip(i as int)[0] == sm[i as int]);
            assert(sm[i as int] == rs@[i as int]@);
            assert(sm.skip(i as int).skip(1) =~= sm.skip(i + 1));
            assert(records_wire(sm.skip(i as int)) == record_wire(sm[i as int]) + records_wire(
                sm.skip(i + 1),
            ));
        }
        let rec = &rs[i];
        let _ = rec.write(buffer)?;
        proof {
            lemma_records_wire_concat(sm.take(i as int), seq![sm[i as int]]);
            assert(sm.take(i as int) + seq![sm[i as int]] =~= sm.take(i + 1));
            assert(seq![sm[i as int]].skip(1) =~= Seq::<RecordModel>::empty());
            assert(records_wire(Seq::<RecordModel>::empty()) =~= Seq::<u8>::empty());
            assert(records_wire(seq![sm[i as int]]) =~= record_wire(sm[i as int]));
            assert(wk + record_wire(rec@) =~= records_wire(sm.take(i + 1)));
            if !(rec@ matches RecordModel::UNKNOWN { .. }) {
                lemma_splice_concat(buf0, p0, wk, record_wire(rec@));
            } else {
                assert(record_wire(rec@).len() == 0);
                assert(wk + record_wire(rec@) =~= wk);
            }
            assert(forall|t: int|
                0 <= t < sm.take(i + 1).len() ==> record_writable(#[trigger] sm.take(i + 1)[t]));
        }
        i += 1;
    }
    proof {
        assert(sm.take(n as int) =~= sm);
    }
    Ok(())
}

impl DnsPacket {
    /// An empty packet with a fresh header.
    pub fn new() -> (r: DnsPacket)
        ensures
            r.header == default_header(),
            r@.questions == Seq::<QuestionModel>::empty(),
            r@.answers == Seq::<RecordModel>::empty(),
            r@.authorities == Seq::<RecordModel>::empty(),
            r@.resources == Seq::<RecordModel>::empty(),
    {
        let p = DnsPacket {
            header: DnsHeader::new(),
            questions: Vec::new(),
            answers: Vec::new(),
            authorities: Vec::new(),
            resources: Vec::new(),
        };
        proof {
            assert(p@.questions =~= Seq::<QuestionModel>::empty());
            assert(p@.answers =~= Seq::<RecordModel>::empty());
            assert(p@.authorities =~= Seq::<RecordModel>::empty());
            assert(p@.resources =~= Seq::<RecordModel>::empty());
        }
        p
    }

    /// Decode a whole message at the buffer's cursor: the header, then
    /// exactly the advertised number of questions, answers, authorities and
    /// additional records, in that order.  The first failing section decode
    /// aborts the whole decode.
    pub fn from_buffer(buffer: &mut PacketBuffer) -> (r: Result<DnsPacket, BufferError>)
        ensures
            final(buffer).buf@ == old(buffer).buf@,
            match r {
                Ok(p) => parse_packet(old(buffer).buf@, old(buffer).pos as int) matches Ok(pp)
                    && p@ == pp.0 && final(buffer).pos as int == pp.1,
                Err(e) => parse_packet(old(buffer).buf@, old(buffer).pos as int) == Err::<
                    (PacketModel, int),
                    BufferError,
                >(e),
            },
    {
        let ghost buf0 = buffer.buf@;
        let ghost pos0 = buffer.pos as int;
        let mut result = DnsPacket::new();
        result.header.read(buffer)?;
        let ghost h = parse_header(buf0.subrange(pos0, pos0 + 12));

        let nq = result.header.questions;
        let mut i: u16 = 0;
        while i < nq
            invariant
                i <= nq,
                buffer.buf@ == buf0,
                buf0 == old(buffer).buf@,
                pos0 == old(buffer).pos as int,
                h == parse_header(buf0.subrange(pos0, pos0 + 12)),
                pos0 + 12 <= 512,
                nq == h.questions,
                result.header == h,
                result@.answers.len() == 0,
                result@.authorities.len() == 0,
                result@.resources.len() == 0,
                result@.questions.len() == i,
                match parse_questions(buf0, buffer.pos as int, nq - i) {
                    Ok(pr) => parse_questions(buf0, pos0 + 12, nq as int) == Ok::<
                        (Seq<QuestionModel>, int),
                        BufferError,
                    >((result@.questions + pr.0, pr.1)),
                    Err(e) => parse_questions(buf0, pos0 + 12, nq as int) == Err::<
                        (Seq<QuestionModel>, int),
                        BufferError,
                    >(e),
                },
            decreases nq - i,
        {
            let ghost pcur = buffer.pos as int;
            let mut question = DnsQuestion::new(String::new(), QueryType::UNKNOWN(0));
            question.read(buffer)?;
            let ghost qs_before = result@.questions;
            result.questions.push(question);
            proof {
                let pq = parse_question(buf0, pcur)->Ok_0;
                assert(Seq::<char>::empty() + pq.0 =~= pq.0);
                assert(result@.questions =~= qs_before.push(
                    QuestionModel { name: pq.0, qtype: pq.1 },
                ));
                if parse_questions(buf0, buffer.pos as int, nq - i - 1) is Ok {
                    let pr2 = parse_questions(buf0, buffer.pos as int, nq - i - 1)->Ok_0;
                    assert(qs_before + (seq![QuestionModel { name: pq.0, qtype: pq.1 }] + pr2.0)
                        =~= result@.questions + pr2.0);
                }
            }
            i = i + 1;
        }
        let ghost qsv = result@.questions;
        let ghost p1v = buffer.pos as int;

        let na = result.header.answers;
        let mut i: u16 = 0;
        while i < na
            invariant
                i <= na,
                buffer.buf@ == buf0,
                buf0 == old(buffer).buf@,
                pos0 == old(buffer).pos as int,
                h == parse_header(buf0.subrange(pos0, pos0 + 12)),
                pos0 + 12 <= 512,
                na == h.answers,
                result.header == h,
                result@.questions == qsv,
                parse_questions(buf0, pos0 + 12, h.questions as int) == Ok::<
                    (Seq<QuestionModel>, int),
                    BufferError,
                >((qsv, p1v)),
                result@.authorities.len() == 0,
                result@.resources.len() == 0,
                result@.answers.len() == i,
                match parse_records(buf0, buffer.pos as int, na - i) {
                    Ok(pr) => parse_records(buf0, p1v, na as int) == Ok::<
                        (Seq<RecordModel>, int),
                        BufferError,
                    >((result@.answers + pr.0, pr.1)),
                    Err(e) => parse_records(buf0, p1v, na as int) == Err::<
                        (Seq<RecordModel>, int),
                        BufferError,
                    >(e),
                },
            decreases na - i,
        {
            let ghost pcur = buffer.pos as int;
            let rec = DnsRecord::read(buffer)?;
            let ghost rs_before = result@.answers;
            result.answers.push(rec);
            proof {
                let pr = parse_record(buf0, pcur)->Ok_0;
                assert(result@.answers =~= rs_before.push(pr.0));
                if parse_records(buf0, buffer.pos as int, na - i - 1) is Ok {
                    let pr2 = parse_records(buf0, buffer.pos as int, na - i - 1)->Ok_0;
                    assert(rs_before + (seq![pr.0] + pr2.0) =~= result@.answers + pr2.0);
                }
            }
            i = i + 1;
        }
        let ghost ansv = result@.answers;
        let ghost p2v = buffer.pos as int;

        let nauth = result.header.authoritative_entries;
        let mut i: u16 = 0;
        while i < nauth
            invariant
                i <= nauth,
                buffer.buf@ == buf0,
                buf0 == old(buffer).buf@,
                pos0 == old(buffer).pos as int,
                h == parse_header(buf0.subrange(pos0, pos0 + 12)),
                pos0 + 12 <= 512,
                nauth == h.authoritative_entries,
                result.header == h,
                result@.questions == qsv,
                result@.answers == ansv,
                parse_questions(buf0, pos0 + 12, h.questions as int) == Ok::<
                    (Seq<QuestionModel>, int),
                    BufferError,
                >((qsv, p1v)),
                parse_records(buf0, p1v, h.answers as int) == Ok::<
                    (Seq<RecordModel>, int),
                    BufferError,
                >((ansv, p2v)),
                result@.resources.len() == 0,
                result@.authorities.len() == i,
                match parse_records(buf0, buffer.pos as int, nauth - i) {
                    Ok(pr) => parse_records(buf0, p2v, nauth as int) == Ok::<
                        (Seq<RecordModel>, int),
                        BufferError,
                    >((result@.authorities + pr.0, pr.1)),
                    Err(e) => parse_records(buf0, p2v, nauth as int) == Err::<
                        (Seq<RecordModel>, int),
                        BufferError,
                    >(e),
                },
            decreases nauth - i,
        {
            let ghost pcur = buffer.pos as int;
            let rec = DnsRecord::read(buffer)?;
            let ghost rs_before = result@.authorities;
            result.authorities.push(rec);
            proof {
                let pr = parse_record(buf0, pcur)->Ok_0;
                assert(result@.authorities =~= rs_before.push(pr.0));
                if parse_records(buf0, buffer.pos as int, nauth - i - 1) is Ok {
                    let pr2 = parse_records(buf0, buffer.pos as int, nauth - i - 1)->Ok_0;
                    assert(rs_before + (seq![pr.0] + pr2.0) =~= result@.authorities + pr2.0);
                }
            }
            i = i + 1;
        }
        let ghost authv = result@.authorities;
        let ghost p3v = buffer.pos as int;

        let nres = result.header.resource_entries;
        let mut i: u16 = 0;
        while i < nres
            invariant
                i <= nres,
                buffer.buf@ == buf0,
                buf0 == old(buffer).buf@,
                pos0 == old(buffer).pos as int,
                h == parse_header(buf0.subrange(pos0, pos0 + 12)),
                pos0 + 12 <= 512,
                nres == h.resource_entries,
                result.header == h,
                result@.questions == qsv,
                result@.answers == ansv,
                result@.authorities == authv,
                parse_questions(buf0, pos0 + 12, h.questions as int) == Ok::<
                    (Seq<QuestionModel>, int),
                    BufferError,
                >((qsv, p1v)),
                parse_records(buf0, p1v, h.answers as int) == Ok::<
                    (Seq<RecordModel>, int),
                    BufferError,
                >((ansv, p2v)),
                parse_records(buf0, p2v, h.authoritative_entries as int) == Ok::<
                    (Seq<RecordModel>, int),
                    BufferError,
                >((authv, p3v)),
                result@.resources.len() == i,
                match parse_records(buf0, buffer.pos as int, nres - i) {
                    Ok(pr) => parse_records(buf0, p3v, nres as int) == Ok::<
                        (Seq<RecordModel>, int),
                        BufferError,
                    >((result@.resources + pr.0, pr.1)),
                    Err(e) => parse_records(buf0, p3v, nres as int) == Err::<
                        (Seq<RecordModel>, int),
                        BufferError,
                    >(e),
                },
            decreases nres - i,
        {
            let ghost pcur = buffer.pos as int;
            let rec = DnsRecord::read(buffer)?;
            let ghost rs_before = result@.resources;
            result.resources.push(rec);
            proof {
                let pr = parse_record(buf0, pcur)->Ok_0;
                assert(result@.resources =~= rs_before.push(pr.0));
                if parse_records(buf0, buffer.pos as int, nres - i - 1) is Ok {
                    let pr2 = parse_records(buf0, buffer.pos as int, nres - i - 1)->Ok_0;
                    assert(rs_before + (seq![pr.0] + pr2.0) =~= result@.resources + pr2.0);
                }
            }
            i = i + 1;
        }
        proof {
            assert(result@.questions + Seq::<QuestionModel>::empty() =~= result@.questions);
            assert(result@.answers + Seq::<RecordModel>::empty() =~= result@.answers);
            assert(result@.authorities + Seq::<RecordModel>::empty() =~= result@.authorities);
            assert(result@.resources + Seq::<RecordModel>::empty() =~= result@.resources);
        }
        Ok(result)
    }

    /// Encode this packet at the buffer's cursor.  The four header counts
    /// are first recomputed from the actual section lengths, so stale
    /// stored counts never reach the wire.
    #[verifier::rlimit(100)]
    pub fn write(&mut self, buffer: &mut PacketBuffer) -> (r: Result<(), BufferError>)
        requires
            old(self).questions@.len() <= 65535,
            old(self).answers@.len() <= 65535,
            old(self).authorities@.len() <= 65535,
            old(self).resources@.len() <= 65535,
        ensures
            final(self).header == counted_header(old(self)@),
            final(self).questions@ == old(self).questions@,
            final(self).answers@ == old(self).answers@,
            final(self).authorities@ == old(self).authorities@,
            final(self).resources@ == old(self).resources@,
            match r {
                Ok(()) => {
                    &&& packet_writable(old(self)@)
                    &&& old(buffer).pos + packet_wire(old(self)@).len() <= 512
                    &&& final(buffer).buf@ == old(buffer).buf@.take(old(buffer).pos as int)
                        + packet_wire(old(self)@) + old(buffer).buf@.skip(
                        old(buffer).pos + packet_wire(old(self)@).len(),
                    )
                    &&& final(buffer).pos == old(buffer).pos + packet_wire(old(self)@).len()
                },
                Err(e) => {
                    &&& (e == BufferError::LabelTooLong || e == BufferError::EndOfBuffer)
                    &&& (e == BufferError::LabelTooLong ==> !packet_writable(old(self)@))
                    &&& !(packet_writable(old(self)@) && old(buffer).pos + packet_wire(
                        old(self)@,
                    ).len() <= 512)
                    &&& forall|t: int|
                        0 <= t < old(buffer).pos ==> final(buffer).buf@[t] == old(
                            buffer,
                        ).buf@[t]
                    &&& final(buffer).buf@.len() == 512
                    &&& final(buffer).pos >= old(buffer).pos
                },
            },
    {
        let ghost m = old(self)@;
        let ghost buf0 = buffer.buf@;
        let ghost p0 = buffer.pos as int;

        self.header.questions = self.questions.len() as u16;
        self.header.answers = self.answers.len() as u16;
        self.header.authoritative_entries = self.authorities.len() as u16;
        self.header.resource_entries = self.resources.len() as u16;
        proof {
            assert(self.header == counted_header(m));
        }

        self.header.write(buffer)?;
        let ghost w0 = header_wire(counted_header(m));

        proof {
            lemma_splice_prefix(buf0, p0, w0);
        }
        write_question_section(&self.questions, buffer)?;
        proof {
            lemma_splice_concat(buf0, p0, w0, questions_wire(m.questions));
        }
        let ghost w1 = w0 + questions_wire(m.questions);

        proof {
            lemma_splice_prefix(buf0, p0, w1);
        }
        write_record_section(&self.answers, buffer)?;
        proof {
            lemma_splice_concat(buf0, p0, w1, records_wire(m.answers));
        }
        let ghost w2 = w1 + records_wire(m.answers);

        proof {
            lemma_splice_prefix(buf0, p0, w2);
        }
        write_record_section(&self.authorities, buffer)?;
        proof {
            lemma_splice_concat(buf0, p0, w2, records_wire(m.authorities));
        }
        let ghost w3 = w2 + records_wire(m.authorities);

        proof {
            lemma_splice_prefix(buf0, p0, w3);
        }
        write_record_section(&self.resources, buffer)?;
        proof {
            lemma_splice_concat(buf0, p0, w3, records_wire(m.resources));
            assert(w3 + records_wire(m.resources) =~= packet_wire(m));
        }
        Ok(())
    }

    /// The address of the first A record among the answers, if any.
    pub fn get_random_a(&self) -> (r: Option<[u8; 4]>)
        ensures
            match r {
                Some(a) => first_a_addr(self@.answers) == Some(a@),
                None => first_a_addr(self@.answers) is None,
            },
    {
        let n = self.answers.len();
        let mut i: usize = 0;
        proof {
            assert(self@.answers.skip(0) =~= self@.answers);
        }
        while i < n
            invariant
                i <= n,
                n == self.answers@.len(),
                first_a_addr(self@.answers) == first_a_addr(self@.answers.skip(i as int)),
            decreases n - i,
        {
            match &self.answers[i] {
                DnsRecord::A { addr, .. } => {
                    proof {
                        assert(self@.answers.skip(i as int)[0] == self@.answers[i as int]);
                    }
                    return Some(*addr);
                },
                _ => {
                    proof {
                        assert(self@.answers.skip(i as int)[0] == self@.answers[i as int]);
                        assert(self@.answers.skip(i as int).skip(1) =~= self@.answers.skip(
                            i + 1,
                        ));
                    }
                },
            }
            i += 1;
        }
        None
    }

    /// The address of the first authority NS record covering the query name
    /// whose host also has an A record in the additional section, if any.
    pub fn get_resolved_ns(&self, qname: &str) -> (r: Option<[u8; 4]>)
        ensures
            match r {
                Some(a) => first_resolved_ns(self@.authorities, self@.resources, qname@) == Some(
                    a@,
                ),
                None => first_resolved_ns(self@.authorities, self@.resources, qname@) is None,
            },
    {
        let n = self.authorities.len();
        let mut i: usize = 0;
        proof {
            assert(self@.authorities.skip(0) =~= self@.authorities);
        }
        while i < n
            invariant
                i <= n,
                n == self.authorities@.len(),
                first_resolved_ns(self@.authorities, self@.resources, qname@)
                    == first_resolved_ns(
                    self@.authorities.skip(i as int),
                    self@.resources,
                    qname@,
                ),
            decreases n - i,
        {
            proof {
                assert(self@.authorities.skip(i as int)[0] == self@.authorities[i as int]);
                assert(self@.authorities.skip(i as int).skip(1) =~= self@.authorities.skip(i + 1));
            }
            match &self.authorities[i] {
                DnsRecord::NS { domain, host, .. } => {
                    if ends_with_name(qname, domain.as_str()) {
                        match self.a_lookup(host) {
                            Some(a) => {
                                return Some(a);
                            },
                            None => {},
                        }
                    }
                },
                _ => {},
            }
            i += 1;
        }
        None
    }

    /// The address of the first A record in the additional section whose
    /// name is exactly the given host, if any.
    fn a_lookup(&self, host: &String) -> (r: Option<[u8; 4]>)
        ensures
            match r {
                Some(a) => a_for_host(self@.resources, host@) == Some(a@),
                None => a_for_host(self@.resources, host@) is None,
            },
    {
        let n = self.resources.len();
        let mut i: usize = 0;
        proof {
            assert(self@.resources.skip(0) =~= self@.resources);
        }
        while i < n
            invariant
                i <= n,
                n == self.resources@.len(),
                a_for_host(self@.resources, host@) == a_for_host(
                    self@.resources.skip(i as int),
                    host@,
                ),
            decreases n - i,
        {
            proof {
                assert(self@.resources.skip(i as int)[0] == self@.resources[i as int]);
                assert(self@.resources.skip(i as int).skip(1) =~= self@.resources.skip(i + 1));
            }
            match &self.resources[i] {
                DnsRecord::A { domain, addr, .. } => {
                    let same = (*domain) == (*host);
                    if same {
                        return Some(*addr);
                    }
                },
                _ => {},
            }
            i += 1;
        }
        None
    }

    /// The host name of the first authority NS record covering the query
    /// name, if any: the caller must then resolve that host itself.
    pub fn get_unresolved_ns<'a>(&'a self, qname: &'a str) -> (r: Option<&'a str>)
        ensures
            match r {
                Some(h) => first_ns_host(self@.authorities, qname@) == Some(h@),
                None => first_ns_host(self@.authorities, qname@) is None,
            },
    {
        let n = self.authorities.len();
        let mut i: usize = 0;
        proof {
            assert(self@.authorities.skip(0) =~= self@.authorities);
        }
        while i < n
            invariant
                i <= n,
                n == self.authorities@.len(),
                first_ns_host(self@.authorities, qname@) == first_ns_host(
                    self@.authorities.skip(i as int),
                    qname@,
                ),
            decreases n - i,
        {
            proof {
                assert(self@.authorities.skip(i as int)[0] == self@.authorities[i as int]);
                assert(self@.authorities.skip(i as int).skip(1) =~= self@.authorities.skip(i + 1));
            }
            match &self.authorities[i] {
                DnsRecord::NS { domain, host, .. } => {
                    if ends_with_name(qname, domain.as_str()) {
                        return Some(host.as_str());
                    }
                },
                _ => {},
            }
            i += 1;
        }
        None
    }
}

} // verus!
