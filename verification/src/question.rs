//! A single query entry — a domain name and a query type — with its wire
//! codec, and the table of supported query-type numbers.

use vstd::prelude::*;
use vstd::utf8::encode_utf8;
use crate::name::{
    split_bytes, name_wire, labels_fit, parse_labels, join_labels, write_labels_r,
    lemma_write_labels_ok, wf_dns_name, lemma_ascii_bytes_chars, lemma_name_roundtrip,
    bytes_chars,
};
use crate::pb::{
    BufferError, PacketBuffer, u16_of, hi16, lo16, lemma_splice_concat, lemma_splice_prefix,
};

verus! {

/// The record types this resolver understands, with their RFC 1035 type
/// numbers; any other number is kept as `UNKNOWN`.
#[derive(PartialEq, Eq, Debug, Clone, Hash, Copy, Structural)]
pub enum QueryType {
    UNKNOWN(u16),
    A,
    NS,
    CNAME,
    MX,
    AAAA,
}

impl QueryType {
    /// The wire number of a query type.
    pub open spec fn spec_to_num(self) -> u16 {
        match self {
            QueryType::UNKNOWN(x) => x,
            QueryType::A => 1,
            QueryType::NS => 2,
            QueryType::CNAME => 5,
            QueryType::MX => 15,
            QueryType::AAAA => 28,
        }
    }

    /// The query type a wire number decodes to.
    pub open spec fn spec_from_num(num: u16) -> QueryType {
        if num == 1 {
            QueryType::A
        } else if num == 2 {
            QueryType::NS
        } else if num == 5 {
            QueryType::CNAME
        } else if num == 15 {
            QueryType::MX
        } else if num == 28 {
            QueryType::AAAA
        } else {
            QueryType::UNKNOWN(num)
        }
    }

    /// Encode this query type as its wire number.
    pub fn to_num(self) -> (r: u16)
        ensures
            r == self.spec_to_num(),
    {
        match self {
            QueryType::UNKNOWN(x) => x,
            QueryType::A => 1,
            QueryType::NS => 2,
            QueryType::CNAME => 5,
            QueryType::MX => 15,
            QueryType::AAAA => 28,
        }
    }

    /// Decode a wire number; unrecognized numbers are preserved as
    /// `UNKNOWN`.
    pub fn from_num(num: u16) -> (r: QueryType)
        ensures
            r == QueryType::spec_from_num(num),
    {
        match num {
            1 => QueryType::A,
            2 => QueryType::NS,
            5 => QueryType::CNAME,
            15 => QueryType::MX,
            28 => QueryType::AAAA,
            _ => QueryType::UNKNOWN(num),
        }
    }
}

/// The mathematical value of a question: its name's characters and its
/// query type.
pub struct QuestionModel {
    pub name: Seq<char>,
    pub qtype: QueryType,
}

/// One entry of a message's question section.
#[derive(Debug, Clone, PartialEq, Eq)]
pub struct DnsQuestion {
    pub name: String,
    pub qtype: QueryType,
}

impl View for DnsQuestion {
    type V = QuestionModel;

    open spec fn view(&self) -> QuestionModel {
        QuestionModel { name: self.name@, qtype: self.qtype }
    }
}

/// The bytes a question encodes to: the name's labels, the type number, and
/// the class, which is always written as one.
pub open spec fn question_wire(q: QuestionModel) -> Seq<u8> {
    name_wire(encode_utf8(q.name)) + seq![
        hi16(q.qtype.spec_to_num()),
        lo16(q.qtype.spec_to_num()),
        hi16(1),
        lo16(1),
    ]
}

/// What decoding a question at a position yields: the name's appended text,
/// the query type, and the cursor's resting position.  The class is read
/// and discarded.
pub open spec fn parse_question(buf: Seq<u8>, pos: int) -> Result<
    (Seq<char>, QueryType, int),
    BufferError,
> {
    match parse_labels(buf, pos, 0) {
        Ok((ls, p1)) => if p1 + 4 <= 512 {
            Ok((join_labels(ls), QueryType::spec_from_num(u16_of(buf[p1], buf[p1 + 1])), p1 + 4))
        } else {
            Err(BufferError::EndOfBuffer)
        },
        Err(e) => Err(e),
    }
}

/// A question whose wire form decodes back to itself: a well-formed name,
/// and a type that survives the number table (an `UNKNOWN` carrying a
/// recognized number would decode to the recognized type instead).
pub open spec fn wf_question(q: QuestionModel) -> bool {
    &&& wf_dns_name(q.name)
    &&& QueryType::spec_from_num(q.qtype.spec_to_num()) == q.qtype
}

/// The question codec round trip: decoding an encoded well-formed question
/// gives back exactly its name and type, with the cursor just past it.
pub proof fn lemma_question_roundtrip(buf: Seq<u8>, pos: int, q: QuestionModel)
    requires
        wf_question(q),
        0 <= pos,
        buf.len() == 512,
        pos + question_wire(q).len() <= 512,
        buf.subrange(pos, pos + question_wire(q).len()) == question_wire(q),
    ensures
        parse_question(buf, pos) == Ok::<(Seq<char>, QueryType, int), BufferError>(
            (q.name, q.qtype, pos + question_wire(q).len()),
        ),
{
    let nb = encode_utf8(q.name);
    let nw = name_wire(nb);
    let w = question_wire(q);
    assert(w.len() == nw.len() + 4);
    assert(buf.subrange(pos, pos + nw.len()) =~= nw) by {
        assert forall|k: int| 0 <= k < nw.len() implies buf.subrange(pos, pos + nw.len())[k]
            == nw[k] by {
            assert(buf[pos + k] == w[k]);
        }
    }
    lemma_name_roundtrip(buf, pos, nb);
    lemma_ascii_bytes_chars(q.name);
    let p1 = pos + nw.len();
    assert(buf[p1] == w[nw.len() as int]);
    assert(buf[p1 + 1] == w[nw.len() as int + 1]);
    assert(buf[p1] == hi16(q.qtype.spec_to_num()));
    assert(buf[p1 + 1] == lo16(q.qtype.spec_to_num()));
    crate::pb::lemma_u16_bytes_roundtrip(q.qtype.spec_to_num());
}

impl DnsQuestion {
    /// A question for the given name and type.
    pub fn new(name: String, qtype: QueryType) -> (r: DnsQuestion)
        ensures
            r.name@ == name@,
            r.qtype == qtype,
    {
        DnsQuestion { name, qtype }
    }

    /// Decode a question at the buffer's cursor: the name is appended to
    /// this question's name, the type replaces its type, and the class is
    /// discarded.
    pub fn read(&mut self, buffer: &mut PacketBuffer) -> (r: Result<(), BufferError>)
        ensures
            final(buffer).buf@ == old(buffer).buf@,
            match r {
                Ok(()) => parse_question(old(buffer).buf@, old(buffer).pos as int) matches Ok(pq)
                    && final(self).name@ == old(self).name@ + pq.0 && final(self).qtype == pq.1
                    && final(buffer).pos as int == pq.2,
                Err(e) => parse_question(old(buffer).buf@, old(buffer).pos as int) == Err::<
                    (Seq<char>, QueryType, int),
                    BufferError,
                >(e),
            },
    {
        buffer.read_qname(&mut self.name)?;
        self.qtype = QueryType::from_num(buffer.read_u16()?);
        let _ = buffer.read_u16()?;
        Ok(())
    }

    /// Encode this question at the buffer's cursor: the name's labels, the
    /// type number, and class one.
    pub fn write(&self, buffer: &mut PacketBuffer) -> (r: Result<(), BufferError>)
        ensures
            match r {
                Ok(()) => {
                    &&& labels_fit(encode_utf8(self.name@))
                    &&& old(buffer).pos + question_wire(self@).len() <= 512
                    &&& final(buffer).buf@ == old(buffer).buf@.take(old(buffer).pos as int)
                        + question_wire(self@) + old(buffer).buf@.skip(
                        old(buffer).pos + question_wire(self@).len(),
                    )
                    &&& final(buffer).pos == old(buffer).pos + question_wire(self@).len()
                },
                Err(e) => {
                    &&& !(labels_fit(encode_utf8(self.name@)) && old(buffer).pos
                        + question_wire(self@).len() <= 512)
                    &&& (e == BufferError::LabelTooLong || e == BufferError::EndOfBuffer)
                    &&& (e == BufferError::LabelTooLong <==> write_labels_r(
                        split_bytes(encode_utf8(self.name@)),
                        old(buffer).pos as int,
                    ) == Err::<int, BufferError>(BufferError::LabelTooLong))
                    &&& forall|t: int|
                        0 <= t < old(buffer).pos ==> final(buffer).buf@[t] == old(
                            buffer,
                        ).buf@[t]
                    &&& final(buffer).buf@.len() == 512
                    &&& final(buffer).pos >= old(buffer).pos
                },
            },
    {
        let ghost buf0 = buffer.buf@;
        let ghost p0 = buffer.pos as int;
        let ghost nb = encode_utf8(self.name@);
        proof {
            lemma_write_labels_ok(split_bytes(nb), p0);
        }
        buffer.write_qname(self.name.as_str())?;
        let ghost w1 = name_wire(nb);

        let typenum = self.qtype.to_num();
        proof {
            lemma_splice_prefix(buf0, p0, w1);
        }
        buffer.write_u16(typenum)?;
        proof {
            lemma_splice_concat(buf0, p0, w1, seq![hi16(typenum), lo16(typenum)]);
        }
        let ghost w2 = w1 + seq![hi16(typenum), lo16(typenum)];

        buffer.write_u16(1)?;
        proof {
            lemma_splice_concat(buf0, p0, w2, seq![hi16(1), lo16(1)]);
            assert(w2 + seq![hi16(1), lo16(1)] =~= question_wire(self@));
        }
        Ok(())
    }
}

} // verus!
