//! The typed representation of a DNS resource record — one variant per
//! supported record type, with `UNKNOWN` as the decode fallback — and its
//! wire codec.

use vstd::prelude::*;
use vstd::utf8::encode_utf8;
use crate::name::{
    split_bytes, name_wire, labels_fit, parse_labels, join_labels, write_labels_r,
    lemma_write_labels_ok, lemma_write_labels_ltl, wf_dns_name, lemma_ascii_bytes_chars,
    lemma_name_roundtrip, bytes_chars,
};
use crate::pb::{
    BufferError, PacketBuffer, u16_of, u32_of, hi16, lo16, be16, be32, lemma_splice_concat,
    lemma_splice_prefix, lemma_u32_split, lemma_u16_bytes_roundtrip, lemma_u32_bytes_roundtrip,
};
use crate::question::QueryType;

verus! {

/// A resource record.  `UNKNOWN` keeps the name, the raw type number, the
/// declared payload length and the TTL of a record whose type this resolver
/// does not interpret; its payload bytes are skipped, not retained, so an
/// `UNKNOWN` record cannot be re-encoded.
#[derive(Debug, Clone, PartialEq, Eq, Hash, PartialOrd, Ord)]
pub enum DnsRecord {
    UNKNOWN { domain: String, qtype: u16, data_len: u16, ttl: u32 },
    A { domain: String, addr: [u8; 4], ttl: u32 },
    NS { domain: String, host: String, ttl: u32 },
    CNAME { domain: String, host: String, ttl: u32 },
    MX { domain: String, priority: u16, host: String, ttl: u32 },
    AAAA { domain: String, addr: [u16; 8], ttl: u32 },
}

/// The mathematical value of a record: names as character sequences, the
/// IPv4 address as its four octets, the IPv6 address as its eight segments.
pub enum RecordModel {
    UNKNOWN { domain: Seq<char>, qtype: u16, data_len: u16, ttl: u32 },
    A { domain: Seq<char>, addr: Seq<u8>, ttl: u32 },
    NS { domain: Seq<char>, host: Seq<char>, ttl: u32 },
    CNAME { domain: Seq<char>, host: Seq<char>, ttl: u32 },
    MX { domain: Seq<char>, priority: u16, host: Seq<char>, ttl: u32 },
    AAAA { domain: Seq<char>, addr: Seq<u16>, ttl: u32 },
}

impl View for DnsRecord {
    type V = RecordModel;

    open spec fn view(&self) -> RecordModel {
        match self {
            DnsRecord::UNKNOWN { domain, qtype, data_len, ttl } => RecordModel::UNKNOWN {
                domain: domain@,
                qtype: *qtype,
                data_len: *data_len,
                ttl: *ttl,
            },
            DnsRecord::A { domain, addr, ttl } => RecordModel::A {
                domain: domain@,
                addr: addr@,
                ttl: *ttl,
            },
            DnsRecord::NS { domain, host, ttl } => RecordModel::NS {
                domain: domain@,
                host: host@,
                ttl: *ttl,
            },
            DnsRecord::CNAME { domain, host, ttl } => RecordModel::CNAME {
                domain: domain@,
                host: host@,
                ttl: *ttl,
            },
            DnsRecord::MX { domain, priority, host, ttl } => RecordModel::MX {
                domain: domain@,
                priority: *priority,
                host: host@,
                ttl: *ttl,
            },
            DnsRecord::AAAA { domain, addr, ttl } => RecordModel::AAAA {
                domain: domain@,
                addr: addr@,
                ttl: *ttl,
            },
        }
    }
}

/// The byte form of eight IPv6 segments, high byte of each segment first.
pub open spec fn segs_bytes(a: Seq<u16>) -> Seq<u8> {
    Seq::new(16, |i: int| if i % 2 == 0 {
        hi16(a[i / 2])
    } else {
        lo16(a[i / 2])
    })
}

/// The common head of every written record: the name, the type number, the
/// class (always one) and the TTL.
pub open spec fn rr_head(domain: Seq<char>, tnum: u16, ttl: u32) -> Seq<u8> {
    name_wire(encode_utf8(domain)) + be16(tnum) + be16(1) + be32(ttl)
}

/// The bytes a record encodes to.  An `UNKNOWN` record encodes to nothing.
pub open spec fn record_wire(r: RecordModel) -> Seq<u8> {
    match r {
        RecordModel::UNKNOWN { .. } => Seq::<u8>::empty(),
        RecordModel::A { domain, addr, ttl } => rr_head(domain, 1, ttl) + be16(4) + addr,
        RecordModel::NS { domain, host, ttl } => rr_head(domain, 2, ttl) + be16(
            name_wire(encode_utf8(host)).len() as u16,
        ) + name_wire(encode_utf8(host)),
        RecordModel::CNAME { domain, host, ttl } => rr_head(domain, 5, ttl) + be16(
            name_wire(encode_utf8(host)).len() as u16,
        ) + name_wire(encode_utf8(host)),
        RecordModel::MX { domain, priority, host, ttl } => rr_head(domain, 15, ttl) + be16(
            (name_wire(encode_utf8(host)).len() + 2) as u16,
        ) + be16(priority) + name_wire(encode_utf8(host)),
        RecordModel::AAAA { domain, addr, ttl } => rr_head(domain, 28, ttl) + be16(16)
            + segs_bytes(addr),
    }
}

/// Every name the encoder would write for this record fits the label
/// length field.  An `UNKNOWN` record writes nothing, so it always fits.
pub open spec fn record_writable(r: RecordModel) -> bool {
    match r {
        RecordModel::UNKNOWN { .. } => true,
        RecordModel::A { domain, .. } => labels_fit(encode_utf8(domain)),
        RecordModel::AAAA { domain, .. } => labels_fit(encode_utf8(domain)),
        RecordModel::NS { domain, host, .. } => labels_fit(encode_utf8(domain)) && labels_fit(
            encode_utf8(host),
        ),
        RecordModel::CNAME { domain, host, .. } => labels_fit(encode_utf8(domain)) && labels_fit(
            encode_utf8(host),
        ),
        RecordModel::MX { domain, host, .. } => labels_fit(encode_utf8(domain)) && labels_fit(
            encode_utf8(host),
        ),
    }
}

/// What decoding a record at a position yields: the record's value and the
/// cursor's resting position.  The class is read and discarded; a record of
/// an unrecognized type has its payload skipped.
pub open spec fn parse_record(buf: Seq<u8>, pos: int) -> Result<(RecordModel, int), BufferError> {
    match parse_labels(buf, pos, 0) {
        Err(e) => Err(e),
        Ok((ls, p1)) => {
            let domain = join_labels(ls);
            if p1 + 10 > 512 {
                Err(BufferError::EndOfBuffer)
            } else {
                let qnum = u16_of(buf[p1], buf[p1 + 1]);
                let ttl = u32_of(buf[p1 + 4], buf[p1 + 5], buf[p1 + 6], buf[p1 + 7]);
                let dlen = u16_of(buf[p1 + 8], buf[p1 + 9]);
                let p2 = p1 + 10;
                match QueryType::spec_from_num(qnum) {
                    QueryType::A => if p2 + 4 > 512 {
                        Err(BufferError::EndOfBuffer)
                    } else {
                        Ok(
                            (
                                RecordModel::A { domain, addr: buf.subrange(p2, p2 + 4), ttl },
                                p2 + 4,
                            ),
                        )
                    },
                    QueryType::AAAA => if p2 + 16 > 512 {
                        Err(BufferError::EndOfBuffer)
                    } else {
                        Ok(
                            (
                                RecordModel::AAAA {
                                    domain,
                                    addr: Seq::new(
                                        8,
                                        |i: int| u16_of(buf[p2 + 2 * i], buf[p2 + 2 * i + 1]),
                                    ),
                                    ttl,
                                },
                                p2 + 16,
                            ),
                        )
                    },
                    QueryType::NS => match parse_labels(buf, p2, 0) {
                        Ok((ls2, p3)) => Ok(
                            (RecordModel::NS { domain, host: join_labels(ls2), ttl }, p3),
                        ),
                        Err(e) => Err(e),
                    },
                    QueryType::CNAME => match parse_labels(buf, p2, 0) {
                        Ok((ls2, p3)) => Ok(
                            (RecordModel::CNAME { domain, host: join_labels(ls2), ttl }, p3),
                        ),
                        Err(e) => Err(e),
                    },
                    QueryType::MX => if p2 + 2 > 512 {
                        Err(BufferError::EndOfBuffer)
                    } else {
                        match parse_labels(buf, p2 + 2, 0) {
                            Ok((ls2, p3)) => Ok(
                                (
                                    RecordModel::MX {
                                        domain,
                                        priority: u16_of(buf[p2], buf[p2 + 1]),
                                        host: join_labels(ls2),
                                        ttl,
                                    },
                                    p3,
                                ),
                            ),
                            Err(e) => Err(e),
                        }
                    },
                    QueryType::UNKNOWN(_) => Ok(
                        (
                            RecordModel::UNKNOWN { domain, qtype: qnum, data_len: dlen, ttl },
                            p2 + dlen,
                        ),
                    ),
                }
            }
        },
    }
}

/// A record whose wire form decodes back to itself: well-formed names and
/// an address of the right width.  `UNKNOWN` records are excluded: their
/// payload is dropped on decode and they encode to nothing, so they cannot
/// round-trip by design.
pub open spec fn wf_record(r: RecordModel) -> bool {
    match r {
        RecordModel::UNKNOWN { .. } => false,
        RecordModel::A { domain, addr, .. } => wf_dns_name(domain) && addr.len() == 4,
        RecordModel::AAAA { domain, addr, .. } => wf_dns_name(domain) && addr.len() == 8,
        RecordModel::NS { domain, host, .. } => wf_dns_name(domain) && wf_dns_name(host),
        RecordModel::CNAME { domain, host, .. } => wf_dns_name(domain) && wf_dns_name(host),
        RecordModel::MX { domain, host, .. } => wf_dns_name(domain) && wf_dns_name(host),
    }
}

/// Decoding the common head of an encoded record gives back its name, type
/// number and TTL, with the fields at their fixed offsets past the name.
proof fn lemma_head_parse(buf: Seq<u8>, pos: int, w: Seq<u8>, domain: Seq<char>, tnum: u16, ttl: u32)
    requires
        wf_dns_name(domain),
        0 <= pos,
        buf.len() == 512,
        pos + w.len() + 2 <= 512,
        buf.subrange(pos, pos + w.len()) == w,
        rr_head(domain, tnum, ttl).len() + 2 <= w.len(),
        w.subrange(0, rr_head(domain, tnum, ttl).len() as int) == rr_head(domain, tnum, ttl),
    ensures
        ({
            let nw = name_wire(encode_utf8(domain));
            let p1 = pos + nw.len();
            &&& parse_labels(buf, pos, 0) matches Ok(pl) && join_labels(pl.0) == domain && pl.1
                == p1
            &&& p1 + 10 <= pos + w.len() + 2
            &&& u16_of(buf[p1], buf[p1 + 1]) == tnum
            &&& u32_of(buf[p1 + 4], buf[p1 + 5], buf[p1 + 6], buf[p1 + 7]) == ttl
        }),
{
    let nb = encode_utf8(domain);
    let nw = name_wire(nb);
    let head = rr_head(domain, tnum, ttl);
    assert(head.len() == nw.len() + 8);
    assert(buf.subrange(pos, pos + nw.len()) =~= nw) by {
        assert forall|k: int| 0 <= k < nw.len() implies buf.subrange(pos, pos + nw.len())[k]
            == nw[k] by {
            assert(buf[pos + k] == w[k]);
            assert(w[k] == w.subrange(0, head.len() as int)[k]);
            assert(head[k] == nw[k]);
        }
    }
    lemma_name_roundtrip(buf, pos, nb);
    lemma_ascii_bytes_chars(domain);
    let p1 = pos + nw.len();
    assert forall|k: int| 0 <= k < 8 implies #[trigger] buf[p1 + k] == head[nw.len() + k] by {
        assert(buf[p1 + k] == w[nw.len() + k]);
        assert(w[nw.len() + k] == w.subrange(0, head.len() as int)[nw.len() + k]);
    }
    assert(buf[p1 + 0] == head[nw.len() as int + 0]);
    assert(buf[p1 + 1] == head[nw.len() as int + 1]);
    assert(buf[p1 + 4] == head[nw.len() as int + 4]);
    assert(buf[p1 + 5] == head[nw.len() as int + 5]);
    assert(buf[p1 + 6] == head[nw.len() as int + 6]);
    assert(buf[p1 + 7] == head[nw.len() as int + 7]);
    assert(head[nw.len() as int + 0] == hi16(tnum));
    assert(head[nw.len() as int + 1] == lo16(tnum));
    lemma_u16_bytes_roundtrip(tnum);
    assert(head[nw.len() as int + 4] == crate::pb::be32_byte(ttl, 0));
    assert(head[nw.len() as int + 5] == crate::pb::be32_byte(ttl, 1));
    assert(head[nw.len() as int + 6] == crate::pb::be32_byte(ttl, 2));
    assert(head[nw.len() as int + 7] == crate::pb::be32_byte(ttl, 3));
    lemma_u32_bytes_roundtrip(ttl);
}

/// The record codec round trip: decoding an encoded well-formed record
/// gives back exactly that record, with the cursor just past it.
#[verifier::rlimit(100)]
pub proof fn lemma_record_roundtrip(buf: Seq<u8>, pos: int, r: RecordModel)
    requires
        wf_record(r),
        0 <= pos,
        buf.len() == 512,
        pos + record_wire(r).len() <= 512,
        buf.subrange(pos, pos + record_wire(r).len()) == record_wire(r),
    ensures
        parse_record(buf, pos) == Ok::<(RecordModel, int), BufferError>(
            (r, pos + record_wire(r).len()),
        ),
{
    let w = record_wire(r);
    match r {
        RecordModel::UNKNOWN { .. } => {},
        RecordModel::A { domain, addr, ttl } => {
            let nw = name_wire(encode_utf8(domain));
            assert(w.len() == nw.len() + 10 + 4);
                            assert(buf.subrange(pos, pos + nw.len() + 10) =~= w.subrange(0, nw.len() as int + 10));
                assert(w.subrange(0, nw.len() as int + 10).subrange(
                    0,
                    rr_head(domain, 1, ttl).len() as int,
                ) =~= rr_head(domain, 1, ttl));
            lemma_head_parse(buf, pos, w.subrange(0, nw.len() as int + 10), domain, 1, ttl);
            let p1 = pos + nw.len();
            let p2 = p1 + 10;
            assert(buf.subrange(p2, p2 + 4) =~= addr) by {
                assert forall|k: int| 0 <= k < 4 implies buf.subrange(p2, p2 + 4)[k] == addr[k]
                    by {
                    assert(buf[p2 + k] == w[nw.len() as int + 10 + k]);
                }
            }
        },
        RecordModel::AAAA { domain, addr, ttl } => {
            let nw = name_wire(encode_utf8(domain));
            assert(w.len() == nw.len() + 10 + 16);
                            assert(buf.subrange(pos, pos + nw.len() + 10) =~= w.subrange(0, nw.len() as int + 10));
                assert(w.subrange(0, nw.len() as int + 10).subrange(
                    0,
                    rr_head(domain, 28, ttl).len() as int,
                ) =~= rr_head(domain, 28, ttl));
            lemma_head_parse(buf, pos, w.subrange(0, nw.len() as int + 10), domain, 28, ttl);
            let p1 = pos + nw.len();
            let p2 = p1 + 10;
            assert(Seq::new(8, |i: int| u16_of(buf[p2 + 2 * i], buf[p2 + 2 * i + 1])) =~= addr)
                by {
                assert forall|i: int| 0 <= i < 8 implies u16_of(
                    buf[p2 + 2 * i],
                    buf[p2 + 2 * i + 1],
                ) == addr[i] by {
                    assert(buf[p2 + 2 * i] == w[nw.len() as int + 10 + 2 * i]);
                    assert(buf[p2 + 2 * i + 1] == w[nw.len() as int + 10 + 2 * i + 1]);
                    assert(w[nw.len() as int + 10 + 2 * i] == segs_bytes(addr)[2 * i]);
                    assert(w[nw.len() as int + 10 + 2 * i + 1] == segs_bytes(addr)[2 * i + 1]);
                    assert(segs_bytes(addr)[2 * i] == hi16(addr[i]));
                    assert(segs_bytes(addr)[2 * i + 1] == lo16(addr[i]));
                    lemma_u16_bytes_roundtrip(addr[i]);
                }
            }
        },
        RecordModel::NS { domain, host, ttl } => {
            lemma_host_record_roundtrip(buf, pos, r, domain, host, 2, ttl);
        },
        RecordModel::CNAME { domain, host, ttl } => {
            lemma_host_record_roundtrip(buf, pos, r, domain, host, 5, ttl);
        },
        RecordModel::MX { domain, host, ttl, .. } => {
            lemma_host_record_roundtrip(buf, pos, r, domain, host, 15, ttl);
        },
    }
}

/// Round trip of the host-carrying records: the backpatched length field is
/// skipped by the decoder, and the host name parses back from the payload.
#[verifier::rlimit(100)]
proof fn lemma_host_record_roundtrip(
    buf: Seq<u8>,
    pos: int,
    r: RecordModel,
    domain: Seq<char>,
    host: Seq<char>,
    tnum: u16,
    ttl: u32,
)
    requires
        wf_record(r),
        (tnum == 2 && r == (RecordModel::NS { domain, host, ttl })) || (tnum == 5 && r == (
        RecordModel::CNAME { domain, host, ttl })) || (tnum == 15 && exists|p: u16|
            r == (RecordModel::MX { domain, priority: p, host, ttl })),
        0 <= pos,
        buf.len() == 512,
        pos + record_wire(r).len() <= 512,
        buf.subrange(pos, pos + record_wire(r).len()) == record_wire(r),
    ensures
        parse_record(buf, pos) == Ok::<(RecordModel, int), BufferError>(
            (r, pos + record_wire(r).len()),
        ),
{
    let w = record_wire(r);
    let nw = name_wire(encode_utf8(domain));
    let hw = name_wire(encode_utf8(host));
    let prio_len: int = if tnum == 15 {
        2int
    } else {
        0int
    };
    assert(w.len() == nw.len() + 10 + prio_len + hw.len());
    assert(buf.subrange(pos, pos + nw.len() + 10) =~= w.subrange(0, nw.len() as int + 10));
    assert(w.subrange(0, nw.len() as int + 10).subrange(0, rr_head(domain, tnum, ttl).len() as int)
        =~= rr_head(domain, tnum, ttl));
    lemma_head_parse(buf, pos, w.subrange(0, nw.len() as int + 10), domain, tnum, ttl);
    let p1 = pos + nw.len();
    let p2 = p1 + 10;
    if tnum == 15 {
        let p: u16 = choose|p: u16| r == (RecordModel::MX { domain, priority: p, host, ttl });
        assert(buf[p2] == w[nw.len() as int + 10]);
        assert(buf[p2 + 1] == w[nw.len() as int + 10 + 1]);
        assert(buf[p2] == hi16(p));
        assert(buf[p2 + 1] == lo16(p));
        lemma_u16_bytes_roundtrip(p);
        assert(buf.subrange(p2 + 2, p2 + 2 + hw.len()) =~= hw) by {
            assert forall|k: int| 0 <= k < hw.len() implies buf.subrange(
                p2 + 2,
                p2 + 2 + hw.len(),
            )[k] == hw[k] by {
                assert(buf[p2 + 2 + k] == w[nw.len() as int + 12 + k]);
            }
        }
        lemma_name_roundtrip(buf, p2 + 2, encode_utf8(host));
        lemma_ascii_bytes_chars(host);
    } else {
        assert(buf.subrange(p2, p2 + hw.len()) =~= hw) by {
            assert forall|k: int| 0 <= k < hw.len() implies buf.subrange(p2, p2 + hw.len())[k]
                == hw[k] by {
                assert(buf[p2 + k] == w[nw.len() as int + 10 + k]);
            }
        }
        lemma_name_roundtrip(buf, p2, encode_utf8(host));
        lemma_ascii_bytes_chars(host);
    }
}

/// Patching the two placeholder bytes right before a written tail rewrites
/// them in place.
proof fn lemma_patch_len(buf0: Seq<u8>, p0: int, head: Seq<u8>, tail: Seq<u8>, v: u16)
    requires
        0 <= p0,
        head.len() >= 2,
        p0 + head.len() + tail.len() <= buf0.len(),
    ensures
        ({
            let cur = buf0.take(p0) + (head + tail) + buf0.skip(p0 + head.len() + tail.len());
            cur.update(p0 + head.len() - 2, hi16(v)).update(p0 + head.len() - 1, lo16(v))
        }) =~= buf0.take(p0) + (head.take(head.len() - 2) + be16(v) + tail) + buf0.skip(
            p0 + head.len() + tail.len(),
        ),
{
}

/// Write a record's common head: the name, the type number, class one and
/// the TTL.
fn write_head(buffer: &mut PacketBuffer, domain: &String, tnum: u16, ttl: u32) -> (r: Result<
    (),
    BufferError,
>)
    ensures
        match r {
            Ok(()) => {
                &&& labels_fit(encode_utf8(domain@))
                &&& old(buffer).pos + rr_head(domain@, tnum, ttl).len() <= 512
                &&& final(buffer).buf@ == old(buffer).buf@.take(old(buffer).pos as int) + rr_head(
                    domain@,
                    tnum,
                    ttl,
                ) + old(buffer).buf@.skip(old(buffer).pos + rr_head(domain@, tnum, ttl).len())
                &&& final(buffer).pos == old(buffer).pos + rr_head(domain@, tnum, ttl).len()
            },
            Err(e) => {
                &&& (e == BufferError::LabelTooLong || e == BufferError::EndOfBuffer)
                &&& (e == BufferError::LabelTooLong ==> !labels_fit(encode_utf8(domain@)))
                &&& !(labels_fit(encode_utf8(domain@)) && old(buffer).pos + rr_head(
                    domain@,
                    tnum,
                    ttl,
                ).len() <= 512)
                &&& forall|t: int|
                    0 <= t < old(buffer).pos ==> final(buffer).buf@[t] == old(buffer).buf@[t]
                &&& final(buffer).buf@.len() == 512
                &&& final(buffer).pos >= old(buffer).pos
            },
        },
{
    let ghost buf0 = buffer.buf@;
    let ghost p0 = buffer.pos as int;
    let ghost nb = encode_utf8(domain@);
    proof {
        lemma_write_labels_ok(split_bytes(nb), p0);
        lemma_write_labels_ltl(split_bytes(nb), p0);
    }
    buffer.write_qname(domain.as_str())?;
    let ghost w1 = name_wire(nb);
    proof {
        lemma_splice_prefix(buf0, p0, w1);
    }
    buffer.write_u16(tnum)?;
    proof {
        lemma_splice_concat(buf0, p0, w1, be16(tnum));
    }
    let ghost w2 = w1 + be16(tnum);
    buffer.write_u16(1)?;
    proof {
        lemma_splice_concat(buf0, p0, w2, be16(1));
    }
    let ghost w3 = w2 + be16(1);
    buffer.write_u32(ttl)?;
    proof {
        lemma_splice_concat(buf0, p0, w3, be32(ttl));
        assert(w3 + be32(ttl) =~= rr_head(domain@, tnum, ttl));
    }
    Ok(())
}

impl DnsRecord {
    /// Decode one record at the buffer's cursor, leaving the cursor just
    /// past it.
    pub fn read(buffer: &mut PacketBuffer) -> (r: Result<DnsRecord, BufferError>)
        ensures
            final(buffer).buf@ == old(buffer).buf@,
            match r {
                Ok(rec) => parse_record(old(buffer).buf@, old(buffer).pos as int) matches Ok(pr)
                    && rec@ == pr.0 && final(buffer).pos as int == pr.1,
                Err(e) => parse_record(old(buffer).buf@, old(buffer).pos as int) == Err::<
                    (RecordModel, int),
                    BufferError,
                >(e),
            },
    {
        let ghost buf0 = buffer.buf@;
        let ghost pos0 = buffer.pos as int;
        let mut domain = String::new();
        buffer.read_qname(&mut domain)?;
        proof {
            let pr = parse_labels(buf0, pos0, 0)->Ok_0;
            assert(Seq::<char>::empty() + join_labels(pr.0) =~= join_labels(pr.0));
        }

        let qtype_num = buffer.read_u16()?;
        let qtype = QueryType::from_num(qtype_num);
        let _ = buffer.read_u16()?;
        let ttl = buffer.read_u32()?;
        let data_len = buffer.read_u16()?;
        let ghost p2 = buffer.pos as int;

        match qtype {
            QueryType::A => {
                let raw_addr = buffer.read_u32()?;
                let addr = [
                    ((raw_addr >> 24) & 0xFF) as u8,
                    ((raw_addr >> 16) & 0xFF) as u8,
                    ((raw_addr >> 8) & 0xFF) as u8,
                    (raw_addr & 0xFF) as u8,
                ];
                proof {
                    lemma_u32_split(buf0[p2], buf0[p2 + 1], buf0[p2 + 2], buf0[p2 + 3]);
                    assert(addr@ =~= buf0.subrange(p2, p2 + 4));
                }
                Ok(DnsRecord::A { domain, addr, ttl })
            },
            QueryType::AAAA => {
                let raw_addr1 = buffer.read_u32()?;
                let raw_addr2 = buffer.read_u32()?;
                let raw_addr3 = buffer.read_u32()?;
                let raw_addr4 = buffer.read_u32()?;
                let addr = [
                    ((raw_addr1 >> 16) & 0xFFFF) as u16,
                    (raw_addr1 & 0xFFFF) as u16,
                    ((raw_addr2 >> 16) & 0xFFFF) as u16,
                    (raw_addr2 & 0xFFFF) as u16,
                    ((raw_addr3 >> 16) & 0xFFFF) as u16,
                    (raw_addr3 & 0xFFFF) as u16,
                    ((raw_addr4 >> 16) & 0xFFFF) as u16,
                    (raw_addr4 & 0xFFFF) as u16,
                ];
                proof {
                    lemma_u32_split(buf0[p2], buf0[p2 + 1], buf0[p2 + 2], buf0[p2 + 3]);
                    lemma_u32_split(buf0[p2 + 4], buf0[p2 + 5], buf0[p2 + 6], buf0[p2 + 7]);
                    lemma_u32_split(buf0[p2 + 8], buf0[p2 + 9], buf0[p2 + 10], buf0[p2 + 11]);
                    lemma_u32_split(buf0[p2 + 12], buf0[p2 + 13], buf0[p2 + 14], buf0[p2 + 15]);
                    assert(addr@ =~= Seq::new(
                        8,
                        |i: int| u16_of(buf0[p2 + 2 * i], buf0[p2 + 2 * i + 1]),
                    ));
                }
                Ok(DnsRecord::AAAA { domain, addr, ttl })
            },
            QueryType::NS => {
                let mut ns = String::new();
                buffer.read_qname(&mut ns)?;
                proof {
                    let pr2 = parse_labels(buf0, p2, 0)->Ok_0;
                    assert(Seq::<char>::empty() + join_labels(pr2.0) =~= join_labels(pr2.0));
                }
                Ok(DnsRecord::NS { domain, host: ns, ttl })
            },
            QueryType::CNAME => {
                let mut cname = String::new();
                buffer.read_qname(&mut cname)?;
                proof {
                    let pr2 = parse_labels(buf0, p2, 0)->Ok_0;
                    assert(Seq::<char>::empty() + join_labels(pr2.0) =~= join_labels(pr2.0));
                }
                Ok(DnsRecord::CNAME { domain, host: cname, ttl })
            },
            QueryType::MX => {
                let priority = buffer.read_u16()?;
                let mut mx = String::new();
                buffer.read_qname(&mut mx)?;
                proof {
                    let pr2 = parse_labels(buf0, p2 + 2, 0)->Ok_0;
                    assert(Seq::<char>::empty() + join_labels(pr2.0) =~= join_labels(pr2.0));
                }
                Ok(DnsRecord::MX { domain, priority, host: mx, ttl })
            },
            QueryType::UNKNOWN(_) => {
                buffer.step(data_len as usize)?;
                Ok(DnsRecord::UNKNOWN { domain, qtype: qtype_num, data_len, ttl })
            },
        }
    }

    /// Encode this record at the buffer's cursor and return how many bytes
    /// the cursor advanced.  The variable-length payloads of NS, CNAME and
    /// MX records get their length field backpatched after the payload is
    /// written.  An `UNKNOWN` record writes nothing and advances nothing.
    pub fn write(&self, buffer: &mut PacketBuffer) -> (r: Result<usize, BufferError>)
        ensures
            match r {
                Ok(n) => {
                    &&& record_writable(self@)
                    &&& n == record_wire(self@).len()
                    &&& final(buffer).pos == old(buffer).pos + record_wire(self@).len()
                    &&& (self@ matches RecordModel::UNKNOWN { .. } ==> final(buffer).buf@ == old(
                        buffer,
                    ).buf@)
                    &&& (!(self@ matches RecordModel::UNKNOWN { .. }) ==> old(buffer).pos
                        + record_wire(self@).len() <= 512 && final(buffer).buf@ == old(
                        buffer,
                    ).buf@.take(old(buffer).pos as int) + record_wire(self@) + old(
                        buffer,
                    ).buf@.skip(old(buffer).pos + record_wire(self@).len()))
                },
                Err(e) => {
                    &&& (e == BufferError::LabelTooLong || e == BufferError::EndOfBuffer)
                    &&& (e == BufferError::LabelTooLong ==> !record_writable(self@))
                    &&& !(record_writable(self@) && old(buffer).pos + record_wire(self@).len()
                        <= 512)
                    &&& forall|t: int|
                        0 <= t < old(buffer).pos ==> final(buffer).buf@[t] == old(
                            buffer,
                        ).buf@[t]
                    &&& final(buffer).buf@.len() == 512
                    &&& final(buffer).pos >= old(buffer).pos
                },
            },
    {
        let start_pos = buffer.pos();
        match self {
            DnsRecord::A { domain, addr, ttl } => {
                write_a(buffer, domain, addr, *ttl)?;
            },
            DnsRecord::NS { domain, host, ttl } => {
                write_with_host(buffer, domain, QueryType::NS.to_num(), host, None, *ttl)?;
            },
            DnsRecord::CNAME { domain, host, ttl } => {
                write_with_host(buffer, domain, QueryType::CNAME.to_num(), host, None, *ttl)?;
            },
            DnsRecord::MX { domain, priority, host, ttl } => {
                write_with_host(
                    buffer,
                    domain,
                    QueryType::MX.to_num(),
                    host,
                    Some(*priority),
                    *ttl,
                )?;
            },
            DnsRecord::AAAA { domain, addr, ttl } => {
                write_aaaa(buffer, domain, addr, *ttl)?;
            },
            DnsRecord::UNKNOWN { .. } => {},
        }
        Ok(buffer.pos() - start_pos)
    }
}

/// Encode an A record: the common head, the fixed length four, and the
/// address octets.
fn write_a(buffer: &mut PacketBuffer, domain: &String, addr: &[u8; 4], ttl: u32) -> (r: Result<
    (),
    BufferError,
>)
    ensures
        ({
            let m = RecordModel::A { domain: domain@, addr: addr@, ttl };
            match r {
                Ok(()) => {
                    &&& record_writable(m)
                    &&& old(buffer).pos + record_wire(m).len() <= 512
                    &&& final(buffer).buf@ == old(buffer).buf@.take(old(buffer).pos as int)
                        + record_wire(m) + old(buffer).buf@.skip(
                        old(buffer).pos + record_wire(m).len(),
                    )
                    &&& final(buffer).pos == old(buffer).pos + record_wire(m).len()
                },
                Err(e) => {
                    &&& (e == BufferError::LabelTooLong || e == BufferError::EndOfBuffer)
                    &&& (e == BufferError::LabelTooLong ==> !record_writable(m))
                    &&& !(record_writable(m) && old(buffer).pos + record_wire(m).len() <= 512)
                    &&& forall|t: int|
                        0 <= t < old(buffer).pos ==> final(buffer).buf@[t] == old(
                            buffer,
                        ).buf@[t]
                    &&& final(buffer).buf@.len() == 512
                    &&& final(buffer).pos >= old(buffer).pos
                },
            }
        }),
{
    let ghost buf0 = buffer.buf@;
    let ghost p0 = buffer.pos as int;
    let ghost head = rr_head(domain@, 1, ttl);
    write_head(buffer, domain, QueryType::A.to_num(), ttl)?;
    proof {
        lemma_splice_prefix(buf0, p0, head);
    }
    buffer.write_u16(4)?;
    proof {
        lemma_splice_concat(buf0, p0, head, be16(4));
    }
    let ghost w1 = head + be16(4);
    let a = *addr;
    proof {
        lemma_splice_prefix(buf0, p0, w1);
    }
    buffer.write_u8(a[0])?;
    proof {
        lemma_splice_concat(buf0, p0, w1, seq![a[0]]);
    }
    let ghost w2 = w1 + seq![a[0]];
    buffer.write_u8(a[1])?;
    proof {
        lemma_splice_concat(buf0, p0, w2, seq![a[1]]);
    }
    let ghost w3 = w2 + seq![a[1]];
    buffer.write_u8(a[2])?;
    proof {
        lemma_splice_concat(buf0, p0, w3, seq![a[2]]);
    }
    let ghost w4 = w3 + seq![a[2]];
    buffer.write_u8(a[3])?;
    proof {
        lemma_splice_concat(buf0, p0, w4, seq![a[3]]);
        assert(w4 + seq![a[3]] =~= record_wire(
            RecordModel::A { domain: domain@, addr: addr@, ttl },
        ));
    }
    Ok(())
}

/// Encode a record whose payload is a host name — NS, CNAME, or, with a
/// priority, MX: the common head, a zero length placeholder, the payload,
/// and the backpatched actual length.
#[verifier::rlimit(100)]
fn write_with_host(
    buffer: &mut PacketBuffer,
    domain: &String,
    tnum: u16,
    host: &String,
    priority: Option<u16>,
    ttl: u32,
) -> (r: Result<(), BufferError>)
    requires
        tnum == 2 || tnum == 5 || tnum == 15,
        (tnum == 15) <==> priority is Some,
    ensures
        ({
            let m = if tnum == 2 {
                RecordModel::NS { domain: domain@, host: host@, ttl }
            } else if tnum == 5 {
                RecordModel::CNAME { domain: domain@, host: host@, ttl }
            } else {
                RecordModel::MX {
                    domain: domain@,
                    priority: priority->Some_0,
                    host: host@,
                    ttl,
                }
            };
            match r {
                Ok(()) => {
                    &&& record_writable(m)
                    &&& old(buffer).pos + record_wire(m).len() <= 512
                    &&& final(buffer).buf@ == old(buffer).buf@.take(old(buffer).pos as int)
                        + record_wire(m) + old(buffer).buf@.skip(
                        old(buffer).pos + record_wire(m).len(),
                    )
                    &&& final(buffer).pos == old(buffer).pos + record_wire(m).len()
                },
                Err(e) => {
                    &&& (e == BufferError::LabelTooLong || e == BufferError::EndOfBuffer)
                    &&& (e == BufferError::LabelTooLong ==> !record_writable(m))
                    &&& !(record_writable(m) && old(buffer).pos + record_wire(m).len() <= 512)
                    &&& forall|t: int|
                        0 <= t < old(buffer).pos ==> final(buffer).buf@[t] == old(
                            buffer,
                        ).buf@[t]
                    &&& final(buffer).buf@.len() == 512
                    &&& final(buffer).pos >= old(buffer).pos
                },
            }
        }),
{
    let ghost m = if tnum == 2 {
        RecordModel::NS { domain: domain@, host: host@, ttl }
    } else if tnum == 5 {
        RecordModel::CNAME { domain: domain@, host: host@, ttl }
    } else {
        RecordModel::MX { domain: domain@, priority: priority->Some_0, host: host@, ttl }
    };
    let ghost buf0 = buffer.buf@;
    let ghost p0 = buffer.pos as int;
    let ghost headw = rr_head(domain@, tnum, ttl);
    write_head(buffer, domain, tnum, ttl)?;

    let pos = buffer.pos();
    proof {
        lemma_splice_prefix(buf0, p0, headw);
    }
    buffer.write_u16(0)?;
    proof {
        lemma_splice_concat(buf0, p0, headw, be16(0));
    }
    let ghost w1 = headw + be16(0);

    let mut prefix_len: usize = 0;
    let ghost w2: Seq<u8>;
    if let Some(prio) = priority {
        proof {
            lemma_splice_prefix(buf0, p0, w1);
        }
        buffer.write_u16(prio)?;
        proof {
            lemma_splice_concat(buf0, p0, w1, be16(prio));
            w2 = w1 + be16(prio);
        }
        prefix_len = 2;
    } else {
        proof {
            w2 = w1;
        }
    }

    let ghost hb = encode_utf8(host@);
    proof {
        lemma_write_labels_ok(split_bytes(hb), p0 + w2.len());
        lemma_write_labels_ltl(split_bytes(hb), p0 + w2.len());
        lemma_splice_prefix(buf0, p0, w2);
    }
    buffer.write_qname(host.as_str())?;
    proof {
        lemma_splice_concat(buf0, p0, w2, name_wire(hb));
    }

    let size = buffer.pos() - (pos + 2);
    buffer.set_u16(pos, size as u16)?;
    proof {
        if priority is Some {
            lemma_patch_len(
                buf0,
                p0,
                w1,
                be16(priority->Some_0) + name_wire(hb),
                (name_wire(hb).len() + 2) as u16,
            );
            assert((w1 + be16(priority->Some_0)) + name_wire(hb) =~= w1 + (be16(
                priority->Some_0,
            ) + name_wire(hb)));
            assert(w1.take(w1.len() - 2) =~= headw);
            assert(headw + be16((name_wire(hb).len() + 2) as u16) + (be16(priority->Some_0)
                + name_wire(hb)) =~= record_wire(m));
        } else {
            lemma_patch_len(buf0, p0, w1, name_wire(hb), (name_wire(hb).len()) as u16);
            assert(w1.take(w1.len() - 2) =~= headw);
            assert(headw + be16(name_wire(hb).len() as u16) + name_wire(hb) =~= record_wire(m));
        }
    }
    Ok(())
}

/// Encode an AAAA record: the common head, the fixed length sixteen, and
/// the eight address segments.
fn write_aaaa(buffer: &mut PacketBuffer, domain: &String, addr: &[u16; 8], ttl: u32) -> (r: Result<
    (),
    BufferError,
>)
    ensures
        ({
            let m = RecordModel::AAAA { domain: domain@, addr: addr@, ttl };
            match r {
                Ok(()) => {
                    &&& record_writable(m)
                    &&& old(buffer).pos + record_wire(m).len() <= 512
                    &&& final(buffer).buf@ == old(buffer).buf@.take(old(buffer).pos as int)
                        + record_wire(m) + old(buffer).buf@.skip(
                        old(buffer).pos + record_wire(m).len(),
                    )
                    &&& final(buffer).pos == old(buffer).pos + record_wire(m).len()
                },
                Err(e) => {
                    &&& (e == BufferError::LabelTooLong || e == BufferError::EndOfBuffer)
                    &&& (e == BufferError::LabelTooLong ==> !record_writable(m))
                    &&& !(record_writable(m) && old(buffer).pos + record_wire(m).len() <= 512)
                    &&& forall|t: int|
                        0 <= t < old(buffer).pos ==> final(buffer).buf@[t] == old(
                            buffer,
                        ).buf@[t]
                    &&& final(buffer).buf@.len() == 512
                    &&& final(buffer).pos >= old(buffer).pos
                },
            }
        }),
{
    let ghost m = RecordModel::AAAA { domain: domain@, addr: addr@, ttl };
    let ghost buf0 = buffer.buf@;
    let ghost p0 = buffer.pos as int;
    let ghost headw = rr_head(domain@, 28, ttl);
    write_head(buffer, domain, QueryType::AAAA.to_num(), ttl)?;
    proof {
        lemma_splice_prefix(buf0, p0, headw);
    }
    buffer.write_u16(16)?;
    proof {
        lemma_splice_concat(buf0, p0, headw, be16(16));
    }
    let ghost w1 = headw + be16(16);

    let segs = *addr;
    let mut k: usize = 0;
    proof {
        assert(segs_bytes(segs@).take(0) =~= Seq::<u8>::empty());
        assert(w1 + Seq::<u8>::empty() =~= w1);
        assert(record_wire(m) =~= w1 + segs_bytes(segs@));
    }
    while k < 8
        invariant
            k <= 8,
            segs@ == addr@,
            segs@.len() == 8,
            buf0 == old(buffer).buf@,
            p0 == old(buffer).pos as int,
            buf0.len() == 512,
            0 <= p0,
            m == (RecordModel::AAAA { domain: domain@, addr: addr@, ttl }),
            record_wire(m) == w1 + segs_bytes(segs@),
            record_writable(m),
            buffer.pos as int == p0 + w1.len() + 2 * k,
            buffer.pos <= 512,
            buffer.buf@ == buf0.take(p0) + (w1 + segs_bytes(segs@).take(2 * k as int))
                + buf0.skip(p0 + w1.len() + 2 * k),
        decreases 8 - k,
    {
        let ghost wk = w1 + segs_bytes(segs@).take(2 * k as int);
        proof {
            lemma_splice_prefix(buf0, p0, wk);
        }
        buffer.write_u16(segs[k])?;
        proof {
            lemma_splice_concat(buf0, p0, wk, be16(segs@[k as int]));
            assert(wk + be16(segs@[k as int]) =~= w1 + segs_bytes(segs@).take(2 * (k + 1) as int));
        }
        k += 1;
    }
    proof {
        assert(segs_bytes(segs@).take(16) =~= segs_bytes(segs@));
        assert(buffer.buf@ == buf0.take(p0) + record_wire(m) + buf0.skip(
            p0 + record_wire(m).len(),
        ));
    }
    Ok(())
}

} // verus!
