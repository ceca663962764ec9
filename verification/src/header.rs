//! The fixed 12-byte DNS message header: the correlation id, two bytes of
//! packed flags, and the four section counts, with its wire codec.

use vstd::prelude::*;
use crate::pb::{
    BufferError, PacketBuffer, u16_of, hi16, lo16, lemma_u16_bytes_roundtrip, lemma_u16_split,
    lemma_splice_concat, lemma_splice_prefix,
};
use crate::rc::ResultCode;

verus! {

/// The DNS header: a 16-bit id, nine single-bit flags, the four-bit opcode
/// and response code, and the four 16-bit section counts.  The stored counts
/// are advisory: the packet encoder recomputes them from the actual section
/// lengths before this header is written.
#[derive(Clone, Debug, PartialEq, Eq, Structural)]
pub struct DnsHeader {
    pub id: u16,
    pub recursion_desired: bool,
    pub truncated_message: bool,
    pub authoritative_answer: bool,
    pub opcode: u8,
    pub response: bool,
    pub rescode: ResultCode,
    pub checking_disabled: bool,
    pub authed_data: bool,
    pub z: bool,
    pub recursion_available: bool,
    pub questions: u16,
    pub answers: u16,
    pub authoritative_entries: u16,
    pub resource_entries: u16,
}

/// One bit for a flag.
pub open spec fn bool_bit(b: bool) -> u8 {
    if b {
        1
    } else {
        0
    }
}

/// The first flags byte: recursion-desired, truncated and authoritative in
/// the low bits, the opcode in bits three to six, the response bit on top.
pub open spec fn flags_a(h: DnsHeader) -> u8 {
    bool_bit(h.recursion_desired) | (bool_bit(h.truncated_message) << 1) | (bool_bit(
        h.authoritative_answer,
    ) << 2) | (h.opcode << 3) | (bool_bit(h.response) << 7)
}

/// The second flags byte: the response code in the low four bits, then
/// checking-disabled, authenticated-data, the reserved zero bit and
/// recursion-available.
pub open spec fn flags_b(h: DnsHeader) -> u8 {
    h.rescode.spec_to_num() | (bool_bit(h.checking_disabled) << 4) | (bool_bit(h.authed_data)
        << 5) | (bool_bit(h.z) << 6) | (bool_bit(h.recursion_available) << 7)
}

/// The twelve bytes a header encodes to.
pub open spec fn header_wire(h: DnsHeader) -> Seq<u8> {
    seq![
        hi16(h.id),
        lo16(h.id),
        flags_a(h),
        flags_b(h),
        hi16(h.questions),
        lo16(h.questions),
        hi16(h.answers),
        lo16(h.answers),
        hi16(h.authoritative_entries),
        lo16(h.authoritative_entries),
        hi16(h.resource_entries),
        lo16(h.resource_entries),
    ]
}

/// The header twelve bytes decode to.
pub open spec fn parse_header(bs: Seq<u8>) -> DnsHeader {
    let a = bs[2];
    let b = bs[3];
    DnsHeader {
        id: u16_of(bs[0], bs[1]),
        recursion_desired: (a & 1) > 0,
        truncated_message: (a & 2) > 0,
        authoritative_answer: (a & 4) > 0,
        opcode: (a >> 3) & 0x0F,
        response: (a & 128) > 0,
        rescode: ResultCode::spec_from_num(b & 0x0F),
        checking_disabled: (b & 16) > 0,
        authed_data: (b & 32) > 0,
        z: (b & 64) > 0,
        recursion_available: (b & 128) > 0,
        questions: u16_of(bs[4], bs[5]),
        answers: u16_of(bs[6], bs[7]),
        authoritative_entries: u16_of(bs[8], bs[9]),
        resource_entries: u16_of(bs[10], bs[11]),
    }
}

/// The header every packet starts from: every flag clear, every count
/// zero, `NOERROR`.
pub open spec fn default_header() -> DnsHeader {
    DnsHeader {
        id: 0,
        recursion_desired: false,
        truncated_message: false,
        authoritative_answer: false,
        opcode: 0,
        response: false,
        rescode: ResultCode::NOERROR,
        checking_disabled: false,
        authed_data: false,
        z: false,
        recursion_available: false,
        questions: 0,
        answers: 0,
        authoritative_entries: 0,
        resource_entries: 0,
    }
}

impl DnsHeader {
    /// A header with every flag clear, every count zero, and `NOERROR`.
    pub fn new() -> (r: DnsHeader)
        ensures
            r == default_header(),
    {
        DnsHeader {
            id: 0,
            recursion_desired: false,
            truncated_message: false,
            authoritative_answer: false,
            opcode: 0,
            response: false,
            rescode: ResultCode::NOERROR,
            checking_disabled: false,
            authed_data: false,
            z: false,
            recursion_available: false,
            questions: 0,
            answers: 0,
            authoritative_entries: 0,
            resource_entries: 0,
        }
    }

    /// Decode the twelve header bytes at the buffer's cursor into this
    /// header, leaving the cursor just past them.
    pub fn read(&mut self, buffer: &mut PacketBuffer) -> (r: Result<(), BufferError>)
        ensures
            final(buffer).buf@ == old(buffer).buf@,
            match r {
                Ok(()) => {
                    &&& old(buffer).pos + 12 <= 512
                    &&& *final(self) == parse_header(
                        old(buffer).buf@.subrange(
                            old(buffer).pos as int,
                            old(buffer).pos + 12,
                        ),
                    )
                    &&& final(buffer).pos == old(buffer).pos + 12
                },
                Err(e) => old(buffer).pos + 12 > 512 && e == BufferError::EndOfBuffer,
            },
    {
        let ghost bs = buffer.buf@.subrange(buffer.pos as int, buffer.pos + 12);
        self.id = buffer.read_u16()?;

        let flags = buffer.read_u16()?;
        let a = (flags >> 8) as u8;
        let b = (flags & 0xFF) as u8;
        proof {
            lemma_u16_split(bs[2], bs[3]);
        }

        self.recursion_desired = (a & 1) > 0;
        self.truncated_message = (a & 2) > 0;
        self.authoritative_answer = (a & 4) > 0;
        self.opcode = (a >> 3) & 0x0F;
        self.response = (a & 128) > 0;

        self.rescode = ResultCode::from_num(b & 0x0F);
        self.checking_disabled = (b & 16) > 0;
        self.authed_data = (b & 32) > 0;
        self.z = (b & 64) > 0;
        self.recursion_available = (b & 128) > 0;

        self.questions = buffer.read_u16()?;
        self.answers = buffer.read_u16()?;
        self.authoritative_entries = buffer.read_u16()?;
        self.resource_entries = buffer.read_u16()?;

        Ok(())
    }

    /// Encode this header's twelve bytes at the buffer's cursor, advancing
    /// it past them.
    #[verifier::rlimit(60)]
    pub fn write(&self, buffer: &mut PacketBuffer) -> (r: Result<(), BufferError>)
        ensures
            match r {
                Ok(()) => {
                    &&& old(buffer).pos + 12 <= 512
                    &&& final(buffer).buf@ == old(buffer).buf@.take(old(buffer).pos as int)
                        + header_wire(*self) + old(buffer).buf@.skip(old(buffer).pos + 12)
                    &&& final(buffer).pos == old(buffer).pos + 12
                },
                Err(e) => {
                    &&& old(buffer).pos + 12 > 512
                    &&& e == BufferError::EndOfBuffer
                    &&& forall|t: int|
                        0 <= t < old(buffer).pos ==> final(buffer).buf@[t] == old(
                            buffer,
                        ).buf@[t]
                    &&& final(buffer).buf@.len() == 512
                    &&& final(buffer).pos >= old(buffer).pos
                },
            },
    {
        let ghost buf0 = buffer.buf@;
        let ghost p0 = buffer.pos as int;

        buffer.write_u16(self.id)?;
        let ghost w1 = seq![hi16(self.id), lo16(self.id)];

        let rd = if self.recursion_desired {
            1u8
        } else {
            0u8
        };
        let tm = if self.truncated_message {
            1u8
        } else {
            0u8
        };
        let aa = if self.authoritative_answer {
            1u8
        } else {
            0u8
        };
        let rs = if self.response {
            1u8
        } else {
            0u8
        };
        proof {
            if p0 <= 510 {
                lemma_splice_prefix(buf0, p0, w1);
            }
        }
        buffer.write_u8(rd | (tm << 1) | (aa << 2) | (self.opcode << 3) | (rs << 7))?;
        proof {
            lemma_splice_concat(buf0, p0, w1, seq![flags_a(*self)]);
            assert(w1 + seq![flags_a(*self)] =~= seq![hi16(self.id), lo16(self.id), flags_a(
                *self,
            )]);
        }
        let ghost w2 = seq![hi16(self.id), lo16(self.id), flags_a(*self)];

        let cd = if self.checking_disabled {
            1u8
        } else {
            0u8
        };
        let ad = if self.authed_data {
            1u8
        } else {
            0u8
        };
        let zb = if self.z {
            1u8
        } else {
            0u8
        };
        let ra = if self.recursion_available {
            1u8
        } else {
            0u8
        };
        buffer.write_u8(
            self.rescode.to_num() | (cd << 4) | (ad << 5) | (zb << 6) | (ra << 7),
        )?;
        proof {
            lemma_splice_concat(buf0, p0, w2, seq![flags_b(*self)]);
            assert(w2 + seq![flags_b(*self)] =~= header_wire(*self).take(4));
        }
        let ghost w3 = header_wire(*self).take(4);

        buffer.write_u16(self.questions)?;
        proof {
            lemma_splice_concat(buf0, p0, w3, seq![hi16(self.questions), lo16(self.questions)]);
            assert(w3 + seq![hi16(self.questions), lo16(self.questions)] =~= header_wire(
                *self,
            ).take(6));
        }
        let ghost w4 = header_wire(*self).take(6);

        buffer.write_u16(self.answers)?;
        proof {
            lemma_splice_concat(buf0, p0, w4, seq![hi16(self.answers), lo16(self.answers)]);
            assert(w4 + seq![hi16(self.answers), lo16(self.answers)] =~= header_wire(*self).take(
                8,
            ));
        }
        let ghost w5 = header_wire(*self).take(8);

        buffer.write_u16(self.authoritative_entries)?;
        proof {
            lemma_splice_concat(
                buf0,
                p0,
                w5,
                seq![hi16(self.authoritative_entries), lo16(self.authoritative_entries)],
            );
            assert(w5 + seq![hi16(self.authoritative_entries), lo16(self.authoritative_entries)]
                =~= header_wire(*self).take(10));
        }
        let ghost w6 = header_wire(*self).take(10);

        buffer.write_u16(self.resource_entries)?;
        proof {
            lemma_splice_concat(
                buf0,
                p0,
                w6,
                seq![hi16(self.resource_entries), lo16(self.resource_entries)],
            );
            assert(w6 + seq![hi16(self.resource_entries), lo16(self.resource_entries)]
                =~= header_wire(*self));
        }

        Ok(())
    }
}

/// The header bit-packing round trip: writing a header and reading the
/// twelve bytes back reproduces every flag, the opcode, the response code,
/// the id and the counts, provided the opcode fits its four-bit field.
pub proof fn lemma_header_roundtrip(h: DnsHeader)
    requires
        h.opcode < 16,
    ensures
        parse_header(header_wire(h)) == h,
{
    lemma_u16_bytes_roundtrip(h.id);
    lemma_u16_bytes_roundtrip(h.questions);
    lemma_u16_bytes_roundtrip(h.answers);
    lemma_u16_bytes_roundtrip(h.authoritative_entries);
    lemma_u16_bytes_roundtrip(h.resource_entries);
    let rd = bool_bit(h.recursion_desired);
    let tm = bool_bit(h.truncated_message);
    let aa = bool_bit(h.authoritative_answer);
    let rs = bool_bit(h.response);
    let op = h.opcode;
    assert({
        let a = rd | (tm << 1) | (aa << 2) | (op << 3) | (rs << 7);
        &&& ((a & 1) > 0) == (rd == 1)
        &&& ((a & 2) > 0) == (tm == 1)
        &&& ((a & 4) > 0) == (aa == 1)
        &&& ((a >> 3) & 0x0F) == op
        &&& ((a & 128) > 0) == (rs == 1)
    }) by (bit_vector)
        requires
            rd <= 1,
            tm <= 1,
            aa <= 1,
            rs <= 1,
            op < 16,
    ;
    let rc = h.rescode.spec_to_num();
    let cd = bool_bit(h.checking_disabled);
    let ad = bool_bit(h.authed_data);
    let zb = bool_bit(h.z);
    let ra = bool_bit(h.recursion_available);
    assert({
        let b = rc | (cd << 4) | (ad << 5) | (zb << 6) | (ra << 7);
        &&& (b & 0x0F) == rc
        &&& ((b & 16) > 0) == (cd == 1)
        &&& ((b & 32) > 0) == (ad == 1)
        &&& ((b & 64) > 0) == (zb == 1)
        &&& ((b & 128) > 0) == (ra == 1)
    }) by (bit_vector)
        requires
            rc < 16,
            cd <= 1,
            ad <= 1,
            zb <= 1,
            ra <= 1,
    ;
    crate::rc::lemma_rescode_roundtrip(h.rescode);
}

} // verus!
