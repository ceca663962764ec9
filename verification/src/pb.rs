//! The fixed-capacity packet buffer: bounds-checked cursor reads and writes
//! over a 512-byte DNS message, plus the domain-name codec (defined in this
//! module's companion functions further below).

use vstd::prelude::*;
use vstd::string::{StrSliceExecFns, StringExecFns, StringSliceAdditionalSpecFns};
use crate::name::{
    split_bytes, labels_body, name_wire, labels_fit, write_labels_r, parse_labels, label_chars,
    ascii_label_chars, lower_char, ascii_lower, join_labels, lossy_of, lower_of,
    lemma_split_scan, lemma_labels_body_concat, lemma_join_push, lemma_write_labels_ok,
};

verus! {

/// The errors a buffer operation can produce.  `GenericError` wraps an
/// underlying transport failure and is only constructed by callers outside
/// this crate; the codec itself produces the other three.
#[derive(Debug, Clone, PartialEq, Eq)]
pub enum BufferError {
    EndOfBuffer,
    JumpsLimitExceeded(i32),
    LabelTooLong,
    GenericError(String),
}

/// Capacity of a DNS message buffer: the traditional non-EDNS UDP ceiling.
pub const PACKET_SIZE: usize = 512;

/// A DNS message held as a fixed 512-byte array together with a read/write
/// cursor.  Every read or write that would cross the capacity fails with
/// `EndOfBuffer` instead of wrapping or panicking.
pub struct PacketBuffer {
    pub buf: [u8; 512],
    pub pos: usize,
}

/// The big-endian 16-bit value formed by two bytes.
pub open spec fn u16_of(hi: u8, lo: u8) -> u16 {
    ((hi as u16) << 8) | (lo as u16)
}

/// The big-endian 32-bit value formed by four bytes.
pub open spec fn u32_of(b0: u8, b1: u8, b2: u8, b3: u8) -> u32 {
    ((b0 as u32) << 24) | ((b1 as u32) << 16) | ((b2 as u32) << 8) | (b3 as u32)
}

/// High byte of a 16-bit value.
pub open spec fn hi16(v: u16) -> u8 {
    (v >> 8) as u8
}

/// Low byte of a 16-bit value.
pub open spec fn lo16(v: u16) -> u8 {
    (v & 0xFF) as u8
}

/// The two big-endian bytes of a 16-bit value, as a sequence.
pub open spec fn be16(v: u16) -> Seq<u8> {
    seq![hi16(v), lo16(v)]
}

/// The four big-endian bytes of a 32-bit value.
pub open spec fn be32_byte(v: u32, i: int) -> u8 {
    if i == 0 {
        ((v >> 24) & 0xFF) as u8
    } else if i == 1 {
        ((v >> 16) & 0xFF) as u8
    } else if i == 2 {
        ((v >> 8) & 0xFF) as u8
    } else {
        (v & 0xFF) as u8
    }
}

/// The four big-endian bytes of a 32-bit value, as a sequence.
pub open spec fn be32(v: u32) -> Seq<u8> {
    seq![be32_byte(v, 0), be32_byte(v, 1), be32_byte(v, 2), be32_byte(v, 3)]
}

/// Reassembling the two big-endian bytes of a 16-bit value gives it back.
pub proof fn lemma_u16_bytes_roundtrip(v: u16)
    ensures
        u16_of(hi16(v), lo16(v)) == v,
{
    assert(((((v >> 8) as u8) as u16) << 8) | (((v & 0xFF) as u8) as u16) == v) by (bit_vector);
}

/// Splitting a big-endian 16-bit value back into its two bytes gives the
/// bytes it was formed of.
pub proof fn lemma_u16_split(hi: u8, lo: u8)
    ensures
        (u16_of(hi, lo) >> 8) as u8 == hi,
        (u16_of(hi, lo) & 0xFF) as u8 == lo,
{
    assert((((((hi as u16) << 8) | (lo as u16)) >> 8) as u8) == hi && (((((hi as u16) << 8) | (
    lo as u16)) & 0xFF) as u8) == lo) by (bit_vector);
}

/// Splitting a big-endian 32-bit value formed of four bytes back into its
/// bytes or 16-bit halves gives what it was formed of.
pub proof fn lemma_u32_split(b0: u8, b1: u8, b2: u8, b3: u8)
    ensures
        ((u32_of(b0, b1, b2, b3) >> 24) & 0xFF) as u8 == b0,
        ((u32_of(b0, b1, b2, b3) >> 16) & 0xFF) as u8 == b1,
        ((u32_of(b0, b1, b2, b3) >> 8) & 0xFF) as u8 == b2,
        (u32_of(b0, b1, b2, b3) & 0xFF) as u8 == b3,
        ((u32_of(b0, b1, b2, b3) >> 16) & 0xFFFF) as u16 == u16_of(b0, b1),
        (u32_of(b0, b1, b2, b3) & 0xFFFF) as u16 == u16_of(b2, b3),
{
    let v = u32_of(b0, b1, b2, b3);
    assert({
        let w = ((b0 as u32) << 24) | ((b1 as u32) << 16) | ((b2 as u32) << 8) | (b3 as u32);
        &&& ((w >> 24) & 0xFF) as u8 == b0
        &&& ((w >> 16) & 0xFF) as u8 == b1
        &&& ((w >> 8) & 0xFF) as u8 == b2
        &&& (w & 0xFF) as u8 == b3
        &&& ((w >> 16) & 0xFFFF) as u16 == ((b0 as u16) << 8) | (b1 as u16)
        &&& (w & 0xFFFF) as u16 == ((b2 as u16) << 8) | (b3 as u16)
    }) by (bit_vector);
}

/// Reassembling the four big-endian bytes of a 32-bit value gives it back.
pub proof fn lemma_u32_bytes_roundtrip(v: u32)
    ensures
        u32_of(be32_byte(v, 0), be32_byte(v, 1), be32_byte(v, 2), be32_byte(v, 3)) == v,
{
    assert((((((v >> 24) & 0xFF) as u8) as u32) << 24) | (((((v >> 16) & 0xFF) as u8) as u32)
        << 16) | (((((v >> 8) & 0xFF) as u8) as u32) << 8) | (((v & 0xFF) as u8) as u32)
        == v) by (bit_vector);
}

impl PacketBuffer {
    /// A fresh, zeroed buffer with the cursor at the start.
    pub fn new() -> (r: PacketBuffer)
        ensures
            r.pos == 0,
            r.buf@.len() == 512,
            forall|i: int| 0 <= i < 512 ==> r.buf@[i] == 0u8,
    {
        PacketBuffer { buf: [0; 512], pos: 0 }
    }

    /// Current position within the buffer.
    pub fn pos(&self) -> (r: usize)
        ensures
            r == self.pos,
    {
        self.pos
    }

    /// Step the cursor forward a given number of steps.  The cursor itself is
    /// allowed past the capacity; the next read or write will fail there.
    pub fn step(&mut self, steps: usize) -> (r: Result<(), BufferError>)
        requires
            old(self).pos + steps <= usize::MAX,
        ensures
            r is Ok,
            final(self).pos == old(self).pos + steps,
            final(self).buf@ == old(self).buf@,
    {
        self.pos += steps;
        Ok(())
    }

    /// Move the cursor to an absolute position.
    fn seek(&mut self, pos: usize) -> (r: Result<(), BufferError>)
        ensures
            r is Ok,
            final(self).pos == pos,
            final(self).buf@ == old(self).buf@,
    {
        self.pos = pos;
        Ok(())
    }

    /// Read one byte at the cursor and advance it.
    fn read(&mut self) -> (r: Result<u8, BufferError>)
        ensures
            final(self).buf@ == old(self).buf@,
            match r {
                Ok(v) => old(self).pos < 512 && v == old(self).buf@[old(self).pos as int]
                    && final(self).pos == old(self).pos + 1,
                Err(e) => old(self).pos >= 512 && e == BufferError::EndOfBuffer
                    && final(self).pos == old(self).pos,
            },
    {
        if self.pos >= 512 {
            return Err(BufferError::EndOfBuffer);
        }
        let res = self.buf[self.pos];
        self.pos += 1;
        Ok(res)
    }

    /// Read one byte at an absolute position without moving the cursor.
    fn get(&self, pos: usize) -> (r: Result<u8, BufferError>)
        ensures
            match r {
                Ok(v) => pos < 512 && v == self.buf@[pos as int],
                Err(e) => pos >= 512 && e == BufferError::EndOfBuffer,
            },
    {
        if pos >= 512 {
            return Err(BufferError::EndOfBuffer);
        }
        Ok(self.buf[pos])
    }

    /// Read a contiguous range of bytes without moving the cursor.  The bound
    /// check is deliberately strict (`start + len >= 512` fails), so a range
    /// ending exactly at the last byte is rejected; this matches the
    /// buffer's historical boundary behaviour.
    pub fn get_range(&self, start: usize, len: usize) -> (r: Result<&[u8], BufferError>)
        requires
            start + len <= usize::MAX,
        ensures
            match r {
                Ok(s) => start + len < 512 && s@ == self.buf@.subrange(
                    start as int,
                    start + len as int,
                ),
                Err(e) => start + len >= 512 && e == BufferError::EndOfBuffer,
            },
    {
        if start + len >= 512 {
            return Err(BufferError::EndOfBuffer);
        }
        let whole: &[u8] = self.buf.as_slice();
        Ok(&whole[start..start + len])
    }

    /// Read two bytes big-endian at the cursor, advancing it by two.
    pub fn read_u16(&mut self) -> (r: Result<u16, BufferError>)
        ensures
            final(self).buf@ == old(self).buf@,
            match r {
                Ok(v) => {
                    &&& old(self).pos + 2 <= 512
                    &&& v == u16_of(
                        old(self).buf@[old(self).pos as int],
                        old(self).buf@[old(self).pos + 1],
                    )
                    &&& final(self).pos == old(self).pos + 2
                },
                Err(e) => old(self).pos + 2 > 512 && e == BufferError::EndOfBuffer,
            },
    {
        let hi = self.read()?;
        let lo = self.read()?;
        Ok(((hi as u16) << 8) | (lo as u16))
    }

    /// Read four bytes big-endian at the cursor, advancing it by four.
    pub fn read_u32(&mut self) -> (r: Result<u32, BufferError>)
        ensures
            final(self).buf@ == old(self).buf@,
            match r {
                Ok(v) => {
                    &&& old(self).pos + 4 <= 512
                    &&& v == u32_of(
                        old(self).buf@[old(self).pos as int],
                        old(self).buf@[old(self).pos + 1],
                        old(self).buf@[old(self).pos + 2],
                        old(self).buf@[old(self).pos + 3],
                    )
                    &&& final(self).pos == old(self).pos + 4
                },
                Err(e) => old(self).pos + 4 > 512 && e == BufferError::EndOfBuffer,
            },
    {
        let b0 = self.read()?;
        let b1 = self.read()?;
        let b2 = self.read()?;
        let b3 = self.read()?;
        Ok(((b0 as u32) << 24) | ((b1 as u32) << 16) | ((b2 as u32) << 8) | (b3 as u32))
    }

    /// Write one byte at the cursor and advance it.
    pub fn write(&mut self, val: u8) -> (r: Result<(), BufferError>)
        ensures
            match r {
                Ok(()) => {
                    &&& old(self).pos < 512
                    &&& final(self).buf@ == old(self).buf@.take(old(self).pos as int)
                        + seq![val] + old(self).buf@.skip(old(self).pos + 1)
                    &&& final(self).pos == old(self).pos + 1
                },
                Err(e) => {
                    &&& old(self).pos >= 512
                    &&& e == BufferError::EndOfBuffer
                    &&& final(self).buf@ == old(self).buf@
                    &&& final(self).pos == old(self).pos
                },
            },
    {
        if self.pos >= 512 {
            return Err(BufferError::EndOfBuffer);
        }
        self.buf[self.pos] = val;
        self.pos += 1;
        proof {
            assert(self.buf@ =~= old(self).buf@.take(old(self).pos as int) + seq![val]
                + old(self).buf@.skip(old(self).pos + 1));
        }
        Ok(())
    }

    /// Write one byte at the cursor and advance it.
    pub fn write_u8(&mut self, val: u8) -> (r: Result<(), BufferError>)
        ensures
            match r {
                Ok(()) => {
                    &&& old(self).pos < 512
                    &&& final(self).buf@ == old(self).buf@.take(old(self).pos as int)
                        + seq![val] + old(self).buf@.skip(old(self).pos + 1)
                    &&& final(self).pos == old(self).pos + 1
                },
                Err(e) => {
                    &&& old(self).pos >= 512
                    &&& e == BufferError::EndOfBuffer
                    &&& final(self).buf@ == old(self).buf@
                    &&& final(self).pos == old(self).pos
                },
            },
    {
        self.write(val)?;
        Ok(())
    }

    /// Write a 16-bit value big-endian at the cursor, advancing it by two.
    pub fn write_u16(&mut self, val: u16) -> (r: Result<(), BufferError>)
        ensures
            match r {
                Ok(()) => {
                    &&& old(self).pos + 2 <= 512
                    &&& final(self).buf@ == old(self).buf@.take(old(self).pos as int) + seq![
                        hi16(val),
                        lo16(val),
                    ] + old(self).buf@.skip(old(self).pos + 2)
                    &&& final(self).pos == old(self).pos + 2
                },
                Err(e) => {
                    &&& old(self).pos + 2 > 512
                    &&& e == BufferError::EndOfBuffer
                    &&& forall|i: int|
                        0 <= i < old(self).pos ==> final(self).buf@[i] == old(self).buf@[i]
                    &&& final(self).buf@.len() == 512
                    &&& final(self).pos >= old(self).pos
                },
            },
    {
        self.write((val >> 8) as u8)?;
        self.write((val & 0xFF) as u8)?;
        proof {
            assert(self.buf@ =~= old(self).buf@.take(old(self).pos as int) + seq![
                hi16(val),
                lo16(val),
            ] + old(self).buf@.skip(old(self).pos + 2));
        }
        Ok(())
    }

    /// Write a 32-bit value big-endian at the cursor, advancing it by four.
    pub fn write_u32(&mut self, val: u32) -> (r: Result<(), BufferError>)
        ensures
            match r {
                Ok(()) => {
                    &&& old(self).pos + 4 <= 512
                    &&& final(self).buf@ == old(self).buf@.take(old(self).pos as int) + seq![
                        be32_byte(val, 0),
                        be32_byte(val, 1),
                        be32_byte(val, 2),
                        be32_byte(val, 3),
                    ] + old(self).buf@.skip(old(self).pos + 4)
                    &&& final(self).pos == old(self).pos + 4
                },
                Err(e) => {
                    &&& old(self).pos + 4 > 512
                    &&& e == BufferError::EndOfBuffer
                    &&& forall|i: int|
                        0 <= i < old(self).pos ==> final(self).buf@[i] == old(self).buf@[i]
                    &&& final(self).buf@.len() == 512
                    &&& final(self).pos >= old(self).pos
                },
            },
    {
        self.write(((val >> 24) & 0xFF) as u8)?;
        self.write(((val >> 16) & 0xFF) as u8)?;
        self.write(((val >> 8) & 0xFF) as u8)?;
        self.write((val & 0xFF) as u8)?;
        proof {
            assert(self.buf@ =~= old(self).buf@.take(old(self).pos as int) + seq![
                be32_byte(val, 0),
                be32_byte(val, 1),
                be32_byte(val, 2),
                be32_byte(val, 3),
            ] + old(self).buf@.skip(old(self).pos + 4));
        }
        Ok(())
    }

    /// Rewrite one byte at an absolute position, leaving the cursor alone.
    /// The position must be in bounds: this is a backpatching primitive and
    /// its callers always patch a spot they have already written.
    fn set(&mut self, pos: usize, val: u8) -> (r: Result<(), BufferError>)
        requires
            pos < 512,
        ensures
            r is Ok,
            final(self).buf@ == old(self).buf@.update(pos as int, val),
            final(self).pos == old(self).pos,
    {
        self.buf[pos] = val;
        Ok(())
    }

    /// Rewrite a previously written 16-bit field big-endian at an absolute
    /// position, leaving the cursor alone.
    pub fn set_u16(&mut self, pos: usize, val: u16) -> (r: Result<(), BufferError>)
        requires
            pos + 2 <= 512,
        ensures
            r is Ok,
            final(self).buf@ == old(self).buf@.update(pos as int, hi16(val)).update(
                pos + 1,
                lo16(val),
            ),
            final(self).pos == old(self).pos,
    {
        self.set(pos, (val >> 8) as u8)?;
        self.set(pos + 1, (val & 0xFF) as u8)?;
        Ok(())
    }

    /// Write a domain name as length-prefixed labels, terminated by a
    /// zero-length label; the name's UTF-8 bytes are split on `'.'`.  No
    /// compression pointer is ever emitted.  A label longer than 63 bytes
    /// fails with `LabelTooLong`; a name that does not fit the remaining
    /// buffer fails with `EndOfBuffer`.
    pub fn write_qname(&mut self, qname: &str) -> (r: Result<(), BufferError>)
        ensures
            match r {
                Ok(()) => {
                    &&& labels_fit(qname.spec_bytes())
                    &&& old(self).pos + name_wire(qname.spec_bytes()).len() <= 512
                    &&& final(self).buf@ == old(self).buf@.take(old(self).pos as int) + name_wire(
                        qname.spec_bytes(),
                    ) + old(self).buf@.skip(
                        old(self).pos + name_wire(qname.spec_bytes()).len(),
                    )
                    &&& final(self).pos == old(self).pos + name_wire(qname.spec_bytes()).len()
                },
                Err(e) => {
                    &&& write_labels_r(split_bytes(qname.spec_bytes()), old(self).pos as int)
                        == Err::<int, BufferError>(e)
                    &&& (e == BufferError::LabelTooLong || e == BufferError::EndOfBuffer)
                    &&& forall|t: int|
                        0 <= t < old(self).pos ==> final(self).buf@[t] == old(self).buf@[t]
                    &&& final(self).buf@.len() == 512
                    &&& final(self).pos >= old(self).pos
                },
            },
    {
        let bytes: Vec<u8> = qname.as_bytes_vec();
        let n = bytes.len();
        let ghost b = qname.spec_bytes();
        let ghost pos0 = self.pos as int;
        let ghost buf0 = self.buf@;
        let ghost full = split_bytes(b);
        let mut i: usize = 0;
        let ghost mut done: Seq<Seq<u8>> = Seq::empty();
        proof {
            assert(b.skip(0) =~~= b);
            assert(full =~~= done + split_bytes(b.skip(0)));
            assert(labels_body(done) =~= Seq::<u8>::empty());
            if pos0 <= 512 {
                assert(buf0.take(pos0) + labels_body(done) + buf0.skip(pos0) =~= buf0);
            }
        }
        loop
            invariant_except_break
                i <= n,
                i == 0 || b[i as int - 1] == 46,
                full == done + split_bytes(b.skip(i as int)),
                write_labels_r(full, pos0) == write_labels_r(
                    split_bytes(b.skip(i as int)),
                    self.pos as int,
                ),
            invariant
                bytes@ == b,
                n == b.len(),
                b == qname.spec_bytes(),
                full == split_bytes(b),
                pos0 == old(self).pos as int,
                buf0 == old(self).buf@,
                buf0.len() == 512,
                self.buf@.len() == 512,
                self.pos as int == pos0 + labels_body(done).len(),
                pos0 <= 512 ==> self.pos <= 512,
                pos0 <= 512 ==> self.buf@ == buf0.take(pos0) + labels_body(done) + buf0.skip(
                    pos0 + labels_body(done).len(),
                ),
                pos0 > 512 ==> self.buf@ == buf0,
            ensures
                done == full,
                write_labels_r(full, pos0) == write_labels_r(
                    Seq::<Seq<u8>>::empty(),
                    self.pos as int,
                ),
            decreases n - i,
        {
            let mut j: usize = i;
            loop
                invariant
                    i <= j <= n,
                    n == b.len(),
                    bytes@ == b,
                    forall|k: int| i <= k < j ==> b[k] != 46,
                ensures
                    i <= j <= n,
                    forall|k: int| i <= k < j ==> b[k] != 46,
                    j == n || b[j as int] == 46,
                decreases n - j,
            {
                if j >= n {
                    break;
                }
                if bytes[j] == 46 {
                    break;
                }
                j += 1;
            }
            let ghost seg = b.subrange(i as int, j as int);
            proof {
                lemma_split_scan(b, i as int, j as int);
                crate::name::lemma_split_nonempty(b.skip(i as int));
                assert(split_bytes(b.skip(i as int))[0] == seg);
                if j < n {
                    assert(split_bytes(b.skip(i as int)).skip(1) =~= split_bytes(
                        b.skip(j as int + 1),
                    ));
                } else {
                    assert(split_bytes(b.skip(i as int)).skip(1) =~= Seq::<Seq<u8>>::empty());
                }
            }
            let lab_len = j - i;
            if lab_len > 0x3f {
                proof {
                    if pos0 <= 512 {
                        lemma_splice_prefix(buf0, pos0, labels_body(done));
                    }
                }
                return Err(BufferError::LabelTooLong);
            }
            let ghost start = self.pos as int;
            let ghost wbase = labels_body(done);
            proof {
                if pos0 <= 512 {
                    lemma_splice_prefix(buf0, pos0, wbase);
                }
            }
            self.write_u8(lab_len as u8)?;
            proof {
                lemma_splice_push(buf0, pos0, wbase, lab_len as u8);
                assert(wbase.push(lab_len as u8) =~= wbase + seq![lab_len as u8] + b.subrange(
                    i as int,
                    i as int,
                ));
            }
            let mut k = i;
            loop
                invariant
                    i <= k <= j,
                    j <= n,
                    n == b.len(),
                    bytes@ == b,
                    b == qname.spec_bytes(),
                    full == split_bytes(b),
                    pos0 == old(self).pos as int,
                    buf0 == old(self).buf@,
                    seg == b.subrange(i as int, j as int),
                    seg.len() == j - i,
                    seg.len() <= 63,
                    buf0.len() == 512,
                    self.buf@.len() == 512,
                    0 <= pos0 <= start,
                    start == pos0 + wbase.len(),
                    start < 512,
                    self.pos as int == start + 1 + (k - i),
                    self.pos <= 512,
                    self.buf@ == buf0.take(pos0) + (wbase + seq![lab_len as u8] + b.subrange(
                        i as int,
                        k as int,
                    )) + buf0.skip(pos0 + wbase.len() + 1 + (k - i)),
                    write_labels_r(full, pos0) == write_labels_r(
                        split_bytes(b.skip(i as int)),
                        start,
                    ),
                    full == done + split_bytes(b.skip(i as int)),
                    split_bytes(b.skip(i as int)).len() >= 1,
                    split_bytes(b.skip(i as int))[0] == seg,
                ensures
                    k == j,
                    self.pos as int == start + 1 + seg.len(),
                    self.buf@ == buf0.take(pos0) + (wbase + seq![lab_len as u8] + seg)
                        + buf0.skip(pos0 + wbase.len() + 1 + seg.len()),
                decreases j - k,
            {
                if k >= j {
                    proof {
                        assert(b.subrange(i as int, k as int) =~= seg);
                    }
                    break;
                }
                proof {
                    lemma_splice_prefix(buf0, pos0, wbase + seq![lab_len as u8] + b.subrange(
                        i as int,
                        k as int,
                    ));
                }
                let ghost wcur = wbase + seq![lab_len as u8] + b.subrange(i as int, k as int);
                self.write_u8(bytes[k])?;
                proof {
                    lemma_splice_push(buf0, pos0, wcur, b[k as int]);
                    assert(wcur.push(b[k as int]) =~= wbase + seq![lab_len as u8] + b.subrange(
                        i as int,
                        k as int + 1,
                    ));
                }
                k += 1;
            }
            proof {
                let prev = done;
                done = done.push(seg);
                assert(prev.push(seg) =~= prev + seq![seg]);
                lemma_labels_body_concat(prev, seq![seg]);
                assert(seq![seg].skip(1) =~= Seq::<Seq<u8>>::empty());
                assert(labels_body(Seq::<Seq<u8>>::empty()) =~= Seq::<u8>::empty());
                assert(labels_body(seq![seg]) =~= seq![seg.len() as u8] + seg);
                assert(labels_body(done) =~= wbase + seq![lab_len as u8] + seg);
                assert(write_labels_r(split_bytes(b.skip(i as int)), start) == write_labels_r(
                    split_bytes(b.skip(i as int)).skip(1),
                    start + 1 + seg.len(),
                ));
                if j < n {
                    assert(full =~= done + split_bytes(b.skip(j as int + 1)));
                }
            }
            if j == n {
                proof {
                    assert(split_bytes(b.skip(i as int)) =~~= seq![seg]);
                    assert(done =~= full);
                }
                break;
            }
            i = j + 1;
        }
        proof {
            if pos0 <= 512 {
                lemma_splice_prefix(buf0, pos0, labels_body(full));
            }
        }
        self.write_u8(0)?;
        proof {
            lemma_write_labels_ok(full, pos0);
            lemma_splice_push(buf0, pos0, labels_body(full), 0u8);
            assert(labels_body(full).push(0u8) =~= name_wire(b));
            lemma_splice_prefix(buf0, pos0, name_wire(b));
        }
        Ok(())
    }

    #[verifier::rlimit(100)]
    /// Decode a possibly compressed domain name at the cursor, appending the
    /// lowercased, dot-joined labels to `outstr`.  The cursor comes to rest
    /// just past the name or, when compression pointers were followed, just
    /// past the first pointer.  More than five pointer hops fail with
    /// `JumpsLimitExceeded`, so a crafted pointer cycle cannot loop forever.
    pub fn read_qname(&mut self, outstr: &mut String) -> (r: Result<(), BufferError>)
        ensures
            final(self).buf@ == old(self).buf@,
            match r {
                Ok(()) => parse_labels(old(self).buf@, old(self).pos as int, 0) matches Ok(p)
                    && final(outstr)@ == old(outstr)@ + join_labels(p.0) && final(self).pos as int
                    == p.1,
                Err(e) => parse_labels(old(self).buf@, old(self).pos as int, 0) == Err::<
                    (Seq<Seq<char>>, int),
                    BufferError,
                >(e),
            },
    {
        let mut pos = self.pos();
        let mut jumped = false;
        let max_jumps: i32 = 5;
        let mut jumps_performed: i32 = 0;
        let mut first = true;
        let ghost buf0 = self.buf@;
        let ghost pos0 = self.pos as int;
        let ghost out0 = outstr@;
        let ghost mut done: Seq<Seq<char>> = Seq::empty();
        proof {
            assert(join_labels(done) =~= Seq::<char>::empty());
            assert(out0 + Seq::<char>::empty() =~= out0);
            if parse_labels(buf0, pos0, 0) is Ok {
                let pr = parse_labels(buf0, pos0, 0)->Ok_0;
                assert(done + pr.0 =~= pr.0);
            }
        }
        loop
            invariant_except_break
                0 <= jumps_performed <= 6,
                first <==> done.len() == 0,
                outstr@ == out0 + join_labels(done),
                !jumped ==> self.pos as int == pos0,
                match parse_labels(buf0, pos as int, jumps_performed as int) {
                    Ok(pr) => parse_labels(buf0, pos0, 0) == Ok::<
                        (Seq<Seq<char>>, int),
                        BufferError,
                    >((done + pr.0, if jumped { self.pos as int } else { pr.1 })),
                    Err(e) => parse_labels(buf0, pos0, 0) == Err::<
                        (Seq<Seq<char>>, int),
                        BufferError,
                    >(e),
                },
            invariant
                buf0 == old(self).buf@,
                pos0 == old(self).pos as int,
                out0 == old(outstr)@,
                max_jumps == 5,
                self.buf@ == buf0,
            ensures
                outstr@ == out0 + join_labels(done),
                parse_labels(buf0, pos0, 0) == Ok::<(Seq<Seq<char>>, int), BufferError>(
                    (done, if jumped { self.pos as int } else { pos as int }),
                ),
                !jumped ==> self.pos as int == pos0,
            decreases 7 - jumps_performed, 512 - pos,
        {
            if jumps_performed > max_jumps {
                return Err(BufferError::JumpsLimitExceeded(max_jumps));
            }
            let len = self.get(pos)?;
            if (len & 0xC0) == 0xC0 {
                if !jumped {
                    self.seek(pos + 2)?;
                }
                let b2 = self.get(pos + 1)? as u16;
                let offset = (((len as u16) ^ 0xC0) << 8) | b2;
                pos = offset as usize;
                jumped = true;
                jumps_performed += 1;
            } else {
                let ghost lb = pos as int;
                pos += 1;
                if len == 0 {
                    proof {
                        assert(parse_labels(buf0, lb, jumps_performed as int) == Ok::<
                            (Seq<Seq<char>>, int),
                            BufferError,
                        >((Seq::<Seq<char>>::empty(), lb + 1)));
                        assert(done + Seq::<Seq<char>>::empty() =~= done);
                    }
                    break;
                }
                if !first {
                    push_char(outstr, '.');
                }
                let lab = self.get_range(pos, len as usize)?;
                let ghost lbytes = lab@;
                let lab_len = len as usize;
                let mut all_ascii = true;
                let mut k: usize = 0;
                while k < lab_len
                    invariant
                        lab@ == lbytes,
                        lbytes.len() == lab_len,
                        k <= lab_len,
                        all_ascii <==> (forall|t: int| 0 <= t < k ==> lbytes[t] < 128),
                    decreases lab_len - k,
                {
                    if lab[k] >= 128 {
                        all_ascii = false;
                    }
                    k += 1;
                }
                let ghost mid = out0 + join_labels(done) + (if first {
                    Seq::<char>::empty()
                } else {
                    seq!['.']
                });
                proof {
                    if first {
                        assert(out0 + join_labels(done) + Seq::<char>::empty() =~= out0
                            + join_labels(done));
                    }
                }
                if all_ascii {
                    let mut k2: usize = 0;
                    proof {
                        assert(ascii_label_chars(lbytes.subrange(0, 0)) =~= Seq::<char>::empty());
                        assert(mid + Seq::<char>::empty() =~= mid);
                    }
                    while k2 < lab_len
                        invariant
                            lab@ == lbytes,
                            lbytes.len() == lab_len,
                            k2 <= lab_len,
                            forall|t: int| 0 <= t < lbytes.len() ==> lbytes[t] < 128,
                            outstr@ == mid + ascii_label_chars(lbytes.subrange(0, k2 as int)),
                        decreases lab_len - k2,
                    {
                        let bch = lab[k2];
                        let c = if bch >= 65 && bch <= 90 {
                            bch + 32
                        } else {
                            bch
                        };
                        push_char(outstr, c as char);
                        proof {
                            assert(c == ascii_lower(lbytes[k2 as int]));
                            assert(ascii_label_chars(lbytes.subrange(0, k2 as int + 1))
                                =~= ascii_label_chars(lbytes.subrange(0, k2 as int)).push(
                                lower_char(lbytes[k2 as int]),
                            ));
                        }
                        k2 += 1;
                    }
                    proof {
                        assert(lbytes.subrange(0, lbytes.len() as int) =~= lbytes);
                        assert(label_chars(lbytes) == ascii_label_chars(lbytes));
                    }
                } else {
                    let ls = lossy_string(lab);
                    let lw = lower_string(ls.as_str());
                    outstr.append(lw.as_str());
                    proof {
                        assert(!(forall|t: int| 0 <= t < lbytes.len() ==> lbytes[t] < 128));
                        assert(label_chars(lbytes) == lower_of(lossy_of(lbytes)));
                    }
                }
                proof {
                    let lc = label_chars(lbytes);
                    assert(outstr@ == mid + lc);
                    assert(lbytes == buf0.subrange(lb + 1, lb + 1 + len));
                    lemma_join_push(done, lc);
                    assert(outstr@ == out0 + join_labels(done.push(lc)));
                    assert(parse_labels(buf0, lb, jumps_performed as int) == (
                    match parse_labels(buf0, lb + 1 + len, jumps_performed as int) {
                        Ok(pr2) => Ok::<(Seq<Seq<char>>, int), BufferError>(
                            (seq![lc] + pr2.0, pr2.1),
                        ),
                        Err(e) => Err(e),
                    }));
                    if parse_labels(buf0, lb + 1 + len, jumps_performed as int) is Ok {
                        let pr2 = parse_labels(buf0, lb + 1 + len, jumps_performed as int)->Ok_0;
                        assert(done + (seq![lc] + pr2.0) =~= done.push(lc) + pr2.0);
                    }
                    done = done.push(lc);
                }
                first = false;
                pos += len as usize;
            }
        }
        if !jumped {
            self.seek(pos)?;
        }
        Ok(())
    }
}

/// Relies on `String::push`: appends exactly the given character.
#[verifier::external_body]
fn push_char(out: &mut String, c: char)
    ensures
        final(out)@ == old(out)@.push(c),
{
    out.push(c);
}

/// Relies on `String::from_utf8_lossy`: the decoded text is a function of
/// the bytes alone, named `lossy_of`.
#[verifier::external_body]
fn lossy_string(bytes: &[u8]) -> (r: String)
    ensures
        r@ == lossy_of(bytes@),
{
    String::from_utf8_lossy(bytes).into_owned()
}

/// Relies on `str::to_lowercase`: the folded text is a function of the
/// characters alone, named `lower_of`.
#[verifier::external_body]
fn lower_string(s: &str) -> (r: String)
    ensures
        r@ == lower_of(s@),
{
    s.to_lowercase()
}

/// Writing one more byte right after an already written stretch extends the
/// stretch.
proof fn lemma_splice_push(base: Seq<u8>, at: int, w: Seq<u8>, v: u8)
    requires
        0 <= at,
        at + w.len() < base.len(),
    ensures
        ({
            let cur = base.take(at) + w + base.skip(at + w.len());
            cur.take(at + w.len()) + seq![v] + cur.skip(at + w.len() + 1)
        }) =~= base.take(at) + w.push(v) + base.skip(at + w.len() + 1),
{
}

/// Writing a stretch right after an already written stretch merges the two.
pub proof fn lemma_splice_concat(base: Seq<u8>, at: int, w1: Seq<u8>, w2: Seq<u8>)
    requires
        0 <= at,
        at + w1.len() + w2.len() <= base.len(),
    ensures
        ({
            let cur = base.take(at) + w1 + base.skip(at + w1.len());
            cur.take(at + w1.len()) + w2 + cur.skip(at + w1.len() + w2.len())
        }) =~= base.take(at) + (w1 + w2) + base.skip(at + w1.len() + w2.len()),
{
}

/// A written stretch leaves everything before it untouched.
pub proof fn lemma_splice_prefix(base: Seq<u8>, at: int, w: Seq<u8>)
    requires
        0 <= at,
        at + w.len() <= base.len(),
    ensures
        (base.take(at) + w + base.skip(at + w.len())).len() == base.len(),
        forall|t: int|
            0 <= t < at ==> (base.take(at) + w + base.skip(at + w.len()))[t] == base[t],
{
}

} // verus!
