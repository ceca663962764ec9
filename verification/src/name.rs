//! The mathematical model of the DNS domain-name wire format: splitting a
//! name into labels, the length-prefixed label encoding written by
//! `PacketBuffer::write_qname`, and the pointer-following parse performed by
//! `PacketBuffer::read_qname`.

use vstd::prelude::*;
use vstd::utf8::{encode_utf8, is_ascii_chars, is_ascii_chars_encode_utf8};
use crate::pb::BufferError;

verus! {

/// The byte value of the label separator `'.'`.
pub open spec fn dot_byte() -> u8 {
    46u8
}

/// Split a byte string on `'.'`, exactly as `str::split('.')` does on the
/// UTF-8 bytes of a name: an empty string yields one empty label, and every
/// separator opens a new label.
pub open spec fn split_bytes(s: Seq<u8>) -> Seq<Seq<u8>>
    decreases s.len(),
{
    if s.len() == 0 {
        seq![Seq::<u8>::empty()]
    } else if s[0] == dot_byte() {
        seq![Seq::<u8>::empty()] + split_bytes(s.skip(1))
    } else {
        let rest = split_bytes(s.skip(1));
        seq![seq![s[0]] + rest[0]] + rest.skip(1)
    }
}

/// The body an encoder emits for a list of labels: each label's length byte
/// followed by its bytes.  The terminating zero byte is not included.
pub open spec fn labels_body(ls: Seq<Seq<u8>>) -> Seq<u8>
    decreases ls.len(),
{
    if ls.len() == 0 {
        Seq::<u8>::empty()
    } else {
        seq![ls[0].len() as u8] + ls[0] + labels_body(ls.skip(1))
    }
}

/// The full wire form of a name: its labels' bodies and the terminator.
pub open spec fn name_wire(s: Seq<u8>) -> Seq<u8> {
    labels_body(split_bytes(s)) + seq![0u8]
}

/// Every label of the name fits the six-bit length field.
pub open spec fn labels_fit(s: Seq<u8>) -> bool {
    forall|i: int| 0 <= i < split_bytes(s).len() ==> #[trigger] split_bytes(s)[i].len() <= 63
}

/// What writing a list of labels (and the terminator) does to the cursor:
/// mirrors the sequential checks of the encoder, so the error it selects is
/// exactly the one the encoder reports.  On success the result is the cursor
/// position after the terminator.
pub open spec fn write_labels_r(ls: Seq<Seq<u8>>, pos: int) -> Result<int, BufferError>
    decreases ls.len(),
{
    if ls.len() == 0 {
        if pos >= 512 {
            Err(BufferError::EndOfBuffer)
        } else {
            Ok(pos + 1)
        }
    } else {
        let l = ls[0];
        if l.len() > 63 {
            Err(BufferError::LabelTooLong)
        } else if pos + 1 + l.len() > 512 {
            Err(BufferError::EndOfBuffer)
        } else {
            write_labels_r(ls.skip(1), pos + 1 + l.len())
        }
    }
}

/// Lowercasing of one ASCII byte.
pub open spec fn ascii_lower(b: u8) -> u8 {
    if 65 <= b <= 90 {
        (b + 32) as u8
    } else {
        b
    }
}

/// The characters `String::from_utf8_lossy` yields for the given bytes.
/// The decode depends on the bytes alone, so the result only carries a name.
pub uninterp spec fn lossy_of(bytes: Seq<u8>) -> Seq<char>;

/// The characters `str::to_lowercase` yields for the given characters.
/// The fold depends on the characters alone, so the result only carries a
/// name.
pub uninterp spec fn lower_of(s: Seq<char>) -> Seq<char>;

/// Lowercasing of one ASCII byte, as a character.
pub open spec fn lower_char(b: u8) -> char {
    ascii_lower(b) as char
}

/// The characters of an all-ASCII label: each byte lowercased.
pub open spec fn ascii_label_chars(bytes: Seq<u8>) -> Seq<char> {
    bytes.map_values(|b: u8| lower_char(b))
}

/// The text a decoded label turns into: ASCII bytes are lowercased one by
/// one; anything else goes through the lossy UTF-8 decode and the Unicode
/// lowercase fold.
pub open spec fn label_chars(bytes: Seq<u8>) -> Seq<char> {
    if forall|i: int| 0 <= i < bytes.len() ==> bytes[i] < 128 {
        ascii_label_chars(bytes)
    } else {
        lower_of(lossy_of(bytes))
    }
}

/// Join decoded labels with dots, one separator before every label but the
/// first.
pub open spec fn join_labels(ls: Seq<Seq<char>>) -> Seq<char>
    decreases ls.len(),
{
    if ls.len() == 0 {
        Seq::<char>::empty()
    } else if ls.len() == 1 {
        ls[0]
    } else {
        ls[0] + seq!['.'] + join_labels(ls.skip(1))
    }
}

/// What decoding a (possibly compressed) name from a 512-byte message at a
/// given position yields: the decoded labels and the resting position for
/// the shared cursor.  A compression pointer jumps to the offset its low 14
/// bits give; the first pointer fixes the resting position just past itself;
/// more than five jumps fail.  A length of zero ends the name.
pub open spec fn parse_labels(buf: Seq<u8>, pos: int, jumps: int) -> Result<
    (Seq<Seq<char>>, int),
    BufferError,
>
    decreases 7 - jumps, 512 - pos,
    when jumps <= 6
{
    if jumps > 5 {
        Err(BufferError::JumpsLimitExceeded(5))
    } else if !(0 <= pos < 512) {
        Err(BufferError::EndOfBuffer)
    } else {
        let len = buf[pos];
        if len & 0xC0 == 0xC0 {
            if !(pos + 1 < 512) {
                Err(BufferError::EndOfBuffer)
            } else {
                let target = ((((len as u16) ^ 0xC0) << 8) | (buf[pos + 1] as u16)) as int;
                match parse_labels(buf, target, jumps + 1) {
                    Ok((ls, _inner_end)) => Ok((ls, pos + 2)),
                    Err(e) => Err(e),
                }
            }
        } else if len == 0 {
            Ok((Seq::<Seq<char>>::empty(), pos + 1))
        } else {
            if pos + 1 + len >= 512 {
                Err(BufferError::EndOfBuffer)
            } else {
                let chars = label_chars(buf.subrange(pos + 1, pos + 1 + len));
                match parse_labels(buf, pos + 1 + len, jumps) {
                    Ok((ls, end)) => Ok((seq![chars] + ls, end)),
                    Err(e) => Err(e),
                }
            }
        }
    }
}

/// The characters of a byte string read one byte per character.
pub open spec fn bytes_chars(s: Seq<u8>) -> Seq<char> {
    s.map_values(|b: u8| b as char)
}

/// A name whose wire form decodes back to itself: ASCII bytes, and every
/// label between one and 63 bytes long.
pub open spec fn wf_name_bytes(s: Seq<u8>) -> bool {
    &&& forall|i: int| 0 <= i < s.len() ==> s[i] < 128
    &&& forall|i: int|
        0 <= i < split_bytes(s).len() ==> 1 <= (#[trigger] split_bytes(s)[i]).len() <= 63
}

/// No ASCII uppercase letter anywhere: the decoder's lowercasing then
/// leaves the name untouched.
pub open spec fn lowercase_name_bytes(s: Seq<u8>) -> bool {
    forall|i: int| 0 <= i < s.len() ==> !(65 <= #[trigger] s[i] <= 90)
}

/// A domain name, as text, whose wire form decodes back to itself: ASCII
/// characters only, every label between one and 63 bytes, and nothing the
/// decoder's lowercasing would change.
pub open spec fn wf_dns_name(s: Seq<char>) -> bool {
    &&& is_ascii_chars(s)
    &&& wf_name_bytes(encode_utf8(s))
    &&& lowercase_name_bytes(encode_utf8(s))
}

/// The UTF-8 bytes of ASCII text are its characters, one byte each, and
/// reading them back as characters restores the text.
pub proof fn lemma_ascii_bytes_chars(s: Seq<char>)
    requires
        is_ascii_chars(s),
    ensures
        encode_utf8(s).len() == s.len(),
        forall|i: int| 0 <= i < s.len() ==> encode_utf8(s)[i] == s[i] as u8,
        bytes_chars(encode_utf8(s)) =~= s,
{
    is_ascii_chars_encode_utf8(s);
    assert forall|i: int| 0 <= i < s.len() implies bytes_chars(encode_utf8(s))[i] == s[i] by {
        assert(encode_utf8(s)[i] == s[i] as u8);
        assert((s[i] as u8) as char == s[i]);
    }
}

/// Splitting never yields an empty list of labels.
pub proof fn lemma_split_nonempty(s: Seq<u8>)
    ensures
        split_bytes(s).len() >= 1,
    decreases s.len(),
{
    if s.len() == 0 {
    } else if s[0] == dot_byte() {
        lemma_split_nonempty(s.skip(1));
    } else {
        lemma_split_nonempty(s.skip(1));
    }
}

/// Scanning a name: the segment from a label start `i` to the next dot (or
/// the end) at `j` is the first label of the remaining split.
pub proof fn lemma_split_scan(s: Seq<u8>, i: int, j: int)
    requires
        0 <= i <= j <= s.len(),
        forall|k: int| i <= k < j ==> s[k] != dot_byte(),
        j < s.len() ==> s[j] == dot_byte(),
    ensures
        j < s.len() ==> split_bytes(s.skip(i)) =~~= seq![s.subrange(i, j)] + split_bytes(
            s.skip(j + 1),
        ),
        j == s.len() ==> split_bytes(s.skip(i)) =~~= seq![s.subrange(i, j)],
    decreases j - i,
{
    lemma_split_nonempty(s.skip(i));
    if i == j {
        if i == s.len() {
            assert(s.skip(i) =~= Seq::<u8>::empty());
        } else {
            assert(s.skip(i)[0] == s[i]);
            assert(s.skip(i).skip(1) =~= s.skip(j + 1));
            assert(split_bytes(s.skip(i)) =~~= seq![Seq::<u8>::empty()] + split_bytes(
                s.skip(j + 1),
            ));
            assert(s.subrange(i, j) =~= Seq::<u8>::empty());
        }
    } else {
        assert(s.skip(i)[0] == s[i]);
        assert(s.skip(i).skip(1) =~= s.skip(i + 1));
        lemma_split_scan(s, i + 1, j);
        lemma_split_nonempty(s.skip(i + 1));
        let rest = split_bytes(s.skip(i + 1));
        assert(split_bytes(s.skip(i)) =~~= seq![seq![s[i]] + rest[0]] + rest.skip(1));
        if j < s.len() {
            assert(rest[0] =~= s.subrange(i + 1, j));
            assert(seq![s[i]] + s.subrange(i + 1, j) =~= s.subrange(i, j));
            assert(rest.skip(1) =~~= split_bytes(s.skip(j + 1)));
        } else {
            assert(rest =~~= seq![s.subrange(i + 1, j)]);
            assert(seq![s[i]] + s.subrange(i + 1, j) =~= s.subrange(i, j));
            assert(rest.skip(1) =~~= Seq::<Seq<u8>>::empty());
        }
    }
}

/// The encoder's body is compositional over a split of the label list.
pub proof fn lemma_labels_body_concat(a: Seq<Seq<u8>>, b: Seq<Seq<u8>>)
    ensures
        labels_body(a + b) =~= labels_body(a) + labels_body(b),
    decreases a.len(),
{
    if a.len() == 0 {
        assert(a + b =~= b);
    } else {
        assert((a + b).skip(1) =~= a.skip(1) + b);
        lemma_labels_body_concat(a.skip(1), b);
        assert((a + b)[0] == a[0]);
    }
}

/// Every byte of every label of an ASCII byte string is ASCII.
pub proof fn lemma_split_ascii(s: Seq<u8>)
    requires
        forall|i: int| 0 <= i < s.len() ==> s[i] < 128,
    ensures
        forall|i: int, k: int|
            0 <= i < split_bytes(s).len() && 0 <= k < split_bytes(s)[i].len()
                ==> #[trigger] split_bytes(s)[i][k] < 128,
    decreases s.len(),
{
    if s.len() == 0 {
    } else if s[0] == dot_byte() {
        lemma_split_ascii(s.skip(1));
        lemma_split_nonempty(s.skip(1));
        let rest = split_bytes(s.skip(1));
        assert forall|i: int, k: int|
            0 <= i < split_bytes(s).len() && 0 <= k < split_bytes(s)[i].len()
            implies #[trigger] split_bytes(s)[i][k] < 128 by {
            if i > 0 {
                assert(split_bytes(s)[i] == rest[i - 1]);
            }
        }
    } else {
        lemma_split_ascii(s.skip(1));
        lemma_split_nonempty(s.skip(1));
        let rest = split_bytes(s.skip(1));
        assert forall|i: int, k: int|
            0 <= i < split_bytes(s).len() && 0 <= k < split_bytes(s)[i].len()
            implies #[trigger] split_bytes(s)[i][k] < 128 by {
            if i == 0 {
                if k == 0 {
                    assert(split_bytes(s)[0][0] == s[0]);
                } else {
                    assert(split_bytes(s)[0][k] == rest[0][k - 1]);
                }
            } else {
                assert(split_bytes(s)[i] == rest.skip(1)[i - 1]);
                assert(rest.skip(1)[i - 1] == rest[i]);
            }
        }
    }
}

/// Joining the decoded labels of a split ASCII byte string gives the whole
/// string back, lowercased: splitting and joining are inverse.
pub proof fn lemma_join_split(s: Seq<u8>)
    requires
        forall|i: int| 0 <= i < s.len() ==> s[i] < 128,
    ensures
        join_labels(split_bytes(s).map_values(|l: Seq<u8>| label_chars(l))) =~= ascii_label_chars(
            s,
        ),
    decreases s.len(),
{
    lemma_split_ascii(s);
    let m = split_bytes(s).map_values(|l: Seq<u8>| label_chars(l));
    if s.len() == 0 {
        assert(split_bytes(s) =~~= seq![Seq::<u8>::empty()]);
        assert(m.len() == 1);
        assert(m[0] == label_chars(Seq::<u8>::empty()));
        assert(label_chars(Seq::<u8>::empty()) =~= Seq::<char>::empty());
        assert(ascii_label_chars(s) =~= Seq::<char>::empty());
    } else if s[0] == dot_byte() {
        lemma_join_split(s.skip(1));
        lemma_split_nonempty(s.skip(1));
        let rest = split_bytes(s.skip(1));
        let mr = rest.map_values(|l: Seq<u8>| label_chars(l));
        assert(m.len() == rest.len() + 1);
        assert(m[0] == label_chars(Seq::<u8>::empty()));
        assert(label_chars(Seq::<u8>::empty()) =~= Seq::<char>::empty());
        assert(m.skip(1) =~= mr);
        assert(join_labels(m) =~= m[0] + seq!['.'] + join_labels(m.skip(1)));
        assert(lower_char(dot_byte()) == '.');
        assert(join_labels(m) =~= ascii_label_chars(s));
    } else {
        lemma_join_split(s.skip(1));
        lemma_split_nonempty(s.skip(1));
        lemma_split_ascii(s.skip(1));
        let rest = split_bytes(s.skip(1));
        let mr = rest.map_values(|l: Seq<u8>| label_chars(l));
        let first = seq![s[0]] + rest[0];
        assert(split_bytes(s) =~~= seq![first] + rest.skip(1));
        assert(m[0] == label_chars(first));
        assert(forall|k: int| 0 <= k < rest[0].len() ==> rest[0][k] < 128);
        assert(forall|k: int| 0 <= k < first.len() ==> first[k] < 128);
        assert(label_chars(first) =~= ascii_label_chars(first));
        assert(label_chars(rest[0]) =~= ascii_label_chars(rest[0]));
        assert(ascii_label_chars(first) =~= seq![lower_char(s[0])] + ascii_label_chars(rest[0]));
        if rest.len() == 1 {
            assert(m.len() == 1);
            assert(join_labels(m) == m[0]);
            assert(mr.len() == 1);
            assert(join_labels(mr) == mr[0]);
            assert(mr[0] == label_chars(rest[0]));
            assert(ascii_label_chars(rest[0]) =~= ascii_label_chars(s.skip(1)));
            assert(join_labels(m) =~= seq![lower_char(s[0])] + ascii_label_chars(s.skip(1)));
            assert(ascii_label_chars(s) =~= seq![lower_char(s[0])] + ascii_label_chars(s.skip(1)));
        } else {
            assert(m.len() == rest.len() >= 2);
            assert(join_labels(m) =~= m[0] + seq!['.'] + join_labels(m.skip(1)));
            assert(m.skip(1) =~= mr.skip(1));
            assert(join_labels(mr) =~= mr[0] + seq!['.'] + join_labels(mr.skip(1)));
            assert(mr[0] == label_chars(rest[0]));
            assert(join_labels(m) =~= seq![lower_char(s[0])] + join_labels(mr));
            assert(join_labels(mr) =~= ascii_label_chars(s.skip(1)));
            assert(ascii_label_chars(s) =~= seq![lower_char(s[0])] + ascii_label_chars(s.skip(1)));
        }
    }
}

/// Parsing the wire form of a list of labels written without compression
/// gives back exactly those labels, decoded, with the cursor resting just
/// past the terminator.
pub proof fn lemma_parse_of_body(buf: Seq<u8>, pos: int, ls: Seq<Seq<u8>>, jumps: int)
    requires
        0 <= pos,
        0 <= jumps <= 5,
        buf.len() == 512,
        forall|i: int| 0 <= i < ls.len() ==> 1 <= (#[trigger] ls[i]).len() <= 63,
        pos + labels_body(ls).len() + 1 <= 512,
        buf.subrange(pos, pos + labels_body(ls).len() + 1) == labels_body(ls) + seq![0u8],
    ensures
        parse_labels(buf, pos, jumps) == Ok::<(Seq<Seq<char>>, int), BufferError>((
            ls.map_values(|l: Seq<u8>| label_chars(l)),
            pos + labels_body(ls).len() + 1,
        )),
    decreases ls.len(),
{
    let w = labels_body(ls) + seq![0u8];
    if ls.len() == 0 {
        assert(labels_body(ls).len() == 0);
        assert(buf[pos] == w[0]);
        assert(buf[pos] == 0);
        assert(0u8 & 0xC0 != 0xC0) by (bit_vector);
        assert(ls.map_values(|l: Seq<u8>| label_chars(l)) =~= Seq::<Seq<char>>::empty());
    } else {
        let l = ls[0];
        let n = l.len() as int;
        assert(labels_body(ls) =~= seq![l.len() as u8] + l + labels_body(ls.skip(1)));
        assert(buf[pos] == w[0]);
        assert(buf[pos] == l.len() as u8);
        let lenb = l.len() as u8;
        assert(lenb & 0xC0 != 0xC0) by (bit_vector)
            requires
                lenb <= 63,
        ;
        assert(lenb != 0);
        assert(pos + 1 + n < 512);
        assert(buf.subrange(pos + 1, pos + 1 + n) =~= l) by {
            assert forall|k: int| 0 <= k < n implies buf.subrange(pos + 1, pos + 1 + n)[k] == l[k]
                by {
                assert(buf[pos + 1 + k] == w[1 + k]);
                assert(w[1 + k] == l[k]);
            }
        }
        let pos2 = pos + 1 + n;
        let ls2 = ls.skip(1);
        assert(forall|i: int| 0 <= i < ls2.len() ==> 1 <= (#[trigger] ls2[i]).len() <= 63) by {
            assert(forall|i: int| 0 <= i < ls2.len() ==> ls2[i] == ls[i + 1]);
        }
        assert(buf.subrange(pos2, pos2 + labels_body(ls2).len() + 1) =~= labels_body(ls2) + seq![
            0u8,
        ]) by {
            assert forall|k: int| 0 <= k < labels_body(ls2).len() + 1 implies buf.subrange(
                pos2,
                pos2 + labels_body(ls2).len() + 1,
            )[k] == (labels_body(ls2) + seq![0u8])[k] by {
                assert(buf[pos2 + k] == w[1 + n + k]);
                assert(w[1 + n + k] == (labels_body(ls2) + seq![0u8])[k]);
            }
        }
        lemma_parse_of_body(buf, pos2, ls2, jumps);
        assert(ls.map_values(|l2: Seq<u8>| label_chars(l2)) =~= seq![label_chars(l)]
            + ls2.map_values(|l2: Seq<u8>| label_chars(l2)));
    }
}

/// The name codec round trip: a well-formed name written without
/// compression parses back to its own lowercased text, and the cursor comes
/// to rest exactly past the terminator.
pub proof fn lemma_name_roundtrip(buf: Seq<u8>, pos: int, s: Seq<u8>)
    requires
        wf_name_bytes(s),
        0 <= pos,
        buf.len() == 512,
        pos + name_wire(s).len() <= 512,
        buf.subrange(pos, pos + name_wire(s).len()) == name_wire(s),
    ensures
        parse_labels(buf, pos, 0) matches Ok(p) && join_labels(p.0) == ascii_label_chars(s) && p.1
            == pos + name_wire(s).len(),
        lowercase_name_bytes(s) ==> (parse_labels(buf, pos, 0) matches Ok(p) && join_labels(p.0)
            == bytes_chars(s)),
{
    let ls = split_bytes(s);
    assert(name_wire(s) == labels_body(ls) + seq![0u8]);
    lemma_parse_of_body(buf, pos, ls, 0);
    lemma_join_split(s);
    if lowercase_name_bytes(s) {
        assert(ascii_label_chars(s) =~= bytes_chars(s));
    }
}
/// field and the whole wire form fits the buffer; the cursor then rests just
/// past the terminator.
pub proof fn lemma_write_labels_ok(ls: Seq<Seq<u8>>, pos: int)
    ensures
        write_labels_r(ls, pos) is Ok <==> ((forall|i: int|
            0 <= i < ls.len() ==> #[trigger] ls[i].len() <= 63) && pos + labels_body(ls).len() + 1
            <= 512),
        write_labels_r(ls, pos) is Ok ==> write_labels_r(ls, pos) == Ok::<int, BufferError>(
            pos + labels_body(ls).len() + 1,
        ),
    decreases ls.len(),
{
    if ls.len() == 0 {
        assert(labels_body(ls).len() == 0);
    } else {
        let l = ls[0];
        assert(labels_body(ls) =~= seq![l.len() as u8] + l + labels_body(ls.skip(1)));
        if l.len() > 63 {
        } else if pos + 1 + l.len() > 512 {
            assert(labels_body(ls).len() >= 1 + l.len());
        } else {
            lemma_write_labels_ok(ls.skip(1), pos + 1 + l.len());
            assert forall|i: int| 0 <= i < ls.skip(1).len() implies #[trigger] ls.skip(
                1,
            )[i].len() == ls[i + 1].len() by {}
            if write_labels_r(ls, pos) is Ok {
                assert(forall|i: int| 0 <= i < ls.len() ==> #[trigger] ls[i].len() <= 63) by {
                    assert(forall|i: int|
                        1 <= i < ls.len() ==> ls[i].len() == ls.skip(1)[i - 1].len());
                }
            }
            if (forall|i: int| 0 <= i < ls.len() ==> #[trigger] ls[i].len() <= 63) && pos
                + labels_body(ls).len() + 1 <= 512 {
                assert(forall|i: int|
                    0 <= i < ls.skip(1).len() ==> #[trigger] ls.skip(1)[i].len() <= 63);
            }
        }
    }
}

/// The encoder reports an oversized label only when one exists.
pub proof fn lemma_write_labels_ltl(ls: Seq<Seq<u8>>, pos: int)
    ensures
        write_labels_r(ls, pos) == Err::<int, BufferError>(BufferError::LabelTooLong)
            ==> !(forall|i: int| 0 <= i < ls.len() ==> (#[trigger] ls[i]).len() <= 63),
    decreases ls.len(),
{
    if ls.len() == 0 {
    } else if ls[0].len() > 63 {
    } else if pos + 1 + ls[0].len() > 512 {
    } else {
        lemma_write_labels_ltl(ls.skip(1), pos + 1 + ls[0].len());
        if write_labels_r(ls, pos) == Err::<int, BufferError>(BufferError::LabelTooLong) {
            assert(!(forall|i: int|
                0 <= i < ls.skip(1).len() ==> (#[trigger] ls.skip(1)[i]).len() <= 63));
            let i = choose|i: int|
                0 <= i < ls.skip(1).len() && !((#[trigger] ls.skip(1)[i]).len() <= 63);
            assert(ls[i + 1] == ls.skip(1)[i]);
        }
    }
}

/// Appending one more decoded label to a joined name inserts one separator,
/// unless it is the first label.
pub proof fn lemma_join_push(ls: Seq<Seq<char>>, x: Seq<char>)
    ensures
        ls.len() == 0 ==> join_labels(ls.push(x)) =~= x,
        ls.len() > 0 ==> join_labels(ls.push(x)) =~= join_labels(ls) + seq!['.'] + x,
    decreases ls.len(),
{
    if ls.len() == 0 {
        assert(ls.push(x)[0] =~= x);
    } else if ls.len() == 1 {
        assert(ls.push(x).skip(1) =~= seq![x]);
        assert(join_labels(seq![x]) =~= x);
        assert(ls.push(x)[0] == ls[0]);
        assert(join_labels(ls.push(x)) =~= ls[0] + seq!['.'] + x);
    } else {
        lemma_join_push(ls.skip(1), x);
        assert(ls.push(x).skip(1) =~= ls.skip(1).push(x));
        assert(ls.push(x)[0] == ls[0]);
    }
}

} // verus!
