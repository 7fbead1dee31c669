//! The binary page format, as a mathematical model.
//!
//! A page is a byte sequence of a fixed size. Its first six bytes are the
//! header: page id, low-water mark and high-water mark, each a 16-bit
//! little-endian word. The slot directory occupies `[6, low_water)`, one
//! 16-bit word per tuple, in insertion order; each slot holds the offset of
//! one encoded tuple, whose bytes lie in `[high_water, len)`. The region
//! `[low_water, high_water)` is free.
//!
//! A tuple is encoded as a 16-bit field count, one 16-bit type tag per
//! field (1 = integer, 2 = text), then the payloads in field order: an
//! integer payload is its raw 16-bit value, a text payload is a 16-bit
//! byte length followed by that many UTF-8 bytes.

use vstd::bytes::{spec_u16_from_le_bytes, spec_u16_to_le_bytes};
use vstd::prelude::*;
use vstd::utf8::{decode_utf8, encode_utf8, valid_utf8};

verus! {

/// End of the fixed header: first byte of the slot directory.
pub const HEADER_END: usize = 6;

/// A slot directory entry is one 16-bit word.
pub const SLOT_BYTES: usize = 2;

/// Offsets are 16-bit words, so a page never exceeds this many bytes.
pub const MAX_PAGE_BYTES: usize = 0xFFFF;

/// The abstract value of one field of a tuple.
pub enum FieldV {
    Integer(u16),
    Text(Seq<char>),
}

/// The type tag stored for a field: 1 for an integer, 2 for text.
pub open spec fn tag_of(f: FieldV) -> u16 {
    match f {
        FieldV::Integer(_) => 1,
        FieldV::Text(_) => 2,
    }
}

/// The encoded payload of one field.
pub open spec fn payload_of(f: FieldV) -> Seq<u8> {
    match f {
        FieldV::Integer(v) => spec_u16_to_le_bytes(v),
        FieldV::Text(cs) => spec_u16_to_le_bytes(encode_utf8(cs).len() as u16) + encode_utf8(cs),
    }
}

/// A field whose encoding the format can represent: a text payload must
/// fit its 16-bit length prefix.
pub open spec fn field_fits(f: FieldV) -> bool {
    match f {
        FieldV::Integer(_) => true,
        FieldV::Text(cs) => encode_utf8(cs).len() <= 0xFFFF,
    }
}

/// A tuple the format can represent: the field count fits its 16-bit
/// prefix and every field fits.
pub open spec fn fields_fit(fs: Seq<FieldV>) -> bool {
    &&& fs.len() <= 0xFFFF
    &&& forall|i: int| 0 <= i < fs.len() ==> field_fits(#[trigger] fs[i])
}

/// The concatenated type tags of a tuple's fields.
pub open spec fn tag_bytes(fs: Seq<FieldV>) -> Seq<u8>
    decreases fs.len(),
{
    if fs.len() == 0 {
        Seq::empty()
    } else {
        spec_u16_to_le_bytes(tag_of(fs[0])) + tag_bytes(fs.drop_first())
    }
}

/// The concatenated payloads of a tuple's fields.
pub open spec fn payload_bytes(fs: Seq<FieldV>) -> Seq<u8>
    decreases fs.len(),
{
    if fs.len() == 0 {
        Seq::empty()
    } else {
        payload_of(fs[0]) + payload_bytes(fs.drop_first())
    }
}

/// The full encoding of one tuple: field count, tags, payloads.
pub open spec fn encode_tuple(fs: Seq<FieldV>) -> Seq<u8> {
    spec_u16_to_le_bytes(fs.len() as u16) + tag_bytes(fs) + payload_bytes(fs)
}

/// The 16-bit little-endian word stored at `off`.
pub open spec fn word_at(b: Seq<u8>, off: int) -> u16
    recommends
        0 <= off,
        off + 2 <= b.len(),
{
    spec_u16_from_le_bytes(b.subrange(off, off + 2))
}

/// `b` with the 16-bit little-endian word at `off` replaced by `v`.
pub open spec fn put_word(b: Seq<u8>, off: int, v: u16) -> Seq<u8>
    recommends
        0 <= off,
        off + 2 <= b.len(),
{
    b.update(off, spec_u16_to_le_bytes(v)[0]).update(off + 1, spec_u16_to_le_bytes(v)[1])
}

/// `b` with the bytes at `[off, off + s.len())` replaced by `s`.
pub open spec fn splice(b: Seq<u8>, off: int, s: Seq<u8>) -> Seq<u8>
    recommends
        0 <= off,
        off + s.len() <= b.len(),
{
    b.subrange(0, off) + s + b.subrange(off + s.len(), b.len() as int)
}

/// The page id, from the header.
pub open spec fn page_id(b: Seq<u8>) -> u16 {
    word_at(b, 0)
}

/// The low-water mark: one past the last slot directory entry.
pub open spec fn low_water(b: Seq<u8>) -> u16 {
    word_at(b, 2)
}

/// The high-water mark: first byte of the tuple data region.
pub open spec fn high_water(b: Seq<u8>) -> u16 {
    word_at(b, 4)
}

/// A header that describes its page consistently: the slot directory ends
/// at an even distance from the header and before the data region, which
/// ends within the buffer.
pub open spec fn header_wf(b: Seq<u8>) -> bool {
    &&& 6 <= low_water(b)
    &&& low_water(b) <= high_water(b)
    &&& high_water(b) <= b.len()
    &&& (low_water(b) - 6) % 2 == 0
}

/// The number of slot directory entries.
pub open spec fn slot_count(b: Seq<u8>) -> int {
    (low_water(b) - 6) / 2
}

/// The tuple offset stored in slot `k`.
pub open spec fn slot_at(b: Seq<u8>, k: int) -> u16 {
    word_at(b, 6 + 2 * k)
}

/// The `n` type tags stored from `off` on, or `None` if they would run
/// past the end of the buffer.
pub open spec fn parse_tags(b: Seq<u8>, off: int, n: nat) -> Option<Seq<u16>>
    decreases n,
{
    if n == 0 {
        Some(Seq::empty())
    } else if 0 <= off && off + 2 <= b.len() {
        match parse_tags(b, off + 2, (n - 1) as nat) {
            Some(rest) => Some(seq![word_at(b, off)] + rest),
            None => None,
        }
    } else {
        None
    }
}

/// The fields whose payloads are stored from `off` on, one per tag, and
/// the offset one past the last payload; `None` on an unknown tag, a
/// payload that would run past the end of the buffer, or text that is not
/// valid UTF-8.
pub open spec fn parse_fields(b: Seq<u8>, off: int, tags: Seq<u16>) -> Option<(Seq<FieldV>, int)>
    decreases tags.len(),
{
    if tags.len() == 0 {
        Some((Seq::empty(), off))
    } else if !(0 <= off && off + 2 <= b.len()) {
        None
    } else if tags[0] == 1 {
        match parse_fields(b, off + 2, tags.drop_first()) {
            Some((fs, end)) => Some((seq![FieldV::Integer(word_at(b, off))] + fs, end)),
            None => None,
        }
    } else if tags[0] == 2 {
        let l = word_at(b, off) as int;
        if off + 2 + l <= b.len() && valid_utf8(b.subrange(off + 2, off + 2 + l)) {
            match parse_fields(b, off + 2 + l, tags.drop_first()) {
                Some((fs, end)) => Some(
                    (seq![FieldV::Text(decode_utf8(b.subrange(off + 2, off + 2 + l)))] + fs, end),
                ),
                None => None,
            }
        } else {
            None
        }
    } else {
        None
    }
}

/// The tuple encoded at `off`, and the offset one past its last byte.
pub open spec fn parse_tuple(b: Seq<u8>, off: int) -> Option<(Seq<FieldV>, int)> {
    if 0 <= off && off + 2 <= b.len() {
        let n = word_at(b, off) as nat;
        match parse_tags(b, off + 2, n) {
            Some(tags) => parse_fields(b, off + 2 + 2 * n, tags),
            None => None,
        }
    } else {
        None
    }
}

/// The fields of the tuple encoded at `off`, when it parses.
pub open spec fn tuple_fields(b: Seq<u8>, off: int) -> Seq<FieldV> {
    match parse_tuple(b, off) {
        Some(p) => p.0,
        None => Seq::empty(),
    }
}

/// The offset one past the tuple encoded at `off`, when it parses.
pub open spec fn tuple_end(b: Seq<u8>, off: int) -> int {
    match parse_tuple(b, off) {
        Some(p) => p.1,
        None => off,
    }
}

/// The tuples of the first `k` slots, in slot order; `None` if any of
/// them fails to parse.
pub open spec fn parse_slots(b: Seq<u8>, k: int) -> Option<Seq<Seq<FieldV>>>
    decreases k,
{
    if k <= 0 {
        Some(Seq::empty())
    } else {
        match (parse_slots(b, k - 1), parse_tuple(b, slot_at(b, k - 1) as int)) {
            (Some(rows), Some(p)) => Some(rows.push(p.0)),
            _ => None,
        }
    }
}

/// All tuples stored in the page, in slot (= insertion) order; `None` if
/// the header is inconsistent or any tuple fails to parse.
pub open spec fn parse_page(b: Seq<u8>) -> Option<Seq<Seq<FieldV>>> {
    if header_wf(b) {
        parse_slots(b, slot_count(b))
    } else {
        None
    }
}

/// Slot `k` holds a parseable tuple lying at or above the high-water mark.
pub open spec fn slot_wf(b: Seq<u8>, k: int) -> bool {
    &&& high_water(b) <= slot_at(b, k)
    &&& parse_tuple(b, slot_at(b, k) as int) is Some
}

/// The byte extents of the tuples in slots `k1` and `k2` do not overlap.
pub open spec fn slots_disjoint(b: Seq<u8>, k1: int, k2: int) -> bool {
    let s1 = slot_at(b, k1) as int;
    let s2 = slot_at(b, k2) as int;
    tuple_end(b, s1) <= s2 || tuple_end(b, s2) <= s1
}

/// A well-formed page: a consistent header, every slot pointing at a
/// parseable tuple in the data region, and pairwise disjoint tuple
/// extents. Freshly initialized pages are well formed and every insert
/// preserves well-formedness.
pub open spec fn page_wf(b: Seq<u8>) -> bool {
    &&& header_wf(b)
    &&& b.len() <= MAX_PAGE_BYTES
    &&& forall|k: int| 0 <= k < slot_count(b) ==> #[trigger] slot_wf(b, k)
    &&& forall|k1: int, k2: int|
        0 <= k1 < k2 < slot_count(b) ==> #[trigger] slots_disjoint(b, k1, k2)
}

/// Room for one more tuple of encoded length `l`: the tuple body and one
/// new slot entry must both fit in the free region.
pub open spec fn can_insert(b: Seq<u8>, l: int) -> bool {
    &&& header_wf(b)
    &&& b.len() <= MAX_PAGE_BYTES
    &&& low_water(b) + 2 + l <= high_water(b)
}

/// The page after inserting one tuple: its encoding is copied just below
/// the old high-water mark, a slot pointing at it is appended to the
/// directory, and the header marks are moved accordingly.
pub open spec fn insert_spec(b: Seq<u8>, fs: Seq<FieldV>) -> Seq<u8> {
    let enc = encode_tuple(fs);
    let lo = low_water(b) as int;
    let nhi = high_water(b) - enc.len();
    put_word(put_word(put_word(splice(b, nhi, enc), lo, nhi as u16), 2, (lo + 2) as u16), 4, nhi as u16)
}

/// A zero-filled page of `size` bytes whose header reads id 0, low-water
/// mark 6 and high-water mark `size`.
pub open spec fn fresh_page(size: int) -> Seq<u8> {
    put_word(put_word(put_word(Seq::new(size as nat, |i: int| 0u8), 0, 0u16), 2, 6u16), 4, size as u16)
}

/// Storing a word leaves the length and all other bytes unchanged, and
/// the stored word reads back.
pub proof fn lemma_put_word(b: Seq<u8>, off: int, v: u16)
    requires
        0 <= off,
        off + 2 <= b.len(),
    ensures
        put_word(b, off, v).len() == b.len(),
        word_at(put_word(b, off, v), off) == v,
        forall|i: int|
            0 <= i < b.len() && i != off && i != off + 1 ==> put_word(b, off, v)[i] == b[i],
{
    vstd::bytes::lemma_auto_spec_u16_to_from_le_bytes();
    assert(put_word(b, off, v).subrange(off, off + 2) =~= spec_u16_to_le_bytes(v));
}

/// Two buffers of equal length that agree on the two bytes of a word
/// store the same word there.
pub proof fn lemma_word_at_eq(b1: Seq<u8>, b2: Seq<u8>, off: int)
    requires
        0 <= off,
        off + 2 <= b1.len(),
        b1.len() == b2.len(),
        b1[off] == b2[off],
        b1[off + 1] == b2[off + 1],
    ensures
        word_at(b1, off) == word_at(b2, off),
{
    assert(b1.subrange(off, off + 2) =~= b2.subrange(off, off + 2));
}

/// Splicing leaves the length and the bytes outside the spliced range
/// unchanged, and the spliced bytes read back.
pub proof fn lemma_splice(b: Seq<u8>, off: int, s: Seq<u8>)
    requires
        0 <= off,
        off + s.len() <= b.len(),
    ensures
        splice(b, off, s).len() == b.len(),
        forall|i: int| 0 <= i < off ==> #[trigger] splice(b, off, s)[i] == b[i],
        forall|i: int| off <= i < off + s.len() ==> #[trigger] splice(b, off, s)[i] == s[i - off],
        forall|i: int| off + s.len() <= i < b.len() ==> #[trigger] splice(b, off, s)[i] == b[i],
{
}

/// The tag bytes of a tuple take two bytes per field.
pub proof fn lemma_tag_bytes_len(fs: Seq<FieldV>)
    ensures
        tag_bytes(fs).len() == 2 * fs.len(),
    decreases fs.len(),
{
    vstd::bytes::lemma_auto_spec_u16_to_from_le_bytes();
    if fs.len() > 0 {
        lemma_tag_bytes_len(fs.drop_first());
    }
}

/// Every field's payload takes at least two bytes, and the concatenated
/// payloads are at least as long as any single one of them.
pub proof fn lemma_payload_bytes_len(fs: Seq<FieldV>)
    ensures
        payload_bytes(fs).len() >= 2 * fs.len(),
        forall|i: int|
            0 <= i < fs.len() ==> payload_bytes(fs).len() >= payload_of(#[trigger] fs[i]).len(),
        forall|i: int| 0 <= i < fs.len() ==> payload_of(#[trigger] fs[i]).len() >= 2,
    decreases fs.len(),
{
    vstd::bytes::lemma_auto_spec_u16_to_from_le_bytes();
    if fs.len() > 0 {
        lemma_payload_bytes_len(fs.drop_first());
        assert forall|i: int|
            0 <= i < fs.len() implies payload_bytes(fs).len() >= payload_of(#[trigger] fs[i]).len() by {
            if i > 0 {
                assert(fs.drop_first()[i - 1] == fs[i]);
            }
        }
        assert forall|i: int| 0 <= i < fs.len() implies payload_of(#[trigger] fs[i]).len() >= 2 by {
            if i > 0 {
                assert(fs.drop_first()[i - 1] == fs[i]);
            }
        }
    }
}

/// The length of a tuple's encoding, by its parts.
pub proof fn lemma_encode_tuple_len(fs: Seq<FieldV>)
    ensures
        encode_tuple(fs).len() == 2 + 2 * fs.len() + payload_bytes(fs).len(),
        encode_tuple(fs).len() >= 2 + 4 * fs.len(),
{
    vstd::bytes::lemma_auto_spec_u16_to_from_le_bytes();
    lemma_tag_bytes_len(fs);
    lemma_payload_bytes_len(fs);
}

/// The type tags of a tuple's fields, as values.
pub open spec fn tags_seq(fs: Seq<FieldV>) -> Seq<u16> {
    Seq::new(fs.len(), |i: int| tag_of(fs[i]))
}

/// Dropping the first field drops the first of everything.
proof fn lemma_drop_first_parts(fs: Seq<FieldV>)
    requires
        fs.len() > 0,
    ensures
        tags_seq(fs).drop_first() =~= tags_seq(fs.drop_first()),
        fields_fit(fs) ==> fields_fit(fs.drop_first()),
        seq![fs[0]] + fs.drop_first() =~= fs,
{
    if fields_fit(fs) {
        assert forall|i: int| 0 <= i < fs.drop_first().len() implies field_fits(
            #[trigger] fs.drop_first()[i],
        ) by {
            assert(fs.drop_first()[i] == fs[i + 1]);
        }
    }
}

/// Tag bytes read back as the tags they encode.
proof fn lemma_parse_tags_of_encoding(b: Seq<u8>, off: int, fs: Seq<FieldV>)
    requires
        0 <= off,
        off + 2 * fs.len() <= b.len(),
        b.subrange(off, off + 2 * fs.len()) == tag_bytes(fs),
    ensures
        parse_tags(b, off, fs.len()) == Some(tags_seq(fs)),
    decreases fs.len(),
{
    vstd::bytes::lemma_auto_spec_u16_to_from_le_bytes();
    lemma_tag_bytes_len(fs);
    if fs.len() == 0 {
        assert(tags_seq(fs) =~= Seq::<u16>::empty());
    } else {
        let rest = fs.drop_first();
        lemma_tag_bytes_len(rest);
        lemma_drop_first_parts(fs);
        assert(b.subrange(off, off + 2) =~= spec_u16_to_le_bytes(tag_of(fs[0])));
        assert(word_at(b, off) == tag_of(fs[0]));
        assert(b.subrange(off + 2, off + 2 + 2 * rest.len()) =~= tag_bytes(rest)) by {
            assert forall|i: int| 0 <= i < 2 * rest.len() implies b.subrange(
                off + 2,
                off + 2 + 2 * rest.len(),
            )[i] == tag_bytes(rest)[i] by {
                assert(b[off + 2 + i] == b.subrange(off, off + 2 * fs.len())[2 + i]);
                assert(tag_bytes(fs)[2 + i] == tag_bytes(rest)[i]);
            }
        }
        lemma_parse_tags_of_encoding(b, off + 2, rest);
        assert(seq![tag_of(fs[0])] + tags_seq(rest) =~= tags_seq(fs));
    }
}

/// Payload bytes read back, under the tags of their fields, as the fields
/// they encode.
proof fn lemma_parse_fields_of_encoding(b: Seq<u8>, off: int, fs: Seq<FieldV>)
    requires
        fields_fit(fs),
        0 <= off,
        off + payload_bytes(fs).len() <= b.len(),
        b.subrange(off, off + payload_bytes(fs).len()) == payload_bytes(fs),
    ensures
        parse_fields(b, off, tags_seq(fs)) == Some((fs, off + payload_bytes(fs).len())),
    decreases fs.len(),
{
    vstd::bytes::lemma_auto_spec_u16_to_from_le_bytes();
    if fs.len() == 0 {
        assert(tags_seq(fs) =~= Seq::<u16>::empty());
        assert(fs =~= Seq::<FieldV>::empty());
    } else {
        let rest = fs.drop_first();
        let pl0 = payload_of(fs[0]);
        lemma_drop_first_parts(fs);
        lemma_payload_bytes_len(fs);
        lemma_payload_bytes_len(rest);
        let tags = tags_seq(fs);
        assert(tags[0] == tag_of(fs[0]));
        assert(b.subrange(off, off + pl0.len()) =~= pl0) by {
            assert forall|i: int| 0 <= i < pl0.len() implies b.subrange(off, off + pl0.len())[i]
                == pl0[i] by {
                assert(b[off + i] == b.subrange(off, off + payload_bytes(fs).len())[i]);
                assert(payload_bytes(fs)[i] == pl0[i]);
            }
        }
        let off2 = off + pl0.len();
        assert(b.subrange(off2, off2 + payload_bytes(rest).len()) =~= payload_bytes(rest)) by {
            assert forall|i: int| 0 <= i < payload_bytes(rest).len() implies b.subrange(
                off2,
                off2 + payload_bytes(rest).len(),
            )[i] == payload_bytes(rest)[i] by {
                assert(b[off2 + i] == b.subrange(off, off + payload_bytes(fs).len())[pl0.len() + i]);
                assert(payload_bytes(fs)[pl0.len() + i] == payload_bytes(rest)[i]);
            }
        }
        lemma_parse_fields_of_encoding(b, off2, rest);
        match fs[0] {
            FieldV::Integer(v) => {
                assert(b.subrange(off, off + 2) =~= spec_u16_to_le_bytes(v));
                assert(word_at(b, off) == v);
                assert(seq![FieldV::Integer(v)] + rest =~= fs);
            },
            FieldV::Text(cs) => {
                let ebytes = encode_utf8(cs);
                let l = ebytes.len() as int;
                assert(b.subrange(off, off + 2) =~= spec_u16_to_le_bytes(l as u16)) by {
                    assert(b[off] == b.subrange(off, off + pl0.len())[0]);
                    assert(b[off + 1] == b.subrange(off, off + pl0.len())[1]);
                    assert(pl0[0] == spec_u16_to_le_bytes(l as u16)[0]);
                    assert(pl0[1] == spec_u16_to_le_bytes(l as u16)[1]);
                }
                assert(word_at(b, off) == l as u16);
                assert((l as u16) as int == l);
                assert(b.subrange(off + 2, off + 2 + l) =~= ebytes) by {
                    assert forall|i: int| 0 <= i < l implies b.subrange(off + 2, off + 2 + l)[i]
                        == ebytes[i] by {
                        assert(b[off + 2 + i] == b.subrange(off, off + pl0.len())[2 + i]);
                        assert(pl0[2 + i] == ebytes[i]);
                    }
                }
                vstd::utf8::encode_utf8_valid_utf8(cs);
                vstd::utf8::encode_utf8_decode_utf8(cs);
                assert(seq![FieldV::Text(cs)] + rest =~= fs);
            },
        }
    }
}

/// The round-trip at the tuple level: the encoding of a representable
/// tuple, wherever it lies in a buffer, parses back to exactly that tuple,
/// consuming exactly its own bytes.
pub proof fn lemma_parse_encode(b: Seq<u8>, off: int, fs: Seq<FieldV>)
    requires
        fields_fit(fs),
        0 <= off,
        off + encode_tuple(fs).len() <= b.len(),
        b.subrange(off, off + encode_tuple(fs).len()) == encode_tuple(fs),
    ensures
        parse_tuple(b, off) == Some((fs, off + encode_tuple(fs).len())),
{
    vstd::bytes::lemma_auto_spec_u16_to_from_le_bytes();
    let enc = encode_tuple(fs);
    let n = fs.len() as int;
    lemma_tag_bytes_len(fs);
    lemma_payload_bytes_len(fs);
    lemma_encode_tuple_len(fs);
    assert(b.subrange(off, off + 2) =~= spec_u16_to_le_bytes(n as u16)) by {
        assert(b[off] == b.subrange(off, off + enc.len())[0]);
        assert(b[off + 1] == b.subrange(off, off + enc.len())[1]);
        assert(enc[0] == spec_u16_to_le_bytes(n as u16)[0]);
        assert(enc[1] == spec_u16_to_le_bytes(n as u16)[1]);
    }
    assert(word_at(b, off) == n as u16);
    assert((n as u16) as nat == fs.len());
    assert(b.subrange(off + 2, off + 2 + 2 * n) =~= tag_bytes(fs)) by {
        assert forall|i: int| 0 <= i < 2 * n implies b.subrange(off + 2, off + 2 + 2 * n)[i]
            == tag_bytes(fs)[i] by {
            assert(b[off + 2 + i] == b.subrange(off, off + enc.len())[2 + i]);
            assert(enc[2 + i] == tag_bytes(fs)[i]);
        }
    }
    lemma_parse_tags_of_encoding(b, off + 2, fs);
    let offp = off + 2 + 2 * n;
    assert(b.subrange(offp, offp + payload_bytes(fs).len()) =~= payload_bytes(fs)) by {
        assert forall|i: int| 0 <= i < payload_bytes(fs).len() implies b.subrange(
            offp,
            offp + payload_bytes(fs).len(),
        )[i] == payload_bytes(fs)[i] by {
            assert(b[offp + i] == b.subrange(off, off + enc.len())[2 + 2 * n + i]);
            assert(enc[2 + 2 * n + i] == payload_bytes(fs)[i]);
        }
    }
    lemma_parse_fields_of_encoding(b, offp, fs);
}

/// A successful field parse never moves the cursor backward or past the
/// end of the buffer.
pub proof fn lemma_parse_fields_bounds(b: Seq<u8>, off: int, tags: Seq<u16>)
    requires
        0 <= off <= b.len(),
    ensures
        parse_fields(b, off, tags) matches Some(p) ==> off <= p.1 <= b.len(),
    decreases tags.len(),
{
    if tags.len() > 0 && parse_fields(b, off, tags) is Some {
        if tags[0] == 1 {
            lemma_parse_fields_bounds(b, off + 2, tags.drop_first());
        } else {
            let l = word_at(b, off) as int;
            lemma_parse_fields_bounds(b, off + 2 + l, tags.drop_first());
        }
    }
}

/// A successful tuple parse covers at least its count word and stays
/// within the buffer.
pub proof fn lemma_parse_tuple_bounds(b: Seq<u8>, off: int)
    ensures
        parse_tuple(b, off) matches Some(p) ==> off + 2 <= p.1 <= b.len(),
{
    if parse_tuple(b, off) is Some {
        let n = word_at(b, off) as nat;
        lemma_parse_tags_bounds(b, off + 2, n);
        lemma_parse_fields_bounds(b, off + 2 + 2 * n, parse_tags(b, off + 2, n).unwrap());
    }
}

/// A successful tag parse means all tag words lie within the buffer.
pub proof fn lemma_parse_tags_bounds(b: Seq<u8>, off: int, n: nat)
    requires
        0 <= off <= b.len(),
    ensures
        parse_tags(b, off, n) is Some ==> off + 2 * n <= b.len(),
        parse_tags(b, off, n) matches Some(tags) ==> tags.len() == n,
    decreases n,
{
    if n > 0 && parse_tags(b, off, n) is Some {
        lemma_parse_tags_bounds(b, off + 2, (n - 1) as nat);
    }
}

/// Tag parsing reads only the tag words: a buffer of the same length that
/// agrees on them parses the same tags.
proof fn lemma_parse_tags_frame(b1: Seq<u8>, b2: Seq<u8>, off: int, n: nat)
    requires
        b1.len() == b2.len(),
        0 <= off <= b1.len(),
        parse_tags(b1, off, n) is Some,
        forall|i: int| off <= i < off + 2 * n ==> b1[i] == b2[i],
    ensures
        parse_tags(b2, off, n) == parse_tags(b1, off, n),
    decreases n,
{
    if n > 0 {
        lemma_parse_tags_bounds(b1, off, n);
        lemma_word_at_eq(b1, b2, off);
        lemma_parse_tags_frame(b1, b2, off + 2, (n - 1) as nat);
    }
}

/// The cursor position after a field parse; the start itself if it fails.
pub open spec fn fields_end(b: Seq<u8>, off: int, tags: Seq<u16>) -> int {
    match parse_fields(b, off, tags) {
        Some(p) => p.1,
        None => off,
    }
}

/// Field parsing reads only the bytes it consumes: a buffer of the same
/// length that agrees on `[off, end)` parses the same fields.
proof fn lemma_parse_fields_frame(b1: Seq<u8>, b2: Seq<u8>, off: int, tags: Seq<u16>)
    requires
        b1.len() == b2.len(),
        0 <= off <= b1.len(),
        parse_fields(b1, off, tags) is Some,
        forall|i: int| off <= i < fields_end(b1, off, tags) ==> b1[i] == b2[i],
    ensures
        parse_fields(b2, off, tags) == parse_fields(b1, off, tags),
    decreases tags.len(),
{
    if tags.len() > 0 {
        let end = parse_fields(b1, off, tags).unwrap().1;
        lemma_parse_fields_bounds(b1, off, tags);
        if tags[0] == 1 {
            lemma_parse_fields_bounds(b1, off + 2, tags.drop_first());
            lemma_word_at_eq(b1, b2, off);
            lemma_parse_fields_frame(b1, b2, off + 2, tags.drop_first());
        } else {
            let l = word_at(b1, off) as int;
            lemma_parse_fields_bounds(b1, off + 2 + l, tags.drop_first());
            lemma_word_at_eq(b1, b2, off);
            assert(b1.subrange(off + 2, off + 2 + l) =~= b2.subrange(off + 2, off + 2 + l));
            lemma_parse_fields_frame(b1, b2, off + 2 + l, tags.drop_first());
        }
    }
}

/// Tuple parsing reads only the bytes of the tuple itself: a buffer of
/// the same length that agrees on the tuple's extent parses it alike.
pub proof fn lemma_parse_tuple_frame(b1: Seq<u8>, b2: Seq<u8>, off: int)
    requires
        b1.len() == b2.len(),
        parse_tuple(b1, off) is Some,
        forall|i: int| off <= i < tuple_end(b1, off) ==> b1[i] == b2[i],
    ensures
        parse_tuple(b2, off) == parse_tuple(b1, off),
{
    let n = word_at(b1, off) as nat;
    let tags = parse_tags(b1, off + 2, n).unwrap();
    lemma_parse_tags_bounds(b1, off + 2, n);
    lemma_parse_fields_bounds(b1, off + 2 + 2 * n, tags);
    lemma_word_at_eq(b1, b2, off);
    lemma_parse_tags_frame(b1, b2, off + 2, n);
    lemma_parse_fields_frame(b1, b2, off + 2 + 2 * n, tags);
}

/// Once one slot fails to parse, taking more slots still fails.
pub proof fn lemma_parse_slots_none_mono(b: Seq<u8>, j: int, k: int)
    requires
        0 <= j <= k,
        parse_slots(b, j) is None,
    ensures
        parse_slots(b, k) is None,
    decreases k,
{
    if j < k {
        lemma_parse_slots_none_mono(b, j, k - 1);
    }
}

/// When every one of the first `k` slots points at a parseable tuple, the
/// slots parse to exactly those tuples, in slot order.
pub proof fn lemma_parse_slots_some(b: Seq<u8>, k: int)
    requires
        0 <= k,
        forall|j: int| 0 <= j < k ==> parse_tuple(b, slot_at(b, j) as int) is Some,
    ensures
        parse_slots(b, k) matches Some(rows) ==> {
            &&& rows.len() == k
            &&& forall|j: int| 0 <= j < k ==> rows[j] == tuple_fields(b, slot_at(b, j) as int)
        },
        parse_slots(b, k) is Some,
    decreases k,
{
    if k > 0 {
        lemma_parse_slots_some(b, k - 1);
    }
}

/// Slot parsing depends only on the slot words and the tuples they point
/// at: a buffer that agrees on those parses the same rows.
proof fn lemma_parse_slots_frame(b1: Seq<u8>, b2: Seq<u8>, k: int)
    requires
        forall|j: int| 0 <= j < k ==> slot_at(b2, j) == slot_at(b1, j),
        forall|j: int|
            0 <= j < k ==> parse_tuple(b2, #[trigger] slot_at(b1, j) as int) == parse_tuple(
                b1,
                slot_at(b1, j) as int,
            ),
    ensures
        parse_slots(b2, k) == parse_slots(b1, k),
    decreases k,
{
    if k > 0 {
        lemma_parse_slots_frame(b1, b2, k - 1);
    }
}

/// Inserting one representable tuple into a well-formed page with room
/// for it keeps the page well formed, moves the marks by one slot and one
/// tuple, and appends exactly that tuple to the parsed rows: what is read
/// back is what was written, after everything already there.
#[verifier::rlimit(50)]
pub proof fn lemma_insert(b: Seq<u8>, fs: Seq<FieldV>)
    requires
        page_wf(b),
        fields_fit(fs),
        can_insert(b, encode_tuple(fs).len() as int),
    ensures
        parse_page(b) is Some,
        page_wf(insert_spec(b, fs)),
        parse_page(insert_spec(b, fs)) == Some(parse_page(b).unwrap().push(fs)),
        insert_spec(b, fs).len() == b.len(),
        page_id(insert_spec(b, fs)) == page_id(b),
        low_water(insert_spec(b, fs)) == low_water(b) + 2,
        high_water(insert_spec(b, fs)) == high_water(b) - encode_tuple(fs).len(),
{
    let enc = encode_tuple(fs);
    let l = enc.len() as int;
    let lo = low_water(b) as int;
    let hi = high_water(b) as int;
    let nhi = hi - l;
    let cnt = slot_count(b);
    lemma_encode_tuple_len(fs);
    let b1 = splice(b, nhi, enc);
    let b2 = put_word(b1, lo, nhi as u16);
    let b3 = put_word(b2, 2, (lo + 2) as u16);
    let b4 = put_word(b3, 4, nhi as u16);
    lemma_splice(b, nhi, enc);
    lemma_put_word(b1, lo, nhi as u16);
    lemma_put_word(b2, 2, (lo + 2) as u16);
    lemma_put_word(b3, 4, nhi as u16);
    assert(b4 == insert_spec(b, fs));

    // The header words of the new page.
    lemma_word_at_eq(b3, b4, 2);
    lemma_word_at_eq(b2, b3, lo);
    lemma_word_at_eq(b3, b4, lo);
    lemma_word_at_eq(b, b1, 0);
    lemma_word_at_eq(b1, b2, 0);
    lemma_word_at_eq(b2, b3, 0);
    lemma_word_at_eq(b3, b4, 0);
    assert(page_id(b4) == page_id(b));
    assert(low_water(b4) == lo + 2);
    assert(high_water(b4) == nhi);
    assert(header_wf(b4));
    assert(slot_count(b4) == cnt + 1);

    // The old slot directory is untouched.
    assert forall|k: int| 0 <= k < cnt implies slot_at(b4, k) == slot_at(b, k) by {
        lemma_word_at_eq(b, b1, 6 + 2 * k);
        lemma_word_at_eq(b1, b2, 6 + 2 * k);
        lemma_word_at_eq(b2, b3, 6 + 2 * k);
        lemma_word_at_eq(b3, b4, 6 + 2 * k);
    }
    // The new slot points at the new tuple.
    assert(slot_at(b4, cnt) == nhi as u16);

    // The new tuple's bytes read back as its encoding.
    assert(b4.subrange(nhi, nhi + l) =~= enc);
    lemma_parse_encode(b4, nhi, fs);
    assert(parse_tuple(b4, nhi) == Some((fs, hi)));

    // The old tuples lie at or above the old high-water mark, where no
    // byte changed.
    assert forall|k: int| 0 <= k < cnt implies parse_tuple(
        b4,
        #[trigger] slot_at(b, k) as int,
    ) == parse_tuple(b, slot_at(b, k) as int) by {
        assert(slot_wf(b, k));
        let s = slot_at(b, k) as int;
        lemma_parse_tuple_bounds(b, s);
        assert forall|i: int| s <= i < tuple_end(b, s) implies b[i] == b4[i] by {}
        lemma_parse_tuple_frame(b, b4, s);
    }

    // The old rows parse unchanged, and the new slot appends the new tuple.
    assert forall|j: int| 0 <= j < cnt implies parse_tuple(b, slot_at(b, j) as int) is Some by {
        assert(slot_wf(b, j));
    }
    lemma_parse_slots_some(b, cnt);
    lemma_parse_slots_frame(b, b4, cnt);
    assert(parse_slots(b4, cnt + 1) == Some(parse_slots(b, cnt).unwrap().push(fs)));

    // Well-formedness of the new page: every slot, old and new, points at
    // a parseable tuple above the new high-water mark, and the new
    // tuple's extent precedes every old one.
    assert forall|k: int| 0 <= k < cnt + 1 implies slot_wf(b4, k) by {
        if k < cnt {
            assert(slot_wf(b, k));
        }
    }
    assert forall|k1: int, k2: int| 0 <= k1 < k2 < cnt + 1 implies slots_disjoint(b4, k1, k2) by {
        if k2 < cnt {
            assert(slots_disjoint(b, k1, k2));
            assert(slot_wf(b, k1));
            assert(slot_wf(b, k2));
        } else {
            assert(slot_wf(b, k1));
            assert(tuple_end(b4, nhi) == hi);
        }
    }
}

/// Appending a field appends its tag bytes.
pub proof fn lemma_tag_bytes_push(fs: Seq<FieldV>, x: FieldV)
    ensures
        tag_bytes(fs.push(x)) == tag_bytes(fs) + spec_u16_to_le_bytes(tag_of(x)),
    decreases fs.len(),
{
    if fs.len() == 0 {
        assert(fs.push(x)[0] == x);
        assert(fs.push(x).drop_first() =~= fs);
        assert(tag_bytes(fs.push(x)) =~= tag_bytes(fs) + spec_u16_to_le_bytes(tag_of(x)));
    } else {
        assert(fs.push(x)[0] == fs[0]);
        assert(fs.push(x).drop_first() =~= fs.drop_first().push(x));
        lemma_tag_bytes_push(fs.drop_first(), x);
        assert(tag_bytes(fs.push(x)) == spec_u16_to_le_bytes(tag_of(fs[0])) + (tag_bytes(
            fs.drop_first(),
        ) + spec_u16_to_le_bytes(tag_of(x))));
        assert(tag_bytes(fs.push(x)) =~= tag_bytes(fs) + spec_u16_to_le_bytes(tag_of(x)));
    }
}

/// Appending a field appends its payload.
pub proof fn lemma_payload_bytes_push(fs: Seq<FieldV>, x: FieldV)
    ensures
        payload_bytes(fs.push(x)) == payload_bytes(fs) + payload_of(x),
    decreases fs.len(),
{
    if fs.len() == 0 {
        assert(fs.push(x)[0] == x);
        assert(fs.push(x).drop_first() =~= fs);
        assert(payload_bytes(fs.push(x)) =~= payload_bytes(fs) + payload_of(x));
    } else {
        assert(fs.push(x)[0] == fs[0]);
        assert(fs.push(x).drop_first() =~= fs.drop_first().push(x));
        lemma_payload_bytes_push(fs.drop_first(), x);
        assert(payload_bytes(fs.push(x)) == payload_of(fs[0]) + (payload_bytes(fs.drop_first())
            + payload_of(x)));
        assert(payload_bytes(fs.push(x)) =~= payload_bytes(fs) + payload_of(x));
    }
}

/// A well-formed page always parses.
pub proof fn lemma_page_wf_parses(b: Seq<u8>)
    requires
        page_wf(b),
    ensures
        parse_page(b) is Some,
{
    assert forall|j: int| 0 <= j < slot_count(b) implies parse_tuple(
        b,
        slot_at(b, j) as int,
    ) is Some by {
        assert(slot_wf(b, j));
    }
    lemma_parse_slots_some(b, slot_count(b));
}

/// A freshly initialized page is well formed, reads id 0 and an empty
/// slot directory, and parses to no tuples at all.
pub proof fn lemma_fresh_page(size: int)
    requires
        6 <= size <= MAX_PAGE_BYTES,
    ensures
        fresh_page(size).len() == size,
        page_id(fresh_page(size)) == 0,
        low_water(fresh_page(size)) == 6,
        high_water(fresh_page(size)) == size,
        page_wf(fresh_page(size)),
        parse_page(fresh_page(size)) == Some(Seq::<Seq<FieldV>>::empty()),
{
    let z = Seq::new(size as nat, |i: int| 0u8);
    let p1 = put_word(z, 0, 0u16);
    let p2 = put_word(p1, 2, 6u16);
    let p3 = put_word(p2, 4, size as u16);
    lemma_put_word(z, 0, 0u16);
    lemma_put_word(p1, 2, 6u16);
    lemma_put_word(p2, 4, size as u16);
    lemma_word_at_eq(p1, p2, 0);
    lemma_word_at_eq(p2, p3, 0);
    lemma_word_at_eq(p2, p3, 2);
    assert(slot_count(p3) == 0);
}

} // verus!
