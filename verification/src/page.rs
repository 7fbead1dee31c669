//! The slotted-page engine: a fixed-size byte buffer holding a header, a
//! slot directory growing upward, and tuple data growing downward.
//!
//! Every operation is specified against the model in [`crate::format`]:
//! `write` turns the buffer into [`insert_spec`] of its old value exactly
//! when [`can_insert`] holds, and `read` returns [`parse_page`] of the
//! buffer exactly when it is `Some`.

use crate::format::{
    can_insert, encode_tuple, field_fits, fields_fit, fresh_page, header_wf, high_water,
    insert_spec, low_water, page_id, page_wf, parse_fields, parse_page, parse_slots, parse_tags,
    parse_tuple, payload_bytes, put_word, slot_count, splice, tag_bytes, tag_of, word_at, FieldV,
    HEADER_END, MAX_PAGE_BYTES, SLOT_BYTES,
};
use vstd::bytes::{u16_from_le_bytes, u16_to_le_bytes};
use vstd::pervasive::VecAdditionalExecFns;
use vstd::prelude::*;
use vstd::slice::{slice_subrange, slice_to_vec};
use vstd::utf8::{encode_utf8, valid_utf8};

verus! {

/// One typed field of a tuple: length-prefixed UTF-8 text or a 16-bit
/// integer.
#[derive(Debug, Clone, PartialEq, Eq)]
pub enum DataField {
    Text(String),
    Integer(u16),
}

impl View for DataField {
    type V = FieldV;

    open spec fn view(&self) -> FieldV {
        match self {
            DataField::Text(s) => FieldV::Text(s@),
            DataField::Integer(v) => FieldV::Integer(*v),
        }
    }
}

/// The abstract values of a sequence of fields.
pub open spec fn fields_view(fields: Seq<DataField>) -> Seq<FieldV> {
    Seq::new(fields.len(), |i: int| fields[i]@)
}

/// The abstract values of a sequence of tuples.
pub open spec fn rows_view(rows: Seq<Vec<DataField>>) -> Seq<Seq<FieldV>> {
    Seq::new(rows.len(), |i: int| fields_view(rows[i]@))
}

impl DataField {
    /// The type tag stored for this field in a tuple's encoding.
    pub fn to_int(&self) -> (r: u16)
        ensures
            r == tag_of(self@),
    {
        match self {
            DataField::Integer(_) => 1,
            DataField::Text(_) => 2,
        }
    }
}

/// How a page operation fails: no room left for the tuple, or bytes that
/// do not parse as a page.
#[derive(Debug, Clone, Copy, PartialEq, Eq)]
pub enum PageError {
    PageFull,
    CorruptPage,
}

/// Relies on `String::from_utf8`: it succeeds exactly on valid UTF-8
/// input, and the returned string keeps the given bytes as its contents.
#[verifier::external_body]
fn bytes_to_string(bytes: Vec<u8>) -> (r: Option<String>)
    ensures
        r is Some <==> valid_utf8(bytes@),
        r matches Some(s) ==> encode_utf8(s@) == bytes@,
{
    String::from_utf8(bytes).ok()
}

/// The 16-bit little-endian word stored at `off` in the buffer.
fn read_word(buffer: &Vec<u8>, off: usize) -> (r: u16)
    requires
        off + 2 <= buffer.len(),
    ensures
        r == word_at(buffer@, off as int),
{
    u16_from_le_bytes(slice_subrange(buffer.as_slice(), off, off + 2))
}

/// Stores `v` at `off` as a 16-bit little-endian word.
fn write_word(buffer: &mut Vec<u8>, off: usize, v: u16)
    requires
        off + 2 <= old(buffer).len(),
    ensures
        final(buffer)@ == put_word(old(buffer)@, off as int, v),
{
    let bytes = u16_to_le_bytes(v);
    buffer.set(off, bytes[0]);
    buffer.set(off + 1, bytes[1]);
}

/// Appends `v` to the buffer as a 16-bit little-endian word.
fn push_word(buffer: &mut Vec<u8>, v: u16)
    ensures
        final(buffer)@ == old(buffer)@ + vstd::bytes::spec_u16_to_le_bytes(v),
{
    let bytes = u16_to_le_bytes(v);
    buffer.push(bytes[0]);
    buffer.push(bytes[1]);
    proof {
        assert(final(buffer)@ =~= old(buffer)@ + vstd::bytes::spec_u16_to_le_bytes(v));
    }
}

/// Encodes one tuple: field count, type tags, payloads, as the format
/// prescribes. Returns `None` exactly when the tuple cannot be
/// represented — its encoding would not even fit an empty page, because
/// the field count or a text payload length overflows a 16-bit word.
fn encode_tuple_exec(fields: &Vec<DataField>) -> (r: Option<Vec<u8>>)
    ensures
        match r {
            Some(enc) => {
                &&& fields_fit(fields_view(fields@))
                &&& enc@ == encode_tuple(fields_view(fields@))
            },
            None => encode_tuple(fields_view(fields@)).len() > MAX_PAGE_BYTES,
        },
{
    let ghost fs = fields_view(fields@);
    let n = fields.len();
    if n > 0xFFFF {
        proof {
            crate::format::lemma_encode_tuple_len(fs);
        }
        return None;
    }
    let mut tags: Vec<u8> = Vec::new();
    let mut data: Vec<u8> = Vec::new();
    let mut i: usize = 0;
    while i < n
        invariant
            i <= n,
            n == fields@.len(),
            n <= 0xFFFF,
            fs == fields_view(fields@),
            tags@ == tag_bytes(fs.take(i as int)),
            data@ == payload_bytes(fs.take(i as int)),
            forall|j: int| 0 <= j < i ==> field_fits(#[trigger] fs[j]),
        decreases n - i,
    {
        let field = &fields[i];
        proof {
            assert(fs.take(i + 1) =~= fs.take(i as int).push(fs[i as int]));
            crate::format::lemma_tag_bytes_push(fs.take(i as int), fs[i as int]);
            crate::format::lemma_payload_bytes_push(fs.take(i as int), fs[i as int]);
        }
        push_word(&mut tags, field.to_int());
        match field {
            DataField::Integer(v) => {
                push_word(&mut data, *v);
            },
            DataField::Text(text) => {
                let text_bytes = text.as_str().as_bytes();
                if text_bytes.len() > 0xFFFF {
                    proof {
                        crate::format::lemma_payload_bytes_len(fs);
                        crate::format::lemma_encode_tuple_len(fs);
                    }
                    return None;
                }
                push_word(&mut data, text_bytes.len() as u16);
                let mut text_vec = slice_to_vec(text_bytes);
                data.append(&mut text_vec);
            },
        }
        proof {
            assert(data@ =~= payload_bytes(fs.take(i + 1)));
        }
        i = i + 1;
    }
    let mut enc: Vec<u8> = Vec::new();
    push_word(&mut enc, n as u16);
    enc.append(&mut tags);
    enc.append(&mut data);
    proof {
        assert(fs.take(n as int) =~= fs);
        assert(enc@ =~= encode_tuple(fs));
    }
    Some(enc)
}

/// Decodes the tuple stored at `off`: field count, type tags, then one
/// payload per tag. Returns the fields and the offset one past the last
/// payload, or `None` exactly when the bytes there do not parse: a
/// truncated count, tag or payload, an unknown tag, or text that is not
/// valid UTF-8.
fn decode_tuple(buffer: &Vec<u8>, off: usize) -> (r: Option<(Vec<DataField>, usize)>)
    ensures
        match r {
            Some(p) => parse_tuple(buffer@, off as int) == Some((fields_view(p.0@), p.1 as int)),
            None => parse_tuple(buffer@, off as int) is None,
        },
{
    let blen = buffer.len();
    if blen < 2 || off > blen - 2 {
        return None;
    }
    let n = read_word(buffer, off) as usize;
    let ghost b = buffer@;
    let mut tags: Vec<u16> = Vec::new();
    let mut cur: usize = off + 2;
    let mut i: usize = 0;
    while i < n
        invariant
            i <= n,
            off + 2 <= blen,
            cur == off + 2 + 2 * i,
            cur <= blen,
            blen == b.len(),
            b == buffer@,
            n == word_at(b, off as int) as usize,
            tags@.len() == i,
            match parse_tags(b, cur as int, (n - i) as nat) {
                Some(rest) => parse_tags(b, off + 2, n as nat) == Some(tags@ + rest),
                None => parse_tags(b, off + 2, n as nat) is None,
            },
        decreases n - i,
    {
        if blen - cur < 2 {
            proof {
                assert(parse_tags(b, cur as int, (n - i) as nat) is None);
            }
            return None;
        }
        let t = read_word(buffer, cur);
        proof {
            let rest = parse_tags(b, cur as int, (n - i) as nat);
            if rest is Some {
                assert(tags@ + rest.unwrap() =~= (tags@ + seq![t]) + rest.unwrap().skip(1));
                assert(rest.unwrap().skip(1) =~= parse_tags(
                    b,
                    cur + 2,
                    (n - i - 1) as nat,
                ).unwrap());
            }
        }
        tags.push(t);
        cur = cur + 2;
        i = i + 1;
    }
    proof {
        assert(tags@ + parse_tags(b, cur as int, 0).unwrap() =~= tags@);
        assert(parse_tags(b, off + 2, n as nat) == Some(tags@));
    }
    let start = cur;
    let mut fields: Vec<DataField> = Vec::new();
    let mut pos: usize = start;
    let mut k: usize = 0;
    proof {
        assert(tags@.skip(0) =~= tags@);
        if parse_fields(b, start as int, tags@) is Some {
            assert(fields_view(fields@) + parse_fields(b, start as int, tags@).unwrap().0
                =~= parse_fields(b, start as int, tags@).unwrap().0);
        }
    }
    while k < n
        invariant
            k <= n,
            n == tags@.len(),
            blen == b.len(),
            b == buffer@,
            off + 2 <= blen,
            start == off + 2 + 2 * n,
            start <= pos <= blen,
            n == word_at(b, off as int) as usize,
            parse_tags(b, off + 2, n as nat) == Some(tags@),
            fields@.len() == k,
            match parse_fields(b, pos as int, tags@.skip(k as int)) {
                Some(p) => parse_fields(b, start as int, tags@) == Some(
                    (fields_view(fields@) + p.0, p.1),
                ),
                None => parse_fields(b, start as int, tags@) is None,
            },
        decreases n - k,
    {
        let ghost tail = tags@.skip(k as int);
        proof {
            assert(tail[0] == tags@[k as int]);
            assert(tail.drop_first() =~= tags@.skip(k + 1));
        }
        let t = tags[k];
        if t == 1 {
            if blen - pos < 2 {
                proof {
                    assert(parse_fields(b, pos as int, tail) is None);
                }
                return None;
            }
            let v = read_word(buffer, pos);
            proof {
                let p = parse_fields(b, pos + 2, tags@.skip(k + 1));
                if p is Some {
                    assert((fields_view(fields@) + seq![FieldV::Integer(v)]) + p.unwrap().0
                        =~= fields_view(fields@) + (seq![FieldV::Integer(v)] + p.unwrap().0));
                    assert(fields_view(fields@.push(DataField::Integer(v))) =~= fields_view(
                        fields@,
                    ) + seq![FieldV::Integer(v)]);
                }
            }
            fields.push(DataField::Integer(v));
            pos = pos + 2;
        } else if t == 2 {
            if blen - pos < 2 {
                proof {
                    assert(parse_fields(b, pos as int, tail) is None);
                }
                return None;
            }
            let l = read_word(buffer, pos) as usize;
            if l > blen - (pos + 2) {
                proof {
                    assert(parse_fields(b, pos as int, tail) is None);
                }
                return None;
            }
            let payload = slice_to_vec(slice_subrange(buffer.as_slice(), pos + 2, pos + 2 + l));
            match bytes_to_string(payload) {
                None => {
                    proof {
                        assert(parse_fields(b, pos as int, tail) is None);
                    }
                    return None;
                },
                Some(text) => {
                    proof {
                        vstd::utf8::encode_utf8_decode_utf8(text@);
                        let p = parse_fields(b, pos + 2 + l, tags@.skip(k + 1));
                        if p is Some {
                            assert((fields_view(fields@) + seq![FieldV::Text(text@)])
                                + p.unwrap().0 =~= fields_view(fields@) + (seq![
                                FieldV::Text(text@),
                            ] + p.unwrap().0));
                            assert(fields_view(fields@.push(DataField::Text(text)))
                                =~= fields_view(fields@) + seq![FieldV::Text(text@)]);
                        }
                    }
                    fields.push(DataField::Text(text));
                    pos = pos + 2 + l;
                },
            }
        } else {
            proof {
                assert(parse_fields(b, pos as int, tail) is None);
            }
            return None;
        }
        k = k + 1;
    }
    proof {
        assert(tags@.skip(n as int) =~= Seq::<u16>::empty());
        assert(fields_view(fields@) + parse_fields(b, pos as int, Seq::<u16>::empty()).unwrap().0
            =~= fields_view(fields@));
        assert(parse_tuple(b, off as int) == Some((fields_view(fields@), pos as int)));
    }
    Some((fields, pos))
}

/// The decoded fixed header of a page.
struct PageHeader {
    id: u16,
    lower: u16,
    higher: u16,
}

/// A fixed-size slotted page. The buffer always holds exactly
/// `spec_size()` bytes; the header, slot directory and tuple data live
/// inside it as described in [`crate::format`].
pub struct Page {
    page_size: usize,
    buffer: Vec<u8>,
}

impl View for Page {
    type V = Seq<u8>;

    closed spec fn view(&self) -> Seq<u8> {
        self.buffer@
    }
}

impl Page {
    /// The fixed byte capacity chosen at construction.
    pub closed spec fn spec_size(&self) -> usize {
        self.page_size
    }

    /// A structurally valid page: the buffer holds exactly the fixed
    /// size, which has room for the header and fits 16-bit offsets.
    pub open spec fn wf(&self) -> bool {
        &&& self@.len() == self.spec_size()
        &&& 6 <= self.spec_size() <= MAX_PAGE_BYTES
    }

    /// Constructs a page of `page_size` bytes. A supplied buffer (one
    /// read back from persistent storage) is adopted verbatim, its header
    /// trusted as it stands; otherwise the page starts zero-filled with a
    /// fresh header: id 0, an empty slot directory, all space free.
    pub fn new(page_size: usize, buffer: Option<Vec<u8>>) -> (page: Page)
        requires
            HEADER_END <= page_size <= MAX_PAGE_BYTES,
            buffer matches Some(b) ==> b@.len() == page_size,
        ensures
            page.wf(),
            page.spec_size() == page_size,
            match buffer {
                Some(b) => page@ == b@,
                None => {
                    &&& page@ == fresh_page(page_size as int)
                    &&& page_wf(page@)
                    &&& parse_page(page@) == Some(Seq::<Seq<FieldV>>::empty())
                },
            },
    {
        proof {
            crate::format::lemma_fresh_page(page_size as int);
        }
        match buffer {
            Some(b) => Page { page_size, buffer: b },
            None => {
                let mut buf: Vec<u8> = Vec::new();
                while buf.len() < page_size
                    invariant
                        buf@.len() <= page_size,
                        forall|i: int| 0 <= i < buf@.len() ==> buf@[i] == 0u8,
                    decreases page_size - buf.len(),
                {
                    buf.push(0u8);
                }
                let mut page = Page { page_size, buffer: buf };
                page.write_metadata(
                    &PageHeader { id: 0, lower: HEADER_END as u16, higher: page_size as u16 },
                );
                proof {
                    assert(buf@ =~= Seq::new(page_size as nat, |i: int| 0u8));
                }
                page
            },
        }
    }

    /// Overwrites the six header bytes with the given header fields.
    fn write_metadata(&mut self, header: &PageHeader)
        requires
            old(self)@.len() >= 6,
        ensures
            final(self)@ == put_word(
                put_word(put_word(old(self)@, 0, header.id), 2, header.lower),
                4,
                header.higher,
            ),
            final(self).spec_size() == old(self).spec_size(),
    {
        write_word(&mut self.buffer, 0, header.id);
        write_word(&mut self.buffer, 2, header.lower);
        write_word(&mut self.buffer, 4, header.higher);
    }

    /// Decodes the six header bytes.
    fn read_metadata(&self) -> (h: PageHeader)
        requires
            self@.len() >= 6,
        ensures
            h.id == page_id(self@),
            h.lower == low_water(self@),
            h.higher == high_water(self@),
    {
        PageHeader {
            id: read_word(&self.buffer, 0),
            lower: read_word(&self.buffer, 2),
            higher: read_word(&self.buffer, 4),
        }
    }

    /// Appends one tuple to the page, as one atomic mutation: on success
    /// the encoded tuple is copied just below the old high-water mark, a
    /// slot pointing at it is appended to the directory, and the header
    /// marks move accordingly. Fails with `PageFull`, leaving the page
    /// untouched, exactly when the tuple body plus one slot entry does
    /// not fit the free region; fails with `CorruptPage`, also leaving
    /// the page untouched, exactly when the (possibly loaded) header is
    /// inconsistent.
    pub fn write(&mut self, data_fields: &Vec<DataField>) -> (r: Result<(), PageError>)
        requires
            old(self).wf(),
        ensures
            final(self).wf(),
            final(self).spec_size() == old(self).spec_size(),
            match r {
                Ok(_) => {
                    &&& fields_fit(fields_view(data_fields@))
                    &&& can_insert(
                        old(self)@,
                        encode_tuple(fields_view(data_fields@)).len() as int,
                    )
                    &&& final(self)@ == insert_spec(old(self)@, fields_view(data_fields@))
                    &&& page_wf(old(self)@) ==> {
                        &&& page_wf(final(self)@)
                        &&& parse_page(final(self)@) == Some(
                            parse_page(old(self)@).unwrap().push(fields_view(data_fields@)),
                        )
                    }
                },
                Err(e) => {
                    &&& final(self)@ == old(self)@
                    &&& !can_insert(
                        old(self)@,
                        encode_tuple(fields_view(data_fields@)).len() as int,
                    )
                    &&& (e == PageError::CorruptPage <==> !header_wf(old(self)@))
                    &&& (e == PageError::PageFull <==> header_wf(old(self)@))
                },
            },
    {
        let ghost fs = fields_view(data_fields@);
        let ghost b0 = self@;
        let enc_opt = encode_tuple_exec(data_fields);
        let h = self.read_metadata();
        let size = self.page_size;
        let lower = h.lower as usize;
        let higher = h.higher as usize;
        if lower < HEADER_END || lower > higher || higher > size || (lower - HEADER_END) % 2 != 0 {
            return Err(PageError::CorruptPage);
        }
        let enc = match enc_opt {
            Some(enc) => enc,
            None => {
                return Err(PageError::PageFull);
            },
        };
        if higher - lower < SLOT_BYTES || enc.len() > higher - lower - SLOT_BYTES {
            return Err(PageError::PageFull);
        }
        let len = enc.len();
        let nhi = higher - len;
        let mut j: usize = 0;
        while j < len
            invariant
                j <= len,
                len == enc@.len(),
                nhi + len == higher,
                higher <= b0.len(),
                self.buffer@.len() == b0.len(),
                self.page_size == old(self).page_size,
                forall|i: int|
                    0 <= i < b0.len() && !(nhi <= i < nhi + j) ==> self.buffer@[i] == b0[i],
                forall|i: int| 0 <= i < j ==> self.buffer@[nhi + i] == enc@[i],
            decreases len - j,
        {
            self.buffer.set(nhi + j, enc[j]);
            j = j + 1;
        }
        proof {
            crate::format::lemma_splice(b0, nhi as int, enc@);
            assert(self.buffer@ =~= splice(b0, nhi as int, enc@));
        }
        let ghost b1 = self.buffer@;
        write_word(&mut self.buffer, lower, nhi as u16);
        let ghost b2 = self.buffer@;
        self.write_metadata(
            &PageHeader { id: h.id, lower: (lower + SLOT_BYTES) as u16, higher: nhi as u16 },
        );
        proof {
            // Re-storing the unchanged id leaves the buffer as it stood.
            crate::format::lemma_put_word(b1, lower as int, nhi as u16);
            crate::format::lemma_put_word(b2, 0, h.id);
            vstd::bytes::lemma_auto_spec_u16_to_from_le_bytes();
            crate::format::lemma_word_at_eq(b0, b2, 0);
            assert(put_word(b2, 0, h.id) =~= b2);
            assert(self@ == insert_spec(b0, fs));
            if page_wf(b0) {
                crate::format::lemma_insert(b0, fs);
            }
        }
        Ok(())
    }

    /// Reads back every tuple in the page, in slot (= insertion) order:
    /// a full snapshot of the page, exactly its parse. Fails with
    /// `CorruptPage`, and never panics or reads out of bounds, exactly
    /// when the header is inconsistent or some slot's tuple does not
    /// decode.
    pub fn read(&self) -> (r: Result<Vec<Vec<DataField>>, PageError>)
        requires
            self.wf(),
        ensures
            match r {
                Ok(rows) => parse_page(self@) == Some(rows_view(rows@)),
                Err(e) => parse_page(self@) is None && e == PageError::CorruptPage,
            },
    {
        let h = self.read_metadata();
        let size = self.page_size;
        let lower = h.lower as usize;
        let higher = h.higher as usize;
        if lower < HEADER_END || lower > higher || higher > size || (lower - HEADER_END) % 2 != 0 {
            return Err(PageError::CorruptPage);
        }
        let cnt = (lower - HEADER_END) / SLOT_BYTES;
        let mut rows: Vec<Vec<DataField>> = Vec::new();
        let mut k: usize = 0;
        while k < cnt
            invariant
                k <= cnt,
                self.wf(),
                header_wf(self@),
                cnt == slot_count(self@),
                HEADER_END + SLOT_BYTES * cnt <= low_water(self@) <= self@.len(),
                rows@.len() == k,
                parse_slots(self@, k as int) == Some(rows_view(rows@)),
            decreases cnt - k,
        {
            let ptr = read_word(&self.buffer, HEADER_END + SLOT_BYTES * k) as usize;
            match decode_tuple(&self.buffer, ptr) {
                Some(p) => {
                    let ghost old_rows = rows@;
                    rows.push(p.0);
                    proof {
                        assert(rows_view(rows@) =~= rows_view(old_rows).push(
                            fields_view(rows@[k as int]@),
                        ));
                    }
                },
                None => {
                    proof {
                        assert(parse_slots(self@, k + 1) is None);
                        crate::format::lemma_parse_slots_none_mono(self@, k + 1, cnt as int);
                    }
                    return Err(PageError::CorruptPage);
                },
            }
            k = k + 1;
        }
        Ok(rows)
    }

    /// Read-only access to the raw page bytes, for persistence.
    pub fn get_buffer(&self) -> (r: &Vec<u8>)
        ensures
            r@ == self@,
    {
        &self.buffer
    }

    /// The raw page bytes, consuming the page.
    pub fn into_buffer(self) -> (r: Vec<u8>)
        ensures
            r@ == self@,
    {
        self.buffer
    }
}

/// The lock invariant of a [`SharedPage`]: the page inside is
/// structurally valid and well formed.
pub struct PagePred;

impl vstd::rwlock::RwLockPredicate<Page> for PagePred {
    open spec fn inv(self, p: Page) -> bool {
        p.wf() && page_wf(p@)
    }
}

/// A page shared among threads behind a single-writer/multi-reader lock,
/// the access discipline the format demands. `write` runs as one atomic
/// critical section — acquire exclusive access, validate capacity, mutate
/// buffer and header, release — so concurrent writers serialize, each
/// appending its whole tuple or failing cleanly with the page untouched.
/// `read` decodes one consistent header/buffer pair under shared access.
/// The lock maintains [`page_wf`], so readers always see a page that
/// parses.
pub struct SharedPage {
    lock: vstd::rwlock::RwLock<Page, PagePred>,
}

impl SharedPage {
    /// A fresh zero-filled page of `page_size` bytes behind its lock.
    pub fn new(page_size: usize) -> SharedPage
        requires
            HEADER_END <= page_size <= MAX_PAGE_BYTES,
    {
        let page = Page::new(page_size, None);
        proof {
            crate::format::lemma_fresh_page(page_size as int);
        }
        SharedPage { lock: vstd::rwlock::RwLock::new(page, Ghost(PagePred)) }
    }

    /// Appends one tuple under the exclusive lock. The page stays well
    /// formed, so a failure can only be `PageFull`, and it leaves the
    /// page exactly as the serialization of the other writers built it.
    /// Success means the tuple was representable and was appended whole
    /// to some well-formed page state with room for it; a tuple whose
    /// encoding overflows the 16-bit format bound fails on every page.
    pub fn write(&self, data_fields: &Vec<DataField>) -> (r: Result<(), PageError>)
        ensures
            r matches Err(e) ==> e == PageError::PageFull,
            r is Ok ==> fields_fit(fields_view(data_fields@)),
            r is Ok ==> exists|b: Seq<u8>|
                page_wf(b) && can_insert(b, encode_tuple(fields_view(data_fields@)).len() as int),
            encode_tuple(fields_view(data_fields@)).len() + HEADER_END + SLOT_BYTES
                > MAX_PAGE_BYTES ==> r is Err,
    {
        let (mut page, handle) = self.lock.acquire_write();
        let ghost b0 = page@;
        let r = page.write(data_fields);
        proof {
            if r is Ok {
                let l = encode_tuple(fields_view(data_fields@)).len() as int;
                assert(page_wf(b0) && can_insert(b0, l));
            }
        }
        handle.release_write(page);
        r
    }

    /// Reads all tuples under the shared lock: one consistent, fully
    /// parseable snapshot of some well-formed page state, in insertion
    /// order. It never fails, because the lock maintains
    /// well-formedness.
    pub fn read(&self) -> (rows: Vec<Vec<DataField>>)
        ensures
            exists|b: Seq<u8>| page_wf(b) && parse_page(b) == Some(rows_view(rows@)),
    {
        let read_handle = self.lock.acquire_read();
        let ghost snapshot = read_handle.view()@;
        let result = read_handle.borrow().read();
        read_handle.release_read();
        proof {
            crate::format::lemma_page_wf_parses(snapshot);
        }
        match result {
            Ok(rows) => {
                proof {
                    assert(page_wf(snapshot) && parse_page(snapshot) == Some(rows_view(rows@)));
                }
                rows
            },
            Err(_) => {
                proof {
                    assert(false);
                }
                Vec::new()
            },
        }
    }

    /// A copy of the raw page bytes under the shared lock, for
    /// persistence: always a well-formed page.
    pub fn snapshot(&self) -> (out: Vec<u8>)
        ensures
            page_wf(out@),
    {
        let read_handle = self.lock.acquire_read();
        let buffer = read_handle.borrow().get_buffer();
        let mut out: Vec<u8> = Vec::new();
        let mut i: usize = 0;
        while i < buffer.len()
            invariant
                i <= buffer@.len(),
                out@ =~= buffer@.subrange(0, i as int),
            decreases buffer@.len() - i,
        {
            out.push(buffer[i]);
            i = i + 1;
        }
        proof {
            assert(out@ =~= buffer@);
        }
        read_handle.release_read();
        out
    }
}

} // verus!
