//! The header section: twelve bytes, of which the third and fourth hold
//! eight flags and codes packed high bits first.
use crate::error::{DecodeError, LayoutError};
use crate::field::{views_of, Field, FieldIter, FieldView, Fields};
use crate::layout::{
    encoding, extended, lemma_put_fields_step, pack, put_fields, start, word_bytes, Packer,
};
use crate::wire::{get_u16, get_u8, remaining, unread};
use bytes::BytesMut;
use vstd::prelude::*;

verus! {

/// The number of bytes of a header on the wire.
pub const HEADER_LEN: usize = 12;

/// A DNS header section.
#[derive(Debug, PartialEq)]
pub struct DNSHeader {
    /// Packet identifier (16 bits): a reply carries the id of its query.
    pub id: Field,
    /// Query/response indicator (1 bit): 1 for a reply, 0 for a question.
    pub qr: Field,
    /// Operation code (4 bits): the kind of query.
    pub opcode: Field,
    /// Authoritative answer (1 bit): 1 if the server owns the domain.
    pub aa: Field,
    /// Truncation (1 bit): 1 if the message is larger than 512 bytes.
    pub tc: Field,
    /// Recursion desired (1 bit): set by the sender of a query.
    pub rd: Field,
    /// Recursion available (1 bit): set by the server.
    pub ra: Field,
    /// Reserved (3 bits).
    pub z: Field,
    /// Response code (4 bits): the status of the response.
    pub rcode: Field,
    /// Number of questions (16 bits).
    pub qdcount: Field,
    /// Number of answers (16 bits).
    pub ancount: Field,
    /// Number of authority records (16 bits).
    pub nscount: Field,
    /// Number of additional records (16 bits).
    pub arcount: Field,
}

/// The 16-bit number that two bytes spell, the high one first.
pub open spec fn word_of(high: u8, low: u8) -> u16 {
    (high * 256 + low) as u16
}

/// The header fields that the first twelve of `bytes` spell, in wire order.
pub open spec fn header_fields(bytes: Seq<u8>) -> Seq<FieldView> {
    let hi = bytes[2];
    let lo = bytes[3];
    seq![
        FieldView::Word(word_of(bytes[0], bytes[1])),
        FieldView::Byte(hi >> 7u8, 1),
        FieldView::Byte((hi >> 3u8) & 0x0fu8, 4),
        FieldView::Byte((hi >> 2u8) & 0x01u8, 1),
        FieldView::Byte((hi >> 1u8) & 0x01u8, 1),
        FieldView::Byte(hi & 0x01u8, 1),
        FieldView::Byte(lo >> 7u8, 1),
        FieldView::Byte((lo >> 4u8) & 0x07u8, 3),
        FieldView::Byte(lo & 0x0fu8, 4),
        FieldView::Word(word_of(bytes[4], bytes[5])),
        FieldView::Word(word_of(bytes[6], bytes[7])),
        FieldView::Word(word_of(bytes[8], bytes[9])),
        FieldView::Word(word_of(bytes[10], bytes[11])),
    ]
}

/// `field` is a sub-byte value of `width` bits that fits in them.
pub open spec fn is_bits(field: FieldView, width: usize) -> bool {
    field matches FieldView::Byte(value, w) && w == width && (value >> (width as u8)) == 0
}

/// `fields` are those of a header: thirteen, each of its declared kind and
/// width, each flag and code within its width.
pub open spec fn header_layout(fields: Seq<FieldView>) -> bool {
    &&& fields.len() == 13
    &&& fields[0] is Word
    &&& is_bits(fields[1], 1)
    &&& is_bits(fields[2], 4)
    &&& is_bits(fields[3], 1)
    &&& is_bits(fields[4], 1)
    &&& is_bits(fields[5], 1)
    &&& is_bits(fields[6], 1)
    &&& is_bits(fields[7], 3)
    &&& is_bits(fields[8], 4)
    &&& fields[9] is Word
    &&& fields[10] is Word
    &&& fields[11] is Word
    &&& fields[12] is Word
}

impl View for DNSHeader {
    type V = Seq<FieldView>;

    /// The header's fields in wire order.
    open spec fn view(&self) -> Seq<FieldView> {
        seq![
            self.id@,
            self.qr@,
            self.opcode@,
            self.aa@,
            self.tc@,
            self.rd@,
            self.ra@,
            self.z@,
            self.rcode@,
            self.qdcount@,
            self.ancount@,
            self.nscount@,
            self.arcount@,
        ]
    }
}

impl DNSHeader {
    /// Each field is of its declared kind and width, and each flag and code
    /// fits its width.
    pub open spec fn wf(&self) -> bool {
        header_layout(self@)
    }

    /// Reads a header off the front of `buf`. A buffer of fewer than twelve
    /// bytes is left as it is.
    pub fn from(buf: &mut BytesMut) -> (r: Result<DNSHeader, DecodeError>)
        ensures
            match r {
                Ok(header) => unread(old(buf)).len() >= HEADER_LEN && header@ == header_fields(
                    unread(old(buf)),
                ) && header.wf() && unread(final(buf)) == unread(old(buf)).skip(
                    HEADER_LEN as int,
                ),
                Err(e) => unread(old(buf)).len() < HEADER_LEN && e == (DecodeError::UnexpectedEnd {
                    needed: HEADER_LEN,
                    available: unread(old(buf)).len() as usize,
                }) && unread(final(buf)) == unread(old(buf)),
            },
    {
        let available = remaining(buf);
        if available < HEADER_LEN {
            return Err(DecodeError::UnexpectedEnd { needed: HEADER_LEN, available });
        }
        let ghost bytes = unread(buf);
        let id = get_u16(buf);
        let hi = get_u8(buf);
        let lo = get_u8(buf);
        let qdcount = get_u16(buf);
        let ancount = get_u16(buf);
        let nscount = get_u16(buf);
        let arcount = get_u16(buf);
        let header = DNSHeader {
            id: Field::Word(id),
            qr: Field::Byte(hi >> 7u8, 1),
            opcode: Field::Byte((hi >> 3u8) & 0x0fu8, 4),
            aa: Field::Byte((hi >> 2u8) & 0x01u8, 1),
            tc: Field::Byte((hi >> 1u8) & 0x01u8, 1),
            rd: Field::Byte(hi & 0x01u8, 1),
            ra: Field::Byte(lo >> 7u8, 1),
            z: Field::Byte((lo >> 4u8) & 0x07u8, 3),
            rcode: Field::Byte(lo & 0x0fu8, 4),
            qdcount: Field::Word(qdcount),
            ancount: Field::Word(ancount),
            nscount: Field::Word(nscount),
            arcount: Field::Word(arcount),
        };
        proof {
            assert(unread(buf) =~= bytes.skip(HEADER_LEN as int));
            assert(header@ =~= header_fields(bytes));
            lemma_header_fields_fit(bytes);
        }
        Ok(header)
    }
}

/// What twelve bytes spell is a header: every flag and code fits its width.
pub proof fn lemma_header_fields_fit(bytes: Seq<u8>)
    ensures
        header_layout(header_fields(bytes)),
{
    let hi = bytes[2];
    let lo = bytes[3];
    assert((hi >> 7u8) >> 1u8 == 0) by (bit_vector);
    assert(((hi >> 3u8) & 0x0fu8) >> 4u8 == 0) by (bit_vector);
    assert(((hi >> 2u8) & 0x01u8) >> 1u8 == 0) by (bit_vector);
    assert(((hi >> 1u8) & 0x01u8) >> 1u8 == 0) by (bit_vector);
    assert((hi & 0x01u8) >> 1u8 == 0) by (bit_vector);
    assert((lo >> 7u8) >> 1u8 == 0) by (bit_vector);
    assert(((lo >> 4u8) & 0x07u8) >> 3u8 == 0) by (bit_vector);
    assert((lo & 0x0fu8) >> 4u8 == 0) by (bit_vector);
}

impl Fields for DNSHeader {
    open spec fn field_views(&self) -> Seq<FieldView> {
        self@
    }

    fn fields(&self) -> (it: FieldIter<'_>) {
        let list: Vec<&Field> = vec![
            &self.id,
            &self.qr,
            &self.opcode,
            &self.aa,
            &self.tc,
            &self.rd,
            &self.ra,
            &self.z,
            &self.rcode,
            &self.qdcount,
            &self.ancount,
            &self.nscount,
            &self.arcount,
        ];
        proof {
            assert(views_of(list@) =~= self@);
        }
        FieldIter::from(list)
    }
}

impl Default for DNSHeader {
    /// The header of a reply with one question and no records.
    fn default() -> (header: Self)
        ensures
            header.wf(),
            header@ == seq![
                FieldView::Word(1234),
                FieldView::Byte(1, 1),
                FieldView::Byte(0, 4),
                FieldView::Byte(0, 1),
                FieldView::Byte(0, 1),
                FieldView::Byte(0, 1),
                FieldView::Byte(0, 1),
                FieldView::Byte(0, 3),
                FieldView::Byte(0, 4),
                FieldView::Word(1),
                FieldView::Word(0),
                FieldView::Word(0),
                FieldView::Word(0),
            ],
    {
        let header = DNSHeader {
            id: Field::Word(1234),
            qr: Field::Byte(1, 1),
            opcode: Field::Byte(0, 4),
            aa: Field::Byte(0, 1),
            tc: Field::Byte(0, 1),
            rd: Field::Byte(0, 1),
            ra: Field::Byte(0, 1),
            z: Field::Byte(0, 3),
            rcode: Field::Byte(0, 4),
            qdcount: Field::Word(1),
            ancount: Field::Word(0),
            nscount: Field::Word(0),
            arcount: Field::Word(0),
        };
        proof {
            assert(1u8 >> 1u8 == 0) by (bit_vector);
            assert(0u8 >> 1u8 == 0) by (bit_vector);
            assert(0u8 >> 3u8 == 0) by (bit_vector);
            assert(0u8 >> 4u8 == 0) by (bit_vector);
        }
        header
    }
}

/// The third byte of a header: its first five flags and codes, packed from
/// the top bit down.
pub open spec fn flags_high(fields: Seq<FieldView>) -> u8 {
    pack(
        pack(
            pack(pack(pack(0, fields[1]->Byte_0, 7), fields[2]->Byte_0, 3), fields[3]->Byte_0, 2),
            fields[4]->Byte_0,
            1,
        ),
        fields[5]->Byte_0,
        0,
    )
}

/// The fourth byte of a header: its last three flags and codes, packed from
/// the top bit down.
pub open spec fn flags_low(fields: Seq<FieldView>) -> u8 {
    pack(pack(pack(0, fields[6]->Byte_0, 7), fields[7]->Byte_0, 4), fields[8]->Byte_0, 0)
}

/// The twelve bytes of a header with the given fields.
pub open spec fn header_bytes(fields: Seq<FieldView>) -> Seq<u8> {
    word_bytes(fields[0]->Word_0) + seq![flags_high(fields), flags_low(fields)] + word_bytes(
        fields[9]->Word_0,
    ) + word_bytes(fields[10]->Word_0) + word_bytes(fields[11]->Word_0) + word_bytes(
        fields[12]->Word_0,
    )
}

/// A header packs to its twelve bytes: the id, the two flag bytes, the four
/// counts.
pub proof fn lemma_header_packs(fields: Seq<FieldView>)
    requires
        header_layout(fields),
    ensures
        encoding(fields) == Ok::<Seq<u8>, LayoutError>(header_bytes(fields)),
        header_bytes(fields).len() == HEADER_LEN,
{
    let p = start();
    assert(fields.take(0) =~= Seq::<FieldView>::empty());
    let id = word_bytes(fields[0]->Word_0);
    lemma_put_fields_step(p, fields, 0);
    let q1 = Packer { out: id, byte: 0, free: 8 };
    assert(put_fields(p, fields.take(1)) == Ok::<Packer, LayoutError>(q1)) by {
        assert(extended(p, id).out =~= id);
    }
    lemma_put_fields_step(p, fields, 1);
    lemma_put_fields_step(p, fields, 2);
    lemma_put_fields_step(p, fields, 3);
    lemma_put_fields_step(p, fields, 4);
    lemma_put_fields_step(p, fields, 5);
    let hi = flags_high(fields);
    let q6 = Packer { out: id.push(hi), byte: 0, free: 8 };
    assert(put_fields(p, fields.take(6)) == Ok::<Packer, LayoutError>(q6));
    lemma_put_fields_step(p, fields, 6);
    lemma_put_fields_step(p, fields, 7);
    lemma_put_fields_step(p, fields, 8);
    let lo = flags_low(fields);
    let q9 = Packer { out: id.push(hi).push(lo), byte: 0, free: 8 };
    assert(put_fields(p, fields.take(9)) == Ok::<Packer, LayoutError>(q9));
    lemma_put_fields_step(p, fields, 9);
    lemma_put_fields_step(p, fields, 10);
    lemma_put_fields_step(p, fields, 11);
    lemma_put_fields_step(p, fields, 12);
    assert(fields.take(13) =~= fields);
    let end = put_fields(p, fields)->Ok_0;
    assert(end.out =~= header_bytes(fields));
}

/// Two bytes spell the number whose big-endian bytes they are.
pub proof fn lemma_word_round_trip(value: u16, high: u8, low: u8)
    ensures
        word_of((value / 256) as u8, (value % 256) as u8) == value,
        word_bytes(word_of(high, low)) == seq![high, low],
{
    assert(word_bytes(word_of(high, low)) =~= seq![high, low]);
}

/// Round trip: a header whose flags and codes fit their widths packs to
/// twelve bytes, and those bytes spell the same header.
pub proof fn lemma_header_round_trip(fields: Seq<FieldView>)
    requires
        header_layout(fields),
    ensures
        encoding(fields) matches Ok(bytes) && bytes.len() == HEADER_LEN && header_fields(bytes)
            == fields,
{
    lemma_header_packs(fields);
    let bytes = header_bytes(fields);
    let hi = flags_high(fields);
    let lo = flags_low(fields);
    let (v1, v2, v3, v4, v5) = (
        fields[1]->Byte_0,
        fields[2]->Byte_0,
        fields[3]->Byte_0,
        fields[4]->Byte_0,
        fields[5]->Byte_0,
    );
    let (v6, v7, v8) = (fields[6]->Byte_0, fields[7]->Byte_0, fields[8]->Byte_0);
    assert(hi == ((((0u8 | (v1 << 7u8)) | (v2 << 3u8)) | (v3 << 2u8)) | (v4 << 1u8)) | (v5
        << 0u8));
    assert(lo == ((0u8 | (v6 << 7u8)) | (v7 << 4u8)) | (v8 << 0u8));
    assert(hi >> 7u8 == v1 && (hi >> 3u8) & 0x0fu8 == v2 && (hi >> 2u8) & 0x01u8 == v3 && (hi
        >> 1u8) & 0x01u8 == v4 && hi & 0x01u8 == v5) by (bit_vector)
        requires
            hi == ((((0u8 | (v1 << 7u8)) | (v2 << 3u8)) | (v3 << 2u8)) | (v4 << 1u8)) | (v5
                << 0u8),
            v1 >> 1u8 == 0,
            v2 >> 4u8 == 0,
            v3 >> 1u8 == 0,
            v4 >> 1u8 == 0,
            v5 >> 1u8 == 0,
    ;
    assert(lo >> 7u8 == v6 && (lo >> 4u8) & 0x07u8 == v7 && lo & 0x0fu8 == v8) by (bit_vector)
        requires
            lo == ((0u8 | (v6 << 7u8)) | (v7 << 4u8)) | (v8 << 0u8),
            v6 >> 1u8 == 0,
            v7 >> 3u8 == 0,
            v8 >> 4u8 == 0,
    ;
    lemma_word_round_trip(fields[0]->Word_0, 0, 0);
    lemma_word_round_trip(fields[9]->Word_0, 0, 0);
    lemma_word_round_trip(fields[10]->Word_0, 0, 0);
    lemma_word_round_trip(fields[11]->Word_0, 0, 0);
    lemma_word_round_trip(fields[12]->Word_0, 0, 0);
    assert(header_fields(bytes) =~= fields);
}

/// Idempotence: the header that twelve bytes spell packs to the same twelve
/// bytes.
pub proof fn lemma_header_reencodes(bytes: Seq<u8>)
    requires
        bytes.len() >= HEADER_LEN,
    ensures
        encoding(header_fields(bytes)) == Ok::<Seq<u8>, LayoutError>(
            bytes.take(HEADER_LEN as int),
        ),
{
    let fields = header_fields(bytes);
    lemma_header_fields_fit(bytes);
    lemma_header_packs(fields);
    let hi = bytes[2];
    let lo = bytes[3];
    assert(flags_high(fields) == ((((0u8 | ((hi >> 7u8) << 7u8)) | (((hi >> 3u8) & 0x0fu8)
        << 3u8)) | (((hi >> 2u8) & 0x01u8) << 2u8)) | (((hi >> 1u8) & 0x01u8) << 1u8)) | ((hi
        & 0x01u8) << 0u8));
    assert(((((0u8 | ((hi >> 7u8) << 7u8)) | (((hi >> 3u8) & 0x0fu8) << 3u8)) | (((hi >> 2u8)
        & 0x01u8) << 2u8)) | (((hi >> 1u8) & 0x01u8) << 1u8)) | ((hi & 0x01u8) << 0u8) == hi)
        by (bit_vector);
    assert(flags_low(fields) == ((0u8 | ((lo >> 7u8) << 7u8)) | (((lo >> 4u8) & 0x07u8) << 4u8))
        | ((lo & 0x0fu8) << 0u8));
    assert(((0u8 | ((lo >> 7u8) << 7u8)) | (((lo >> 4u8) & 0x07u8) << 4u8)) | ((lo & 0x0fu8)
        << 0u8) == lo) by (bit_vector);
    lemma_word_round_trip(0, bytes[0], bytes[1]);
    lemma_word_round_trip(0, bytes[4], bytes[5]);
    lemma_word_round_trip(0, bytes[6], bytes[7]);
    lemma_word_round_trip(0, bytes[8], bytes[9]);
    lemma_word_round_trip(0, bytes[10], bytes[11]);
    assert(header_bytes(fields) =~= bytes.take(HEADER_LEN as int));
}

} // verus!
