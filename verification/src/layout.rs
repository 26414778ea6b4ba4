//! The wire layout as mathematics: what a sequence of fields packs to.
use crate::error::LayoutError;
use crate::field::FieldView;
use vstd::prelude::*;
use vstd::utf8::*;

verus! {

/// The number of bits in one output byte.
pub const FRAME_BITS: usize = 8;

/// `byte` with `value` laid over it, `shift` bits up from the low end. Bits
/// of `value` that the shift moves past the top of the byte are lost.
pub open spec fn pack(byte: u8, value: u8, shift: nat) -> u8 {
    byte | (value << (shift as u8))
}

/// The byte whose `free` low bits are set, and no other.
pub open spec fn low_mask(free: nat) -> u8 {
    if free >= FRAME_BITS {
        0xffu8
    } else {
        ((1u8 << (free as u8)) - 1) as u8
    }
}

/// An empty byte has no bit set, whatever is free of it.
pub proof fn lemma_zero_is_clear(free: nat)
    ensures
        0u8 & low_mask(free) == 0,
{
    let m = low_mask(free);
    assert(0u8 & m == 0) by (bit_vector);
}

/// Packing into free bits sets none of the bits that stay free.
pub proof fn lemma_pack_keeps_clear(byte: u8, value: u8, free: nat, width: nat)
    requires
        0 < width <= free <= FRAME_BITS,
        byte & low_mask(free) == 0,
    ensures
        pack(byte, value, (free - width) as nat) & low_mask((free - width) as nat) == 0,
{
    let f: u8 = free as u8;
    let s: u8 = (free - width) as u8;
    let m = low_mask(free);
    let n = low_mask((free - width) as nat);
    assert(m == if f >= 8 {
        0xffu8
    } else {
        ((1u8 << f) - 1) as u8
    });
    assert(n == ((1u8 << s) - 1) as u8);
    assert((byte | (value << s)) & n == 0) by (bit_vector)
        requires
            s < 8,
            s < f <= 8,
            byte & m == 0,
            m == if f >= 8 {
                0xffu8
            } else {
                ((1u8 << f) - 1) as u8
            },
            n == ((1u8 << s) - 1) as u8,
    ;
}

/// A packer between two fields: the bytes already written, the byte being
/// assembled, and how many of its low bits are still free.
pub ghost struct Packer {
    pub out: Seq<u8>,
    pub byte: u8,
    pub free: nat,
}

/// The packer that has written nothing.
pub open spec fn start() -> Packer {
    Packer { out: Seq::empty(), byte: 0, free: FRAME_BITS as nat }
}

/// The error, if any, of packing `width` bits into a byte with `free` left.
pub open spec fn push_error(free: nat, width: nat) -> Option<LayoutError> {
    if width == 0 {
        Some(LayoutError::ZeroWidth)
    } else if width > free {
        Some(LayoutError::Overflow)
    } else {
        None
    }
}

/// `p` after its byte has been written out, if it is full.
pub open spec fn settled(p: Packer) -> Packer {
    if p.free == 0 {
        Packer { out: p.out.push(p.byte), byte: 0, free: FRAME_BITS as nat }
    } else {
        p
    }
}

/// `p` on a byte boundary: a byte that holds any bits is written out, its
/// free low bits left zero.
pub open spec fn aligned(p: Packer) -> Packer {
    if p.free < FRAME_BITS {
        Packer { out: p.out.push(p.byte), byte: 0, free: FRAME_BITS as nat }
    } else {
        p
    }
}

/// `p` after `width` bits of `value` went into the top of its free bits.
pub open spec fn pushed(p: Packer, value: u8, width: nat) -> Packer {
    settled(
        Packer {
            out: p.out,
            byte: pack(p.byte, value, (p.free - width) as nat),
            free: (p.free - width) as nat,
        },
    )
}

/// `p` after whole bytes were written behind it on a byte boundary.
pub open spec fn extended(p: Packer, bytes: Seq<u8>) -> Packer {
    Packer { out: aligned(p).out + bytes, byte: 0, free: FRAME_BITS as nat }
}

/// A 16-bit value as two bytes, the high one first.
pub open spec fn word_bytes(value: u16) -> Seq<u8> {
    seq![(value / 256) as u8, (value % 256) as u8]
}

/// One segment of a name on the wire: its length in one byte, then its
/// UTF-8 bytes. A length above 255 keeps its low eight bits only.
pub open spec fn segment_bytes(segment: Seq<char>) -> Seq<u8> {
    seq![(encode_utf8(segment).len() % 256) as u8] + encode_utf8(segment)
}

/// The segments of a name on the wire, one after the other.
pub open spec fn segments_bytes(segments: Seq<Seq<char>>) -> Seq<u8>
    decreases segments.len(),
{
    if segments.len() == 0 {
        Seq::empty()
    } else {
        segments_bytes(segments.drop_last()) + segment_bytes(segments.last())
    }
}

/// A name on the wire: its segments, closed by one zero byte.
pub open spec fn name_bytes(segments: Seq<Seq<char>>) -> Seq<u8> {
    segments_bytes(segments).push(0u8)
}

/// `p` after one more field, or the reason the field does not fit.
pub open spec fn put_field(p: Packer, field: FieldView) -> Result<Packer, LayoutError> {
    match field {
        FieldView::Word(value) => Ok(extended(p, word_bytes(value))),
        FieldView::Label(segments) => Ok(extended(p, name_bytes(segments))),
        FieldView::Byte(value, width) => match push_error(p.free, width as nat) {
            Some(e) => Err(e),
            None => Ok(pushed(p, value, width as nat)),
        },
    }
}

/// `p` after `fields` in order, or the error of the first field that does
/// not fit.
pub open spec fn put_fields(p: Packer, fields: Seq<FieldView>) -> Result<Packer, LayoutError>
    decreases fields.len(),
{
    if fields.len() == 0 {
        Ok(p)
    } else {
        match put_fields(p, fields.drop_last()) {
            Ok(q) => put_field(q, fields.last()),
            Err(e) => Err(e),
        }
    }
}

/// The bytes that `fields` pack to: each field in order from an empty
/// packer, and a last byte boundary.
pub open spec fn encoding(fields: Seq<FieldView>) -> Result<Seq<u8>, LayoutError> {
    match put_fields(start(), fields) {
        Ok(p) => Ok(aligned(p).out),
        Err(e) => Err(e),
    }
}

/// Sub-byte fields of one `width`, one for each of `values`.
pub open spec fn byte_fields(values: Seq<u8>, width: usize) -> Seq<FieldView> {
    Seq::new(values.len(), |i: int| FieldView::Byte(values[i], width))
}

/// `p` with `before` in front of what it has written.
pub open spec fn behind(before: Seq<u8>, p: Packer) -> Packer {
    Packer { out: before + p.out, byte: p.byte, free: p.free }
}

/// What a field does to a packer does not depend on what was written before.
pub proof fn lemma_put_field_behind(before: Seq<u8>, p: Packer, field: FieldView)
    ensures
        put_field(behind(before, p), field) == match put_field(p, field) {
            Ok(q) => Ok::<Packer, LayoutError>(behind(before, q)),
            Err(e) => Err(e),
        },
        put_field(p, field) matches Ok(q) ==> q.out.len() >= p.out.len(),
{
    let bp = behind(before, p);
    assert(aligned(bp).out =~= before + aligned(p).out);
    match field {
        FieldView::Word(value) => {
            assert(extended(bp, word_bytes(value)).out =~= before + extended(
                p,
                word_bytes(value),
            ).out);
        },
        FieldView::Label(segments) => {
            assert(extended(bp, name_bytes(segments)).out =~= before + extended(
                p,
                name_bytes(segments),
            ).out);
        },
        FieldView::Byte(value, width) => {
            if push_error(p.free, width as nat) is None {
                assert(pushed(bp, value, width as nat).out =~= before + pushed(
                    p,
                    value,
                    width as nat,
                ).out);
            }
        },
    }
}

/// On a byte boundary, values of full width are whole bytes.
pub proof fn lemma_whole_bytes(p: Packer, bytes: Seq<u8>)
    requires
        p.free == FRAME_BITS,
        p.byte == 0,
    ensures
        put_fields(p, byte_fields(bytes, FRAME_BITS)) == Ok::<Packer, LayoutError>(
            extended(p, bytes),
        ),
    decreases bytes.len(),
{
    let fields = byte_fields(bytes, FRAME_BITS);
    if bytes.len() == 0 {
        assert(p.out + bytes =~= p.out);
    } else {
        let value = bytes.last();
        assert(fields.drop_last() =~= byte_fields(bytes.drop_last(), FRAME_BITS));
        lemma_whole_bytes(p, bytes.drop_last());
        assert(0u8 | (value << 0u8) == value) by (bit_vector);
        assert(p.out + bytes =~= (p.out + bytes.drop_last()).push(value));
    }
}

/// Whole bytes written one batch after the other are the bytes of both.
pub proof fn lemma_extended_twice(p: Packer, first: Seq<u8>, second: Seq<u8>)
    ensures
        extended(extended(p, first), second) == extended(p, first + second),
{
    assert((aligned(p).out + first) + second =~= aligned(p).out + (first + second));
}

/// The first segments of a name take no more bytes than all of them.
pub proof fn lemma_segments_prefix(segments: Seq<Seq<char>>, i: int)
    requires
        0 <= i <= segments.len(),
    ensures
        segments_bytes(segments.take(i)).len() <= segments_bytes(segments).len(),
        i < segments.len() ==> segments_bytes(segments.take(i + 1)) == segments_bytes(
            segments.take(i),
        ) + segment_bytes(segments[i]),
    decreases segments.len() - i,
{
    if i == segments.len() {
        assert(segments.take(i) =~= segments);
    } else {
        assert(segments.take(i + 1).drop_last() =~= segments.take(i));
        lemma_segments_prefix(segments, i + 1);
    }
}

/// Packing one field more: the result for the first `i + 1` fields comes
/// from the result for the first `i`.
pub proof fn lemma_put_fields_step(p: Packer, fields: Seq<FieldView>, i: int)
    requires
        0 <= i < fields.len(),
    ensures
        put_fields(p, fields.take(i + 1)) == match put_fields(p, fields.take(i)) {
            Ok(q) => put_field(q, fields[i]),
            Err(e) => Err(e),
        },
{
    assert(fields.take(i + 1).drop_last() =~= fields.take(i));
}

/// An error among the first fields is the error of the whole sequence.
pub proof fn lemma_put_fields_error(p: Packer, fields: Seq<FieldView>, i: int)
    requires
        0 <= i <= fields.len(),
        put_fields(p, fields.take(i)) is Err,
    ensures
        put_fields(p, fields) == put_fields(p, fields.take(i)),
    decreases fields.len() - i,
{
    if i == fields.len() {
        assert(fields.take(i) =~= fields);
    } else {
        lemma_put_fields_step(p, fields, i);
        lemma_put_fields_error(p, fields, i + 1);
    }
}

/// Where the whole sequence packs, so does each of its beginnings, and to no
/// more bytes.
pub proof fn lemma_put_fields_grows(p: Packer, fields: Seq<FieldView>, i: int)
    requires
        0 <= i <= fields.len(),
        put_fields(p, fields) is Ok,
    ensures
        put_fields(p, fields.take(i)) is Ok,
        put_fields(p, fields.take(i))->Ok_0.out.len() <= put_fields(p, fields)->Ok_0.out.len(),
    decreases fields.len() - i,
{
    if put_fields(p, fields.take(i)) is Err {
        lemma_put_fields_error(p, fields, i);
    } else if i == fields.len() {
        assert(fields.take(i) =~= fields);
    } else {
        lemma_put_fields_step(p, fields, i);
        lemma_put_fields_grows(p, fields, i + 1);
        lemma_put_field_behind(Seq::empty(), put_fields(p, fields.take(i))->Ok_0, fields[i]);
    }
}

} // verus!
