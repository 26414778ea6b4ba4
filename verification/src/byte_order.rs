//! Packing fields into bytes: the one-byte accumulator and the encoder that
//! drives it.
use crate::error::LayoutError;
use crate::field::{segments_view, Field, FieldIter, FieldView, Fields};
use crate::layout::{
    aligned, behind, byte_fields, encoding, extended, lemma_extended_twice,
    lemma_pack_keeps_clear, lemma_put_field_behind, lemma_put_fields_error,
    lemma_put_fields_grows, lemma_put_fields_step, lemma_segments_prefix, lemma_whole_bytes,
    lemma_zero_is_clear, low_mask, name_bytes, push_error, pushed, put_field, put_fields,
    segment_bytes, segments_bytes, settled, start, word_bytes, Packer, FRAME_BITS,
};
use crate::wire::put_u8;
use vstd::prelude::*;
use vstd::slice::slice_subrange;

verus! {

/// The accumulator: it packs sub-byte values into one byte, high bits first,
/// and writes each finished byte to the front of the buffer it was given.
pub struct BufFrame<'a> {
    dst: &'a mut [u8],
    frame: u8,
    frame_capacity: &'a usize,
    remaining_capacity: usize,
}

impl<'a> BufFrame<'a> {
    /// The part of the buffer that no byte has been written to yet.
    pub closed spec fn sink(&self) -> &'a mut [u8] {
        self.dst
    }

    /// The byte being assembled.
    pub closed spec fn byte(&self) -> u8 {
        self.frame
    }

    /// How many low bits of the byte being assembled are still free.
    pub closed spec fn free(&self) -> nat {
        self.remaining_capacity as nat
    }

    /// The width at which `append` packs each of its values.
    pub closed spec fn capacity(&self) -> usize {
        *self.frame_capacity
    }

    /// The accumulator as a packer that has written nothing yet.
    pub open spec fn packer(&self) -> Packer {
        Packer { out: Seq::empty(), byte: self.byte(), free: self.free() }
    }

    /// The accumulator's invariant: at most eight bits are free, and none of
    /// them is set.
    pub open spec fn wf(&self) -> bool {
        &&& self.free() <= FRAME_BITS
        &&& self.capacity() <= FRAME_BITS
        &&& self.byte() & low_mask(self.free()) == 0
    }

    /// `self` is what `before` becomes on the way from its packer to `q`:
    /// the byte and free bits of `q`, behind the bytes that `q` has written.
    pub open spec fn follows(&self, before: &Self, q: Packer) -> bool {
        &&& self.byte() == q.byte
        &&& self.free() == q.free
        &&& self.capacity() == before.capacity()
        &&& q.out.len() <= before.sink()@.len()
        &&& self.sink()@ == before.sink()@.skip(q.out.len() as int)
    }

    /// An accumulator over `dst` with `frame_cap` free bits in its first byte.
    pub fn new(dst: &'a mut [u8], frame_cap: &'a usize) -> (r: Self)
        requires
            *frame_cap <= FRAME_BITS,
        ensures
            r.wf(),
            r.byte() == 0,
            r.free() == *frame_cap,
            r.capacity() == *frame_cap,
            r.sink()@ == old(dst)@,
            final(r.sink())@ == final(dst)@,
    {
        proof {
            lemma_zero_is_clear(*frame_cap as nat);
        }
        BufFrame { dst: dst, frame: 0, frame_capacity: frame_cap, remaining_capacity: *frame_cap }
    }

    /// Starts an empty byte.
    fn clear(&mut self)
        ensures
            final(self).byte() == 0,
            final(self).free() == FRAME_BITS,
            final(self).capacity() == old(self).capacity(),
            final(self).sink() == old(self).sink(),
    {
        self.remaining_capacity = 8;
        self.frame = 0;
    }

    /// Writes the byte being assembled to the buffer, whatever it holds, and
    /// starts an empty one.
    fn flush(&mut self)
        requires
            old(self).sink()@.len() >= 1,
        ensures
            final(self).byte() == 0,
            final(self).free() == FRAME_BITS,
            final(self).capacity() == old(self).capacity(),
            final(self).sink()@ == old(self).sink()@.skip(1),
            final(old(self).sink())@ == seq![old(self).byte()] + final(final(self).sink())@,
    {
        put_u8(&mut self.dst, self.frame);
        self.clear();
    }

    /// Writes the byte being assembled to the buffer if no bit of it is
    /// free, and does nothing otherwise.
    pub fn flush_full_frame(&mut self) -> (r: Result<(), LayoutError>)
        requires
            old(self).wf(),
        ensures
            final(self).wf(),
            ({
                let q = settled(old(self).packer());
                if q.out.len() > old(self).sink()@.len() {
                    r == Err::<(), LayoutError>(LayoutError::BufferFull) && *final(self) == *old(
                        self,
                    )
                } else {
                    r is Ok && final(self).follows(old(self), q) && final(old(self).sink())@
                        == q.out + final(final(self).sink())@
                }
            }),
    {
        if self.remaining_capacity == 0 {
            if self.dst.len() == 0 {
                return Err(LayoutError::BufferFull);
            }
            self.flush();
            proof {
                lemma_zero_is_clear(FRAME_BITS as nat);
                assert(settled(old(self).packer()).out =~= seq![old(self).byte()]);
            }
        } else {
            assert(self.sink()@ =~= old(self).sink()@.skip(0));
            assert(final(old(self).sink())@ =~= Seq::<u8>::empty() + final(self.sink())@);
        }
        Ok(())
    }

    /// Ends the accumulator's use of the buffer: what it has not written
    /// over stays as it is.
    pub fn finish(self)
        ensures
            final(self.sink())@ == self.sink()@,
    {
    }

    /// Brings the accumulator to a byte boundary: a byte that holds any bits
    /// is written to the buffer with its free low bits zero; an empty byte
    /// is not written.
    pub fn force_flush(&mut self) -> (r: Result<(), LayoutError>)
        requires
            old(self).wf(),
        ensures
            final(self).wf(),
            ({
                let q = aligned(old(self).packer());
                if q.out.len() > old(self).sink()@.len() {
                    r == Err::<(), LayoutError>(LayoutError::BufferFull) && *final(self) == *old(
                        self,
                    )
                } else {
                    r is Ok && final(self).follows(old(self), q) && final(old(self).sink())@
                        == q.out + final(final(self).sink())@
                }
            }),
    {
        if self.remaining_capacity < FRAME_BITS {
            if self.dst.len() == 0 {
                return Err(LayoutError::BufferFull);
            }
            self.flush();
            proof {
                lemma_zero_is_clear(FRAME_BITS as nat);
                assert(aligned(old(self).packer()).out =~= seq![old(self).byte()]);
            }
        } else {
            assert(self.sink()@ =~= old(self).sink()@.skip(0));
            assert(final(old(self).sink())@ =~= Seq::<u8>::empty() + final(self.sink())@);
        }
        Ok(())
    }

    /// Whether `vals` can be packed at the accumulator's own width, one
    /// after the other: the number of bytes they would fill, or the error of
    /// the first that does not fit.
    fn append_len(&self, vals: &[u8]) -> (r: Result<usize, LayoutError>)
        requires
            self.wf(),
        ensures
            match put_fields(self.packer(), byte_fields(vals@, self.capacity())) {
                Ok(q) => r matches Ok(n) && n == q.out.len(),
                Err(e) => r == Err::<usize, LayoutError>(e),
            },
    {
        let width = *self.frame_capacity;
        let ghost fields = byte_fields(vals@, width);
        let ghost p = self.packer();
        let mut free = self.remaining_capacity;
        let mut count: usize = 0;
        let mut i: usize = 0;
        assert(fields.take(0) =~= Seq::<FieldView>::empty());
        while i < vals.len()
            invariant
                i <= vals@.len(),
                fields == byte_fields(vals@, width),
                p == self.packer(),
                width == self.capacity(),
                width <= FRAME_BITS,
                free <= FRAME_BITS,
                count <= i,
                put_fields(p, fields.take(i as int)) matches Ok(q) && q.free == free
                    && q.out.len() == count,
            decreases vals@.len() - i,
        {
            proof {
                lemma_put_fields_step(p, fields, i as int);
            }
            if width == 0 {
                proof {
                    lemma_put_fields_error(p, fields, i + 1);
                }
                return Err(LayoutError::ZeroWidth);
            }
            if width > free {
                proof {
                    lemma_put_fields_error(p, fields, i + 1);
                }
                return Err(LayoutError::Overflow);
            }
            free = free - width;
            if free == 0 {
                count = count + 1;
                free = FRAME_BITS;
            }
            i = i + 1;
        }
        assert(fields.take(i as int) =~= fields);
        Ok(count)
    }

    /// Packs each of `vals` at the accumulator's own width, in order.
    /// Nothing changes when one of them does not fit, or when the buffer
    /// has no room for the bytes that would be written.
    pub fn append(&mut self, vals: &[u8]) -> (r: Result<(), LayoutError>)
        requires
            old(self).wf(),
        ensures
            final(self).wf(),
            match put_fields(old(self).packer(), byte_fields(vals@, old(self).capacity())) {
                Err(e) => r == Err::<(), LayoutError>(e) && *final(self) == *old(self),
                Ok(q) => if q.out.len() > old(self).sink()@.len() {
                    r == Err::<(), LayoutError>(LayoutError::BufferFull) && *final(self) == *old(
                        self,
                    )
                } else {
                    r is Ok && final(self).follows(old(self), q) && final(old(self).sink())@
                        == q.out + final(final(self).sink())@
                },
            },
    {
        let needed = match self.append_len(vals) {
            Ok(n) => n,
            Err(e) => {
                return Err(e);
            },
        };
        if needed > self.dst.len() {
            return Err(LayoutError::BufferFull);
        }
        let width = *self.frame_capacity;
        let ghost fields = byte_fields(vals@, width);
        let ghost p = self.packer();
        let mut i: usize = 0;
        proof {
            assert(fields.take(0) =~= Seq::<FieldView>::empty());
            assert(self.sink()@ =~= old(self).sink()@.skip(0));
            assert(final(old(self).sink())@ =~= Seq::<u8>::empty() + final(self.sink())@);
        }
        while i < vals.len()
            invariant
                i <= vals@.len(),
                fields == byte_fields(vals@, width),
                p == old(self).packer(),
                width == old(self).capacity(),
                put_fields(p, fields) is Ok,
                put_fields(p, fields)->Ok_0.out.len() <= old(self).sink()@.len(),
                self.wf(),
                put_fields(p, fields.take(i as int)) matches Ok(q) && self.follows(old(self), q)
                    && final(old(self).sink())@ == q.out + final(self.sink())@,
            decreases vals@.len() - i,
        {
            let ghost q = put_fields(p, fields.take(i as int))->Ok_0;
            let ghost before = *self;
            proof {
                lemma_put_fields_step(p, fields, i as int);
                lemma_put_fields_grows(p, fields, i + 1);
                assert(q == behind(q.out, self.packer())) by {
                    assert(q.out + Seq::<u8>::empty() =~= q.out);
                }
                lemma_put_field_behind(q.out, self.packer(), fields[i as int]);
            }
            self.push_be(&vals[i], &width)?;
            proof {
                let step = pushed(before.packer(), vals@[i as int], width as nat);
                let next = put_fields(p, fields.take(i + 1))->Ok_0;
                assert(next == behind(q.out, step));
                assert(self.sink()@ =~= old(self).sink()@.skip(next.out.len() as int));
                assert(final(old(self).sink())@ =~= next.out + final(self.sink())@);
            }
            i = i + 1;
        }
        assert(fields.take(i as int) =~= fields);
        Ok(())
    }

    /// Writes `bytes` whole, from a byte boundary on.
    fn put_aligned(&mut self, bytes: &[u8]) -> (r: Result<(), LayoutError>)
        requires
            old(self).wf(),
            old(self).capacity() == FRAME_BITS,
            extended(old(self).packer(), bytes@).out.len() <= old(self).sink()@.len(),
        ensures
            r is Ok,
            final(self).wf(),
            final(self).follows(old(self), extended(old(self).packer(), bytes@)),
            final(old(self).sink())@ == extended(old(self).packer(), bytes@).out + final(
                final(self).sink()
            )@,
    {
        let ghost p = aligned(self.packer());
        self.force_flush()?;
        proof {
            assert(self.byte() == 0) by {
                let b = self.byte();
                assert(b & 0xffu8 == 0 ==> b == 0) by (bit_vector);
            }
            lemma_whole_bytes(self.packer(), bytes@);
            assert(extended(self.packer(), bytes@).out =~= bytes@);
        }
        let r = self.append(bytes);
        proof {
            let q = extended(old(self).packer(), bytes@);
            assert(q.out =~= p.out + bytes@);
            assert(self.sink()@ =~= old(self).sink()@.skip(q.out.len() as int));
            assert(final(old(self).sink())@ =~= q.out + final(self.sink())@);
        }
        r
    }

    /// Writes one segment of a name from a byte boundary on: its length in
    /// one byte, then its bytes.
    fn put_segment(&mut self, text: &str) -> (r: Result<(), LayoutError>)
        requires
            old(self).wf(),
            old(self).capacity() == FRAME_BITS,
            extended(old(self).packer(), segment_bytes(text@)).out.len() <= old(
                self,
            ).sink()@.len(),
        ensures
            r is Ok,
            final(self).wf(),
            final(self).follows(old(self), extended(old(self).packer(), segment_bytes(text@))),
            final(old(self).sink())@ == extended(old(self).packer(), segment_bytes(text@)).out
                + final(final(self).sink())@,
    {
        let bytes = text.as_bytes();
        let length = [(bytes.len() % 256) as u8];
        let ghost p = old(self).packer();
        proof {
            assert(length@ =~= seq![(bytes@.len() % 256) as u8]);
            assert(segment_bytes(text@) =~= length@ + bytes@);
            lemma_extended_twice(p, length@, bytes@);
        }
        self.put_aligned(length.as_slice())?;
        let ghost mid = *self;
        let r = self.put_aligned(bytes);
        proof {
            let q = extended(p, segment_bytes(text@));
            assert(extended(mid.packer(), bytes@).out =~= bytes@);
            assert(q.out =~= extended(p, length@).out + bytes@);
            assert(self.sink()@ =~= old(self).sink()@.skip(q.out.len() as int));
            assert(final(old(self).sink())@ =~= q.out + final(self.sink())@);
        }
        r
    }

    /// Writes a name from a byte boundary on: each segment behind its
    /// length byte, and a closing zero.
    fn put_name(&mut self, segments: &Vec<String>) -> (r: Result<(), LayoutError>)
        requires
            old(self).wf(),
            old(self).capacity() == FRAME_BITS,
            extended(old(self).packer(), name_bytes(segments_view(segments@))).out.len() <= old(
                self,
            ).sink()@.len(),
        ensures
            r is Ok,
            final(self).wf(),
            final(self).follows(
                old(self),
                extended(old(self).packer(), name_bytes(segments_view(segments@))),
            ),
            final(old(self).sink())@ == extended(
                old(self).packer(),
                name_bytes(segments_view(segments@)),
            ).out + final(final(self).sink())@,
    {
        let ghost names = segments_view(segments@);
        let ghost p = old(self).packer();
        let mut i: usize = 0;
        proof {
            assert(names.take(0) =~= Seq::<Seq<char>>::empty());
        }
        let empty: [u8; 0] = [];
        self.put_aligned(empty.as_slice())?;
        while i < segments.len()
            invariant
                i <= segments@.len(),
                names == segments_view(segments@),
                p == old(self).packer(),
                self.wf(),
                self.capacity() == FRAME_BITS,
                self.free() == FRAME_BITS,
                self.byte() == 0,
                extended(p, name_bytes(names)).out.len() <= old(self).sink()@.len(),
                self.follows(old(self), extended(p, segments_bytes(names.take(i as int)))),
                final(old(self).sink())@ == extended(
                    p,
                    segments_bytes(names.take(i as int)),
                ).out + final(self.sink())@,
            decreases segments@.len() - i,
        {
            let text = segments[i].as_str();
            let ghost done = segments_bytes(names.take(i as int));
            let ghost here = self.packer();
            proof {
                lemma_segments_prefix(names, i as int);
                lemma_segments_prefix(names, i + 1);
                lemma_extended_twice(p, done, segment_bytes(text@));
                assert(extended(here, segment_bytes(text@)).out =~= segment_bytes(text@));
            }
            self.put_segment(text)?;
            proof {
                let q = extended(p, segments_bytes(names.take(i + 1)));
                assert(q.out =~= extended(p, done).out + segment_bytes(text@));
                assert(self.sink()@ =~= old(self).sink()@.skip(q.out.len() as int));
                assert(final(old(self).sink())@ =~= q.out + final(self.sink())@);
            }
            i = i + 1;
        }
        let ghost here = self.packer();
        proof {
            assert(names.take(i as int) =~= names);
            lemma_extended_twice(p, segments_bytes(names), seq![0u8]);
            assert(segments_bytes(names) + seq![0u8] =~= name_bytes(names));
            assert(extended(here, seq![0u8]).out =~= seq![0u8]);
        }
        let end = [0u8];
        let r = self.put_aligned(end.as_slice());
        proof {
            let q = extended(p, name_bytes(names));
            assert(q.out =~= extended(p, segments_bytes(names)).out + seq![0u8]);
            assert(self.sink()@ =~= old(self).sink()@.skip(q.out.len() as int));
            assert(final(old(self).sink())@ =~= q.out + final(self.sink())@);
        }
        r
    }

    /// Packs the low `size` bits' worth of `val` into the top of the free
    /// bits, and writes the byte to the buffer if that fills it. Nothing
    /// changes when `size` is zero or exceeds the free bits, or when the
    /// buffer has no room for a byte that would be written.
    pub fn push_be(&mut self, val: &u8, size: &usize) -> (r: Result<(), LayoutError>)
        requires
            old(self).wf(),
        ensures
            final(self).wf(),
            ({
                let q = pushed(old(self).packer(), *val, *size as nat);
                match push_error(old(self).free(), *size as nat) {
                    Some(e) => r == Err::<(), LayoutError>(e) && *final(self) == *old(self),
                    None => if q.out.len() > old(self).sink()@.len() {
                        r == Err::<(), LayoutError>(LayoutError::BufferFull) && *final(self)
                            == *old(self)
                    } else {
                        r is Ok && final(self).follows(old(self), q) && final(old(self).sink())@
                            == q.out + final(final(self).sink())@
                    },
                }
            }),
    {
        if *size == 0 {
            return Err(LayoutError::ZeroWidth);
        }
        if *size > self.remaining_capacity {
            return Err(LayoutError::Overflow);
        }
        if *size == self.remaining_capacity && self.dst.len() == 0 {
            return Err(LayoutError::BufferFull);
        }
        let shift_val = self.remaining_capacity - *size;
        let shift: u8 = shift_val as u8;
        proof {
            lemma_pack_keeps_clear(self.frame, *val, self.remaining_capacity as nat, *size as nat);
        }
        let next_frame_val = *val << shift;
        self.frame |= next_frame_val;
        self.remaining_capacity -= *size;
        self.flush_full_frame()
    }
}

/// A byte count that stops at `limit`: `count` is the number itself while it
/// is within the limit, and `over` says that it is not.
struct Tally {
    count: usize,
    over: bool,
}

impl Tally {
    /// The tally stands for `total`, held against `limit`.
    spec fn counts(&self, total: int, limit: usize) -> bool {
        &&& self.over == (total > limit)
        &&& !self.over ==> self.count == total
    }

    /// The tally after `more` bytes.
    fn grow(&mut self, more: usize, limit: usize, Ghost(total): Ghost<int>)
        requires
            old(self).counts(total, limit),
        ensures
            final(self).counts(total + more, limit),
    {
        if !self.over {
            if more > limit - self.count {
                self.over = true;
            } else {
                self.count = self.count + more;
            }
        }
    }

    /// The tally after the bytes of a name.
    fn grow_name(&mut self, segments: &Vec<String>, limit: usize, Ghost(total): Ghost<int>)
        requires
            old(self).counts(total, limit),
        ensures
            final(self).counts(total + name_bytes(segments_view(segments@)).len(), limit),
    {
        let ghost names = segments_view(segments@);
        let mut i: usize = 0;
        proof {
            assert(names.take(0) =~= Seq::<Seq<char>>::empty());
        }
        while i < segments.len()
            invariant
                i <= segments@.len(),
                names == segments_view(segments@),
                self.counts(total + segments_bytes(names.take(i as int)).len(), limit),
            decreases segments@.len() - i,
        {
            let bytes = segments[i].as_str().as_bytes();
            let ghost so_far = total + segments_bytes(names.take(i as int)).len();
            proof {
                lemma_segments_prefix(names, i as int);
            }
            self.grow(1, limit, Ghost(so_far));
            self.grow(bytes.len(), limit, Ghost(so_far + 1));
            i = i + 1;
        }
        proof {
            assert(names.take(i as int) =~= names);
        }
        self.grow(1, limit, Ghost(total + segments_bytes(names).len()));
    }
}

/// Checks a layout without writing it: the number of bytes that `fields`
/// pack to, the error of the first field that does not fit, or
/// `BufferFull` where they pack to more than `limit` bytes.
pub fn encoded_len(fields: &FieldIter, limit: usize) -> (r: Result<usize, LayoutError>)
    ensures
        match encoding(fields@) {
            Err(e) => r == Err::<usize, LayoutError>(e),
            Ok(bytes) => if bytes.len() > limit {
                r == Err::<usize, LayoutError>(LayoutError::BufferFull)
            } else {
                r matches Ok(n) && n == bytes.len()
            },
        },
{
    let ghost all = fields@;
    let total = fields.len();
    let mut tally = Tally { count: 0, over: false };
    let mut free: usize = FRAME_BITS;
    let mut k: usize = 0;
    proof {
        assert(all.take(0) =~= Seq::<FieldView>::empty());
    }
    while k < total
        invariant
            k <= total == all.len(),
            all == fields@,
            free <= FRAME_BITS,
            put_fields(start(), all.take(k as int)) matches Ok(q) && q.free == free
                && tally.counts(q.out.len() as int, limit),
        decreases total - k,
    {
        let ghost q = put_fields(start(), all.take(k as int))->Ok_0;
        proof {
            lemma_put_fields_step(start(), all, k as int);
        }
        if let Some(field) = fields.get(k) {
            match field {
                Field::Byte(_, width) => {
                    if *width == 0 {
                        proof {
                            lemma_put_fields_error(start(), all, k + 1);
                        }
                        return Err(LayoutError::ZeroWidth);
                    }
                    if *width > free {
                        proof {
                            lemma_put_fields_error(start(), all, k + 1);
                        }
                        return Err(LayoutError::Overflow);
                    }
                    free = free - *width;
                    if free == 0 {
                        tally.grow(1, limit, Ghost(q.out.len() as int));
                        free = FRAME_BITS;
                    }
                },
                Field::Word(_) => {
                    let ghost mut at = q.out.len() as int;
                    if free < FRAME_BITS {
                        tally.grow(1, limit, Ghost(at));
                        proof {
                            at = at + 1;
                        }
                    }
                    tally.grow(2, limit, Ghost(at));
                    free = FRAME_BITS;
                },
                Field::Label(segments) => {
                    let ghost mut at = q.out.len() as int;
                    if free < FRAME_BITS {
                        tally.grow(1, limit, Ghost(at));
                        proof {
                            at = at + 1;
                        }
                    }
                    tally.grow_name(segments, limit, Ghost(at));
                    free = FRAME_BITS;
                },
            }
        }
        k = k + 1;
    }
    proof {
        assert(all.take(k as int) =~= all);
    }
    if free < FRAME_BITS {
        tally.grow(1, limit, Ghost(put_fields(start(), all)->Ok_0.out.len() as int));
    }
    if tally.over {
        Err(LayoutError::BufferFull)
    } else {
        Ok(tally.count)
    }
}

/// Writes the bytes that `fields` pack to into the front of `dst` and hands
/// them back; the rest of `dst` stays as it was. Where the fields cannot be
/// laid out, or pack to more bytes than `dst` has, nothing is written.
pub fn write_fields<'a>(fields: FieldIter<'_>, dst: &'a mut [u8]) -> (r: Result<
    &'a [u8],
    LayoutError,
>)
    ensures
        match encoding(fields@) {
            Err(e) => r == Err::<&[u8], LayoutError>(e) && final(dst)@ == old(dst)@,
            Ok(bytes) => if bytes.len() > old(dst)@.len() {
                r == Err::<&[u8], LayoutError>(LayoutError::BufferFull) && final(dst)@ == old(
                    dst,
                )@
            } else {
                r matches Ok(written) && written@ == bytes && final(dst)@ == bytes + old(
                    dst,
                )@.skip(bytes.len() as int)
            },
        },
{
    let mut fields = fields;
    let ghost all = fields@;
    let needed = match encoded_len(&fields, dst.len()) {
        Ok(n) => n,
        Err(e) => {
            return Err(e);
        },
    };
    let ghost end = put_fields(start(), all)->Ok_0;
    let width: usize = FRAME_BITS;
    let mut frame = BufFrame::new(&mut *dst, &width);
    let ghost mut k: int = 0;
    proof {
        assert(all.take(0) =~= Seq::<FieldView>::empty());
        assert(all.skip(0) =~= all);
        assert(frame.sink()@ =~= old(dst)@.skip(0));
        assert(after_borrow(dst)@ =~= Seq::<u8>::empty() + final(frame.sink())@);
    }
    loop
        invariant
            0 <= k <= all.len(),
            fields@ == all.skip(k),
            put_fields(start(), all) == Ok::<Packer, LayoutError>(end),
            aligned(end).out.len() <= old(dst)@.len(),
            frame.wf(),
            frame.capacity() == FRAME_BITS,
            put_fields(start(), all.take(k)) matches Ok(q) && frame.byte() == q.byte
                && frame.free() == q.free && q.out.len() <= old(dst)@.len() && frame.sink()@
                == old(dst)@.skip(q.out.len() as int),
            after_borrow(dst)@ == put_fields(start(), all.take(k))->Ok_0.out + final(
                frame.sink()
            )@,
        ensures
            k == all.len(),
        decreases all.len() - k,
    {
        let field = match fields.next() {
            Some(field) => field,
            None => {
                break ;
            },
        };
        let ghost q = put_fields(start(), all.take(k))->Ok_0;
        let ghost here = frame.packer();
        proof {
            lemma_put_fields_step(start(), all, k);
            lemma_put_fields_grows(start(), all, k + 1);
            assert(q == behind(q.out, here)) by {
                assert(q.out + Seq::<u8>::empty() =~= q.out);
            }
            lemma_put_field_behind(q.out, here, all[k]);
        }
        match field {
            Field::Word(value) => {
                let bytes = [(*value / 256) as u8, (*value % 256) as u8];
                proof {
                    assert(bytes@ =~= word_bytes(*value));
                }
                frame.put_aligned(bytes.as_slice())?
            },
            Field::Byte(value, size) => frame.push_be(value, size)?,
            Field::Label(segments) => frame.put_name(segments)?,
        }
        proof {
            let next = put_fields(start(), all.take(k + 1))->Ok_0;
            let step = put_field(here, all[k])->Ok_0;
            assert(next == behind(q.out, step));
            assert(frame.sink()@ =~= old(dst)@.skip(next.out.len() as int));
            assert(after_borrow(dst)@ =~= next.out + final(frame.sink())@);
            assert(all.skip(k).skip(1) =~= all.skip(k + 1));
            k = k + 1;
        }
    }
    proof {
        assert(all.take(k) =~= all);
        assert(end == behind(end.out, frame.packer())) by {
            assert(end.out + Seq::<u8>::empty() =~= end.out);
        }
        assert(aligned(end).out =~= end.out + aligned(frame.packer()).out);
    }
    frame.force_flush()?;
    frame.finish();
    proof {
        let bytes = aligned(end).out;
        assert(dst@ =~= bytes + old(dst)@.skip(bytes.len() as int));
    }
    Ok(slice_subrange(dst, 0, needed))
}

/// A structure that can be written to the wire, big-endian.
pub trait ByteOrder<'a> {
    /// The bytes of the structure on the wire, or why it has none.
    spec fn be_bytes(&self) -> Result<Seq<u8>, LayoutError>;

    /// Writes the structure's bytes into the front of `dst` and hands them
    /// back; the rest of `dst` stays as it was. Where the structure has no
    /// layout, or more bytes than `dst`, nothing is written.
    fn write_be_bytes(&self, dst: &'a mut [u8]) -> (r: Result<&'a [u8], LayoutError>)
        ensures
            match self.be_bytes() {
                Err(e) => r == Err::<&[u8], LayoutError>(e) && final(dst)@ == old(dst)@,
                Ok(bytes) => if bytes.len() > old(dst)@.len() {
                    r == Err::<&[u8], LayoutError>(LayoutError::BufferFull) && final(dst)@
                        == old(dst)@
                } else {
                    r matches Ok(written) && written@ == bytes && final(dst)@ == bytes + old(
                        dst,
                    )@.skip(bytes.len() as int)
                },
            },
    ;
}

impl<'a, V> ByteOrder<'a> for V where V: Fields {
    /// The packing of the structure's fields, in their order.
    open spec fn be_bytes(&self) -> Result<Seq<u8>, LayoutError> {
        encoding(self.field_views())
    }

    fn write_be_bytes(&self, dst: &'a mut [u8]) -> (r: Result<&'a [u8], LayoutError>) {
        write_fields(self.fields(), dst)
    }
}

} // verus!
