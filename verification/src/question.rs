//! The question section: a name, then two 16-bit codes.
use crate::error::{DecodeError, LayoutError};
use crate::field::{segments_view, views_of, Field, FieldIter, FieldView, Fields};
use crate::header::{lemma_word_round_trip, word_of};
use crate::layout::{
    encoding, extended, lemma_put_fields_step, name_bytes, put_fields, segment_bytes,
    segments_bytes, start, word_bytes, Packer,
};
use crate::wire::{advance, as_slice, get_u16, get_u8, remaining, text_from_utf8, unread};
use bytes::BytesMut;
use vstd::prelude::*;
use vstd::slice::{slice_subrange, slice_to_vec};
use vstd::utf8::{
    decode_utf8, encode_utf8, encode_utf8_decode_utf8, encode_utf8_valid_utf8, valid_utf8,
};

verus! {

/// The number of bytes behind the name of a question: its type and class.
pub const CODES_LEN: usize = 4;

/// A DNS question section.
#[derive(Debug, PartialEq)]
pub struct DNSQuestion {
    /// The name asked about.
    pub name: Field,
    /// The type of record asked for (16 bits).
    pub q_type: Field,
    /// The class of record asked for (16 bits).
    pub q_class: Field,
}

impl View for DNSQuestion {
    type V = Seq<FieldView>;

    /// The question's fields in wire order.
    open spec fn view(&self) -> Seq<FieldView> {
        seq![self.name@, self.q_type@, self.q_class@]
    }
}

impl Fields for DNSQuestion {
    open spec fn field_views(&self) -> Seq<FieldView> {
        self@
    }

    fn fields(&self) -> (it: FieldIter<'_>) {
        let list: Vec<&Field> = vec![&self.name, &self.q_type, &self.q_class];
        proof {
            assert(views_of(list@) =~= self@);
        }
        FieldIter::from(list)
    }
}

/// What reading from the front of some bytes gives: the value read, or why
/// there is none, and the bytes left behind it.
pub ghost struct Parse<T> {
    pub result: Result<T, DecodeError>,
    pub rest: Seq<u8>,
}

/// A name read from the front of `bytes`: segment after segment, each
/// behind its length byte, up to a zero length byte. Reading stops behind
/// the length byte of a segment that the bytes do not hold in full, or that
/// is not well-formed UTF-8.
pub open spec fn parse_name(bytes: Seq<u8>) -> Parse<Seq<Seq<char>>>
    decreases bytes.len(),
{
    if bytes.len() == 0 {
        Parse { result: Err(DecodeError::UnexpectedEnd { needed: 1, available: 0 }), rest: bytes }
    } else {
        let length = bytes[0];
        let tail = bytes.skip(1);
        if length == 0 {
            Parse { result: Ok(Seq::empty()), rest: tail }
        } else if length > tail.len() {
            Parse {
                result: Err(
                    DecodeError::UnexpectedEnd {
                        needed: length as usize,
                        available: tail.len() as usize,
                    },
                ),
                rest: tail,
            }
        } else if !valid_utf8(tail.take(length as int)) {
            Parse { result: Err(DecodeError::InvalidText), rest: tail }
        } else {
            named(decode_utf8(tail.take(length as int)), parse_name(tail.skip(length as int)))
        }
    }
}

/// `more` with one segment in front of the name it read.
pub open spec fn named(segment: Seq<char>, more: Parse<Seq<Seq<char>>>) -> Parse<
    Seq<Seq<char>>,
> {
    Parse {
        result: match more.result {
            Ok(segments) => Ok(seq![segment] + segments),
            Err(e) => Err(e),
        },
        rest: more.rest,
    }
}

/// `more` with segments in front of the name it read.
pub open spec fn behind_segments(front: Seq<Seq<char>>, more: Parse<Seq<Seq<char>>>) -> Parse<
    Seq<Seq<char>>,
> {
    Parse {
        result: match more.result {
            Ok(segments) => Ok(front + segments),
            Err(e) => Err(e),
        },
        rest: more.rest,
    }
}

/// A question read from the front of `bytes`: its name, then its type and
/// class. Reading stops behind a name that lacks the four bytes of the two
/// codes.
pub open spec fn parse_question(bytes: Seq<u8>) -> Parse<Seq<FieldView>> {
    let name = parse_name(bytes);
    match name.result {
        Err(e) => Parse { result: Err(e), rest: name.rest },
        Ok(segments) => if name.rest.len() < CODES_LEN {
            Parse {
                result: Err(
                    DecodeError::UnexpectedEnd {
                        needed: CODES_LEN,
                        available: name.rest.len() as usize,
                    },
                ),
                rest: name.rest,
            }
        } else {
            Parse {
                result: Ok(
                    seq![
                        FieldView::Label(segments),
                        FieldView::Word(word_of(name.rest[0], name.rest[1])),
                        FieldView::Word(word_of(name.rest[2], name.rest[3])),
                    ],
                ),
                rest: name.rest.skip(CODES_LEN as int),
            }
        },
    }
}

/// Reads a name off the front of `source`: its segments in order. On an
/// error the buffer stands where reading stopped.
pub fn to_labels(source: &mut BytesMut) -> (r: Result<Vec<String>, DecodeError>)
    ensures
        match r {
            Ok(labels) => parse_name(unread(old(source))).result == Ok::<
                Seq<Seq<char>>,
                DecodeError,
            >(segments_view(labels@)),
            Err(e) => parse_name(unread(old(source))).result == Err::<
                Seq<Seq<char>>,
                DecodeError,
            >(e),
        },
        unread(final(source)) == parse_name(unread(old(source))).rest,
{
    let mut labels: Vec<String> = Vec::new();
    let ghost all = unread(source);
    proof {
        assert(segments_view(labels@) =~= Seq::<Seq<char>>::empty());
        assert(parse_name(all) =~~= behind_segments(Seq::empty(), parse_name(all)));
    }
    loop
        invariant
            all == unread(old(source)),
            parse_name(all) == behind_segments(
                segments_view(labels@),
                parse_name(unread(source)),
            ),
        decreases unread(source).len(),
    {
        let ghost here = unread(source);
        let ghost front = segments_view(labels@);
        if remaining(source) == 0 {
            return Err(DecodeError::UnexpectedEnd { needed: 1, available: 0 });
        }
        let label_length = get_u8(source) as usize;
        if label_length == 0 {
            proof {
                assert(front + Seq::<Seq<char>>::empty() =~= front);
            }
            return Ok(labels);
        }
        let available = remaining(source);
        if label_length > available {
            return Err(DecodeError::UnexpectedEnd { needed: label_length, available });
        }
        let label_vec = slice_to_vec(slice_subrange(as_slice(source), 0, label_length));
        proof {
            assert(label_vec@ =~= here.skip(1).take(label_length as int));
        }
        let label = match text_from_utf8(label_vec) {
            Some(l) => l,
            None => {
                return Err(DecodeError::InvalidText);
            },
        };
        proof {
            encode_utf8_decode_utf8(label@);
        }
        labels.push(label);
        advance(source, label_length);
        proof {
            let segment = decode_utf8(here.skip(1).take(label_length as int));
            let more = parse_name(unread(source));
            assert(segments_view(labels@) =~= front.push(segment));
            assert(unread(source) =~= here.skip(1).skip(label_length as int));
            if more.result is Ok {
                assert(front + (seq![segment] + more.result->Ok_0) =~= front.push(segment)
                    + more.result->Ok_0);
            }
        }
    }
}

impl DNSQuestion {
    /// Reads a question off the front of `value`. On an error the buffer
    /// stands where reading stopped.
    pub fn from(value: &mut BytesMut) -> (r: Result<DNSQuestion, DecodeError>)
        ensures
            match r {
                Ok(question) => parse_question(unread(old(value))).result == Ok::<
                    Seq<FieldView>,
                    DecodeError,
                >(question@),
                Err(e) => parse_question(unread(old(value))).result == Err::<
                    Seq<FieldView>,
                    DecodeError,
                >(e),
            },
            unread(final(value)) == parse_question(unread(old(value))).rest,
    {
        let label = match to_labels(value) {
            Ok(label) => label,
            Err(e) => {
                return Err(e);
            },
        };
        let available = remaining(value);
        if available < CODES_LEN {
            return Err(DecodeError::UnexpectedEnd { needed: CODES_LEN, available });
        }
        let ghost rest = unread(value);
        let q_type = get_u16(value);
        let q_class = get_u16(value);
        let question = DNSQuestion {
            name: Field::Label(label),
            q_type: Field::Word(q_type),
            q_class: Field::Word(q_class),
        };
        proof {
            assert(unread(value) =~= rest.skip(CODES_LEN as int));
            assert(question@ =~= parse_question(unread(old(value))).result->Ok_0);
        }
        Ok(question)
    }
}

/// A length byte that claims more than the bytes behind it hold makes the
/// name an error, and nothing behind the length byte is read.
pub proof fn lemma_overlong_segment_fails(bytes: Seq<u8>)
    requires
        bytes.len() > 0,
        bytes[0] > bytes.len() - 1,
    ensures
        parse_name(bytes).result == Err::<Seq<Seq<char>>, DecodeError>(
            DecodeError::UnexpectedEnd {
                needed: bytes[0] as usize,
                available: (bytes.len() - 1) as usize,
            },
        ),
        parse_name(bytes).rest == bytes.skip(1),
{
}

/// Reading a name never goes past the end of the bytes: what is left is an
/// end of what was given.
pub proof fn lemma_parse_name_in_bounds(bytes: Seq<u8>)
    ensures
        parse_name(bytes).rest.len() <= bytes.len(),
        parse_name(bytes).rest == bytes.skip(bytes.len() - parse_name(bytes).rest.len()),
    decreases bytes.len(),
{
    if bytes.len() == 0 {
        assert(bytes.skip(0) =~= bytes);
    } else {
        let length = bytes[0];
        let tail = bytes.skip(1);
        if length != 0 && length <= tail.len() && valid_utf8(tail.take(length as int)) {
            let next = tail.skip(length as int);
            lemma_parse_name_in_bounds(next);
            let rest = parse_name(next).rest;
            assert(next.skip(next.len() - rest.len()) =~= bytes.skip(bytes.len() - rest.len()));
        }
    }
}

/// The segments of a name on the wire, first segment first.
pub proof fn lemma_segments_bytes_front(segments: Seq<Seq<char>>)
    requires
        segments.len() > 0,
    ensures
        segments_bytes(segments) == segment_bytes(segments[0]) + segments_bytes(segments.skip(1)),
    decreases segments.len(),
{
    if segments.len() == 1 {
        assert(segments.drop_last() =~= Seq::<Seq<char>>::empty());
        assert(segments.skip(1) =~= Seq::<Seq<char>>::empty());
        assert(segments_bytes(segments) =~= segment_bytes(segments[0]) + segments_bytes(
            segments.skip(1),
        ));
    } else {
        lemma_segments_bytes_front(segments.drop_last());
        assert(segments.drop_last().skip(1) =~= segments.skip(1).drop_last());
        assert(segments_bytes(segments) =~= segment_bytes(segments[0]) + segments_bytes(
            segments.skip(1),
        ));
    }
}

/// Each segment is text of one to 255 bytes: what a length byte can state
/// without ending the name.
pub open spec fn segments_fit(segments: Seq<Seq<char>>) -> bool {
    forall|i: int|
        0 <= i < segments.len() ==> 0 < (#[trigger] encode_utf8(segments[i])).len() <= 255
}

/// Round trip of a name: the bytes that a name of fitting segments is
/// written as are read back as the same name, up to what follows them.
pub proof fn lemma_name_round_trip(segments: Seq<Seq<char>>, tail: Seq<u8>)
    requires
        segments_fit(segments),
    ensures
        parse_name(name_bytes(segments) + tail) == (Parse {
            result: Ok::<Seq<Seq<char>>, DecodeError>(segments),
            rest: tail,
        }),
    decreases segments.len(),
{
    let bytes = name_bytes(segments) + tail;
    if segments.len() == 0 {
        assert(bytes.skip(1) =~= tail);
        assert(segments =~= Seq::<Seq<char>>::empty());
    } else {
        let first = segments[0];
        let text = encode_utf8(first);
        let others = segments.skip(1);
        lemma_segments_bytes_front(segments);
        assert(segments_fit(others)) by {
            assert forall|i: int| 0 <= i < others.len() implies 0 < (#[trigger] encode_utf8(
                others[i],
            )).len() <= 255 by {
                assert(others[i] == segments[i + 1]);
            }
        }
        lemma_name_round_trip(others, tail);
        let next = name_bytes(others) + tail;
        assert(bytes =~= seq![text.len() as u8] + text + next);
        assert(bytes.skip(1).take(text.len() as int) =~= text);
        assert(bytes.skip(1).skip(text.len() as int) =~= next);
        encode_utf8_valid_utf8(first);
        encode_utf8_decode_utf8(first);
        assert(seq![first] + others =~= segments);
        let length = bytes[0];
        assert(length == text.len());
        assert(bytes.skip(1).take(length as int) == text);
        assert(bytes.skip(1).skip(length as int) == next);
        assert(parse_name(bytes) == named(first, parse_name(next)));
    }
}

/// A question packs to its name followed by its two codes.
pub proof fn lemma_question_packs(segments: Seq<Seq<char>>, q_type: u16, q_class: u16)
    ensures
        encoding(
            seq![FieldView::Label(segments), FieldView::Word(q_type), FieldView::Word(q_class)],
        ) == Ok::<Seq<u8>, LayoutError>(
            name_bytes(segments) + word_bytes(q_type) + word_bytes(q_class),
        ),
{
    let fields = seq![
        FieldView::Label(segments),
        FieldView::Word(q_type),
        FieldView::Word(q_class),
    ];
    let p = start();
    assert(fields.take(0) =~= Seq::<FieldView>::empty());
    lemma_put_fields_step(p, fields, 0);
    let q1 = Packer { out: name_bytes(segments), byte: 0, free: 8 };
    assert(put_fields(p, fields.take(1)) == Ok::<Packer, LayoutError>(q1)) by {
        assert(extended(p, name_bytes(segments)).out =~= name_bytes(segments));
    }
    lemma_put_fields_step(p, fields, 1);
    lemma_put_fields_step(p, fields, 2);
    assert(fields.take(3) =~= fields);
}

/// Round trip of a question: the bytes that a question with a name of
/// fitting segments packs to are read back as the same question, up to what
/// follows them.
pub proof fn lemma_question_round_trip(
    segments: Seq<Seq<char>>,
    q_type: u16,
    q_class: u16,
    tail: Seq<u8>,
)
    requires
        segments_fit(segments),
    ensures
        ({
            let fields = seq![
                FieldView::Label(segments),
                FieldView::Word(q_type),
                FieldView::Word(q_class),
            ];
            encoding(fields) matches Ok(bytes) && parse_question(bytes + tail) == (Parse {
                result: Ok::<Seq<FieldView>, DecodeError>(fields),
                rest: tail,
            })
        }),
{
    let fields = seq![
        FieldView::Label(segments),
        FieldView::Word(q_type),
        FieldView::Word(q_class),
    ];
    lemma_question_packs(segments, q_type, q_class);
    let codes = word_bytes(q_type) + word_bytes(q_class);
    let bytes = name_bytes(segments) + word_bytes(q_type) + word_bytes(q_class);
    assert(bytes + tail =~= name_bytes(segments) + (codes + tail));
    lemma_name_round_trip(segments, codes + tail);
    lemma_word_round_trip(q_type, 0, 0);
    lemma_word_round_trip(q_class, 0, 0);
    assert((codes + tail).skip(CODES_LEN as int) =~= tail);
    assert(parse_question(bytes + tail).result->Ok_0 =~= fields);
}

} // verus!
