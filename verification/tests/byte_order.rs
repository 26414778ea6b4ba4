use dns_wire::byte_order::{encoded_len, write_fields, BufFrame, ByteOrder};
use dns_wire::error::LayoutError;
use dns_wire::field::{Field, FieldIter, Fields};
use dns_wire::header::DNSHeader;

struct MockFields {
    byte1: Field,
    byte2: Field,
    nil: Field,
    word: Field,
    label: Field,
}

impl Fields for MockFields {
    fn fields(&self) -> FieldIter {
        vec![&self.byte1, &self.byte2, &self.nil, &self.word, &self.label].into()
    }
}

fn encode(fields: &[Field], dst: &mut [u8]) -> Result<Vec<u8>, LayoutError> {
    let refs: Vec<&Field> = fields.iter().collect();
    write_fields(FieldIter::from(refs), dst).map(|written| written.to_vec())
}

#[test]
fn byte_order_works() {
    let mock = MockFields {
        byte1: Field::Byte(7, 5),
        byte2: Field::Byte(4, 3),
        nil: Field::Byte(0, 8),
        word: Field::Word(512),
        label: Field::Label(vec![String::from("google"), String::from("lol")]),
    };

    let expect = b"\x3c\0\x02\0\x06google\x03lol\0";

    let actual = &mut [0; 16];
    let written = mock.write_be_bytes(actual).map(|bytes| bytes.to_vec());

    println!("expected: {:?}", expect);
    println!("actual: {:?}", actual);

    assert_eq!(expect, actual);
    assert_eq!(written, Ok(expect.to_vec()));
}

#[test]
fn two_sub_byte_fields_share_one_byte() {
    let mut dst = [0xaau8; 4];
    let out = encode(&[Field::Byte(7, 5), Field::Byte(4, 3)], &mut dst);
    assert_eq!(out, Ok(vec![0x3c]));
    assert_eq!(dst, [0x3c, 0xaa, 0xaa, 0xaa]);
}

#[test]
fn label_is_length_prefixed_and_zero_terminated() {
    let mut dst = [0u8; 32];
    let name = Field::Label(vec![String::from("google"), String::from("lol")]);
    let out = encode(&[name], &mut dst);
    assert_eq!(out, Ok(b"\x06google\x03lol\x00".to_vec()));
}

#[test]
fn empty_name_is_one_zero_byte() {
    let mut dst = [9u8; 2];
    let out = encode(&[Field::Label(vec![])], &mut dst);
    assert_eq!(out, Ok(vec![0]));
    assert_eq!(dst, [0, 9]);
}

#[test]
fn no_fields_write_nothing() {
    let mut dst = [9u8; 2];
    assert_eq!(encode(&[], &mut dst), Ok(vec![]));
    assert_eq!(dst, [9, 9]);
}

#[test]
fn word_is_big_endian() {
    let mut dst = [0u8; 2];
    assert_eq!(encode(&[Field::Word(0xabcd)], &mut dst), Ok(vec![0xab, 0xcd]));
}

#[test]
fn trailing_partial_byte_is_zero_padded() {
    let mut dst = [0xffu8; 2];
    assert_eq!(encode(&[Field::Byte(1, 1)], &mut dst), Ok(vec![0x80]));
    assert_eq!(dst, [0x80, 0xff]);
}

#[test]
fn partial_byte_is_flushed_before_a_word() {
    let mut dst = [0u8; 3];
    let out = encode(&[Field::Byte(5, 3), Field::Word(0x0102)], &mut dst);
    assert_eq!(out, Ok(vec![0xa0, 0x01, 0x02]));
}

#[test]
fn partial_byte_is_flushed_before_a_label() {
    let mut dst = [0u8; 8];
    let out = encode(&[Field::Byte(1, 2), Field::Label(vec![String::from("a")])], &mut dst);
    assert_eq!(out, Ok(vec![0x40, 1, b'a', 0]));
}

#[test]
fn value_wider_than_its_width_spills_upward() {
    let mut dst = [0u8; 1];
    let out = encode(&[Field::Byte(1, 1), Field::Byte(0x1f, 4), Field::Byte(0, 3)], &mut dst);
    assert_eq!(out, Ok(vec![0xf8]));
}

#[test]
fn segment_length_keeps_its_low_eight_bits() {
    let long = "a".repeat(257);
    let mut dst = [0u8; 300];
    let out = encode(&[Field::Label(vec![long.clone()])], &mut dst).unwrap();
    assert_eq!(out.len(), 259);
    assert_eq!(out[0], 1);
    assert_eq!(&out[1..258], long.as_bytes());
    assert_eq!(out[258], 0);
}

#[test]
fn non_ascii_segment_counts_its_bytes() {
    let mut dst = [0u8; 8];
    let out = encode(&[Field::Label(vec![String::from("é")])], &mut dst);
    assert_eq!(out, Ok(vec![2, 0xc3, 0xa9, 0]));
}

#[test]
fn zero_width_is_rejected() {
    let mut dst = [7u8; 4];
    let out = encode(&[Field::Word(1), Field::Byte(1, 0)], &mut dst);
    assert_eq!(out, Err(LayoutError::ZeroWidth));
    assert_eq!(dst, [7, 7, 7, 7]);
}

#[test]
fn width_beyond_the_free_bits_is_rejected() {
    let mut dst = [7u8; 4];
    let out = encode(&[Field::Byte(1, 5), Field::Byte(1, 5)], &mut dst);
    assert_eq!(out, Err(LayoutError::Overflow));
    assert_eq!(dst, [7, 7, 7, 7]);
    assert_eq!(encode(&[Field::Byte(1, 9)], &mut dst), Err(LayoutError::Overflow));
}

#[test]
fn short_buffer_is_rejected_and_left_alone() {
    let mut dst = [7u8; 3];
    let out = encode(&[Field::Word(1), Field::Word(2)], &mut dst);
    assert_eq!(out, Err(LayoutError::BufferFull));
    assert_eq!(dst, [7, 7, 7]);
}

#[test]
fn layout_error_comes_before_buffer_full() {
    let mut dst = [7u8; 1];
    let out = encode(&[Field::Word(1), Field::Byte(0, 0)], &mut dst);
    assert_eq!(out, Err(LayoutError::ZeroWidth));
}

#[test]
fn exact_fit_is_accepted() {
    let mut dst = [0u8; 4];
    let out = encode(&[Field::Word(1), Field::Word(2)], &mut dst);
    assert_eq!(out, Ok(vec![0, 1, 0, 2]));
}

#[test]
fn encoded_len_counts_without_writing() {
    let fields = [Field::Byte(7, 5), Field::Word(512), Field::Label(vec![String::from("io")])];
    let refs: Vec<&Field> = fields.iter().collect();
    let it = FieldIter::from(refs);
    assert_eq!(encoded_len(&it, 100), Ok(7));
    assert_eq!(encoded_len(&it, 7), Ok(7));
    assert_eq!(encoded_len(&it, 6), Err(LayoutError::BufferFull));
}

#[test]
fn default_header_bytes() {
    let header = DNSHeader::default();
    let mut dst = [0xffu8; 12];
    let out = header.write_be_bytes(&mut dst).map(|b| b.to_vec());
    assert_eq!(out, Ok(vec![0x04, 0xd2, 0x80, 0, 0, 1, 0, 0, 0, 0, 0, 0]));
}

#[test]
fn frame_push_fills_and_flushes() {
    let mut dst = [0u8; 2];
    {
        let mut frame = BufFrame::new(&mut dst, &8usize);
        assert_eq!(frame.push_be(&7, &5), Ok(()));
        assert_eq!(frame.push_be(&4, &3), Ok(()));
        frame.finish();
    }
    assert_eq!(dst, [0x3c, 0]);
}

#[test]
fn frame_push_rejects_bad_widths() {
    let mut dst = [0u8; 2];
    {
        let mut frame = BufFrame::new(&mut dst, &8usize);
        assert_eq!(frame.push_be(&1, &0), Err(LayoutError::ZeroWidth));
        assert_eq!(frame.push_be(&1, &9), Err(LayoutError::Overflow));
        assert_eq!(frame.push_be(&1, &6), Ok(()));
        assert_eq!(frame.push_be(&1, &3), Err(LayoutError::Overflow));
        assert_eq!(frame.push_be(&1, &2), Ok(()));
    }
    assert_eq!(dst, [0x05, 0]);
}

#[test]
fn frame_push_needs_room_only_when_it_fills() {
    let mut dst: [u8; 0] = [];
    let mut frame = BufFrame::new(&mut dst, &8usize);
    assert_eq!(frame.push_be(&1, &7), Ok(()));
    assert_eq!(frame.push_be(&1, &1), Err(LayoutError::BufferFull));
    assert_eq!(frame.force_flush(), Err(LayoutError::BufferFull));
    assert_eq!(frame.flush_full_frame(), Ok(()));
}

#[test]
fn frame_force_flush_pads_and_skips_empty() {
    let mut dst = [0xffu8; 3];
    {
        let mut frame = BufFrame::new(&mut dst, &8usize);
        assert_eq!(frame.force_flush(), Ok(()));
        assert_eq!(frame.push_be(&3, &2), Ok(()));
        assert_eq!(frame.force_flush(), Ok(()));
        assert_eq!(frame.force_flush(), Ok(()));
    }
    assert_eq!(dst, [0xc0, 0xff, 0xff]);
}

#[test]
fn frame_flush_full_frame_only_when_full() {
    let mut dst = [0xffu8; 2];
    {
        let mut frame = BufFrame::new(&mut dst, &0usize);
        assert_eq!(frame.flush_full_frame(), Ok(()));
        assert_eq!(frame.flush_full_frame(), Ok(()));
        assert_eq!(frame.push_be(&1, &4), Ok(()));
        assert_eq!(frame.flush_full_frame(), Ok(()));
    }
    assert_eq!(dst, [0, 0xff]);
}

#[test]
fn frame_append_writes_whole_bytes() {
    let mut dst = [0u8; 4];
    {
        let mut frame = BufFrame::new(&mut dst, &8usize);
        assert_eq!(frame.append(&[1, 2, 3]), Ok(()));
        assert_eq!(frame.append(&[]), Ok(()));
    }
    assert_eq!(dst, [1, 2, 3, 0]);
}

#[test]
fn frame_append_is_all_or_nothing() {
    let mut dst = [9u8; 2];
    {
        let mut frame = BufFrame::new(&mut dst, &8usize);
        assert_eq!(frame.append(&[1, 2, 3]), Err(LayoutError::BufferFull));
        assert_eq!(frame.push_be(&1, &1), Ok(()));
        assert_eq!(frame.append(&[1]), Err(LayoutError::Overflow));
    }
    assert_eq!(dst, [9, 9]);
}

#[test]
fn frame_append_packs_at_the_frame_width() {
    let mut dst = [0u8; 2];
    {
        let mut frame = BufFrame::new(&mut dst, &4usize);
        assert_eq!(frame.append(&[0xa]), Ok(()));
        assert_eq!(frame.append(&[0xb, 0xc]), Ok(()));
        assert_eq!(frame.append(&[1, 2, 3]), Err(LayoutError::BufferFull));
        assert_eq!(frame.push_be(&1, &1), Ok(()));
        assert_eq!(frame.append(&[1, 2]), Err(LayoutError::Overflow));
    }
    assert_eq!(dst, [0x0a, 0xbc]);
}

#[test]
fn frame_append_at_width_zero_is_rejected() {
    let mut dst = [0u8; 2];
    let mut frame = BufFrame::new(&mut dst, &0usize);
    assert_eq!(frame.append(&[1]), Err(LayoutError::ZeroWidth));
    assert_eq!(frame.append(&[]), Ok(()));
}
