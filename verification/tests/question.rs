use bytes::BytesMut;
use dns_wire::byte_order::ByteOrder;
use dns_wire::error::DecodeError;
use dns_wire::field::Field;
use dns_wire::header::DNSHeader;
use dns_wire::question::{to_labels, DNSQuestion};
use dns_wire::DNSMessage;

#[test]
fn question_from_bytes_mut_works() {
    let buf = b"\x0ccodecrafters\x02io\0\0\x01\0\x01";
    let bytes = &mut BytesMut::from(&buf[..]);

    let expect = DNSQuestion {
        name: Field::Label(vec![String::from("codecrafters"), String::from("io")]),
        q_type: Field::Word(1),
        q_class: Field::Word(1),
    };

    let actual = DNSQuestion::from(bytes);

    assert_eq!(Ok(expect), actual);
    assert_eq!(bytes.len(), 0);
}

#[test]
fn question_leaves_what_follows_it() {
    let bytes = &mut BytesMut::from(&b"\x01a\0\x01\x02\x03\x04rest"[..]);
    let q = DNSQuestion::from(bytes).unwrap();
    assert_eq!(q.name, Field::Label(vec![String::from("a")]));
    assert_eq!(q.q_type, Field::Word(0x0102));
    assert_eq!(q.q_class, Field::Word(0x0304));
    assert_eq!(&bytes[..], b"rest");
}

#[test]
fn labels_stop_at_the_zero_byte() {
    let bytes = &mut BytesMut::from(&b"\x03www\x07example\x03com\0tail"[..]);
    let labels = to_labels(bytes);
    let expect = vec![String::from("www"), String::from("example"), String::from("com")];
    assert_eq!(labels, Ok(expect));
    assert_eq!(&bytes[..], b"tail");
}

#[test]
fn empty_name_has_no_labels() {
    let bytes = &mut BytesMut::from(&b"\0\x05"[..]);
    assert_eq!(to_labels(bytes), Ok(vec![]));
    assert_eq!(&bytes[..], &[5]);
}

#[test]
fn label_longer_than_the_buffer_is_an_error() {
    let bytes = &mut BytesMut::from(&b"\x02io\x09short"[..]);
    let r = to_labels(bytes);
    assert_eq!(r, Err(DecodeError::UnexpectedEnd { needed: 9, available: 5 }));
    assert_eq!(&bytes[..], b"short");
}

#[test]
fn name_without_terminator_is_an_error() {
    let bytes = &mut BytesMut::from(&b"\x02io"[..]);
    let r = to_labels(bytes);
    assert_eq!(r, Err(DecodeError::UnexpectedEnd { needed: 1, available: 0 }));
    assert_eq!(bytes.len(), 0);
}

#[test]
fn empty_buffer_is_an_error() {
    let bytes = &mut BytesMut::new();
    assert_eq!(to_labels(bytes), Err(DecodeError::UnexpectedEnd { needed: 1, available: 0 }));
}

#[test]
fn label_that_is_not_text_is_an_error() {
    let bytes = &mut BytesMut::from(&b"\x01a\x02\xff\xfe\0"[..]);
    let r = to_labels(bytes);
    assert_eq!(r, Err(DecodeError::InvalidText));
    assert_eq!(&bytes[..], b"\xff\xfe\0");
}

#[test]
fn label_may_hold_any_text() {
    let bytes = &mut BytesMut::from(&b"\x02\xc3\xa9\0"[..]);
    assert_eq!(to_labels(bytes), Ok(vec![String::from("é")]));
}

#[test]
fn question_without_its_codes_is_an_error() {
    let bytes = &mut BytesMut::from(&b"\x02io\0\0\x01\0"[..]);
    let r = DNSQuestion::from(bytes);
    assert_eq!(r, Err(DecodeError::UnexpectedEnd { needed: 4, available: 3 }));
    assert_eq!(&bytes[..], &[0, 1, 0]);
}

#[test]
fn question_with_a_bad_name_is_an_error() {
    let bytes = &mut BytesMut::from(&b"\x7fio"[..]);
    let r = DNSQuestion::from(bytes);
    assert_eq!(r, Err(DecodeError::UnexpectedEnd { needed: 127, available: 2 }));
}

#[test]
fn question_round_trip() {
    let wire = b"\x0ccodecrafters\x02io\0\0\x01\0\x01";
    let q = DNSQuestion::from(&mut BytesMut::from(&wire[..])).unwrap();
    let mut dst = [0u8; 64];
    let out = q.write_be_bytes(&mut dst).unwrap();
    assert_eq!(out, &wire[..]);
}

#[test]
fn message_holds_header_and_question() {
    let wire = b"\xc7B\x01 \0\x01\0\0\0\0\0\0\x02io\0\0\x01\0\x01";
    let bytes = &mut BytesMut::from(&wire[..]);
    let header = DNSHeader::from(bytes).unwrap();
    let question = DNSQuestion::from(bytes).unwrap();
    let message = DNSMessage { header, question };
    assert_eq!(message.header.id, Field::Word(51010));
    assert_eq!(message.question.q_class, Field::Word(1));
    assert_eq!(bytes.len(), 0);
}
