use bytes::BytesMut;
use dns_wire::byte_order::ByteOrder;
use dns_wire::error::DecodeError;
use dns_wire::field::Field;
use dns_wire::header::DNSHeader;

fn encode(header: &DNSHeader) -> Vec<u8> {
    let mut dst = [0u8; 12];
    header.write_be_bytes(&mut dst).unwrap().to_vec()
}

#[test]
fn header_from_bytes_mut_works() {
    let buf = b"\xc7B\x01 \0\x01\0\0\0\0\0\0";
    let bytes = &mut BytesMut::from(&buf[..]);

    let expect = DNSHeader {
        id: Field::Word(51010),
        qr: Field::Byte(0, 1),
        opcode: Field::Byte(0, 4),
        aa: Field::Byte(0, 1),
        tc: Field::Byte(0, 1),
        rd: Field::Byte(1, 1),
        ra: Field::Byte(0, 1),
        z: Field::Byte(2, 3),
        rcode: Field::Byte(0, 4),
        qdcount: Field::Word(1),
        ancount: Field::Word(0),
        nscount: Field::Word(0),
        arcount: Field::Word(0),
    };

    let actual = DNSHeader::from(bytes);

    assert_eq!(Ok(expect), actual);
    assert_eq!(bytes.len(), 0);
}

#[test]
fn header_flags_come_from_their_bits() {
    let buf = [0x12, 0x34, 0b1_0101_0_1_0, 0b1_011_1001, 0, 1, 0, 2, 0, 3, 1, 4, 0xee];
    let bytes = &mut BytesMut::from(&buf[..]);
    let header = DNSHeader::from(bytes).unwrap();
    assert_eq!(header.id, Field::Word(0x1234));
    assert_eq!(header.qr, Field::Byte(1, 1));
    assert_eq!(header.opcode, Field::Byte(5, 4));
    assert_eq!(header.aa, Field::Byte(0, 1));
    assert_eq!(header.tc, Field::Byte(1, 1));
    assert_eq!(header.rd, Field::Byte(0, 1));
    assert_eq!(header.ra, Field::Byte(1, 1));
    assert_eq!(header.z, Field::Byte(3, 3));
    assert_eq!(header.rcode, Field::Byte(9, 4));
    assert_eq!(header.qdcount, Field::Word(1));
    assert_eq!(header.ancount, Field::Word(2));
    assert_eq!(header.nscount, Field::Word(3));
    assert_eq!(header.arcount, Field::Word(260));
    assert_eq!(&bytes[..], &[0xee]);
}

#[test]
fn short_header_is_an_error_and_reads_nothing() {
    let bytes = &mut BytesMut::from(&[1u8, 2, 3][..]);
    let r = DNSHeader::from(bytes);
    assert_eq!(r, Err(DecodeError::UnexpectedEnd { needed: 12, available: 3 }));
    assert_eq!(&bytes[..], &[1, 2, 3]);
}

#[test]
fn header_round_trip() {
    let header = DNSHeader {
        id: Field::Word(0xbeef),
        qr: Field::Byte(1, 1),
        opcode: Field::Byte(15, 4),
        aa: Field::Byte(1, 1),
        tc: Field::Byte(0, 1),
        rd: Field::Byte(1, 1),
        ra: Field::Byte(0, 1),
        z: Field::Byte(7, 3),
        rcode: Field::Byte(10, 4),
        qdcount: Field::Word(1),
        ancount: Field::Word(65535),
        nscount: Field::Word(256),
        arcount: Field::Word(0),
    };
    let wire = encode(&header);
    assert_eq!(wire, vec![0xbe, 0xef, 0xfd, 0x7a, 0, 1, 0xff, 0xff, 1, 0, 0, 0]);
    let back = DNSHeader::from(&mut BytesMut::from(&wire[..]));
    assert_eq!(back, Ok(header));
}

#[test]
fn decoded_header_encodes_to_the_same_bytes() {
    let wire = [0xc7u8, 0x42, 0x01, 0x20, 0, 1, 0xab, 0xcd, 0xff, 0, 0x80, 0x7f];
    let header = DNSHeader::from(&mut BytesMut::from(&wire[..])).unwrap();
    assert_eq!(encode(&header), wire.to_vec());
}

#[test]
fn default_header_is_a_reply_with_one_question() {
    let header = DNSHeader::default();
    assert_eq!(header.id, Field::Word(1234));
    assert_eq!(header.qr, Field::Byte(1, 1));
    assert_eq!(header.opcode, Field::Byte(0, 4));
    assert_eq!(header.z, Field::Byte(0, 3));
    assert_eq!(header.rcode, Field::Byte(0, 4));
    assert_eq!(header.qdcount, Field::Word(1));
    assert_eq!(header.arcount, Field::Word(0));
}
