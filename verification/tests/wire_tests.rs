use bytes::Bytes;

use quirk::wire::{
    all_between, expect_empty, key_from, magic_splits_by_rule, read_u32, DecodeError, Frame,
    WireVersion, KEY_LEN,
};

/// The four magic bytes a well-formed datagram opens with, spelled out rather than imported, so a
/// test cannot agree with the codec by sharing its constant.
const MAGIC: [u8; 4] = *b"QRK0";

fn roundtrips(frame: Frame) {
    assert_eq!(Frame::decode(&frame.to_bytes()), Ok(frame));
}

#[test]
fn hello_roundtrips() {
    roundtrips(Frame::Hello {
        key: [7u8; KEY_LEN],
    });
}

#[test]
fn hello_ack_roundtrips() {
    roundtrips(Frame::HelloAck {
        key: [9u8; KEY_LEN],
    });
}

#[test]
fn datagram_roundtrips() {
    roundtrips(Frame::Datagram {
        data: Bytes::from_static(b"hello overlay"),
    });
    roundtrips(Frame::Datagram { data: Bytes::new() });
}

#[test]
fn data_roundtrips() {
    roundtrips(Frame::Data {
        stream: 3,
        seq: 42,
        bytes: Bytes::from_static(b"payload"),
    });
    roundtrips(Frame::Data {
        stream: 0,
        seq: 0,
        bytes: Bytes::new(),
    });
}

#[test]
fn ack_roundtrips() {
    roundtrips(Frame::Ack { stream: 3, seq: 43 });
}

#[test]
fn fin_roundtrips() {
    roundtrips(Frame::Fin { stream: 3, seq: 17 });
}

/// One well-formed `Hello` datagram with the byte at `at` replaced. The two tests below differ only
/// in which half of the magic they corrupt, because that single difference is the whole claim.
fn datagram_with(at: usize, byte: u8) -> Vec<u8> {
    let mut bytes = Frame::Hello { key: [0; KEY_LEN] }.to_bytes();
    bytes[at] = byte;
    bytes
}

/// A datagram whose identity is not ours is not a quirk datagram, and that is all it is.
#[test]
fn rejects_a_foreign_identity() {
    // `XRK0`: one byte of the identity changed, and nothing else.
    assert_eq!(
        Frame::decode(&datagram_with(0, b'X')),
        Err(DecodeError::Foreign)
    );
}

/// The version half of the magic is parsed, so a quirk peer on another build is a distinguishable
/// condition rather than a foreign datagram.
#[test]
fn a_version_mismatch_is_not_a_foreign_datagram() {
    // `QRK1`: one byte of the version changed, and nothing else.
    let error = Frame::decode(&datagram_with(3, b'1')).expect_err("QRK1 is not this grammar");

    assert_ne!(
        error,
        DecodeError::Foreign,
        "a quirk peer on another build is not a foreign protocol"
    );
    assert_eq!(
        error.to_string(),
        "quirk wire version mismatch: the datagram is QRK1, this build speaks QRK0"
    );
}

#[test]
fn rejects_truncated_key() {
    let bytes = Frame::Hello { key: [0; KEY_LEN] }.to_bytes();
    assert_eq!(Frame::decode(&bytes[..10]), Err(DecodeError::Truncated));
}

#[test]
fn rejects_truncated_ack() {
    let bytes = Frame::Ack { stream: 1, seq: 2 }.to_bytes();
    assert_eq!(Frame::decode(&bytes[..7]), Err(DecodeError::Truncated));
}

#[test]
fn rejects_empty_after_magic() {
    assert_eq!(Frame::decode(&MAGIC), Err(DecodeError::Truncated));
}

#[test]
fn rejects_unknown_type() {
    let mut bytes = Vec::new();
    bytes.extend_from_slice(&MAGIC);
    bytes.push(0xff);
    assert_eq!(Frame::decode(&bytes), Err(DecodeError::UnknownType(0xff)));
}

#[test]
fn the_bytes_on_the_wire_are_fixed() {
    assert_eq!(
        Frame::Ack { stream: 1, seq: 0x0203_0405 }.to_bytes(),
        b"QRK0\x05\x00\x00\x00\x01\x02\x03\x04\x05".to_vec()
    );
    assert_eq!(
        Frame::Fin { stream: 0, seq: u32::MAX }.to_bytes(),
        b"QRK0\x06\x00\x00\x00\x00\xff\xff\xff\xff".to_vec()
    );
    assert_eq!(
        Frame::Data { stream: 0, seq: 256, bytes: Bytes::from_static(b"hi") }.to_bytes(),
        b"QRK0\x04\x00\x00\x00\x00\x00\x00\x01\x00hi".to_vec()
    );
    assert_eq!(
        Frame::Datagram { data: Bytes::from_static(b"ping") }.to_bytes(),
        b"QRK0\x03ping".to_vec()
    );
    let mut hello = b"QRK0\x01".to_vec();
    hello.extend_from_slice(&[0xab; KEY_LEN]);
    assert_eq!(Frame::Hello { key: [0xab; KEY_LEN] }.to_bytes(), hello);
    hello[4] = 0x02;
    assert_eq!(Frame::HelloAck { key: [0xab; KEY_LEN] }.to_bytes(), hello);
}

#[test]
fn encode_appends() {
    let mut buf = b"before".to_vec();
    Frame::Datagram { data: Bytes::from_static(b"x") }.encode(&mut buf);
    assert_eq!(buf, b"beforeQRK0\x03x".to_vec());
}

#[test]
fn a_clone_is_the_same_frame() {
    let frame = Frame::Data { stream: 1, seq: 2, bytes: Bytes::from_static(b"abc") };
    assert_eq!(frame.clone(), frame);
    let frame = Frame::Hello { key: [5; KEY_LEN] };
    assert_eq!(frame.clone(), frame);
    let frame = Frame::Datagram { data: Bytes::from_static(b"d") };
    assert_eq!(frame.clone(), frame);
}

#[test]
fn short_datagrams_are_foreign_until_the_identity_is_whole() {
    assert_eq!(Frame::decode(b""), Err(DecodeError::Foreign));
    assert_eq!(Frame::decode(b"QR"), Err(DecodeError::Foreign));
    assert_eq!(Frame::decode(b"QRK"), Err(DecodeError::Truncated));
}

#[test]
fn trailing_bytes_are_rejected() {
    let mut bytes = Frame::Ack { stream: 0, seq: 1 }.to_bytes();
    bytes.push(0);
    assert_eq!(Frame::decode(&bytes), Err(DecodeError::Truncated));
    let mut bytes = Frame::Fin { stream: 0, seq: 1 }.to_bytes();
    bytes.push(0);
    assert_eq!(Frame::decode(&bytes), Err(DecodeError::Truncated));
    let mut bytes = Frame::HelloAck { key: [1; KEY_LEN] }.to_bytes();
    bytes.push(0);
    assert_eq!(Frame::decode(&bytes), Err(DecodeError::Truncated));
}

#[test]
fn data_needs_both_of_its_numbers() {
    let bytes = Frame::Data { stream: 0, seq: 1, bytes: Bytes::new() }.to_bytes();
    assert_eq!(Frame::decode(&bytes[..12]), Err(DecodeError::Truncated));
}

#[test]
fn every_type_byte_outside_the_grammar_is_unknown() {
    for ty in [0x00u8, 0x07, 0x80] {
        let mut bytes = MAGIC.to_vec();
        bytes.push(ty);
        assert_eq!(Frame::decode(&bytes), Err(DecodeError::UnknownType(ty)));
    }
}

#[test]
fn decode_errors_read_as_lines_of_text() {
    assert_eq!(DecodeError::Foreign.to_string(), "not a quirk datagram");
    assert_eq!(DecodeError::Truncated.to_string(), "truncated frame");
    assert_eq!(DecodeError::UnknownType(0xff).to_string(), "unknown frame type 0xff");
    assert_eq!(DecodeError::UnknownType(0x07).to_string(), "unknown frame type 0x07");
}

#[test]
fn versions_are_escaped_rather_than_trusted() {
    let tag = |byte: u8| WireVersion::split(&[byte]).unwrap().0.to_string();
    assert_eq!(tag(b'0'), "QRK0");
    assert_eq!(tag(b'\t'), "QRK\\t");
    assert_eq!(tag(b'\r'), "QRK\\r");
    assert_eq!(tag(b'\n'), "QRK\\n");
    assert_eq!(tag(b'\''), "QRK\\'");
    assert_eq!(tag(b'"'), "QRK\\\"");
    assert_eq!(tag(b'\\'), "QRK\\\\");
    assert_eq!(tag(0x00), "QRK\\x00");
    assert_eq!(tag(0x7f), "QRK\\x7f");
    assert_eq!(tag(0xaf), "QRK\\xaf");
    for byte in 0..=u8::MAX {
        assert_eq!(tag(byte), format!("QRK{}", [byte].escape_ascii()));
    }
    assert_eq!(WireVersion::ours().to_string(), "QRK0");
    assert_eq!(WireVersion::ours().as_bytes(), b"0");
}

#[test]
fn a_version_is_split_off_the_front() {
    let (version, rest) = WireVersion::split(b"1rest").unwrap();
    assert_eq!(version.as_bytes(), b"1");
    assert_eq!(rest, b"rest");
    assert_eq!(WireVersion::split(b""), None);
}

#[test]
fn the_magic_splits_by_rule() {
    assert!(magic_splits_by_rule());
    assert!(all_between(b"QRK", b'A', b'Z'));
    assert!(!all_between(b"QRk", b'A', b'Z'));
    assert!(!all_between(b"", b'A', b'Z'));
}

#[test]
fn the_parts_of_a_body_are_read_one_by_one() {
    assert_eq!(read_u32(&[1, 2, 3, 4, 5]), Ok((0x0102_0304, &[5u8][..])));
    assert_eq!(read_u32(&[1, 2, 3]), Err(DecodeError::Truncated));
    assert_eq!(key_from(&[3; KEY_LEN]), Ok([3; KEY_LEN]));
    assert_eq!(key_from(&[3; KEY_LEN + 1]), Err(DecodeError::Truncated));
    assert_eq!(expect_empty(&[]), Ok(()));
    assert_eq!(expect_empty(&[0]), Err(DecodeError::Truncated));
}
