use symvea::protocol::constants::{FRAME_CHUNK_DATA, FRAME_UPLOAD, PROTOCOL_VERSION, SYMVEA_MAGIC};
use symvea::protocol::error::ProtocolError;
use symvea::protocol::frame::{
    encode_frame, frame_payload, parse_frame, parse_frame_payload, Frame, FrameHeader,
};
use symvea::protocol::handshake::Handshake;
use symvea::utils::buffer::ByteBuffer;
use symvea::utils::bytes::{copy_range, put_u16_be, read_u16_be, read_u32_be, read_u64_be};
use symvea::utils::crc::{crc32, verify_crc32};
use symvea::utils::varint::{decode_varint, encode_varint};

#[test]
fn handshake_wire_bytes() {
    let h = Handshake { version: 1, flags: 0x0203, capabilities: 0x0405_0607 };
    assert_eq!(h.encode(), [b'S', b'Y', b'M', b'V', 0, 1, 2, 3, 4, 5, 6, 7]);
    assert_eq!(Handshake::decode(&h.encode()).unwrap(), h);
    assert_eq!(Handshake::current(), Handshake { version: 1, flags: 0, capabilities: 0 });
    assert_eq!(Handshake::WIRE_SIZE, 12);
    assert_eq!(SYMVEA_MAGIC, *b"SYMV");
    assert_eq!(PROTOCOL_VERSION, 1);
}

#[test]
fn handshake_errors() {
    assert_eq!(Handshake::decode(&[0u8; 11]).unwrap_err(), ProtocolError::Truncated);
    assert_eq!(
        Handshake::decode(b"SYMX\x00\x01\x00\x00\x00\x00\x00\x00").unwrap_err(),
        ProtocolError::InvalidMagic
    );
    assert_eq!(
        Handshake::decode(b"SYMV\x00\x02\x00\x00\x00\x00\x00\x00").unwrap_err(),
        ProtocolError::UnsupportedVersion(2)
    );
}

#[test]
fn frame_header_wire_bytes() {
    let h = FrameHeader {
        frame_type: 1,
        flags: 2,
        header_len: 12,
        payload_len: 0x0102_0304,
        checksum: 0xdead_beef,
    };
    assert_eq!(h.encode(), [1, 2, 0, 12, 1, 2, 3, 4, 0xde, 0xad, 0xbe, 0xef]);
    assert_eq!(FrameHeader::decode(&h.encode()).unwrap(), h);
    assert_eq!(FrameHeader::decode(&[0u8; 11]).unwrap_err(), ProtocolError::Truncated);
    assert_eq!(FrameHeader::SIZE, 12);
}

fn round_trip(frame: Frame) -> Frame {
    let bytes = encode_frame(&frame).unwrap();
    let header = FrameHeader::decode(&bytes[..12]).unwrap();
    assert_eq!(header.header_len, 12);
    assert_eq!(header.flags, 0);
    assert_eq!(header.payload_len as usize, bytes.len() - 12);
    assert_eq!(header.checksum, crc32(&bytes[12..]));
    parse_frame(&header, &bytes[12..]).unwrap()
}

#[test]
fn upload_frame_layout() {
    let frame = Frame::Upload { key: "k1".to_string(), data: vec![9, 8, 7], user_id: None };
    let (ty, payload) = frame_payload(&frame);
    assert_eq!(ty, FRAME_UPLOAD);
    assert_eq!(payload, vec![0, 0, 0, 2, b'k', b'1', 9, 8, 7]);
    match round_trip(frame) {
        Frame::Upload { key, data, user_id } => {
            assert_eq!(key, "k1");
            assert_eq!(data, vec![9, 8, 7]);
            assert_eq!(user_id, None);
        }
        other => panic!("unexpected frame {:?}", other),
    }
}

#[test]
fn every_frame_type_round_trips() {
    match round_trip(Frame::Download { key: "a".to_string() }) {
        Frame::Download { key } => assert_eq!(key, "a"),
        other => panic!("unexpected frame {:?}", other),
    }
    match round_trip(Frame::Verify { key: "b".to_string() }) {
        Frame::Verify { key } => assert_eq!(key, "b"),
        other => panic!("unexpected frame {:?}", other),
    }
    assert!(matches!(round_trip(Frame::FreezeDictionary), Frame::FreezeDictionary));
    assert!(matches!(round_trip(Frame::Close), Frame::Close));
    match round_trip(Frame::Ack { key: "c".to_string(), original_size: 23, compressed_size: 24 }) {
        Frame::Ack { key, original_size, compressed_size } => {
            assert_eq!(key, "c");
            assert_eq!(original_size, 23);
            assert_eq!(compressed_size, 24);
        }
        other => panic!("unexpected frame {:?}", other),
    }
    match round_trip(Frame::Data { key: "d".to_string(), data: vec![1, 2] }) {
        Frame::Data { key, data } => {
            assert_eq!(key, "d");
            assert_eq!(data, vec![1, 2]);
        }
        other => panic!("unexpected frame {:?}", other),
    }
    match round_trip(Frame::NotFound { key: "e".to_string() }) {
        Frame::NotFound { key } => assert_eq!(key, "e"),
        other => panic!("unexpected frame {:?}", other),
    }
    match round_trip(Frame::Verified { key: "f".to_string(), hash_match: true }) {
        Frame::Verified { key, hash_match } => {
            assert_eq!(key, "f");
            assert!(hash_match);
        }
        other => panic!("unexpected frame {:?}", other),
    }
    match round_trip(Frame::ChunkStart {
        key: "g".to_string(),
        total_size: 1024,
        chunk_count: 4,
        user_id: None,
    }) {
        Frame::ChunkStart { key, total_size, chunk_count, user_id } => {
            assert_eq!(key, "g");
            assert_eq!(total_size, 1024);
            assert_eq!(chunk_count, 4);
            assert_eq!(user_id, None);
        }
        other => panic!("unexpected frame {:?}", other),
    }
    match round_trip(Frame::ChunkData { key: "h".to_string(), chunk_index: 3, data: vec![5] }) {
        Frame::ChunkData { key, chunk_index, data } => {
            assert_eq!(key, "h");
            assert_eq!(chunk_index, 3);
            assert_eq!(data, vec![5]);
        }
        other => panic!("unexpected frame {:?}", other),
    }
    match round_trip(Frame::ChunkEnd { key: "i".to_string() }) {
        Frame::ChunkEnd { key } => assert_eq!(key, "i"),
        other => panic!("unexpected frame {:?}", other),
    }
}

#[test]
fn chunk_frames_layout() {
    let (ty, payload) = frame_payload(&Frame::ChunkData {
        key: "k".to_string(),
        chunk_index: 0x0102,
        data: vec![0xaa],
    });
    assert_eq!(ty, FRAME_CHUNK_DATA);
    assert_eq!(payload, vec![0, 0, 0, 1, b'k', 0, 0, 1, 2, 0xaa]);
    let (ty, payload) = frame_payload(&Frame::ChunkStart {
        key: "k".to_string(),
        total_size: 1024,
        chunk_count: 4,
        user_id: None,
    });
    assert_eq!(ty, 0x10);
    assert_eq!(payload, vec![0, 0, 0, 1, b'k', 0, 0, 0, 0, 0, 0, 4, 0, 0, 0, 0, 4]);
    let (ty, payload) = frame_payload(&Frame::Verified { key: "k".to_string(), hash_match: false });
    assert_eq!(ty, 0x09);
    assert_eq!(payload, vec![0, 0, 0, 1, b'k', 0]);
}

#[test]
fn checksum_poisoning_is_refused() {
    let frame = Frame::Upload { key: "hello".to_string(), data: b"data".to_vec(), user_id: None };
    let bytes = encode_frame(&frame).unwrap();
    let mut header = FrameHeader::decode(&bytes[..12]).unwrap();
    header.checksum ^= 1;
    assert_eq!(parse_frame(&header, &bytes[12..]).unwrap_err(), ProtocolError::ChecksumMismatch);
}

#[test]
fn header_and_payload_must_agree_in_length() {
    let payload = [1u8, 2, 3];
    let header = FrameHeader {
        frame_type: 2,
        flags: 0,
        header_len: 12,
        payload_len: 4,
        checksum: crc32(&payload),
    };
    assert_eq!(parse_frame(&header, &payload).unwrap_err(), ProtocolError::InvalidHeader);
}

#[test]
fn malformed_payloads_are_refused() {
    assert_eq!(
        parse_frame_payload(0x20, &[]).unwrap_err(),
        ProtocolError::UnexpectedFrameType(0x20)
    );
    assert_eq!(parse_frame_payload(0x01, &[0, 0]).unwrap_err(), ProtocolError::Truncated);
    assert_eq!(
        parse_frame_payload(0x01, &[0, 0, 0, 5, b'a']).unwrap_err(),
        ProtocolError::Truncated
    );
    // a chunk start needs twelve bytes behind the key
    assert_eq!(
        parse_frame_payload(0x10, &[0, 0, 0, 1, b'k', 0, 0, 0, 0, 0, 0, 4, 0]).unwrap_err(),
        ProtocolError::Truncated
    );
    assert_eq!(
        parse_frame_payload(0x11, &[0, 0, 0, 1, b'k', 0, 0]).unwrap_err(),
        ProtocolError::Truncated
    );
    assert_eq!(parse_frame_payload(0x02, &[0xff, 0xfe]).unwrap_err(), ProtocolError::InvalidKey);
    assert_eq!(
        parse_frame_payload(0x01, &[0, 0, 0, 1, 0xff, 1]).unwrap_err(),
        ProtocolError::InvalidKey
    );
}

#[test]
fn keys_may_be_any_utf8() {
    match round_trip(Frame::Download { key: "clé/日本".to_string() }) {
        Frame::Download { key } => assert_eq!(key, "clé/日本"),
        other => panic!("unexpected frame {:?}", other),
    }
}

#[test]
fn error_messages() {
    assert_eq!(ProtocolError::InvalidMagic.message(), "invalid protocol magic");
    assert_eq!(
        ProtocolError::UnsupportedVersion(513).message(),
        "unsupported protocol version 513"
    );
    assert_eq!(ProtocolError::FrameTooLarge(70000).message(), "frame too large: 70000");
    assert_eq!(ProtocolError::InvalidHeader.message(), "invalid frame header");
    assert_eq!(ProtocolError::UnexpectedFrameType(0).message(), "unexpected frame type 0");
    assert_eq!(ProtocolError::Truncated.message(), "truncated frame");
    assert_eq!(ProtocolError::ChecksumMismatch.message(), "checksum mismatch");
    assert_eq!(ProtocolError::InvalidKey.message(), "key is not valid UTF-8");
}

#[test]
fn crc32_is_the_ieee_checksum() {
    assert_eq!(crc32(b"123456789"), 0xcbf4_3926);
    assert_eq!(crc32(b""), 0);
    assert!(verify_crc32(b"123456789", 0xcbf4_3926));
    assert!(!verify_crc32(b"123456789", 0xcbf4_3927));
}

#[test]
fn varint_encoding() {
    let mut out = vec![0xee];
    encode_varint(0, &mut out);
    encode_varint(127, &mut out);
    encode_varint(128, &mut out);
    encode_varint(300, &mut out);
    assert_eq!(out, vec![0xee, 0x00, 0x7f, 0x80, 0x01, 0xac, 0x02]);
    let mut max = Vec::new();
    encode_varint(u64::MAX, &mut max);
    assert_eq!(max, vec![0xff, 0xff, 0xff, 0xff, 0xff, 0xff, 0xff, 0xff, 0xff, 0x01]);
    assert_eq!(decode_varint(&max), Some((u64::MAX, 10)));
}

#[test]
fn varint_decoding() {
    assert_eq!(decode_varint(&[0x00]), Some((0, 1)));
    assert_eq!(decode_varint(&[0xac, 0x02, 0x55]), Some((300, 2)));
    assert_eq!(decode_varint(&[]), None);
    assert_eq!(decode_varint(&[0x80]), None);
    assert_eq!(decode_varint(&[0x80; 11]), None);
}

#[test]
fn byte_buffer_grows_and_clears() {
    let mut b = ByteBuffer::new(16);
    assert_eq!(b.len(), 0);
    b.extend(&[1, 2]);
    b.extend(&[3]);
    assert_eq!(b.as_slice(), &[1, 2, 3]);
    assert_eq!(b.len(), 3);
    b.clear();
    assert_eq!(b.len(), 0);
    assert_eq!(b.as_slice(), &[] as &[u8]);
}

#[test]
fn big_endian_helpers() {
    let data = [0x01, 0x02, 0x03, 0x04, 0x05, 0x06, 0x07, 0x08, 0x09];
    assert_eq!(read_u16_be(&data, 1), 0x0203);
    assert_eq!(read_u32_be(&data, 1), 0x0203_0405);
    assert_eq!(read_u64_be(&data, 1), 0x0203_0405_0607_0809);
    assert_eq!(copy_range(&data, 2, 4), vec![3, 4]);
    let mut out = Vec::new();
    put_u16_be(&mut out, 0xabcd);
    assert_eq!(out, vec![0xab, 0xcd]);
}
