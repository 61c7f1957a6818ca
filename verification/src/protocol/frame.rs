use vstd::prelude::*;
use vstd::utf8::{
    decode_utf8, encode_utf8, encode_utf8_decode_utf8, encode_utf8_valid_utf8, valid_utf8,
};
use crate::protocol::error::ProtocolError;
use crate::utils::bytes::{
    copy_range, lemma_u16_be_round_trip, lemma_u32_be_round_trip, lemma_u64_be_round_trip,
    put_bytes, put_u32_be, put_u64_be, read_u16_be, read_u32_be, read_u64_be, u16_at, u16_be,
    u32_at, u32_be, u64_at, u64_be,
};
use crate::utils::crc::{crc32, crc32_checksum};
use crate::utils::text::string_from_utf8;

verus! {

/// Fixed-size frame header (12 bytes on the wire).
#[derive(Debug, Clone, Copy, PartialEq, Eq)]
pub struct FrameHeader {
    pub frame_type: u8,
    pub flags: u8,
    pub header_len: u16,
    pub payload_len: u32,
    pub checksum: u32,
}

/// The twelve bytes of a frame header on the wire.
pub open spec fn header_bytes(h: FrameHeader) -> Seq<u8> {
    seq![h.frame_type, h.flags] + u16_be(h.header_len) + u32_be(h.payload_len) + u32_be(
        h.checksum,
    )
}

/// The header that the first twelve bytes of `buf` spell.
pub open spec fn header_at(buf: Seq<u8>) -> FrameHeader {
    FrameHeader {
        frame_type: buf[0],
        flags: buf[1],
        header_len: u16_at(buf, 2),
        payload_len: u32_at(buf, 4),
        checksum: u32_at(buf, 8),
    }
}

/// A header and a payload belong together: the length and the CRC-32 that the
/// header carries are those of the payload.
pub open spec fn frame_well_formed(h: FrameHeader, payload: Seq<u8>) -> bool {
    h.payload_len as int == payload.len() && h.checksum == crc32_checksum(payload)
}

impl FrameHeader {
    /// Bytes a header takes on the wire.
    pub const SIZE: usize = 12;

    /// Decodes the first twelve bytes of `buf`.
    pub fn decode(buf: &[u8]) -> (r: Result<Self, ProtocolError>)
        ensures
            buf@.len() < 12 ==> r == Err::<FrameHeader, ProtocolError>(ProtocolError::Truncated),
            buf@.len() >= 12 ==> r == Ok::<FrameHeader, ProtocolError>(header_at(buf@)),
    {
        if buf.len() < 12 {
            return Err(ProtocolError::Truncated);
        }
        Ok(
            FrameHeader {
                frame_type: buf[0],
                flags: buf[1],
                header_len: read_u16_be(buf, 2),
                payload_len: read_u32_be(buf, 4),
                checksum: read_u32_be(buf, 8),
            },
        )
    }

    /// The twelve wire bytes of this header.
    pub fn encode(&self) -> (buf: [u8; 12])
        ensures
            buf@ == header_bytes(*self),
    {
        let buf: [u8; 12] = [
            self.frame_type,
            self.flags,
            (self.header_len >> 8) as u8,
            (self.header_len & 0xff) as u8,
            (self.payload_len >> 24) as u8,
            ((self.payload_len >> 16) & 0xff) as u8,
            ((self.payload_len >> 8) & 0xff) as u8,
            (self.payload_len & 0xff) as u8,
            (self.checksum >> 24) as u8,
            ((self.checksum >> 16) & 0xff) as u8,
            ((self.checksum >> 8) & 0xff) as u8,
            (self.checksum & 0xff) as u8,
        ];
        assert(buf@ =~= header_bytes(*self));
        buf
    }
}

/// One protocol message.
#[derive(Debug, Clone)]
pub enum Frame {
    Upload { key: String, data: Vec<u8>, user_id: Option<String> },
    Download { key: String },
    Verify { key: String },
    Ack { key: String, original_size: u64, compressed_size: u64 },
    Data { key: String, data: Vec<u8> },
    Verified { key: String, hash_match: bool },
    NotFound { key: String },
    FreezeDictionary,
    Close,
    ChunkStart { key: String, total_size: u64, chunk_count: u32, user_id: Option<String> },
    ChunkData { key: String, chunk_index: u32, data: Vec<u8> },
    ChunkEnd { key: String },
}

/// What a frame says, as plain values. The user id never travels on the wire
/// and is left out.
pub enum FrameView {
    Upload { key: Seq<char>, data: Seq<u8> },
    Download { key: Seq<char> },
    Verify { key: Seq<char> },
    Ack { key: Seq<char>, original_size: u64, compressed_size: u64 },
    Data { key: Seq<char>, data: Seq<u8> },
    Verified { key: Seq<char>, hash_match: bool },
    NotFound { key: Seq<char> },
    FreezeDictionary,
    Close,
    ChunkStart { key: Seq<char>, total_size: u64, chunk_count: u32 },
    ChunkData { key: Seq<char>, chunk_index: u32, data: Seq<u8> },
    ChunkEnd { key: Seq<char> },
}

impl View for Frame {
    type V = FrameView;

    open spec fn view(&self) -> FrameView {
        match *self {
            Frame::Upload { key, data, user_id } => FrameView::Upload { key: key@, data: data@ },
            Frame::Download { key } => FrameView::Download { key: key@ },
            Frame::Verify { key } => FrameView::Verify { key: key@ },
            Frame::Ack { key, original_size, compressed_size } => FrameView::Ack {
                key: key@,
                original_size,
                compressed_size,
            },
            Frame::Data { key, data } => FrameView::Data { key: key@, data: data@ },
            Frame::Verified { key, hash_match } => FrameView::Verified { key: key@, hash_match },
            Frame::NotFound { key } => FrameView::NotFound { key: key@ },
            Frame::FreezeDictionary => FrameView::FreezeDictionary,
            Frame::Close => FrameView::Close,
            Frame::ChunkStart { key, total_size, chunk_count, user_id } => FrameView::ChunkStart {
                key: key@,
                total_size,
                chunk_count,
            },
            Frame::ChunkData { key, chunk_index, data } => FrameView::ChunkData {
                key: key@,
                chunk_index,
                data: data@,
            },
            Frame::ChunkEnd { key } => FrameView::ChunkEnd { key: key@ },
        }
    }
}

/// The user id a frame carries beside its wire content, if any.
pub open spec fn frame_user_id(f: Frame) -> Option<String> {
    match f {
        Frame::Upload { key, data, user_id } => user_id,
        Frame::ChunkStart { key, total_size, chunk_count, user_id } => user_id,
        _ => None,
    }
}

/// The type byte of each frame.
pub open spec fn frame_type_of(f: FrameView) -> u8 {
    match f {
        FrameView::Upload { .. } => 0x01,
        FrameView::Download { .. } => 0x02,
        FrameView::FreezeDictionary => 0x03,
        FrameView::Close => 0x04,
        FrameView::Ack { .. } => 0x05,
        FrameView::Data { .. } => 0x06,
        FrameView::NotFound { .. } => 0x07,
        FrameView::Verify { .. } => 0x08,
        FrameView::Verified { .. } => 0x09,
        FrameView::ChunkStart { .. } => 0x10,
        FrameView::ChunkData { .. } => 0x11,
        FrameView::ChunkEnd { .. } => 0x12,
    }
}

/// A key with its length in front: four bytes of length, then the key's UTF-8.
pub open spec fn keyed(key: Seq<char>) -> Seq<u8> {
    u32_be(encode_utf8(key).len() as u32) + encode_utf8(key)
}

/// The payload bytes of each frame.
pub open spec fn payload_of(f: FrameView) -> Seq<u8> {
    match f {
        FrameView::Upload { key, data } => keyed(key) + data,
        FrameView::Download { key } => encode_utf8(key),
        FrameView::Verify { key } => encode_utf8(key),
        FrameView::Ack { key, original_size, compressed_size } => keyed(key) + u64_be(
            original_size,
        ) + u64_be(compressed_size),
        FrameView::Data { key, data } => keyed(key) + data,
        FrameView::Verified { key, hash_match } => keyed(key) + seq![
            if hash_match {
                1u8
            } else {
                0u8
            },
        ],
        FrameView::NotFound { key } => keyed(key),
        FrameView::FreezeDictionary => Seq::<u8>::empty(),
        FrameView::Close => Seq::<u8>::empty(),
        FrameView::ChunkStart { key, total_size, chunk_count } => keyed(key) + u64_be(total_size)
            + u32_be(chunk_count),
        FrameView::ChunkData { key, chunk_index, data } => keyed(key) + u32_be(chunk_index) + data,
        FrameView::ChunkEnd { key } => encode_utf8(key),
    }
}

/// The whole frame on the wire: header, then payload.
pub open spec fn frame_bytes(f: FrameView) -> Seq<u8> {
    header_bytes(
        FrameHeader {
            frame_type: frame_type_of(f),
            flags: 0,
            header_len: 12,
            payload_len: payload_of(f).len() as u32,
            checksum: crc32_checksum(payload_of(f)),
        },
    ) + payload_of(f)
}

/// Fixed bytes that follow the key in the payload of each keyed frame type.
pub open spec fn fixed_after_key(frame_type: u8) -> int {
    if frame_type == 0x05 {
        16
    } else if frame_type == 0x09 {
        1
    } else if frame_type == 0x10 {
        12
    } else if frame_type == 0x11 {
        4
    } else {
        0
    }
}

/// Frame types whose payload starts with a length-prefixed key.
pub open spec fn has_key_prefix(frame_type: u8) -> bool {
    frame_type == 0x01 || frame_type == 0x05 || frame_type == 0x06 || frame_type == 0x07
        || frame_type == 0x09 || frame_type == 0x10 || frame_type == 0x11
}

/// Frame types whose payload is the bare key.
pub open spec fn is_bare_key(frame_type: u8) -> bool {
    frame_type == 0x02 || frame_type == 0x08 || frame_type == 0x12
}

/// The key bytes of a payload that starts with a length-prefixed key.
pub open spec fn prefixed_key(p: Seq<u8>) -> Seq<u8> {
    p.subrange(4, 4 + u32_at(p, 0) as int)
}

/// What a payload of a given type parses to. A payload too short for its
/// layout is truncated; a key that is not UTF-8 is invalid; bytes after a
/// fixed layout are ignored.
pub open spec fn parse_payload(frame_type: u8, p: Seq<u8>) -> Result<FrameView, ProtocolError> {
    if frame_type == 0x03 {
        Ok(FrameView::FreezeDictionary)
    } else if frame_type == 0x04 {
        Ok(FrameView::Close)
    } else if is_bare_key(frame_type) {
        if !valid_utf8(p) {
            Err(ProtocolError::InvalidKey)
        } else if frame_type == 0x02 {
            Ok(FrameView::Download { key: decode_utf8(p) })
        } else if frame_type == 0x08 {
            Ok(FrameView::Verify { key: decode_utf8(p) })
        } else {
            Ok(FrameView::ChunkEnd { key: decode_utf8(p) })
        }
    } else if has_key_prefix(frame_type) {
        if p.len() < 4 + fixed_after_key(frame_type) || p.len() < 4 + u32_at(p, 0)
            + fixed_after_key(frame_type) {
            Err(ProtocolError::Truncated)
        } else if !valid_utf8(prefixed_key(p)) {
            Err(ProtocolError::InvalidKey)
        } else {
            let key = decode_utf8(prefixed_key(p));
            let at = 4 + u32_at(p, 0) as int;
            let rest = p.subrange(at, p.len() as int);
            if frame_type == 0x01 {
                Ok(FrameView::Upload { key, data: rest })
            } else if frame_type == 0x05 {
                Ok(
                    FrameView::Ack {
                        key,
                        original_size: u64_at(p, at),
                        compressed_size: u64_at(p, at + 8),
                    },
                )
            } else if frame_type == 0x06 {
                Ok(FrameView::Data { key, data: rest })
            } else if frame_type == 0x07 {
                Ok(FrameView::NotFound { key })
            } else if frame_type == 0x09 {
                Ok(FrameView::Verified { key, hash_match: p[at] != 0 })
            } else if frame_type == 0x10 {
                Ok(
                    FrameView::ChunkStart {
                        key,
                        total_size: u64_at(p, at),
                        chunk_count: u32_at(p, at + 8),
                    },
                )
            } else {
                Ok(
                    FrameView::ChunkData {
                        key,
                        chunk_index: u32_at(p, at),
                        data: p.subrange(at + 4, p.len() as int),
                    },
                )
            }
        }
    } else {
        Err(ProtocolError::UnexpectedFrameType(frame_type))
    }
}

/// What a received header and payload amount to: the length is checked first,
/// then the checksum, then the layout.
pub open spec fn frame_parsing(h: FrameHeader, p: Seq<u8>) -> Result<FrameView, ProtocolError> {
    if h.payload_len as int != p.len() {
        Err(ProtocolError::InvalidHeader)
    } else if h.checksum != crc32_checksum(p) {
        Err(ProtocolError::ChecksumMismatch)
    } else {
        parse_payload(h.frame_type, p)
    }
}

/// Whether a parse outcome and a specified outcome agree: the same error, or a
/// frame with the specified content and no user id.
pub open spec fn parsed_as(r: Result<Frame, ProtocolError>, want: Result<FrameView, ProtocolError>)
    -> bool {
    match r {
        Ok(f) => want == Ok::<FrameView, ProtocolError>(f@) && frame_user_id(f) is None,
        Err(e) => want == Err::<FrameView, ProtocolError>(e),
    }
}

/// Splits a payload that starts with a length-prefixed key into the key and
/// the offset of what follows it, `fixed` being the bytes the layout needs
/// after the key.
fn take_key(p: &[u8], fixed: usize) -> (r: Result<(String, usize), ProtocolError>)
    requires
        fixed <= 16,
    ensures
        (p@.len() < 4 + fixed || p@.len() < 4 + u32_at(p@, 0) + fixed) ==> r == Err::<
            (String, usize),
            ProtocolError,
        >(ProtocolError::Truncated),
        (p@.len() >= 4 + fixed && p@.len() >= 4 + u32_at(p@, 0) + fixed && !valid_utf8(
            prefixed_key(p@),
        )) ==> r == Err::<(String, usize), ProtocolError>(ProtocolError::InvalidKey),
        (p@.len() >= 4 + fixed && p@.len() >= 4 + u32_at(p@, 0) + fixed && valid_utf8(
            prefixed_key(p@),
        )) ==> r is Ok && r->Ok_0.0@ == decode_utf8(prefixed_key(p@)) && r->Ok_0.1 == 4 + u32_at(
            p@,
            0,
        ),
        r is Ok ==> r->Ok_0.1 + fixed <= p@.len() <= usize::MAX,
{
    if p.len() < 4 + fixed {
        return Err(ProtocolError::Truncated);
    }
    let key_len: u32 = read_u32_be(p, 0);
    let room: usize = p.len() - 4 - fixed;
    if room < key_len as usize {
        return Err(ProtocolError::Truncated);
    }
    let end: usize = 4 + key_len as usize;
    match string_from_utf8(copy_range(p, 4, end)) {
        Some(key) => Ok((key, end)),
        None => Err(ProtocolError::InvalidKey),
    }
}

/// Reads a payload that is a bare key.
fn take_bare_key(p: &[u8]) -> (r: Result<String, ProtocolError>)
    ensures
        !valid_utf8(p@) ==> r == Err::<String, ProtocolError>(ProtocolError::InvalidKey),
        valid_utf8(p@) ==> r is Ok && r->Ok_0@ == decode_utf8(p@),
{
    let bytes: Vec<u8> = copy_range(p, 0, p.len());
    assert(bytes@ =~= p@);
    match string_from_utf8(bytes) {
        Some(key) => Ok(key),
        None => Err(ProtocolError::InvalidKey),
    }
}

/// Parses the payload of a frame of the given type.
pub fn parse_frame_payload(frame_type: u8, p: &[u8]) -> (r: Result<Frame, ProtocolError>)
    ensures
        parsed_as(r, parse_payload(frame_type, p@)),
{
    if frame_type == 0x03 {
        Ok(Frame::FreezeDictionary)
    } else if frame_type == 0x04 {
        Ok(Frame::Close)
    } else if frame_type == 0x02 {
        match take_bare_key(p) {
            Ok(key) => Ok(Frame::Download { key }),
            Err(e) => Err(e),
        }
    } else if frame_type == 0x08 {
        match take_bare_key(p) {
            Ok(key) => Ok(Frame::Verify { key }),
            Err(e) => Err(e),
        }
    } else if frame_type == 0x12 {
        match take_bare_key(p) {
            Ok(key) => Ok(Frame::ChunkEnd { key }),
            Err(e) => Err(e),
        }
    } else if frame_type == 0x01 {
        match take_key(p, 0) {
            Ok((key, at)) => Ok(
                Frame::Upload { key, data: copy_range(p, at, p.len()), user_id: None },
            ),
            Err(e) => Err(e),
        }
    } else if frame_type == 0x05 {
        match take_key(p, 16) {
            Ok((key, at)) => Ok(
                Frame::Ack {
                    key,
                    original_size: read_u64_be(p, at),
                    compressed_size: read_u64_be(p, at + 8),
                },
            ),
            Err(e) => Err(e),
        }
    } else if frame_type == 0x06 {
        match take_key(p, 0) {
            Ok((key, at)) => Ok(Frame::Data { key, data: copy_range(p, at, p.len()) }),
            Err(e) => Err(e),
        }
    } else if frame_type == 0x07 {
        match take_key(p, 0) {
            Ok((key, at)) => Ok(Frame::NotFound { key }),
            Err(e) => Err(e),
        }
    } else if frame_type == 0x09 {
        match take_key(p, 1) {
            Ok((key, at)) => Ok(Frame::Verified { key, hash_match: p[at] != 0 }),
            Err(e) => Err(e),
        }
    } else if frame_type == 0x10 {
        match take_key(p, 12) {
            Ok((key, at)) => Ok(
                Frame::ChunkStart {
                    key,
                    total_size: read_u64_be(p, at),
                    chunk_count: read_u32_be(p, at + 8),
                    user_id: None,
                },
            ),
            Err(e) => Err(e),
        }
    } else if frame_type == 0x11 {
        match take_key(p, 4) {
            Ok((key, at)) => Ok(
                Frame::ChunkData {
                    key,
                    chunk_index: read_u32_be(p, at),
                    data: copy_range(p, at + 4, p.len()),
                },
            ),
            Err(e) => Err(e),
        }
    } else {
        Err(ProtocolError::UnexpectedFrameType(frame_type))
    }
}

/// Turns a received header and the payload read after it into a frame. The
/// payload must have the length and the CRC-32 that the header carries.
pub fn parse_frame(header: &FrameHeader, payload: &[u8]) -> (r: Result<Frame, ProtocolError>)
    ensures
        parsed_as(r, frame_parsing(*header, payload@)),
        r is Ok ==> frame_well_formed(*header, payload@),
{
    if header.payload_len as usize != payload.len() {
        return Err(ProtocolError::InvalidHeader);
    }
    if crc32(payload) != header.checksum {
        return Err(ProtocolError::ChecksumMismatch);
    }
    parse_frame_payload(header.frame_type, payload)
}

/// Appends a key with its four-byte length in front.
fn put_key(out: &mut Vec<u8>, key: &String)
    ensures
        final(out)@ == old(out)@ + u32_be(encode_utf8(key@).len() as u32) + encode_utf8(key@),
{
    let bytes: &[u8] = key.as_str().as_bytes();
    put_u32_be(out, #[verifier::truncate] (bytes.len() as u32));
    put_bytes(out, bytes);
}

/// The type byte and the payload of a frame.
pub fn frame_payload(frame: &Frame) -> (r: (u8, Vec<u8>))
    ensures
        r.0 == frame_type_of(frame@),
        r.1@ == payload_of(frame@),
{
    let mut payload: Vec<u8> = Vec::new();
    match frame {
        Frame::Upload { key, data, user_id } => {
            put_key(&mut payload, key);
            put_bytes(&mut payload, data.as_slice());
            assert(payload@ =~= payload_of(frame@));
            (0x01, payload)
        },
        Frame::Download { key } => {
            put_bytes(&mut payload, key.as_str().as_bytes());
            assert(payload@ =~= payload_of(frame@));
            (0x02, payload)
        },
        Frame::Verify { key } => {
            put_bytes(&mut payload, key.as_str().as_bytes());
            assert(payload@ =~= payload_of(frame@));
            (0x08, payload)
        },
        Frame::Ack { key, original_size, compressed_size } => {
            put_key(&mut payload, key);
            put_u64_be(&mut payload, *original_size);
            put_u64_be(&mut payload, *compressed_size);
            assert(payload@ =~= payload_of(frame@));
            (0x05, payload)
        },
        Frame::Data { key, data } => {
            put_key(&mut payload, key);
            put_bytes(&mut payload, data.as_slice());
            assert(payload@ =~= payload_of(frame@));
            (0x06, payload)
        },
        Frame::NotFound { key } => {
            put_key(&mut payload, key);
            assert(payload@ =~= payload_of(frame@));
            (0x07, payload)
        },
        Frame::Verified { key, hash_match } => {
            put_key(&mut payload, key);
            payload.push(if *hash_match { 1 } else { 0 });
            assert(payload@ =~= payload_of(frame@));
            (0x09, payload)
        },
        Frame::FreezeDictionary => (0x03, payload),
        Frame::Close => (0x04, payload),
        Frame::ChunkStart { key, total_size, chunk_count, user_id } => {
            put_key(&mut payload, key);
            put_u64_be(&mut payload, *total_size);
            put_u32_be(&mut payload, *chunk_count);
            assert(payload@ =~= payload_of(frame@));
            (0x10, payload)
        },
        Frame::ChunkData { key, chunk_index, data } => {
            put_key(&mut payload, key);
            put_u32_be(&mut payload, *chunk_index);
            put_bytes(&mut payload, data.as_slice());
            assert(payload@ =~= payload_of(frame@));
            (0x11, payload)
        },
        Frame::ChunkEnd { key } => {
            put_bytes(&mut payload, key.as_str().as_bytes());
            assert(payload@ =~= payload_of(frame@));
            (0x12, payload)
        },
    }
}

/// The wire bytes of a frame: a header with the payload's length and CRC-32,
/// then the payload. A payload too long for the header's length field is
/// refused.
pub fn encode_frame(frame: &Frame) -> (r: Result<Vec<u8>, ProtocolError>)
    ensures
        payload_of(frame@).len() <= u32::MAX ==> r is Ok && r->Ok_0@ == frame_bytes(frame@),
        payload_of(frame@).len() > u32::MAX ==> r == Err::<Vec<u8>, ProtocolError>(
            ProtocolError::FrameTooLarge(payload_of(frame@).len() as usize),
        ),
{
    let (frame_type, payload) = frame_payload(frame);
    if payload.len() > 0xffff_ffff {
        return Err(ProtocolError::FrameTooLarge(payload.len()));
    }
    let header = FrameHeader {
        frame_type,
        flags: 0,
        header_len: 12,
        payload_len: payload.len() as u32,
        checksum: crc32(payload.as_slice()),
    };
    let head: [u8; 12] = header.encode();
    let mut out: Vec<u8> = Vec::new();
    put_bytes(&mut out, head.as_slice());
    put_bytes(&mut out, payload.as_slice());
    assert(out@ =~= frame_bytes(frame@));
    Ok(out)
}

/// A header decodes from its own wire bytes.
pub proof fn lemma_header_round_trip(h: FrameHeader)
    ensures
        header_bytes(h).len() == 12,
        header_at(header_bytes(h)) == h,
{
    let b = header_bytes(h);
    lemma_u16_be_round_trip(h.header_len);
    lemma_u32_be_round_trip(h.payload_len);
    lemma_u32_be_round_trip(h.checksum);
    assert(b.len() == 12);
    assert(u16_at(b, 2) == u16_at(u16_be(h.header_len), 0));
    assert(u32_at(b, 4) == u32_at(u32_be(h.payload_len), 0));
    assert(u32_at(b, 8) == u32_at(u32_be(h.checksum), 0));
}

/// Frame integrity: in the wire bytes of every frame whose payload fits the
/// length field, the header carries the length and the CRC-32 of the payload
/// that follows it.
pub proof fn lemma_frame_integrity(f: FrameView)
    requires
        payload_of(f).len() <= u32::MAX,
    ensures
        frame_bytes(f).len() == 12 + payload_of(f).len(),
        frame_bytes(f).subrange(12, frame_bytes(f).len() as int) == payload_of(f),
        frame_well_formed(header_at(frame_bytes(f).subrange(0, 12)), payload_of(f)),
        header_at(frame_bytes(f).subrange(0, 12)).frame_type == frame_type_of(f),
{
    let h = FrameHeader {
        frame_type: frame_type_of(f),
        flags: 0,
        header_len: 12,
        payload_len: payload_of(f).len() as u32,
        checksum: crc32_checksum(payload_of(f)),
    };
    lemma_header_round_trip(h);
    assert(frame_bytes(f).subrange(0, 12) =~= header_bytes(h));
    assert(frame_bytes(f).subrange(12, frame_bytes(f).len() as int) =~= payload_of(f));
}

/// A key with its length in front is read back as the key, and what follows
/// it starts right behind it.
pub proof fn lemma_keyed(key: Seq<char>, rest: Seq<u8>)
    requires
        encode_utf8(key).len() <= u32::MAX,
    ensures
        u32_at(keyed(key) + rest, 0) == encode_utf8(key).len(),
        (keyed(key) + rest).len() == 4 + encode_utf8(key).len() + rest.len(),
        prefixed_key(keyed(key) + rest) == encode_utf8(key),
        valid_utf8(prefixed_key(keyed(key) + rest)),
        decode_utf8(prefixed_key(keyed(key) + rest)) == key,
        (keyed(key) + rest).subrange(
            4 + encode_utf8(key).len() as int,
            (keyed(key) + rest).len() as int,
        ) == rest,
{
    let n = encode_utf8(key).len() as u32;
    let p = keyed(key) + rest;
    lemma_u32_be_round_trip(n);
    assert(u32_at(p, 0) == u32_at(u32_be(n), 0));
    assert(prefixed_key(p) =~= encode_utf8(key));
    encode_utf8_valid_utf8(key);
    encode_utf8_decode_utf8(key);
    assert(p.subrange(4 + encode_utf8(key).len() as int, p.len() as int) =~= rest);
}

/// Every frame parses back from its own payload: what is written for a frame
/// is read as that frame.
pub proof fn lemma_frame_round_trip(f: FrameView)
    requires
        payload_of(f).len() <= u32::MAX,
    ensures
        parse_payload(frame_type_of(f), payload_of(f)) == Ok::<FrameView, ProtocolError>(f),
{
    let p = payload_of(f);
    match f {
        FrameView::Upload { key, data } => {
            lemma_keyed(key, data);
        },
        FrameView::Download { key } => {
            encode_utf8_valid_utf8(key);
            encode_utf8_decode_utf8(key);
        },
        FrameView::Verify { key } => {
            encode_utf8_valid_utf8(key);
            encode_utf8_decode_utf8(key);
        },
        FrameView::ChunkEnd { key } => {
            encode_utf8_valid_utf8(key);
            encode_utf8_decode_utf8(key);
        },
        FrameView::Ack { key, original_size, compressed_size } => {
            let rest = u64_be(original_size) + u64_be(compressed_size);
            assert(p =~= keyed(key) + rest);
            lemma_keyed(key, rest);
            lemma_u64_be_round_trip(original_size);
            lemma_u64_be_round_trip(compressed_size);
            let at = 4 + encode_utf8(key).len() as int;
            assert(u64_at(p, at) == u64_at(u64_be(original_size), 0));
            assert(u64_at(p, at + 8) == u64_at(u64_be(compressed_size), 0));
        },
        FrameView::Data { key, data } => {
            lemma_keyed(key, data);
        },
        FrameView::NotFound { key } => {
            assert(p =~= keyed(key) + Seq::<u8>::empty());
            lemma_keyed(key, Seq::<u8>::empty());
        },
        FrameView::Verified { key, hash_match } => {
            let rest = seq![
                if hash_match {
                    1u8
                } else {
                    0u8
                },
            ];
            lemma_keyed(key, rest);
            let at = 4 + encode_utf8(key).len() as int;
            assert(p[at] == rest[0]);
        },
        FrameView::ChunkStart { key, total_size, chunk_count } => {
            let rest = u64_be(total_size) + u32_be(chunk_count);
            assert(p =~= keyed(key) + rest);
            lemma_keyed(key, rest);
            lemma_u64_be_round_trip(total_size);
            lemma_u32_be_round_trip(chunk_count);
            let at = 4 + encode_utf8(key).len() as int;
            assert(u64_at(p, at) == u64_at(u64_be(total_size), 0));
            assert(u32_at(p, at + 8) == u32_at(u32_be(chunk_count), 0));
        },
        FrameView::ChunkData { key, chunk_index, data } => {
            let rest = u32_be(chunk_index) + data;
            assert(p =~= keyed(key) + rest);
            lemma_keyed(key, rest);
            lemma_u32_be_round_trip(chunk_index);
            let at = 4 + encode_utf8(key).len() as int;
            assert(u32_at(p, at) == u32_at(u32_be(chunk_index), 0));
            assert(p.subrange(at + 4, p.len() as int) =~= data);
        },
        FrameView::FreezeDictionary => {},
        FrameView::Close => {},
    }
}

} // verus!
