use vstd::prelude::*;

verus! {

/// Protocol magic bytes: "SYMV".
pub const SYMVEA_MAGIC: [u8; 4] = [0x53, 0x59, 0x4d, 0x56];

/// Current protocol version.
pub const PROTOCOL_VERSION: u16 = 1;

/// Frame types sent by a client.
pub const FRAME_UPLOAD: u8 = 0x01;

pub const FRAME_DOWNLOAD: u8 = 0x02;

pub const FRAME_FREEZE_DICTIONARY: u8 = 0x03;

pub const FRAME_CLOSE: u8 = 0x04;

pub const FRAME_VERIFY: u8 = 0x08;

/// Frame types sent by the server.
pub const FRAME_ACK: u8 = 0x05;

pub const FRAME_DATA: u8 = 0x06;

pub const FRAME_NOT_FOUND: u8 = 0x07;

pub const FRAME_VERIFIED: u8 = 0x09;

/// Chunked upload frames.
pub const FRAME_CHUNK_START: u8 = 0x10;

pub const FRAME_CHUNK_DATA: u8 = 0x11;

pub const FRAME_CHUNK_END: u8 = 0x12;

/// Size of the chunks a client cuts a large object into (32 MiB).
pub const CHUNK_SIZE: usize = 33554432;

/// Feature flags (bitmask).
pub const FLAG_COMPRESSED: u16 = 0x0001;

pub const FLAG_ENCRYPTED: u16 = 0x0002;

pub const FLAG_DICTIONARY: u16 = 0x0004;

} // verus!
