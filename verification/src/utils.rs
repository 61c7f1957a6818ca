//! Small byte-level helpers shared by the codec and the wire protocol.

pub mod buffer;
pub mod bytes;
pub mod crc;
pub mod limits;
pub mod text;
pub mod varint;
