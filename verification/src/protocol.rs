//! The framed wire protocol: handshake, frame header, typed frames.

pub mod constants;
pub mod error;
pub mod frame;

pub mod handshake;
