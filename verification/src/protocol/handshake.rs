use vstd::prelude::*;
use crate::protocol::constants::PROTOCOL_VERSION;
use crate::protocol::error::ProtocolError;
use crate::utils::bytes::{u16_be, u32_be, u16_at, u32_at, read_u16_be, read_u32_be, lemma_u16_be_round_trip, lemma_u32_be_round_trip};

verus! {

/// The connection preamble, exchanged once in each direction.
#[derive(Debug, Clone, Copy, PartialEq, Eq)]
pub struct Handshake {
    pub version: u16,
    pub flags: u16,
    pub capabilities: u32,
}

/// The four magic bytes every handshake starts with.
pub open spec fn magic_bytes() -> Seq<u8> {
    seq![0x53u8, 0x59u8, 0x4du8, 0x56u8]
}

/// The twelve bytes of a handshake on the wire.
pub open spec fn handshake_bytes(h: Handshake) -> Seq<u8> {
    magic_bytes() + u16_be(h.version) + u16_be(h.flags) + u32_be(h.capabilities)
}

/// What a buffer decodes to as a handshake.
pub open spec fn handshake_decoding(buf: Seq<u8>) -> Result<Handshake, ProtocolError> {
    if buf.len() < 12 {
        Err(ProtocolError::Truncated)
    } else if buf.subrange(0, 4) != magic_bytes() {
        Err(ProtocolError::InvalidMagic)
    } else if u16_at(buf, 4) != 1 {
        Err(ProtocolError::UnsupportedVersion(u16_at(buf, 4)))
    } else {
        Ok(Handshake { version: u16_at(buf, 4), flags: u16_at(buf, 6), capabilities: u32_at(buf, 8) })
    }
}

impl Handshake {
    /// Bytes a handshake takes on the wire.
    pub const WIRE_SIZE: usize = 12;

    /// The handshake this side sends: current version, nothing else set.
    pub fn current() -> (h: Self)
        ensures
            h == (Handshake { version: 1, flags: 0, capabilities: 0 }),
    {
        Handshake { version: PROTOCOL_VERSION, flags: 0, capabilities: 0 }
    }

    /// Decodes the first twelve bytes of `buf`. Flags and capabilities are
    /// carried through and not interpreted.
    pub fn decode(buf: &[u8]) -> (r: Result<Self, ProtocolError>)
        ensures
            r == handshake_decoding(buf@),
    {
        if buf.len() < 12 {
            return Err(ProtocolError::Truncated);
        }
        if buf[0] != 0x53 || buf[1] != 0x59 || buf[2] != 0x4d || buf[3] != 0x56 {
            assert(buf@.subrange(0, 4)[0] == buf@[0]);
            assert(buf@.subrange(0, 4)[1] == buf@[1]);
            assert(buf@.subrange(0, 4)[2] == buf@[2]);
            assert(buf@.subrange(0, 4)[3] == buf@[3]);
            return Err(ProtocolError::InvalidMagic);
        }
        assert(buf@.subrange(0, 4) =~= magic_bytes());
        let version: u16 = read_u16_be(buf, 4);
        if version != PROTOCOL_VERSION {
            return Err(ProtocolError::UnsupportedVersion(version));
        }
        let flags: u16 = read_u16_be(buf, 6);
        let capabilities: u32 = read_u32_be(buf, 8);
        Ok(Handshake { version, flags, capabilities })
    }

    /// The twelve wire bytes of this handshake.
    pub fn encode(&self) -> (buf: [u8; 12])
        ensures
            buf@ == handshake_bytes(*self),
    {
        let buf: [u8; 12] = [
            0x53,
            0x59,
            0x4d,
            0x56,
            (self.version >> 8) as u8,
            (self.version & 0xff) as u8,
            (self.flags >> 8) as u8,
            (self.flags & 0xff) as u8,
            (self.capabilities >> 24) as u8,
            ((self.capabilities >> 16) & 0xff) as u8,
            ((self.capabilities >> 8) & 0xff) as u8,
            (self.capabilities & 0xff) as u8,
        ];
        assert(buf@ =~= handshake_bytes(*self));
        buf
    }
}

/// A handshake of the current version decodes from its own wire bytes.
pub proof fn lemma_handshake_round_trip(h: Handshake)
    requires
        h.version == 1,
    ensures
        handshake_decoding(handshake_bytes(h)) == Ok::<Handshake, ProtocolError>(h),
{
    let b = handshake_bytes(h);
    lemma_u16_be_round_trip(h.version);
    lemma_u16_be_round_trip(h.flags);
    lemma_u32_be_round_trip(h.capabilities);
    assert(b.len() == 12);
    assert(b.subrange(0, 4) =~= magic_bytes());
    assert(u16_at(b, 4) == u16_at(u16_be(h.version), 0));
    assert(u16_at(b, 6) == u16_at(u16_be(h.flags), 0));
    assert(u32_at(b, 8) == u32_at(u32_be(h.capabilities), 0));
}

} // verus!
