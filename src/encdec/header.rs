//! The fixed 12-byte header at the start of every packet, read field by field.
use vstd::prelude::*;
use crate::encdec::framing::{read_u16_le, u16_le, HEADER_LEN};

verus! {

/// The header of a packet, little-endian throughout: `size` (bytes 0-1),
/// `key` (byte 2), `hash` (byte 3), `code` (bytes 4-5), `index` (bytes 6-7) and
/// `timestamp` (bytes 8-11). `code`, `index` and `timestamp` are only meaningful
/// once the packet is decrypted.
#[derive(Debug, Clone, Copy, PartialEq, Eq, Structural)]
pub struct MsgHeader {
    /// Total packet length, header included.
    pub size: u16,
    /// Seed that selects the first key of the transform.
    pub key: u8,
    /// Reserved for integrity checks by higher layers; the transform ignores it.
    pub hash: u8,
    /// Message type tag.
    pub code: i16,
    /// Index of the sender.
    pub index: i16,
    /// Time stamp set by the sender.
    pub timestamp: u32,
}

/// The two's-complement reading of a 16-bit pattern.
pub open spec fn signed16(u: nat) -> int {
    if u < 0x8000 {
        u as int
    } else {
        u - 0x1_0000
    }
}

/// The 32-bit two's-complement reading of a 32-bit pattern.
pub open spec fn signed32(u: nat) -> int {
    if u < 0x8000_0000 {
        u as int
    } else {
        u - 0x1_0000_0000
    }
}

/// The little-endian 32-bit value held by `s[at..at + 4]`.
pub open spec fn u32_le(s: Seq<u8>, at: int) -> nat {
    u16_le(s, at) + 0x1_0000 * u16_le(s, at + 2)
}

/// The header that the first 12 bytes of `s` hold.
pub open spec fn header_view(s: Seq<u8>) -> MsgHeader {
    MsgHeader {
        size: u16_le(s, 0) as u16,
        key: s[2],
        hash: s[3],
        code: signed16(u16_le(s, 4)) as i16,
        index: signed16(u16_le(s, 6)) as i16,
        timestamp: u32_le(s, 8) as u32,
    }
}

/// Reads the little-endian `i16` at `at`.
pub(crate) fn read_i16_le(buf: &[u8], at: usize) -> (r: i16)
    requires
        at + 2 <= buf@.len(),
    ensures
        r as int == signed16(u16_le(buf@, at as int)),
{
    let u = read_u16_le(buf, at);
    if u < 0x8000 {
        u as i16
    } else {
        ((u - 0x8000) as i16) - 0x4000 - 0x4000
    }
}

/// Reads the little-endian `u32` at `at`.
pub(crate) fn read_u32_le(buf: &[u8], at: usize) -> (r: u32)
    requires
        at + 4 <= buf.len(),
    ensures
        r as nat == u32_le(buf@, at as int),
{
    let lo = read_u16_le(buf, at) as u32;
    let hi = read_u16_le(buf, at + 2) as u32;
    lo + hi * 0x1_0000
}

impl MsgHeader {
    /// Reads the header at the start of `packet`, or nothing if fewer than
    /// `HEADER_LEN` bytes are there.
    pub fn read(packet: &[u8]) -> (r: Option<MsgHeader>)
        ensures
            r is Some <==> packet@.len() >= HEADER_LEN,
            r matches Some(h) ==> h == header_view(packet@),
    {
        if packet.len() < HEADER_LEN {
            return None;
        }
        let size = read_u16_le(packet, 0);
        let code = read_i16_le(packet, 4);
        let index = read_i16_le(packet, 6);
        let timestamp = read_u32_le(packet, 8);
        Some(MsgHeader { size, key: packet[2], hash: packet[3], code, index, timestamp })
    }
}

} // verus!
