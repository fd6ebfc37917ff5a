//! Reading the typed payload that a decrypted packet's code announces.
use vstd::prelude::*;
use crate::encdec::framing::HEADER_LEN;
use crate::encdec::header::{header_view, read_u32_le, signed32, u32_le, MsgHeader};

verus! {

/// Code of a lock-password request.
pub const LOCK_PASSWORD_REQUEST_CODE: i16 = 0x0FDE;

/// Length of the password field of a lock-password request.
pub const PASSWORD_LEN: usize = 16;

/// Length of a whole lock-password request: header, password and flag.
pub const LOCK_PASSWORD_REQUEST_LEN: usize = 32;

/// Access to the header that every packet starts with.
pub trait Packet {
    /// The header of this packet.
    spec fn header_spec(&self) -> MsgHeader;

    /// Returns the header of this packet.
    fn get_header(&self) -> (r: &MsgHeader)
        ensures
            *r == self.header_spec(),
    ;
}

/// A lock-password request: the header, an ASCII password of 16 bytes
/// (bytes 12-27) and a flag that asks for a password change (bytes 28-31).
#[derive(Debug, Clone, Copy, PartialEq, Eq)]
pub struct MsgLockPasswordRequest {
    pub header: MsgHeader,
    pub password: [u8; 16],
    pub change: i32,
}

impl Packet for MsgHeader {
    open spec fn header_spec(&self) -> MsgHeader {
        *self
    }

    fn get_header(&self) -> (r: &MsgHeader) {
        self
    }
}

impl Packet for MsgLockPasswordRequest {
    open spec fn header_spec(&self) -> MsgHeader {
        self.header
    }

    fn get_header(&self) -> (r: &MsgHeader) {
        &self.header
    }
}

/// The payloads that a decrypted packet can carry.
#[derive(Debug, Clone, Copy, PartialEq, Eq)]
pub enum Payload {
    LockPasswordRequest(MsgLockPasswordRequest),
}

/// The packet is a lock-password request long enough to hold its payload.
pub open spec fn is_lock_password_request(s: Seq<u8>) -> bool {
    &&& s.len() >= LOCK_PASSWORD_REQUEST_LEN
    &&& header_view(s).code == LOCK_PASSWORD_REQUEST_CODE
}

/// Reads the payload of a decrypted packet. A packet shorter than a header, one
/// whose code is not recognised, and one too short for the payload its code
/// announces carry none.
pub fn dispatch(packet: &[u8]) -> (r: Option<Payload>)
    ensures
        r is Some <==> is_lock_password_request(packet@),
        r matches Some(Payload::LockPasswordRequest(m)) ==> m.header == header_view(packet@)
            && m.password@ == packet@.subrange(12, 28) && m.change as int == signed32(
            u32_le(packet@, 28),
        ),
{
    let header = match MsgHeader::read(packet) {
        Some(h) => h,
        None => return None,
    };
    if header.code != LOCK_PASSWORD_REQUEST_CODE || packet.len() < LOCK_PASSWORD_REQUEST_LEN {
        return None;
    }
    let mut password: [u8; 16] = [0u8; 16];
    let mut i: usize = 0;
    while i < PASSWORD_LEN
        invariant
            packet@.len() >= LOCK_PASSWORD_REQUEST_LEN,
            i <= PASSWORD_LEN,
            forall|k: int| 0 <= k < i ==> password@[k] == packet@[HEADER_LEN + k],
        decreases PASSWORD_LEN - i,
    {
        password[i] = packet[HEADER_LEN + i];
        i = i + 1;
    }
    proof {
        assert(password@ =~= packet@.subrange(12, 28));
    }
    let flag = read_u32_le(packet, HEADER_LEN + PASSWORD_LEN);
    let change: i32 = if flag < 0x8000_0000 {
        flag as i32
    } else {
        ((flag - 0x8000_0000) as i32) - 0x4000_0000 - 0x4000_0000
    };
    Some(Payload::LockPasswordRequest(MsgLockPasswordRequest { header, password, change }))
}

} // verus!
