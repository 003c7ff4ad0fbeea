//! The container: a nine-byte header in front of an encoded payload.
//!
//! ```text
//! offset size field
//! 0      4    magic, the letters VPAK
//! 4      1    version
//! 5      4    length of the payload, little-endian
//! 9      L    payload
//! ```
//!
//! The payload is opaque here: the functions of this module put the header in
//! front of one and take it off again.

use vstd::prelude::*;
use vstd::slice::slice_subrange;
use vstd::string::StringExecFns;
use crate::error::VPackError;
use crate::text::{hex, hex_text};

verus! {

/// The version of the payload encoding that this engine writes and reads.
pub const FORMAT_VERSION: u8 = 0x02;

/// The number of bytes in front of the payload.
pub const HEADER_LEN: usize = 9;

/// The first four bytes of every container.
pub open spec fn magic() -> Seq<u8> {
    seq![0x56u8, 0x50u8, 0x41u8, 0x4bu8]
}

/// `n` as four bytes, the least significant first.
pub open spec fn le32(n: nat) -> Seq<u8> {
    seq![
        (n % 256) as u8,
        (n / 0x100 % 256) as u8,
        (n / 0x1_0000 % 256) as u8,
        (n / 0x100_0000 % 256) as u8,
    ]
}

/// The number that four bytes hold, the least significant first.
pub open spec fn read_le32(b0: u8, b1: u8, b2: u8, b3: u8) -> nat {
    (b0 + b1 * 0x100 + b2 * 0x1_0000 + b3 * 0x100_0000) as nat
}

/// The longest payload that a container can hold: its length field has four
/// bytes.
pub const MAX_PAYLOAD_LEN: u64 = 0xffff_ffff;

/// The container of a payload that is no longer than [`MAX_PAYLOAD_LEN`].
pub open spec fn frame(payload: Seq<u8>) -> Seq<u8> {
    magic() + seq![FORMAT_VERSION] + le32(payload.len()) + payload
}

/// Why a buffer is no container.
pub enum FrameFault {
    /// Fewer bytes than a header has.
    TooShort,
    /// The first four bytes are not the magic.
    BadMagic,
    /// Another version than [`FORMAT_VERSION`]; the byte that was found.
    BadVersion(u8),
    /// Fewer bytes after the header than the length field announces.
    Truncated,
}

/// The payload of a container, or the first fault found in this order:
/// length, magic, version, payload length.  Bytes after the payload are
/// ignored.
pub open spec fn parse_frame(bytes: Seq<u8>) -> Result<Seq<u8>, FrameFault> {
    if bytes.len() < HEADER_LEN {
        Err(FrameFault::TooShort)
    } else if bytes.subrange(0, 4) != magic() {
        Err(FrameFault::BadMagic)
    } else if bytes[4] != FORMAT_VERSION {
        Err(FrameFault::BadVersion(bytes[4]))
    } else {
        let announced = read_le32(bytes[5], bytes[6], bytes[7], bytes[8]);
        if bytes.len() < HEADER_LEN + announced {
            Err(FrameFault::Truncated)
        } else {
            Ok(bytes.subrange(HEADER_LEN as int, HEADER_LEN + announced))
        }
    }
}

impl FrameFault {
    /// What the failure says of the fault.
    pub open spec fn detail(self) -> Seq<char> {
        match self {
            FrameFault::TooShort => "file too short"@,
            FrameFault::BadMagic => "bad magic bytes"@,
            FrameFault::BadVersion(found) => "unsupported .vpack format version 0x"@ + hex_text(
                found,
            ) + " \u{2014} rebuild with Rust engine"@,
            FrameFault::Truncated => "truncated payload"@,
        }
    }
}

/// The container of an encoded payload: the header, then the payload.  The
/// payload must be no longer than [`MAX_PAYLOAD_LEN`], so that the length
/// field can hold its length.
pub fn serialize(payload: &[u8]) -> (buffer: Vec<u8>)
    requires
        payload@.len() <= MAX_PAYLOAD_LEN,
    ensures
        buffer@ == frame(payload@),
        parse_frame(buffer@) == Ok::<Seq<u8>, FrameFault>(payload@),
{
    proof {
        lemma_frame_round_trip(payload@, Seq::<u8>::empty());
        assert(frame(payload@) + Seq::<u8>::empty() == frame(payload@));
    }
    let low: u64 = payload.len() as u64;
    let mut buffer: Vec<u8> = Vec::new();
    buffer.push(0x56);
    buffer.push(0x50);
    buffer.push(0x41);
    buffer.push(0x4b);
    buffer.push(FORMAT_VERSION);
    buffer.push((low % 256) as u8);
    buffer.push((low / 0x100 % 256) as u8);
    buffer.push((low / 0x1_0000 % 256) as u8);
    buffer.push((low / 0x100_0000 % 256) as u8);
    let ghost header = buffer@;
    assert(header == magic() + seq![FORMAT_VERSION] + le32(payload@.len()));
    let mut i: usize = 0;
    while i < payload.len()
        invariant
            i <= payload.len(),
            buffer@ == header + payload@.take(i as int),
        decreases payload.len() - i,
    {
        buffer.push(payload[i]);
        assert(payload@.take(i + 1) == payload@.take(i as int).push(payload@[i as int]));
        i = i + 1;
    }
    assert(payload@.take(payload@.len() as int) == payload@);
    buffer
}

/// The payload of a container.  Fails with `InvalidFormat` where the buffer
/// is no container, and says why.
pub fn deserialize(bytes: &[u8]) -> (result: Result<&[u8], VPackError>)
    ensures
        match parse_frame(bytes@) {
            Ok(payload) => result matches Ok(found) && found@ == payload,
            Err(fault) => result matches Err(VPackError::InvalidFormat(detail)) && detail@
                == fault.detail(),
        },
{
    if bytes.len() < HEADER_LEN {
        return Err(VPackError::InvalidFormat(String::from_str("file too short")));
    }
    if bytes[0] != 0x56 || bytes[1] != 0x50 || bytes[2] != 0x41 || bytes[3] != 0x4b {
        assert(bytes@.subrange(0, 4)[0] == bytes@[0]);
        assert(bytes@.subrange(0, 4)[1] == bytes@[1]);
        assert(bytes@.subrange(0, 4)[2] == bytes@[2]);
        assert(bytes@.subrange(0, 4)[3] == bytes@[3]);
        return Err(VPackError::InvalidFormat(String::from_str("bad magic bytes")));
    }
    assert(bytes@.subrange(0, 4) == magic());
    let version = bytes[4];
    if version != FORMAT_VERSION {
        let detail = String::from_str("unsupported .vpack format version 0x").concat(
            hex(version).as_str(),
        ).concat(" \u{2014} rebuild with Rust engine");
        return Err(VPackError::InvalidFormat(detail));
    }
    let announced: u64 = bytes[5] as u64 + bytes[6] as u64 * 0x100 + bytes[7] as u64 * 0x1_0000
        + bytes[8] as u64 * 0x100_0000;
    if ((bytes.len() - HEADER_LEN) as u64) < announced {
        return Err(VPackError::InvalidFormat(String::from_str("truncated payload")));
    }
    Ok(slice_subrange(bytes, HEADER_LEN, HEADER_LEN + announced as usize))
}

/// What was put into a container comes out of it again, whatever bytes
/// follow the container.
pub proof fn lemma_frame_round_trip(payload: Seq<u8>, trailing: Seq<u8>)
    requires
        payload.len() <= MAX_PAYLOAD_LEN,
    ensures
        parse_frame(frame(payload) + trailing) == Ok::<Seq<u8>, FrameFault>(payload),
{
    let bytes = frame(payload) + trailing;
    let n = payload.len();
    assert(bytes.subrange(0, 4) == magic());
    assert(bytes[4] == FORMAT_VERSION);
    assert(read_le32(bytes[5], bytes[6], bytes[7], bytes[8]) == n) by {
        assert(bytes[5] == (n % 256) as u8);
        assert(bytes[6] == (n / 0x100 % 256) as u8);
        assert(bytes[7] == (n / 0x1_0000 % 256) as u8);
        assert(bytes[8] == (n / 0x100_0000 % 256) as u8);
    }
    assert(bytes.subrange(HEADER_LEN as int, HEADER_LEN + n) == payload);
}

} // verus!
