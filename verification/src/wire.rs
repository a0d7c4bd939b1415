//! Server frames on the wire: how long they are, and what their headers hold.
//!
//! Server frames have FIN set and are never masked, so a header is decided by
//! the opcode and the payload's length alone.

use ramjet_ws::MessageKind;
use std::ops::Range;
use vstd::prelude::*;

verus! {

/// Which kind of data message a frame carries: text or binary.
#[verifier::external_type_specification]
pub struct ExMessageKind(MessageKind);

/// First byte of a whole text frame: FIN and opcode 1.
pub const TEXT: u8 = 0x81;

/// First byte of a whole binary frame: FIN and opcode 2.
pub const BINARY: u8 = 0x82;

/// First byte of a close frame: FIN and opcode 8.
pub const CLOSE: u8 = 0x88;

/// First byte of a pong frame: FIN and opcode 10.
pub const PONG: u8 = 0x8A;

/// The first byte of a whole data frame of this kind.
pub open spec fn first_byte(kind: MessageKind) -> u8 {
    match kind {
        MessageKind::Text => TEXT,
        MessageKind::Binary => BINARY,
    }
}

/// Bytes a server frame's header takes in front of a payload of `len` bytes.
pub open spec fn header_len(len: nat) -> nat {
    if len < 126 {
        2
    } else if len <= 0xFFFF {
        4
    } else {
        10
    }
}

/// `v` as two bytes, most significant first.
pub open spec fn be16(v: nat) -> Seq<u8> {
    seq![(v / 0x100 % 0x100) as u8, (v % 0x100) as u8]
}

/// `v` as eight bytes, most significant first.
pub open spec fn be64(v: nat) -> Seq<u8> {
    seq![
        (v / 0x100_0000_0000_0000 % 0x100) as u8,
        (v / 0x1_0000_0000_0000 % 0x100) as u8,
        (v / 0x100_0000_0000 % 0x100) as u8,
        (v / 0x1_0000_0000 % 0x100) as u8,
        (v / 0x100_0000 % 0x100) as u8,
        (v / 0x1_0000 % 0x100) as u8,
        (v / 0x100 % 0x100) as u8,
        (v % 0x100) as u8,
    ]
}

/// The header of an unmasked frame: its first byte, then the payload's length
/// in the narrowest of the three widths that holds it.
pub open spec fn frame_header(first: u8, len: nat) -> Seq<u8> {
    if len < 126 {
        seq![first, len as u8]
    } else if len <= 0xFFFF {
        seq![first, 126u8] + be16(len)
    } else {
        seq![first, 127u8] + be64(len)
    }
}

/// A whole unmasked frame.
pub open spec fn server_frame(first: u8, payload: Seq<u8>) -> Seq<u8> {
    frame_header(first, payload.len()) + payload
}

/// The payload of a masked client frame, `bytes[start..end]`, with the key in
/// the four bytes before it taken off.
pub open spec fn unmasked(bytes: Seq<u8>, start: int, end: int) -> Seq<u8> {
    Seq::new((end - start) as nat, |i: int| bytes[start + i] ^ bytes[start - 4 + i % 4])
}

/// Bytes the header of a masked client frame takes, its key included. The low
/// seven bits of the second byte are the length, or say how wide the length is.
pub open spec fn client_header_len(frame: Seq<u8>) -> int {
    if frame[1] % 128 == 126 {
        8
    } else if frame[1] % 128 == 127 {
        14
    } else {
        6
    }
}

/// The payload length that a masked client frame's header gives.
pub open spec fn client_payload_len(frame: Seq<u8>) -> int {
    if frame[1] % 128 == 126 {
        frame[2] * 0x100 + frame[3]
    } else if frame[1] % 128 == 127 {
        frame[2] * 0x100_0000_0000_0000 + frame[3] * 0x1_0000_0000_0000 + frame[4]
            * 0x100_0000_0000 + frame[5] * 0x1_0000_0000 + frame[6] * 0x100_0000 + frame[7]
            * 0x1_0000 + frame[8] * 0x100 + frame[9]
    } else {
        frame[1] as int % 128
    }
}

/// A buffer with the payload of the masked client frame at `from` unmasked, so
/// that it lies at `to`.
pub open spec fn unmasked_to(buf: Seq<u8>, from: int, to: int) -> Seq<u8> {
    let frame = buf.skip(from);
    let start = client_header_len(frame);
    let len = client_payload_len(frame);
    buf.take(to) + unmasked(frame, start, start + len) + buf.skip(to + len)
}

/// Bytes the codec produces for a payload of this length: the payload plus a
/// header whose width the length decides. Counting encoded rather than payload
/// bytes is what keeps the accounting exact against what leaves in a write.
pub fn frame_len(payload: usize) -> (len: usize)
    requires
        payload <= usize::MAX - 10,
    ensures
        len == payload + header_len(payload as nat),
{
    payload + if payload < 126 {
        2
    } else if payload <= 0xFFFF {
        4
    } else {
        10
    }
}

/// The header of a whole data frame with a payload of `len` bytes, at the front
/// of ten bytes that are otherwise zero, and how many of them it takes.
pub fn reply_header(kind: MessageKind, len: usize) -> (header: ([u8; 10], usize))
    ensures
        header.1 == header_len(len as nat),
        header.0@.take(header.1 as int) == frame_header(first_byte(kind), len as nat),
        forall|i: int| header.1 <= i < 10 ==> header.0@[i] == 0,
{
    let first: u8 = match kind {
        MessageKind::Text => TEXT,
        MessageKind::Binary => BINARY,
    };
    let mut out: [u8; 10] = [0u8;10];
    out[0] = first;
    let width: usize = if len < 126 {
        out[1] = len as u8;
        2
    } else if len <= 0xFFFF {
        out[1] = 126;
        out[2] = (len / 0x100 % 0x100) as u8;
        out[3] = (len % 0x100) as u8;
        4
    } else {
        let wide: u64 = len as u64;
        out[1] = 127;
        out[2] = (wide / 0x100_0000_0000_0000 % 0x100) as u8;
        out[3] = (wide / 0x1_0000_0000_0000 % 0x100) as u8;
        out[4] = (wide / 0x100_0000_0000 % 0x100) as u8;
        out[5] = (wide / 0x1_0000_0000 % 0x100) as u8;
        out[6] = (wide / 0x100_0000 % 0x100) as u8;
        out[7] = (wide / 0x1_0000 % 0x100) as u8;
        out[8] = (wide / 0x100 % 0x100) as u8;
        out[9] = (wide % 0x100) as u8;
        10
    };
    assert(out@.take(width as int) =~= frame_header(first_byte(kind), len as nat));
    (out, width)
}

/// How many positions a range holds.
pub open spec fn range_len(range: Range<usize>) -> nat {
    if range.start <= range.end {
        (range.end - range.start) as nat
    } else {
        0
    }
}

/// Lay a server header into the bytes in front of `payload`, which the client's
/// longer masked header no longer needs, leaving the payload where it is.
/// Returns where the reply starts.
pub fn reply_header_into(buf: &mut [u8], kind: MessageKind, payload: &Range<usize>) -> (start:
    usize)
    requires
        header_len(range_len(*payload)) <= payload.start <= old(buf)@.len(),
    ensures
        start == payload.start - header_len(range_len(*payload)),
        final(buf)@ == old(buf)@.take(start as int) + frame_header(
            first_byte(kind),
            range_len(*payload),
        ) + old(buf)@.skip(payload.start as int),
{
    let payload_len: usize = if payload.start <= payload.end {
        payload.end - payload.start
    } else {
        0
    };
    let (header, len): ([u8; 10], usize) = reply_header(kind, payload_len);
    let start: usize = payload.start - len;
    let ghost before = buf@;
    let ghost laid = frame_header(first_byte(kind), range_len(*payload));
    let mut i: usize = 0;
    while i < len
        invariant
            i <= len <= 10,
            start + len == payload.start,
            payload.start <= before.len(),
            header@.take(len as int) == laid,
            buf@ =~= before.take(start as int) + laid.take(i as int) + before.skip(start + i),
        decreases len - i,
    {
        assert(laid[i as int] == header@[i as int]);
        buf[start + i] = header[i];
        i += 1;
    }
    assert(laid.take(len as int) =~= laid);
    start
}

} // verus!
