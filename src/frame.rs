//! The packet format of the bootloader: `[length, checksum, command, payload..]`,
//! and the big- and little-endian words carried in payloads.

use vstd::prelude::*;

verus! {

/// Bytes in the `[length, checksum, command]` header of a command packet.
pub const HEADER_LEN: usize = 3;

/// Largest payload that still lets the packet length fit in one byte.
pub const MAX_PAYLOAD_LEN: usize = 252;

/// Sum of the bytes of `s`, as an unbounded integer.
pub open spec fn byte_sum(s: Seq<u8>) -> nat
    decreases s.len(),
{
    if s.len() == 0 {
        0
    } else {
        byte_sum(s.drop_last()) + s.last() as nat
    }
}

/// The checksum of a packet: command plus payload bytes, modulo 256.
pub open spec fn checksum_of(cmd: u8, data: Seq<u8>) -> u8 {
    ((cmd + byte_sum(data)) % 256) as u8
}

/// The packet that carries `cmd` with payload `data`.
pub open spec fn frame(cmd: u8, data: Seq<u8>) -> Seq<u8> {
    seq![(HEADER_LEN + data.len()) as u8, checksum_of(cmd, data), cmd] + data
}

/// The command and payload of a well-formed packet: its length byte counts
/// every byte and its checksum byte matches.
pub open spec fn decode_frame(bytes: Seq<u8>) -> Option<(u8, Seq<u8>)> {
    if bytes.len() >= 3 && bytes.len() <= 255 && bytes[0] == bytes.len()
        && bytes[1] == checksum_of(bytes[2], bytes.subrange(3, bytes.len() as int)) {
        Some((bytes[2], bytes.subrange(3, bytes.len() as int)))
    } else {
        None
    }
}

/// Encoding a command and then decoding the packet gives the command and
/// payload back, and the checksum byte is the command plus the payload bytes,
/// modulo 256.
pub proof fn lemma_frame_round_trip(cmd: u8, data: Seq<u8>)
    requires
        data.len() <= MAX_PAYLOAD_LEN,
    ensures
        decode_frame(frame(cmd, data)) == Some((cmd, data)),
        frame(cmd, data)[1] == (cmd + byte_sum(data)) % 256,
{
    let f = frame(cmd, data);
    assert(f.subrange(3, f.len() as int) =~= data);
}

/// Checksum of a packet carrying `cmd` and `data`.
pub fn command_checksum(cmd: u8, data: &[u8]) -> (r: u8)
    ensures
        r == checksum_of(cmd, data@),
{
    let mut checksum: u8 = cmd;
    let mut i: usize = 0;
    while i < data.len()
        invariant
            i <= data@.len(),
            checksum == checksum_of(cmd, data@.take(i as int)),
        decreases data@.len() - i,
    {
        proof {
            assert(data@.take(i + 1).drop_last() =~= data@.take(i as int));
        }
        checksum = checksum.wrapping_add(data[i]);
        i = i + 1;
    }
    assert(data@.take(i as int) =~= data@);
    checksum
}

/// Builds the packet that carries `cmd` with payload `data`.
pub fn encode_frame(cmd: u8, data: &[u8]) -> (r: Vec<u8>)
    requires
        data@.len() <= MAX_PAYLOAD_LEN,
    ensures
        r@ == frame(cmd, data@),
{
    let mut pkt: Vec<u8> = Vec::with_capacity(HEADER_LEN + data.len());
    pkt.push((HEADER_LEN + data.len()) as u8);
    pkt.push(command_checksum(cmd, data));
    pkt.push(cmd);
    let mut i: usize = 0;
    while i < data.len()
        invariant
            i <= data@.len(),
            data@.len() <= MAX_PAYLOAD_LEN,
            pkt@ == seq![(HEADER_LEN + data@.len()) as u8, checksum_of(cmd, data@), cmd]
                + data@.take(i as int),
        decreases data@.len() - i,
    {
        pkt.push(data[i]);
        i = i + 1;
        assert(pkt@ =~= seq![(HEADER_LEN + data@.len()) as u8, checksum_of(cmd, data@), cmd]
            + data@.take(i as int));
    }
    assert(data@.take(i as int) =~= data@);
    pkt
}

/// Reads a packet back into its command and payload; `None` when the
/// length or checksum byte does not match.
pub fn decode_command_frame(bytes: &[u8]) -> (r: Option<(u8, Vec<u8>)>)
    ensures
        match decode_frame(bytes@) {
            Some((cmd, data)) => r matches Some((c, d)) && c == cmd && d@ == data,
            None => r is None,
        },
{
    let n = bytes.len();
    if n < 3 || n > 255 || bytes[0] as usize != n {
        return None;
    }
    let payload = &bytes[3..n];
    if bytes[1] != command_checksum(bytes[2], payload) {
        return None;
    }
    let mut data: Vec<u8> = Vec::new();
    let mut i: usize = 0;
    while i < payload.len()
        invariant
            i <= payload@.len(),
            data@ == payload@.take(i as int),
        decreases payload@.len() - i,
    {
        data.push(payload[i]);
        i = i + 1;
        assert(data@ =~= payload@.take(i as int));
    }
    assert(payload@.take(i as int) =~= payload@);
    Some((bytes[2], data))
}

/// The four bytes of `x`, most significant first.
pub open spec fn be32(x: u32) -> Seq<u8> {
    seq![(x / 0x1000000) as u8, ((x / 0x10000) % 0x100) as u8, ((x / 0x100) % 0x100) as u8,
        (x % 0x100) as u8]
}

/// The word whose bytes, most significant first, are `b[0..4]`.
pub open spec fn from_be32(b: Seq<u8>) -> int {
    b[0] * 0x1000000 + b[1] * 0x10000 + b[2] * 0x100 + b[3]
}

/// The word whose bytes, least significant first, are `b[0..4]`.
pub open spec fn from_le32(b: Seq<u8>) -> int {
    b[3] * 0x1000000 + b[2] * 0x10000 + b[1] * 0x100 + b[0]
}

/// Reading back the big-endian bytes of a word gives the word.
pub proof fn lemma_be32_round_trip(x: u32)
    ensures
        be32(x).len() == 4,
        from_be32(be32(x)) == x,
{
    let b = be32(x);
    assert(from_be32(b) == x) by (nonlinear_arith)
        requires
            b[0] == x / 0x1000000,
            b[1] == (x / 0x10000) % 0x100,
            b[2] == (x / 0x100) % 0x100,
            b[3] == x % 0x100,
            0 <= x < 0x1_0000_0000,
    {
    }
}

/// Four bytes read as a big-endian word give those bytes back.
pub proof fn lemma_be32_of_bytes(b: Seq<u8>)
    requires
        b.len() == 4,
    ensures
        0 <= from_be32(b) <= u32::MAX,
        be32(from_be32(b) as u32) == b,
{
    let x = from_be32(b);
    let (b0, b1, b2, b3) = (b[0] as int, b[1] as int, b[2] as int, b[3] as int);
    assert(0 <= x <= u32::MAX && x / 0x1000000 == b0 && (x / 0x10000) % 0x100 == b1
        && (x / 0x100) % 0x100 == b2 && x % 0x100 == b3) by (nonlinear_arith)
        requires
            x == b0 * 0x1000000 + b1 * 0x10000 + b2 * 0x100 + b3,
            0 <= b0 < 256,
            0 <= b1 < 256,
            0 <= b2 < 256,
            0 <= b3 < 256,
    {
        assert(x / 0x100 == b0 * 0x10000 + b1 * 0x100 + b2);
        assert(x / 0x10000 == b0 * 0x100 + b1);
        assert(x / 0x1000000 == b0);
    }
    assert(be32(x as u32) =~= b);
}

/// Appends the bytes of `x`, most significant first, to `out`.
pub fn push_be32(out: &mut Vec<u8>, x: u32)
    ensures
        final(out)@ == old(out)@ + be32(x),
{
    out.push((x / 0x1000000) as u8);
    out.push(((x / 0x10000) % 0x100) as u8);
    out.push(((x / 0x100) % 0x100) as u8);
    out.push((x % 0x100) as u8);
    assert(final(out)@ =~= old(out)@ + be32(x));
}

/// The word whose bytes, most significant first, are `b[0..4]`.
pub fn read_be32(b: &[u8]) -> (r: u32)
    requires
        b@.len() >= 4,
    ensures
        r == from_be32(b@),
{
    (b[0] as u32) * 0x1000000 + (b[1] as u32) * 0x10000 + (b[2] as u32) * 0x100 + (b[3] as u32)
}

/// The word whose bytes, least significant first, are `b[0..4]`.
pub fn read_le32(b: &[u8]) -> (r: u32)
    requires
        b@.len() >= 4,
    ensures
        r == from_le32(b@),
{
    (b[3] as u32) * 0x1000000 + (b[2] as u32) * 0x10000 + (b[1] as u32) * 0x100 + (b[0] as u32)
}

} // verus!
