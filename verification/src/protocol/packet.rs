//! Packet framing: building the bytes of a packet and checking the bytes
//! read back.

use vstd::prelude::*;

verus! {

/// "HEGL" in big-endian.
pub const PACKET_MAGIC: u32 = 0x4845474C;

pub const HEADER_SIZE: usize = 20;

pub const TERMINATOR: u8 = 0x0A;

pub const REPLY_BIT: u32 = 0x8000_0000;

/// A packet as read from a stream.
pub struct Packet {
    pub stream: u32,
    pub message_id: u32,
    pub is_reply: bool,
    pub payload: Vec<u8>,
}

/// Why bytes read back are not a packet.
pub enum PacketError {
    InvalidMagic { expected: u32, got: u32 },
    InvalidTerminator { found: u8 },
    ChecksumMismatch { expected: u32, got: u32 },
}

/// The fields of a header whose magic number was checked.
pub struct PacketHeader {
    pub checksum: u32,
    pub channel: u32,
    pub message_id_raw: u32,
    pub length: u32,
}

/// One bit step of the reflected CRC-32 register (polynomial 0xEDB88320).
pub open spec fn crc_bit(c: u32) -> u32 {
    if c & 1 == 1 {
        (c >> 1u32) ^ 0xEDB8_8320u32
    } else {
        c >> 1u32
    }
}

/// `n` bit steps of the register.
pub open spec fn crc_bits(c: u32, n: nat) -> u32
    decreases n,
{
    if n == 0 {
        c
    } else {
        crc_bits(crc_bit(c), (n - 1) as nat)
    }
}

/// The register after feeding `data`, each byte into its low bits.
pub open spec fn crc_update(c: u32, data: Seq<u8>) -> u32
    decreases data.len(),
{
    if data.len() == 0 {
        c
    } else {
        crc_update(crc_bits(c ^ (data[0] as u32), 8), data.drop_first())
    }
}

/// The CRC-32 (IEEE) checksum of some bytes: the register starts all ones
/// and is inverted at the end.
pub open spec fn spec_crc32(data: Seq<u8>) -> u32 {
    crc_update(0xFFFF_FFFFu32, data) ^ 0xFFFF_FFFFu32
}

/// `crc32fast::hash`: the CRC-32 (IEEE) of `data`.
#[verifier::external_body]
fn crc32(data: &[u8]) -> (r: u32)
    ensures
        r == spec_crc32(data@),
{
    crc32fast::hash(data)
}

/// The big-endian bytes of `x`.
pub open spec fn be_bytes(x: u32) -> Seq<u8> {
    seq![(x >> 24) as u8, (x >> 16) as u8, (x >> 8) as u8, x as u8]
}

/// The big-endian number in `s[i..i + 4]`.
pub open spec fn be_u32_at(s: Seq<u8>, i: int) -> u32 {
    ((s[i] as u32) << 24) | ((s[i + 1] as u32) << 16) | ((s[i + 2] as u32) << 8) | (s[i + 3] as u32)
}

/// The header with its checksum field set to zero.
pub open spec fn zero_checksum(h: Seq<u8>) -> Seq<u8> {
    h.update(4, 0).update(5, 0).update(6, 0).update(7, 0)
}

/// The message id as sent: the reply bit marks replies.
pub open spec fn wire_message_id(message_id: u32, is_reply: bool) -> u32 {
    if is_reply {
        message_id | REPLY_BIT
    } else {
        message_id
    }
}

/// The header before its checksum is filled in.
pub open spec fn header_template(stream: u32, message_id: u32, is_reply: bool, len: nat) -> Seq<u8> {
    be_bytes(PACKET_MAGIC) + be_bytes(0) + be_bytes(stream) + be_bytes(wire_message_id(message_id, is_reply))
        + be_bytes(len as u32)
}

/// The bytes of a packet: the header with the checksum of the template
/// header and the payload, the payload, and the terminator.
pub open spec fn spec_encode(stream: u32, message_id: u32, is_reply: bool, payload: Seq<u8>) -> Seq<u8> {
    let checksum = spec_crc32(header_template(stream, message_id, is_reply, payload.len()) + payload);
    be_bytes(PACKET_MAGIC) + be_bytes(checksum) + be_bytes(stream) + be_bytes(wire_message_id(message_id, is_reply))
        + be_bytes(payload.len() as u32) + payload + seq![TERMINATOR]
}

fn push_be(out: &mut Vec<u8>, x: u32)
    ensures
        final(out)@ == old(out)@ + be_bytes(x),
{
    out.push((x >> 24) as u8);
    out.push((x >> 16) as u8);
    out.push((x >> 8) as u8);
    out.push(x as u8);
    assert(final(out)@ =~= old(out)@ + be_bytes(x));
}

fn read_be(s: &[u8], i: usize) -> (r: u32)
    requires
        i + 4 <= s@.len(),
    ensures
        r == be_u32_at(s@, i as int),
{
    ((s[i] as u32) << 24) | ((s[i + 1] as u32) << 16) | ((s[i + 2] as u32) << 8) | (s[i + 3] as u32)
}

fn append_bytes(dst: &mut Vec<u8>, src: &[u8])
    ensures
        final(dst)@ == old(dst)@ + src@,
{
    let mut k: usize = 0;
    while k < src.len()
        invariant
            k <= src@.len(),
            dst@ == old(dst)@ + src@.subrange(0, k as int),
        decreases src@.len() - k,
    {
        dst.push(src[k]);
        proof {
            assert(src@.subrange(0, k + 1) =~= src@.subrange(0, k as int).push(src@[k as int]));
        }
        k += 1;
    }
    assert(src@.subrange(0, src@.len() as int) =~= src@);
}

/// The bytes of a packet with these fields.
pub fn encode_fields(stream: u32, message_id: u32, is_reply: bool, payload: &[u8]) -> (r: Vec<u8>)
    ensures
        r@ == spec_encode(stream, message_id, is_reply, payload@),
{
    let wire_id = if is_reply { message_id | REPLY_BIT } else { message_id };
    let len = payload.len() as u32;
    let mut template: Vec<u8> = Vec::new();
    push_be(&mut template, PACKET_MAGIC);
    push_be(&mut template, 0);
    push_be(&mut template, stream);
    push_be(&mut template, wire_id);
    push_be(&mut template, len);
    append_bytes(&mut template, payload);
    let checksum = crc32(template.as_slice());
    let mut out: Vec<u8> = Vec::new();
    push_be(&mut out, PACKET_MAGIC);
    push_be(&mut out, checksum);
    push_be(&mut out, stream);
    push_be(&mut out, wire_id);
    push_be(&mut out, len);
    append_bytes(&mut out, payload);
    out.push(TERMINATOR);
    proof {
        assert(template@ =~= header_template(stream, message_id, is_reply, payload@.len()) + payload@);
        assert(out@ =~= spec_encode(stream, message_id, is_reply, payload@));
    }
    out
}

/// The bytes of a packet.
pub fn write_packet_bytes(packet: &Packet) -> (r: Vec<u8>)
    ensures
        r@ == spec_encode(packet.stream, packet.message_id, packet.is_reply, packet.payload@),
{
    encode_fields(packet.stream, packet.message_id, packet.is_reply, packet.payload.as_slice())
}

/// Reads the fields of a 20-byte header, refusing a wrong magic number.
pub fn decode_header(raw: &[u8]) -> (r: Result<PacketHeader, PacketError>)
    requires
        raw@.len() == HEADER_SIZE,
    ensures
        match r {
            Ok(h) => {
                &&& be_u32_at(raw@, 0) == PACKET_MAGIC
                &&& h.checksum == be_u32_at(raw@, 4)
                &&& h.channel == be_u32_at(raw@, 8)
                &&& h.message_id_raw == be_u32_at(raw@, 12)
                &&& h.length == be_u32_at(raw@, 16)
            },
            Err(PacketError::InvalidMagic { expected, got }) => {
                &&& expected == PACKET_MAGIC
                &&& got == be_u32_at(raw@, 0)
                &&& got != PACKET_MAGIC
            },
            Err(_) => false,
        },
{
    let magic = read_be(raw, 0);
    if magic != PACKET_MAGIC {
        return Err(PacketError::InvalidMagic { expected: PACKET_MAGIC, got: magic });
    }
    Ok(PacketHeader {
        checksum: read_be(raw, 4),
        channel: read_be(raw, 8),
        message_id_raw: read_be(raw, 12),
        length: read_be(raw, 16),
    })
}

/// Checks the terminator and the checksum of a packet whose header was
/// read, and splits the reply bit off the message id.
pub fn finish_packet(header: &PacketHeader, raw_header: &[u8], payload: Vec<u8>, terminator: u8) -> (r: Result<
    Packet,
    PacketError,
>)
    requires
        raw_header@.len() == HEADER_SIZE,
    ensures
        match r {
            Ok(p) => {
                &&& terminator == TERMINATOR
                &&& header.checksum == spec_crc32(zero_checksum(raw_header@) + payload@)
                &&& p.stream == header.channel
                &&& p.message_id == header.message_id_raw & !REPLY_BIT
                &&& p.is_reply == (header.message_id_raw & REPLY_BIT != 0)
                &&& p.payload@ == payload@
            },
            Err(PacketError::InvalidTerminator { found }) => found == terminator && terminator != TERMINATOR,
            Err(PacketError::ChecksumMismatch { expected, got }) => {
                &&& terminator == TERMINATOR
                &&& expected == header.checksum
                &&& got == spec_crc32(zero_checksum(raw_header@) + payload@)
                &&& expected != got
            },
            Err(PacketError::InvalidMagic { .. }) => false,
        },
{
    if terminator != TERMINATOR {
        return Err(PacketError::InvalidTerminator { found: terminator });
    }
    let mut data: Vec<u8> = Vec::new();
    append_bytes(&mut data, raw_header);
    data.set(4, 0);
    data.set(5, 0);
    data.set(6, 0);
    data.set(7, 0);
    append_bytes(&mut data, payload.as_slice());
    let computed = crc32(data.as_slice());
    proof {
        assert(data@ =~= zero_checksum(raw_header@) + payload@);
    }
    if computed != header.checksum {
        return Err(PacketError::ChecksumMismatch { expected: header.checksum, got: computed });
    }
    let raw = header.message_id_raw;
    Ok(Packet { stream: header.channel, message_id: raw & !REPLY_BIT, is_reply: raw & REPLY_BIT != 0, payload })
}

proof fn lemma_be_roundtrip(x: u32)
    ensures
        be_u32_at(be_bytes(x), 0) == x,
{
    let b = be_bytes(x);
    assert(b[0] == (x >> 24) as u8 && b[1] == (x >> 16) as u8 && b[2] == (x >> 8) as u8 && b[3] == x as u8);
    assert(((((x >> 24) as u8) as u32) << 24) | ((((x >> 16) as u8) as u32) << 16) | ((((x >> 8) as u8) as u32) << 8)
        | ((x as u8) as u32) == x) by (bit_vector);
}

/// Reading back the bytes of a packet gives the packet: the header's magic
/// number, channel, message id, reply bit and length are the packet's, the
/// payload and terminator follow, and the checksum is that of the header
/// with a zeroed checksum field and the payload. This holds for message ids
/// below the reply bit and payloads whose length fits the length field.
pub proof fn lemma_decode_encode(stream: u32, message_id: u32, is_reply: bool, payload: Seq<u8>)
    requires
        message_id < REPLY_BIT,
        payload.len() <= u32::MAX,
    ensures
        ({
            let bytes = spec_encode(stream, message_id, is_reply, payload);
            let raw = bytes.subrange(0, HEADER_SIZE as int);
            &&& bytes.len() == HEADER_SIZE + payload.len() + 1
            &&& be_u32_at(raw, 0) == PACKET_MAGIC
            &&& be_u32_at(raw, 8) == stream
            &&& be_u32_at(raw, 12) & !REPLY_BIT == message_id
            &&& (be_u32_at(raw, 12) & REPLY_BIT != 0) == is_reply
            &&& be_u32_at(raw, 16) == payload.len()
            &&& bytes.subrange(HEADER_SIZE as int, HEADER_SIZE + payload.len()) == payload
            &&& bytes[HEADER_SIZE + payload.len()] == TERMINATOR
            &&& be_u32_at(raw, 4) == spec_crc32(zero_checksum(raw) + payload)
        }),
{
    let bytes = spec_encode(stream, message_id, is_reply, payload);
    let raw = bytes.subrange(0, HEADER_SIZE as int);
    let wire = wire_message_id(message_id, is_reply);
    let len = payload.len() as u32;
    let checksum = spec_crc32(header_template(stream, message_id, is_reply, payload.len()) + payload);
    assert(raw =~= be_bytes(PACKET_MAGIC) + be_bytes(checksum) + be_bytes(stream) + be_bytes(wire) + be_bytes(len));
    lemma_be_roundtrip(PACKET_MAGIC);
    lemma_be_roundtrip(checksum);
    lemma_be_roundtrip(stream);
    lemma_be_roundtrip(wire);
    lemma_be_roundtrip(len);
    assert(be_u32_at(raw, 0) == be_u32_at(be_bytes(PACKET_MAGIC), 0));
    assert(be_u32_at(raw, 4) == be_u32_at(be_bytes(checksum), 0));
    assert(be_u32_at(raw, 8) == be_u32_at(be_bytes(stream), 0));
    assert(be_u32_at(raw, 12) == be_u32_at(be_bytes(wire), 0));
    assert(be_u32_at(raw, 16) == be_u32_at(be_bytes(len), 0));
    assert(len == payload.len());
    if is_reply {
        assert((message_id | 0x8000_0000u32) & !0x8000_0000u32 == message_id) by (bit_vector)
            requires
                message_id < 0x8000_0000u32,
        ;
        assert((message_id | 0x8000_0000u32) & 0x8000_0000u32 != 0) by (bit_vector);
    } else {
        assert(message_id & !0x8000_0000u32 == message_id) by (bit_vector)
            requires
                message_id < 0x8000_0000u32,
        ;
        assert(message_id & 0x8000_0000u32 == 0) by (bit_vector)
            requires
                message_id < 0x8000_0000u32,
        ;
    }
    assert(be_bytes(0) =~= seq![0u8, 0u8, 0u8, 0u8]) by {
        assert((0u32 >> 24) as u8 == 0 && (0u32 >> 16) as u8 == 0 && (0u32 >> 8) as u8 == 0 && 0u32 as u8 == 0)
            by (bit_vector);
    }
    assert(zero_checksum(raw) =~= header_template(stream, message_id, is_reply, payload.len()));
    assert(bytes.subrange(HEADER_SIZE as int, HEADER_SIZE + payload.len()) =~= payload);
}

} // verus!
