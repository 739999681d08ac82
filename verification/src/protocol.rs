//! The binary packet protocol for talking to the Hegel server.
//!
//! A packet is a 20-byte header (magic number, CRC32 checksum, channel,
//! message id with the reply bit, payload length, all big-endian), the
//! payload, and a terminator byte. Reading and writing streams is left to
//! the caller; this module builds and checks the bytes, and keeps the
//! bookkeeping of channels ([`inbox`]) and of the connection that carries
//! them ([`router`]).

pub mod inbox;
pub mod router;
pub mod packet;

use vstd::prelude::*;

pub use packet::PacketError;

verus! {

/// A packet in the wire protocol.
pub struct Packet {
    pub channel: u32,
    pub message_id: u32,
    pub is_reply: bool,
    pub payload: Vec<u8>,
}

/// The message id of the request that closes a channel.
pub const CLOSE_CHANNEL_MESSAGE_ID: u32 = 0x7FFF_FFFF;

/// The payload byte of the request that closes a channel.
pub const CLOSE_CHANNEL_BYTE: u8 = 0xFE;

impl Packet {
    /// The request that tells the other side a channel is closed.
    pub fn close_channel(channel: u32) -> (p: Self)
        ensures
            p.channel == channel,
            p.message_id == CLOSE_CHANNEL_MESSAGE_ID,
            !p.is_reply,
            p.payload@ == seq![CLOSE_CHANNEL_BYTE],
    {
        let mut payload: Vec<u8> = Vec::new();
        payload.push(CLOSE_CHANNEL_BYTE);
        Packet { channel, message_id: CLOSE_CHANNEL_MESSAGE_ID, is_reply: false, payload }
    }

    /// A new request packet.
    pub fn request(channel: u32, message_id: u32, payload: Vec<u8>) -> (p: Self)
        ensures
            p.channel == channel,
            p.message_id == message_id,
            !p.is_reply,
            p.payload == payload,
    {
        Packet { channel, message_id, is_reply: false, payload }
    }

    /// A new reply packet.
    pub fn reply(channel: u32, message_id: u32, payload: Vec<u8>) -> (p: Self)
        ensures
            p.channel == channel,
            p.message_id == message_id,
            p.is_reply,
            p.payload == payload,
    {
        Packet { channel, message_id, is_reply: true, payload }
    }

    /// The bytes that carry this packet on the wire.
    pub fn encode(&self) -> (r: Vec<u8>)
        ensures
            r@ == packet::spec_encode(self.channel, self.message_id, self.is_reply, self.payload@),
    {
        packet::encode_fields(self.channel, self.message_id, self.is_reply, self.payload.as_slice())
    }

    /// The packet carried by a header, a payload and a terminator byte, once
    /// the terminator and the checksum have been checked.
    pub fn decode(header: &packet::PacketHeader, raw_header: &[u8], payload: Vec<u8>, terminator: u8) -> (r: Result<
        Packet,
        PacketError,
    >)
        requires
            raw_header@.len() == packet::HEADER_SIZE,
            header.channel == packet::be_u32_at(raw_header@, 8),
            header.checksum == packet::be_u32_at(raw_header@, 4),
            header.message_id_raw == packet::be_u32_at(raw_header@, 12),
        ensures
            match r {
                Ok(p) => {
                    &&& terminator == packet::TERMINATOR
                    &&& header.checksum == packet::spec_crc32(packet::zero_checksum(raw_header@) + payload@)
                    &&& p.channel == header.channel
                    &&& p.message_id == header.message_id_raw & !packet::REPLY_BIT
                    &&& p.is_reply == (header.message_id_raw & packet::REPLY_BIT != 0)
                    &&& p.payload@ == payload@
                },
                Err(PacketError::InvalidTerminator { found }) => found == terminator && terminator != packet::TERMINATOR,
                Err(PacketError::ChecksumMismatch { expected, got }) => {
                    &&& terminator == packet::TERMINATOR
                    &&& expected == header.checksum
                    &&& got == packet::spec_crc32(packet::zero_checksum(raw_header@) + payload@)
                    &&& expected != got
                },
                Err(PacketError::InvalidMagic { .. }) => false,
            },
    {
        let p = packet::finish_packet(header, raw_header, payload, terminator)?;
        Ok(Packet { channel: p.stream, message_id: p.message_id, is_reply: p.is_reply, payload: p.payload })
    }
}

} // verus!
