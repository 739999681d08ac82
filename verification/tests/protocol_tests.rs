use hegel::protocol::packet::{decode_header, PacketError, HEADER_SIZE, TERMINATOR};
use hegel::protocol::Packet;

fn roundtrip(packet: &Packet) -> Packet {
    let bytes = packet.encode();
    assert_eq!(bytes.len(), HEADER_SIZE + packet.payload.len() + 1);
    let raw = &bytes[..HEADER_SIZE];
    let header = match decode_header(raw) {
        Ok(h) => h,
        Err(_) => panic!("header refused"),
    };
    assert_eq!(header.length as usize, packet.payload.len());
    let payload = bytes[HEADER_SIZE..HEADER_SIZE + packet.payload.len()].to_vec();
    let terminator = bytes[HEADER_SIZE + packet.payload.len()];
    match Packet::decode(&header, raw, payload, terminator) {
        Ok(p) => p,
        Err(_) => panic!("packet refused"),
    }
}

#[test]
fn test_packet_roundtrip() {
    let packet = Packet::request(1, 42, b"hello world".to_vec());
    let received = roundtrip(&packet);
    assert_eq!(received.channel, 1);
    assert_eq!(received.message_id, 42);
    assert!(!received.is_reply);
    assert_eq!(received.payload, b"hello world");
}

#[test]
fn test_reply_packet() {
    let packet = Packet::reply(2, 100, b"response".to_vec());
    let received = roundtrip(&packet);
    assert_eq!(received.channel, 2);
    assert_eq!(received.message_id, 100);
    assert!(received.is_reply);
    assert_eq!(received.payload, b"response");
}

#[test]
fn header_layout_is_big_endian_with_magic() {
    let packet = Packet::request(0x01020304, 7, vec![0xAA]);
    let bytes = packet.encode();
    assert_eq!(&bytes[0..4], b"HEGL");
    assert_eq!(&bytes[8..12], &[1, 2, 3, 4]);
    assert_eq!(&bytes[12..16], &[0, 0, 0, 7]);
    assert_eq!(&bytes[16..20], &[0, 0, 0, 1]);
    assert_eq!(bytes[20], 0xAA);
    assert_eq!(bytes[21], TERMINATOR);
    let checksum = u32::from_be_bytes([bytes[4], bytes[5], bytes[6], bytes[7]]);
    let mut zeroed = bytes[..HEADER_SIZE].to_vec();
    zeroed[4..8].copy_from_slice(&[0, 0, 0, 0]);
    zeroed.push(0xAA);
    assert_eq!(checksum, crc32fast::hash(&zeroed));
}

#[test]
fn reply_bit_is_set_on_the_wire() {
    let bytes = Packet::reply(0, 5, Vec::new()).encode();
    assert_eq!(&bytes[12..16], &[0x80, 0, 0, 5]);
}

#[test]
fn bad_magic_is_refused() {
    let mut bytes = Packet::request(1, 2, vec![3]).encode();
    bytes[0] = b'X';
    match decode_header(&bytes[..HEADER_SIZE]) {
        Err(PacketError::InvalidMagic { expected, got }) => {
            assert_eq!(expected, 0x4845474C);
            assert_eq!(got, 0x5845474C);
        }
        _ => panic!("expected a magic error"),
    }
}

#[test]
fn bad_terminator_is_refused() {
    let bytes = Packet::request(1, 2, vec![3]).encode();
    let raw = &bytes[..HEADER_SIZE];
    let header = match decode_header(raw) {
        Ok(h) => h,
        Err(_) => panic!("header refused"),
    };
    match Packet::decode(&header, raw, vec![3], 0x00) {
        Err(PacketError::InvalidTerminator { found }) => assert_eq!(found, 0),
        _ => panic!("expected a terminator error"),
    }
}

#[test]
fn corrupted_payload_fails_the_checksum() {
    let bytes = Packet::request(1, 2, vec![3, 4]).encode();
    let raw = &bytes[..HEADER_SIZE];
    let header = match decode_header(raw) {
        Ok(h) => h,
        Err(_) => panic!("header refused"),
    };
    match Packet::decode(&header, raw, vec![3, 5], TERMINATOR) {
        Err(PacketError::ChecksumMismatch { expected, got }) => {
            assert_eq!(expected, header.checksum);
            assert_ne!(expected, got);
        }
        _ => panic!("expected a checksum error"),
    }
}
