use reassembly::packet::Data;
use reassembly::packet::Header;
use reassembly::packet::Packet;
use reassembly::packet::PacketParseError;

#[test]
fn emoji_in_file_name() {
    let sparkle_heart: &[u8] = "\x00\x0CThis file is lovely 💖".as_bytes();
    let result = Header::try_from(sparkle_heart);
    assert_eq!(
        result,
        Ok(Header {
            file_id: 12,
            file_name: "This file is lovely 💖".as_bytes().to_vec(),
        })
    );
}

#[test]
fn valid_header_packet() {
    let valid_packet: &[u8] = b"\x00\x01Hello";
    let result = Header::try_from(valid_packet);
    assert_eq!(
        result,
        Ok(Header {
            file_id: 1,
            file_name: b"Hello".to_vec(),
        })
    );
}

#[test]
fn invalid_header_packet() {
    let invalid_packet: &[u8] = b"\x00\x01";
    let result = Header::try_from(invalid_packet);
    assert_eq!(result, Err(PacketParseError::InvalidHeaderPacket));
}

#[test]
fn invalid_data_packet() {
    let invalid_packet: &[u8] = b"\x01\x01";
    let result = Data::try_from(invalid_packet);
    assert_eq!(result, Err(PacketParseError::InvalidDataPacket));
}

#[test]
fn valid_data_packet() {
    let valid_packet: &[u8] = b"\x01\x01\x00\x01\x00\x02Hello";
    let result = Data::try_from(valid_packet);
    assert_eq!(
        result,
        Ok(Data {
            file_id: 1,
            packet_number: 1,
            is_last_packet: false,
            data: b"\x02Hello".to_vec(),
        })
    );
}

#[test]
fn test_packet_parsing() {
    let header_packet: &[u8] = b"\x00\x01Hello";
    let data_packet: &[u8] = b"\x01\x01\x00\x01\x00\x02Hello";

    let header_result = Packet::try_from(header_packet);
    assert!(header_result.is_ok());

    let data_result = Packet::try_from(data_packet);
    assert!(data_result.is_ok());
}

#[test]
fn empty_buffer_is_rejected() {
    let empty: &[u8] = b"";
    let result = Packet::try_from(empty);
    assert!(matches!(result, Err(PacketParseError::InvalidHeaderPacket)));
}

#[test]
fn short_even_flagged_buffer_is_invalid_header() {
    // Flag byte 2 is even, so the two-byte buffer is header-typed and too
    // short; it must be rejected cleanly.
    let short: &[u8] = &[2u8, 5u8];
    let result = Packet::try_from(short);
    assert!(matches!(result, Err(PacketParseError::InvalidHeaderPacket)));
}

#[test]
fn short_odd_flagged_buffer_is_invalid_data() {
    let short: &[u8] = &[3u8, 5u8, 0u8, 0u8, 1u8];
    let result = Packet::try_from(short);
    assert!(matches!(result, Err(PacketParseError::InvalidDataPacket)));
}

#[test]
fn data_fields_round_trip_through_the_wire_form() {
    // The canonical wire form of a data packet: flag 1, file id, the
    // sequence number in big-endian, the terminal marker, the payload.
    let file_id: u8 = 9;
    let packet_number: u16 = 0x0304;
    let is_last_packet = true;
    let payload: &[u8] = b"chunk";

    let mut wire: Vec<u8> = vec![
        1,
        file_id,
        (packet_number >> 8) as u8,
        (packet_number & 0xFF) as u8,
        1,
    ];
    wire.extend_from_slice(payload);

    let decoded = Data::try_from(wire.as_slice()).unwrap();
    assert_eq!(decoded.file_id, file_id);
    assert_eq!(decoded.packet_number, packet_number);
    assert_eq!(decoded.is_last_packet, is_last_packet);
    assert_eq!(decoded.data, payload.to_vec());
}

#[test]
fn header_name_preserves_arbitrary_bytes() {
    // A name that is not valid UTF-8 must come through byte-for-byte.
    let wire: &[u8] = &[0, 3, 0xFF, 0xFE, 0x00, 0x41];
    let decoded = Header::try_from(wire).unwrap();
    assert_eq!(decoded.file_id, 3);
    assert_eq!(decoded.file_name, vec![0xFF, 0xFE, 0x00, 0x41]);
}

#[test]
fn terminal_marker_must_be_exactly_one() {
    // Byte 4 decides the terminal flag: 1 means last, anything else not.
    let wire_last: &[u8] = &[1, 4, 0, 2, 1, 0xAA];
    let wire_not_last: &[u8] = &[1, 4, 0, 2, 7, 0xAA];
    assert!(Data::try_from(wire_last).unwrap().is_last_packet);
    assert!(!Data::try_from(wire_not_last).unwrap().is_last_packet);
}
