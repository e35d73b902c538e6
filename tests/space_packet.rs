use pvdx::{CodecError, PacketType, SpacePacket, SpacePacketPrimaryHeader, SpacePacketSecondaryHeader};

#[test]
fn test_parse_space_packet() {
    // version=7, type=1, sec_hdr=0, app_id=0x123, seq_flag=3, seq=0x1FFF, len=2
    let metadata: u16 = (7 << 13) | (1 << 12) | (0 << 11) | 0x123;
    let packet_sequence_control: u16 = (3 << 14) | 0x1FFF;
    let data_length: u16 = 2;

    let data_bytes = [0xDE, 0xAD];

    let mut packet_bytes = Vec::new();
    packet_bytes.extend_from_slice(&metadata.to_be_bytes());
    packet_bytes.extend_from_slice(&packet_sequence_control.to_be_bytes());
    packet_bytes.extend_from_slice(&data_length.to_be_bytes());
    packet_bytes.extend_from_slice(&data_bytes);

    let packet = SpacePacket::from_bytes(&packet_bytes).unwrap();

    assert_eq!(packet.primary_header.packet_version_number, 7);
    assert_eq!(packet.primary_header.packet_type, PacketType::Telecommand);
    assert_eq!(packet.primary_header.secondary_header_flag, false);
    assert_eq!(packet.primary_header.application_process_id, 0x123);
    assert_eq!(packet.primary_header.sequence_flag, 3);
    assert_eq!(packet.primary_header.packet_sequence, 0x1FFF);
    assert_eq!(packet.primary_header.data_length, 2);
    assert_eq!(packet.data, vec![0xDE, 0xAD]);
}

#[test]
fn test_space_packet_roundtrip() {
    let header = SpacePacketPrimaryHeader {
        packet_version_number: 1,
        packet_type: PacketType::Telemetry,
        secondary_header_flag: true,
        application_process_id: 0x2A,
        sequence_flag: 2,
        packet_sequence: 0x1234,
        data_length: 3,
    };
    let secondary_header = SpacePacketSecondaryHeader {};
    let data = vec![0x01, 0x02, 0x03];

    let packet = SpacePacket {
        primary_header: header,
        secondary_header: Some(secondary_header),
        data: data.clone(),
    };

    let bytes = packet.to_bytes();
    let parsed = SpacePacket::from_bytes(&bytes).unwrap();
    assert_eq!(parsed, packet);
}

fn telecommand_header() -> SpacePacketPrimaryHeader {
    SpacePacketPrimaryHeader {
        packet_version_number: 7,
        packet_type: PacketType::Telecommand,
        secondary_header_flag: false,
        application_process_id: 0x123,
        sequence_flag: 3,
        packet_sequence: 0x1FFF,
        data_length: 2,
    }
}

#[test]
fn primary_header_bit_fields_encode_exactly() {
    let packet = SpacePacket {
        primary_header: telecommand_header(),
        secondary_header: None,
        data: vec![0xDE, 0xAD],
    };
    let bytes = packet.to_bytes();
    assert_eq!(bytes, vec![0xF1, 0x23, 0xDF, 0xFF, 0x00, 0x02, 0xDE, 0xAD]);
    let parsed = SpacePacket::from_bytes(&bytes).unwrap();
    assert_eq!(parsed, packet);
}

#[test]
fn primary_header_writer_and_reader_agree() {
    let mut out = vec![0xAA];
    telecommand_header().to_writer(&mut out);
    assert_eq!(out, vec![0xAA, 0xF1, 0x23, 0xDF, 0xFF, 0x00, 0x02]);
    let mut pos: usize = 1;
    let header = SpacePacketPrimaryHeader::from_reader(&out, &mut pos).unwrap();
    assert_eq!(header, telecommand_header());
    assert_eq!(pos, 7);
}

#[test]
fn primary_header_reader_leaves_cursor_on_short_input() {
    let bytes = [0xF1, 0x23, 0xFF, 0xFF, 0x00];
    let mut pos: usize = 0;
    assert_eq!(
        SpacePacketPrimaryHeader::from_reader(&bytes, &mut pos),
        Err(CodecError::Truncated)
    );
    assert_eq!(pos, 0);
}

#[test]
fn secondary_header_is_zero_width() {
    let bytes = [1u8, 2, 3];
    let mut pos: usize = 1;
    assert_eq!(
        SpacePacketSecondaryHeader::from_reader(&bytes, &mut pos),
        Ok(SpacePacketSecondaryHeader {})
    );
    assert_eq!(pos, 1);
    let mut out = vec![9u8];
    SpacePacketSecondaryHeader {}.to_writer(&mut out);
    assert_eq!(out, vec![9u8]);
}

#[test]
fn space_packet_with_secondary_header_flag_decodes_it() {
    // version=0, telemetry, secondary header flag set, apid=0x7FF, seq flag 1, count 5, len 1
    let bytes = [0x0F, 0xFF, 0x40, 0x05, 0x00, 0x01, 0x77];
    let packet = SpacePacket::from_bytes(&bytes).unwrap();
    assert_eq!(packet.primary_header.packet_version_number, 0);
    assert_eq!(packet.primary_header.packet_type, PacketType::Telemetry);
    assert!(packet.primary_header.secondary_header_flag);
    assert_eq!(packet.primary_header.application_process_id, 0x7FF);
    assert_eq!(packet.primary_header.sequence_flag, 1);
    assert_eq!(packet.primary_header.packet_sequence, 5);
    assert_eq!(packet.secondary_header, Some(SpacePacketSecondaryHeader {}));
    assert_eq!(packet.data, vec![0x77]);
}

#[test]
fn space_packet_short_header_is_truncated() {
    assert_eq!(SpacePacket::from_bytes(&[]), Err(CodecError::Truncated));
    assert_eq!(
        SpacePacket::from_bytes(&[0xF1, 0x23, 0xFF]),
        Err(CodecError::Truncated)
    );
}

#[test]
fn space_packet_short_data_is_truncated() {
    let bytes = [0xF1, 0x23, 0xFF, 0xFF, 0x00, 0x03, 0xDE, 0xAD];
    assert_eq!(SpacePacket::from_bytes(&bytes), Err(CodecError::Truncated));
}

#[test]
fn space_packet_ignores_trailing_bytes() {
    let bytes = [0xF1, 0x23, 0xFF, 0xFF, 0x00, 0x01, 0xDE, 0xAD, 0xBE];
    let packet = SpacePacket::from_bytes(&bytes).unwrap();
    assert_eq!(packet.data, vec![0xDE]);
    assert_eq!(packet.primary_header.data_length, 1);
}

#[test]
fn space_packet_empty_data_field() {
    let header = SpacePacketPrimaryHeader {
        packet_version_number: 0,
        packet_type: PacketType::Telemetry,
        secondary_header_flag: false,
        application_process_id: 0,
        sequence_flag: 0,
        packet_sequence: 0,
        data_length: 0,
    };
    let packet = SpacePacket { primary_header: header, secondary_header: None, data: vec![] };
    let bytes = packet.to_bytes();
    assert_eq!(bytes, vec![0, 0, 0, 0, 0, 0]);
    assert_eq!(SpacePacket::from_bytes(&bytes).unwrap(), packet);
}

#[test]
fn space_packet_largest_field_values_round_trip() {
    let header = SpacePacketPrimaryHeader {
        packet_version_number: 7,
        packet_type: PacketType::Telecommand,
        secondary_header_flag: true,
        application_process_id: 0x7FF,
        sequence_flag: 3,
        packet_sequence: 0x3FFF,
        data_length: 4,
    };
    let packet = SpacePacket {
        primary_header: header,
        secondary_header: Some(SpacePacketSecondaryHeader {}),
        data: vec![1, 2, 3, 4],
    };
    let bytes = packet.to_bytes();
    assert_eq!(&bytes[..6], &[0xFF, 0xFF, 0xFF, 0xFF, 0x00, 0x04]);
    assert_eq!(SpacePacket::from_bytes(&bytes).unwrap(), packet);
}

#[test]
fn packet_type_codes() {
    assert_eq!(PacketType::try_from(0u8), Ok(PacketType::Telemetry));
    assert_eq!(PacketType::try_from(1u8), Ok(PacketType::Telecommand));
    assert_eq!(PacketType::try_from(2u8), Err(CodecError::InvalidPacketType));
    assert_eq!(PacketType::try_from(255u8), Err(CodecError::InvalidPacketType));
    assert_eq!(u8::from(PacketType::Telemetry), 0);
    assert_eq!(u8::from(PacketType::Telecommand), 1);
}
