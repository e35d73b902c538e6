use pvdx::wire::{read_u16, read_u32, write_u16, write_u32};
use pvdx::{
    ADCSUpdate, CodecError, Command, UplinkCommandHeader, UplinkPacket, UplinkPacketHeader,
    BITMAP_LEN,
};

fn sample_update() -> ADCSUpdate {
    ADCSUpdate {
        timestamp: 0,
        inclination: 1.0f32.to_bits(),
        raan: 2.0f32.to_bits(),
        eccentricity: 3.0f32.to_bits(),
        perigee_arg: 4.0f32.to_bits(),
        mean_anomaly: 5.0f32.to_bits(),
        mean_motion: 6.0f32.to_bits(),
    }
}

fn every_command() -> Vec<Command> {
    let mut bitmap = [0u8; BITMAP_LEN];
    for (i, b) in bitmap.iter_mut().enumerate() {
        *b = (i % 251) as u8;
    }
    vec![
        Command::DeviceEnable { device: 1 },
        Command::DeviceDisable { device: 2 },
        Command::DeviceBreak { device: 3 },
        Command::DeviceUnbreak { device: 4 },
        Command::DisplayUpdate { bitmap },
        Command::Sleep { duration: 0x0102_0304 },
        Command::Reboot,
        Command::PictureCapture { timestamp: 1_700_000_001 },
        Command::PictureSend { count: 0xBEEF },
        Command::SetTime { timestamp: 1_700_000_000 },
        Command::SetPowerMode { mode: 5 },
        Command::ADCSSetOpMode { mode: 6 },
        Command::ADCSSetKeplers { update: sample_update() },
    ]
}

fn command_sub_header(cmd_type: u16, cmd_sz: u32) -> Vec<u8> {
    let mut out = Vec::new();
    out.extend_from_slice(&cmd_type.to_be_bytes());
    out.extend_from_slice(&[0, 0]);
    out.extend_from_slice(&cmd_sz.to_be_bytes());
    out
}

fn packet_header(n_cmds: u16, size: u32) -> Vec<u8> {
    let mut out = b"PVDX01".to_vec();
    out.extend_from_slice(&[0, 0]);
    out.extend_from_slice(&size.to_be_bytes());
    out.extend_from_slice(&n_cmds.to_be_bytes());
    out.extend_from_slice(&[0, 0]);
    out
}

#[test]
fn build_derives_sizes_and_sub_headers() {
    let packet = UplinkPacket::new(
        *b"PVDX01",
        vec![Command::Reboot, Command::SetTime { timestamp: 1_700_000_000 }],
    );
    assert_eq!(packet.header.callsign, *b"PVDX01");
    assert_eq!(packet.header.n_cmds, 2);
    assert_eq!(packet.header.size, 36);
    assert_eq!(packet.header._pad1, [0, 0]);
    assert_eq!(packet.header._pad2, [0, 0]);
    assert_eq!(
        packet.cmd_headers,
        vec![
            UplinkCommandHeader { cmd_type: 6, _pad: [0, 0], cmd_sz: 0 },
            UplinkCommandHeader { cmd_type: 9, _pad: [0, 0], cmd_sz: 4 },
        ]
    );
    assert_eq!(packet.commands.len(), 2);
}

#[test]
fn build_encodes_to_exact_bytes() {
    let packet = UplinkPacket::new(
        *b"PVDX01",
        vec![Command::Reboot, Command::SetTime { timestamp: 1_700_000_000 }],
    );
    let bytes = packet.to_bytes();
    let mut expected = packet_header(2, 36);
    expected.extend(command_sub_header(6, 0));
    expected.extend(command_sub_header(9, 4));
    expected.extend_from_slice(&1_700_000_000u32.to_be_bytes());
    assert_eq!(bytes, expected);
    assert_eq!(bytes.len(), 36);
}

#[test]
fn build_with_no_commands() {
    let packet = UplinkPacket::new(*b"ABCDEF", vec![]);
    assert_eq!(packet.header.n_cmds, 0);
    assert_eq!(packet.header.size, 16);
    assert!(packet.cmd_headers.is_empty());
    let bytes = packet.to_bytes();
    assert_eq!(bytes.len(), 16);
    let parsed = UplinkPacket::from_bytes(&bytes).unwrap();
    assert_eq!(parsed.header, packet.header);
    assert!(parsed.commands.is_empty());
}

#[test]
fn uplink_round_trip_every_command() {
    let commands = every_command();
    let packet = UplinkPacket::new(*b"PVDX01", commands.clone());
    assert_eq!(packet.header.n_cmds, 13);
    assert_eq!(
        packet.header.size,
        16 + 8 * 13 + (1 + 1 + 1 + 1 + 8192 + 4 + 0 + 4 + 2 + 4 + 1 + 1 + 28)
    );
    let bytes = packet.to_bytes();
    assert_eq!(bytes.len() as u32, packet.header.size);
    let parsed = UplinkPacket::from_bytes(&bytes).unwrap();
    assert_eq!(parsed.header, packet.header);
    assert_eq!(parsed.cmd_headers, packet.cmd_headers);
    assert_eq!(parsed.commands, commands);
}

#[test]
fn command_tags_and_sizes() {
    let expected: [(u16, u32); 13] = [
        (0, 1),
        (1, 1),
        (2, 1),
        (3, 1),
        (4, 8192),
        (5, 4),
        (6, 0),
        (7, 4),
        (8, 2),
        (9, 4),
        (10, 1),
        (11, 1),
        (12, 28),
    ];
    for (cmd, (tag, size)) in every_command().iter().zip(expected.iter()) {
        assert_eq!(cmd.cmd_type_to(), *tag);
        assert_eq!(cmd.data_size(), *size);
        assert_eq!(cmd.to_bytes().len() as u32, *size);
        assert_eq!(Command::from_bytes(*tag, &cmd.to_bytes()).unwrap(), *cmd);
    }
}

#[test]
fn command_payloads_are_big_endian() {
    assert_eq!(
        Command::Sleep { duration: 0x0102_0304 }.to_bytes(),
        vec![0x01, 0x02, 0x03, 0x04]
    );
    assert_eq!(Command::PictureSend { count: 0xBEEF }.to_bytes(), vec![0xBE, 0xEF]);
    assert_eq!(Command::DeviceEnable { device: 9 }.to_bytes(), vec![9]);
    assert!(Command::Reboot.to_bytes().is_empty());
    assert_eq!(
        Command::from_bytes(5, &[0x01, 0x02, 0x03, 0x04]),
        Ok(Command::Sleep { duration: 0x0102_0304 })
    );
    assert_eq!(
        Command::from_bytes(8, &[0xBE, 0xEF]),
        Ok(Command::PictureSend { count: 0xBEEF })
    );
}

#[test]
fn command_reads_only_its_leading_bytes() {
    assert_eq!(
        Command::from_bytes(0, &[7, 8, 9]),
        Ok(Command::DeviceEnable { device: 7 })
    );
    assert_eq!(Command::from_bytes(6, &[1, 2, 3, 4]), Ok(Command::Reboot));
}

#[test]
fn unknown_command_type_is_rejected() {
    assert_eq!(Command::from_bytes(13, &[0; 64]), Err(CodecError::InvalidCommandType));
    assert_eq!(Command::from_bytes(0xFFFF, &[]), Err(CodecError::InvalidCommandType));

    let mut bytes = packet_header(1, 16 + 8 + 1);
    bytes.extend(command_sub_header(13, 1));
    bytes.push(0);
    assert!(matches!(
        UplinkPacket::from_bytes(&bytes),
        Err(CodecError::InvalidCommandType)
    ));
}

#[test]
fn short_bitmap_is_truncated() {
    assert_eq!(
        Command::from_bytes(4, &[0u8; BITMAP_LEN - 1]),
        Err(CodecError::Truncated)
    );
    assert_eq!(Command::from_bytes(4, &[]), Err(CodecError::Truncated));

    // A sub-header that declares only 100 bytes for a bitmap.
    let mut bytes = packet_header(1, 16 + 8 + 100);
    bytes.extend(command_sub_header(4, 100));
    bytes.extend(vec![0xAB; 100]);
    assert!(matches!(UplinkPacket::from_bytes(&bytes), Err(CodecError::Truncated)));

    // A sub-header that declares the full bitmap, with the input cut short.
    let mut bytes = packet_header(1, 16 + 8 + 8192);
    bytes.extend(command_sub_header(4, 8192));
    bytes.extend(vec![0xAB; 8000]);
    assert!(matches!(UplinkPacket::from_bytes(&bytes), Err(CodecError::Truncated)));
}

#[test]
fn short_fixed_width_payloads_are_truncated() {
    assert_eq!(Command::from_bytes(0, &[]), Err(CodecError::Truncated));
    assert_eq!(Command::from_bytes(5, &[1, 2, 3]), Err(CodecError::Truncated));
    assert_eq!(Command::from_bytes(8, &[1]), Err(CodecError::Truncated));
    assert_eq!(Command::from_bytes(12, &[0; 27]), Err(CodecError::Truncated));
}

#[test]
fn adcs_update_is_exact() {
    let update = sample_update();
    let bytes = Command::ADCSSetKeplers { update }.to_bytes();
    assert_eq!(bytes.len(), 28);
    assert_eq!(&bytes[..4], &[0, 0, 0, 0]);
    assert_eq!(&bytes[4..8], &1.0f32.to_be_bytes());
    assert_eq!(&bytes[24..28], &6.0f32.to_be_bytes());

    let mut pos: usize = 0;
    let decoded = ADCSUpdate::from_reader(&bytes, &mut pos).unwrap();
    assert_eq!(pos, 28);
    assert_eq!(decoded, update);
    assert_eq!(f32::from_bits(decoded.inclination), 1.0);
    assert_eq!(f32::from_bits(decoded.raan), 2.0);
    assert_eq!(f32::from_bits(decoded.eccentricity), 3.0);
    assert_eq!(f32::from_bits(decoded.perigee_arg), 4.0);
    assert_eq!(f32::from_bits(decoded.mean_anomaly), 5.0);
    assert_eq!(f32::from_bits(decoded.mean_motion), 6.0);

    let mut out = Vec::new();
    update.to_writer(&mut out);
    assert_eq!(out, bytes);
}

#[test]
fn uplink_truncated_header_and_sub_headers() {
    assert!(matches!(UplinkPacket::from_bytes(&[]), Err(CodecError::Truncated)));
    let header = packet_header(0, 16);
    assert!(matches!(
        UplinkPacket::from_bytes(&header[..15]),
        Err(CodecError::Truncated)
    ));
    // Two commands announced, only one sub-header present.
    let mut bytes = packet_header(2, 0);
    bytes.extend(command_sub_header(6, 0));
    assert!(matches!(UplinkPacket::from_bytes(&bytes), Err(CodecError::Truncated)));
}

#[test]
fn uplink_header_reader_and_writer() {
    let header = UplinkPacketHeader {
        callsign: *b"PVDX01",
        _pad1: [0, 0],
        size: 0x0102_0304,
        n_cmds: 0x0506,
        _pad2: [0, 0],
    };
    let mut out = Vec::new();
    header.to_writer(&mut out);
    assert_eq!(out, packet_header(0x0506, 0x0102_0304));
    let mut pos: usize = 0;
    assert_eq!(UplinkPacketHeader::from_reader(&out, &mut pos), Ok(header));
    assert_eq!(pos, 16);
}

#[test]
fn reserved_bytes_are_written_as_zero_and_kept_when_read() {
    let header = UplinkPacketHeader {
        callsign: *b"PVDX01",
        _pad1: [1, 2],
        size: 16,
        n_cmds: 0,
        _pad2: [3, 4],
    };
    let mut out = Vec::new();
    header.to_writer(&mut out);
    assert_eq!(&out[6..8], &[0, 0]);
    assert_eq!(&out[14..16], &[0, 0]);

    let mut bytes = out.clone();
    bytes[6] = 0xAA;
    let mut pos: usize = 0;
    let read = UplinkPacketHeader::from_reader(&bytes, &mut pos).unwrap();
    assert_eq!(read._pad1, [0xAA, 0]);

    let sub = UplinkCommandHeader { cmd_type: 0x0A0B, _pad: [7, 7], cmd_sz: 0x0C0D_0E0F };
    let mut out = Vec::new();
    sub.to_writer(&mut out);
    assert_eq!(out, vec![0x0A, 0x0B, 0, 0, 0x0C, 0x0D, 0x0E, 0x0F]);
    let mut pos: usize = 0;
    let read = UplinkCommandHeader::from_reader(&out, &mut pos).unwrap();
    assert_eq!(read, UplinkCommandHeader { cmd_type: 0x0A0B, _pad: [0, 0], cmd_sz: 0x0C0D_0E0F });
    assert_eq!(pos, 8);
}

#[test]
fn declared_size_selects_bytes_consumed() {
    // Reboot declared with 4 bytes: those bytes are skipped, the next
    // command is read after them.
    let mut bytes = packet_header(2, 0);
    bytes.extend(command_sub_header(6, 4));
    bytes.extend(command_sub_header(10, 1));
    bytes.extend_from_slice(&[9, 9, 9, 9, 3]);
    let parsed = UplinkPacket::from_bytes(&bytes).unwrap();
    assert_eq!(
        parsed.commands,
        vec![Command::Reboot, Command::SetPowerMode { mode: 3 }]
    );
    assert_eq!(parsed.header.size, 0);
}

#[test]
fn big_endian_primitives() {
    let bytes = [0x12, 0x34, 0x56, 0x78];
    let mut pos: usize = 0;
    assert_eq!(read_u16(&bytes, &mut pos), Ok(0x1234));
    assert_eq!(pos, 2);
    assert_eq!(read_u16(&bytes, &mut pos), Ok(0x5678));
    assert_eq!(read_u16(&bytes, &mut pos), Err(CodecError::Truncated));
    assert_eq!(pos, 4);
    let mut pos: usize = 0;
    assert_eq!(read_u32(&bytes, &mut pos), Ok(0x1234_5678));
    let mut pos: usize = 1;
    assert_eq!(read_u32(&bytes, &mut pos), Err(CodecError::Truncated));
    assert_eq!(pos, 1);

    let mut out = Vec::new();
    write_u16(&mut out, 0x1234);
    write_u32(&mut out, 0x89AB_CDEF);
    assert_eq!(out, vec![0x12, 0x34, 0x89, 0xAB, 0xCD, 0xEF]);
}

#[test]
fn adcs_command_round_trips_inside_a_packet() {
    let packet = UplinkPacket::new(
        *b"PVDX01",
        vec![Command::ADCSSetKeplers { update: sample_update() }],
    );
    assert_eq!(packet.header.size, 16 + 8 + 28);
    let parsed = UplinkPacket::from_bytes(&packet.to_bytes()).unwrap();
    assert_eq!(
        parsed.commands,
        vec![Command::ADCSSetKeplers { update: sample_update() }]
    );
}
