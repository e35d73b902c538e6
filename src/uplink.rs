//! The uplink command packet: a 16-byte packet header, one 8-byte
//! sub-header per command, then the commands' payloads, in order.
use crate::wire::{
    array_of, be_u16_bytes, be_u16_value, be_u32_bytes, be_u32_value, lemma_array_of,
    lemma_be_u16_round_trip, lemma_be_u32_round_trip, read_array, read_u16, read_u32, read_u8,
    rest, write_all, write_u16, write_u32, write_u8, CodecError,
};
use vstd::prelude::*;

verus! {

/// Size in bytes of a display bitmap.
pub const BITMAP_LEN: usize = 8192;

/// Orbital elements for the attitude determination and control subsystem.
///
/// Each element is held as the bit pattern of an IEEE-754 single-precision
/// float (what `f32::to_bits` gives), so that it travels bit for bit.
#[derive(Debug, Clone, Copy, PartialEq, Eq, Structural)]
pub struct ADCSUpdate {
    /// UNIX time of the elements' epoch.
    pub timestamp: u32,
    pub inclination: u32,
    /// Right ascension of the ascending node.
    pub raan: u32,
    pub eccentricity: u32,
    /// Argument of perigee.
    pub perigee_arg: u32,
    pub mean_anomaly: u32,
    pub mean_motion: u32,
}

/// The 28-byte record: the seven fields, each four bytes big-endian.
pub open spec fn adcs_update_bytes(u: ADCSUpdate) -> Seq<u8> {
    be_u32_bytes(u.timestamp) + be_u32_bytes(u.inclination) + be_u32_bytes(u.raan) + be_u32_bytes(
        u.eccentricity,
    ) + be_u32_bytes(u.perigee_arg) + be_u32_bytes(u.mean_anomaly) + be_u32_bytes(u.mean_motion)
}

/// The record in the first 28 bytes of `b`.
pub open spec fn adcs_update_of(b: Seq<u8>) -> ADCSUpdate {
    ADCSUpdate {
        timestamp: be_u32_value(b),
        inclination: be_u32_value(rest(b, 4)),
        raan: be_u32_value(rest(b, 8)),
        eccentricity: be_u32_value(rest(b, 12)),
        perigee_arg: be_u32_value(rest(b, 16)),
        mean_anomaly: be_u32_value(rest(b, 20)),
        mean_motion: be_u32_value(rest(b, 24)),
    }
}

impl ADCSUpdate {
    /// Reads the record at `*pos`; on success advances past its 28 bytes,
    /// on failure leaves `*pos` where it was.
    pub fn from_reader(input: &[u8], pos: &mut usize) -> (r: Result<Self, CodecError>)
        requires
            *old(pos) <= input@.len(),
        ensures
            *old(pos) + 28 <= input@.len() ==> r == Ok::<Self, CodecError>(
                adcs_update_of(rest(input@, *old(pos) as int)),
            ) && *final(pos) == *old(pos) + 28,
            *old(pos) + 28 > input@.len() ==> r == Err::<Self, CodecError>(CodecError::Truncated)
                && *final(pos) == *old(pos),
    {
        if input.len() - *pos < 28 {
            return Err(CodecError::Truncated);
        }
        let ghost start = *pos as int;
        let timestamp = read_u32(input, pos)?;
        let inclination = read_u32(input, pos)?;
        let raan = read_u32(input, pos)?;
        let eccentricity = read_u32(input, pos)?;
        let perigee_arg = read_u32(input, pos)?;
        let mean_anomaly = read_u32(input, pos)?;
        let mean_motion = read_u32(input, pos)?;
        proof {
            let b = rest(input@, start);
            assert(rest(b, 4) =~= rest(input@, start + 4));
            assert(rest(b, 8) =~= rest(input@, start + 8));
            assert(rest(b, 12) =~= rest(input@, start + 12));
            assert(rest(b, 16) =~= rest(input@, start + 16));
            assert(rest(b, 20) =~= rest(input@, start + 20));
            assert(rest(b, 24) =~= rest(input@, start + 24));
        }
        Ok(ADCSUpdate {
            timestamp,
            inclination,
            raan,
            eccentricity,
            perigee_arg,
            mean_anomaly,
            mean_motion,
        })
    }

    /// Appends the 28-byte record.
    pub fn to_writer(&self, out: &mut Vec<u8>)
        ensures
            final(out)@ == old(out)@ + adcs_update_bytes(*self),
    {
        write_u32(out, self.timestamp);
        write_u32(out, self.inclination);
        write_u32(out, self.raan);
        write_u32(out, self.eccentricity);
        write_u32(out, self.perigee_arg);
        write_u32(out, self.mean_anomaly);
        write_u32(out, self.mean_motion);
        assert(out@ =~= old(out)@ + adcs_update_bytes(*self));
    }
}

/// The record is 28 bytes long and decodes to itself, bit for bit.
pub proof fn lemma_adcs_update_round_trip(u: ADCSUpdate, tail: Seq<u8>)
    ensures
        adcs_update_bytes(u).len() == 28,
        adcs_update_of(adcs_update_bytes(u) + tail) == u,
{
    let b = adcs_update_bytes(u) + tail;
    lemma_be_u32_round_trip(u.timestamp, rest(b, 4));
    lemma_be_u32_round_trip(u.inclination, rest(b, 8));
    lemma_be_u32_round_trip(u.raan, rest(b, 12));
    lemma_be_u32_round_trip(u.eccentricity, rest(b, 16));
    lemma_be_u32_round_trip(u.perigee_arg, rest(b, 20));
    lemma_be_u32_round_trip(u.mean_anomaly, rest(b, 24));
    lemma_be_u32_round_trip(u.mean_motion, tail);
    assert(b =~= be_u32_bytes(u.timestamp) + rest(b, 4));
    assert(rest(b, 4) =~= be_u32_bytes(u.inclination) + rest(b, 8));
    assert(rest(b, 8) =~= be_u32_bytes(u.raan) + rest(b, 12));
    assert(rest(b, 12) =~= be_u32_bytes(u.eccentricity) + rest(b, 16));
    assert(rest(b, 16) =~= be_u32_bytes(u.perigee_arg) + rest(b, 20));
    assert(rest(b, 20) =~= be_u32_bytes(u.mean_anomaly) + rest(b, 24));
    assert(rest(b, 24) =~= be_u32_bytes(u.mean_motion) + tail);
}

/// A spacecraft command. Each variant has a fixed numeric tag and a fixed
/// payload size.
#[derive(Debug, Clone, PartialEq)]
pub enum Command {
    DeviceEnable { device: u8 },
    DeviceDisable { device: u8 },
    DeviceBreak { device: u8 },
    DeviceUnbreak { device: u8 },
    DisplayUpdate { bitmap: [u8; BITMAP_LEN] },
    Sleep { duration: u32 },
    Reboot,
    PictureSend { count: u16 },
    PictureCapture { timestamp: u32 },
    SetTime { timestamp: u32 },
    SetPowerMode { mode: u8 },
    ADCSSetOpMode { mode: u8 },
    ADCSSetKeplers { update: ADCSUpdate },
}

/// The command registry: the payload size of each known tag, `None` for
/// tags outside it.
pub open spec fn tag_payload_size(tag: u16) -> Option<u32> {
    if tag <= 3 {
        Some(1)
    } else if tag == 4 {
        Some(BITMAP_LEN as u32)
    } else if tag == 5 || tag == 7 || tag == 9 {
        Some(4)
    } else if tag == 6 {
        Some(0)
    } else if tag == 8 {
        Some(2)
    } else if tag == 10 || tag == 11 {
        Some(1)
    } else if tag == 12 {
        Some(28)
    } else {
        None
    }
}

/// The command with tag `tag` whose payload starts `b`, for a known tag
/// and a `b` at least as long as that tag's payload.
pub open spec fn command_of(tag: u16, b: Seq<u8>) -> Command {
    if tag == 0 {
        Command::DeviceEnable { device: b[0] }
    } else if tag == 1 {
        Command::DeviceDisable { device: b[0] }
    } else if tag == 2 {
        Command::DeviceBreak { device: b[0] }
    } else if tag == 3 {
        Command::DeviceUnbreak { device: b[0] }
    } else if tag == 4 {
        Command::DisplayUpdate { bitmap: array_of::<BITMAP_LEN>(b.subrange(0, BITMAP_LEN as int)) }
    } else if tag == 5 {
        Command::Sleep { duration: be_u32_value(b) }
    } else if tag == 6 {
        Command::Reboot
    } else if tag == 7 {
        Command::PictureCapture { timestamp: be_u32_value(b) }
    } else if tag == 8 {
        Command::PictureSend { count: be_u16_value(b) }
    } else if tag == 9 {
        Command::SetTime { timestamp: be_u32_value(b) }
    } else if tag == 10 {
        Command::SetPowerMode { mode: b[0] }
    } else if tag == 11 {
        Command::ADCSSetOpMode { mode: b[0] }
    } else {
        Command::ADCSSetKeplers { update: adcs_update_of(b) }
    }
}

/// Decoding a payload `b` declared with tag `tag`: unknown tags are
/// rejected, a payload shorter than the tag's size is truncated, and only
/// that many leading bytes are read.
pub open spec fn parse_command(tag: u16, b: Seq<u8>) -> Result<Command, CodecError> {
    match tag_payload_size(tag) {
        None => Err(CodecError::InvalidCommandType),
        Some(n) => if b.len() < n {
            Err(CodecError::Truncated)
        } else {
            Ok(command_of(tag, b))
        },
    }
}

impl Command {
    /// The command's numeric tag.
    pub open spec fn tag(&self) -> u16 {
        match self {
            Command::DeviceEnable { .. } => 0,
            Command::DeviceDisable { .. } => 1,
            Command::DeviceBreak { .. } => 2,
            Command::DeviceUnbreak { .. } => 3,
            Command::DisplayUpdate { .. } => 4,
            Command::Sleep { .. } => 5,
            Command::Reboot => 6,
            Command::PictureCapture { .. } => 7,
            Command::PictureSend { .. } => 8,
            Command::SetTime { .. } => 9,
            Command::SetPowerMode { .. } => 10,
            Command::ADCSSetOpMode { .. } => 11,
            Command::ADCSSetKeplers { .. } => 12,
        }
    }

    /// The command's payload on the wire.
    pub open spec fn payload(&self) -> Seq<u8> {
        match self {
            Command::DeviceEnable { device } => seq![*device],
            Command::DeviceDisable { device } => seq![*device],
            Command::DeviceBreak { device } => seq![*device],
            Command::DeviceUnbreak { device } => seq![*device],
            Command::DisplayUpdate { bitmap } => bitmap@,
            Command::Sleep { duration } => be_u32_bytes(*duration),
            Command::Reboot => seq![],
            Command::PictureSend { count } => be_u16_bytes(*count),
            Command::PictureCapture { timestamp } => be_u32_bytes(*timestamp),
            Command::SetTime { timestamp } => be_u32_bytes(*timestamp),
            Command::SetPowerMode { mode } => seq![*mode],
            Command::ADCSSetOpMode { mode } => seq![*mode],
            Command::ADCSSetKeplers { update } => adcs_update_bytes(*update),
        }
    }

    /// The payload size that the registry gives for the command's tag.
    pub open spec fn payload_size(&self) -> u32 {
        tag_payload_size(self.tag())->Some_0
    }

    /// The command's numeric tag.
    pub fn cmd_type_to(&self) -> (r: u16)
        ensures
            r == self.tag(),
    {
        match self {
            Command::DeviceEnable { .. } => 0,
            Command::DeviceDisable { .. } => 1,
            Command::DeviceBreak { .. } => 2,
            Command::DeviceUnbreak { .. } => 3,
            Command::DisplayUpdate { .. } => 4,
            Command::Sleep { .. } => 5,
            Command::Reboot => 6,
            Command::PictureCapture { .. } => 7,
            Command::PictureSend { .. } => 8,
            Command::SetTime { .. } => 9,
            Command::SetPowerMode { .. } => 10,
            Command::ADCSSetOpMode { .. } => 11,
            Command::ADCSSetKeplers { .. } => 12,
        }
    }

    /// The size in bytes of the command's payload.
    pub fn data_size(&self) -> (r: u32)
        ensures
            r == self.payload_size(),
            r == self.payload().len(),
            tag_payload_size(self.tag()) == Some(r),
    {
        proof {
            lemma_payload_len(*self);
        }
        match self {
            Command::DeviceEnable { .. } => 1,
            Command::DeviceDisable { .. } => 1,
            Command::DeviceBreak { .. } => 1,
            Command::DeviceUnbreak { .. } => 1,
            Command::DisplayUpdate { .. } => 8192,
            Command::Sleep { .. } => 4,
            Command::Reboot => 0,
            Command::PictureSend { .. } => 2,
            Command::PictureCapture { .. } => 4,
            Command::SetTime { .. } => 4,
            Command::SetPowerMode { .. } => 1,
            Command::ADCSSetOpMode { .. } => 1,
            Command::ADCSSetKeplers { .. } => 28,
        }
    }

    /// Encodes the command's payload.
    pub fn to_bytes(&self) -> (r: Vec<u8>)
        ensures
            r@ == self.payload(),
    {
        let mut out: Vec<u8> = Vec::new();
        match self {
            Command::DeviceEnable { device } => write_u8(&mut out, *device),
            Command::DeviceDisable { device } => write_u8(&mut out, *device),
            Command::DeviceBreak { device } => write_u8(&mut out, *device),
            Command::DeviceUnbreak { device } => write_u8(&mut out, *device),
            Command::DisplayUpdate { bitmap } => write_all(&mut out, bitmap.as_slice()),
            Command::Sleep { duration } => write_u32(&mut out, *duration),
            Command::Reboot => {},
            Command::PictureSend { count } => write_u16(&mut out, *count),
            Command::PictureCapture { timestamp } => write_u32(&mut out, *timestamp),
            Command::SetTime { timestamp } => write_u32(&mut out, *timestamp),
            Command::SetPowerMode { mode } => write_u8(&mut out, *mode),
            Command::ADCSSetOpMode { mode } => write_u8(&mut out, *mode),
            Command::ADCSSetKeplers { update } => update.to_writer(&mut out),
        }
        assert(out@ =~= self.payload());
        out
    }

    /// Decodes the payload `bytes` of a command declared with tag `cmd_type`.
    /// Only the payload's leading bytes that the tag calls for are read.
    pub fn from_bytes(cmd_type: u16, bytes: &[u8]) -> (r: Result<Self, CodecError>)
        ensures
            r == parse_command(cmd_type, bytes@),
            cmd_type >= 13 ==> r == Err::<Self, CodecError>(CodecError::InvalidCommandType),
            cmd_type == 4 && bytes@.len() < BITMAP_LEN ==> r == Err::<Self, CodecError>(
                CodecError::Truncated,
            ),
    {
        let mut pos: usize = 0;
        proof {
            assert(rest(bytes@, 0) =~= bytes@);
        }
        match cmd_type {
            0 => Ok(Command::DeviceEnable { device: read_u8(bytes, &mut pos)? }),
            1 => Ok(Command::DeviceDisable { device: read_u8(bytes, &mut pos)? }),
            2 => Ok(Command::DeviceBreak { device: read_u8(bytes, &mut pos)? }),
            3 => Ok(Command::DeviceUnbreak { device: read_u8(bytes, &mut pos)? }),
            4 => Ok(Command::DisplayUpdate { bitmap: read_array::<BITMAP_LEN>(bytes, &mut pos)? }),
            5 => Ok(Command::Sleep { duration: read_u32(bytes, &mut pos)? }),
            6 => Ok(Command::Reboot),
            7 => Ok(Command::PictureCapture { timestamp: read_u32(bytes, &mut pos)? }),
            8 => Ok(Command::PictureSend { count: read_u16(bytes, &mut pos)? }),
            9 => Ok(Command::SetTime { timestamp: read_u32(bytes, &mut pos)? }),
            10 => Ok(Command::SetPowerMode { mode: read_u8(bytes, &mut pos)? }),
            11 => Ok(Command::ADCSSetOpMode { mode: read_u8(bytes, &mut pos)? }),
            12 => Ok(Command::ADCSSetKeplers { update: ADCSUpdate::from_reader(bytes, &mut pos)? }),
            _ => Err(CodecError::InvalidCommandType),
        }
    }
}

/// Every command's tag is in the registry, and its payload has the size
/// that the registry gives for that tag.
pub proof fn lemma_payload_len(c: Command)
    ensures
        tag_payload_size(c.tag()) == Some(c.payload_size()),
        c.payload().len() == c.payload_size(),
        c.payload_size() <= BITMAP_LEN,
{
    broadcast use vstd::array::group_array_axioms;

    match c {
        Command::ADCSSetKeplers { update } => {
            lemma_adcs_update_round_trip(update, seq![]);
        },
        _ => {},
    }
}

/// A command's payload, followed by anything, decodes under its tag to
/// the same command.
pub proof fn lemma_command_round_trip(c: Command, tail: Seq<u8>)
    ensures
        parse_command(c.tag(), c.payload() + tail) == Ok::<Command, CodecError>(c),
{
    lemma_payload_len(c);
    let b = c.payload() + tail;
    match c {
        Command::DisplayUpdate { bitmap } => {
            assert(b.subrange(0, BITMAP_LEN as int) =~= bitmap@);
            lemma_array_of(bitmap);
        },
        Command::Sleep { duration } => lemma_be_u32_round_trip(duration, tail),
        Command::PictureCapture { timestamp } => lemma_be_u32_round_trip(timestamp, tail),
        Command::PictureSend { count } => lemma_be_u16_round_trip(count, tail),
        Command::SetTime { timestamp } => lemma_be_u32_round_trip(timestamp, tail),
        Command::ADCSSetKeplers { update } => lemma_adcs_update_round_trip(update, tail),
        _ => {},
    }
}

/// The two reserved bytes of a header, which are always written as zero.
pub open spec fn zero_pad() -> [u8; 2] {
    array_of::<2>(seq![0u8, 0u8])
}

/// The fixed 16-byte packet header.
#[derive(Debug, Clone, Copy, PartialEq, Eq)]
pub struct UplinkPacketHeader {
    /// Opaque sender identifier, not null-terminated.
    pub callsign: [u8; 6],
    /// Reserved.
    pub _pad1: [u8; 2],
    /// Total packet size in bytes: header, sub-headers and payloads.
    pub size: u32,
    /// Number of commands.
    pub n_cmds: u16,
    /// Reserved.
    pub _pad2: [u8; 2],
}

/// The header's 16 bytes on the wire; reserved bytes are zero.
pub open spec fn uplink_header_bytes(h: UplinkPacketHeader) -> Seq<u8> {
    h.callsign@ + seq![0u8, 0u8] + be_u32_bytes(h.size) + be_u16_bytes(h.n_cmds) + seq![0u8, 0u8]
}

/// The header in the first 16 bytes of `b`; reserved bytes are kept as read.
pub open spec fn uplink_header_of(b: Seq<u8>) -> UplinkPacketHeader {
    UplinkPacketHeader {
        callsign: array_of::<6>(b.subrange(0, 6)),
        _pad1: array_of::<2>(b.subrange(6, 8)),
        size: be_u32_value(rest(b, 8)),
        n_cmds: be_u16_value(rest(b, 12)),
        _pad2: array_of::<2>(b.subrange(14, 16)),
    }
}

impl UplinkPacketHeader {
    /// Reads the header at `*pos`; on success advances past its 16 bytes,
    /// on failure leaves `*pos` where it was.
    pub fn from_reader(input: &[u8], pos: &mut usize) -> (r: Result<Self, CodecError>)
        requires
            *old(pos) <= input@.len(),
        ensures
            *old(pos) + 16 <= input@.len() ==> r == Ok::<Self, CodecError>(
                uplink_header_of(rest(input@, *old(pos) as int)),
            ) && *final(pos) == *old(pos) + 16,
            *old(pos) + 16 > input@.len() ==> r == Err::<Self, CodecError>(CodecError::Truncated)
                && *final(pos) == *old(pos),
    {
        if input.len() - *pos < 16 {
            return Err(CodecError::Truncated);
        }
        let ghost start = *pos as int;
        let callsign = read_array::<6>(input, pos)?;
        let _pad1 = read_array::<2>(input, pos)?;
        let size = read_u32(input, pos)?;
        let n_cmds = read_u16(input, pos)?;
        let _pad2 = read_array::<2>(input, pos)?;
        proof {
            let b = rest(input@, start);
            assert(b.subrange(0, 6) =~= input@.subrange(start, start + 6));
            assert(b.subrange(6, 8) =~= input@.subrange(start + 6, start + 8));
            assert(rest(b, 8) =~= rest(input@, start + 8));
            assert(rest(b, 12) =~= rest(input@, start + 12));
            assert(b.subrange(14, 16) =~= input@.subrange(start + 14, start + 16));
        }
        Ok(UplinkPacketHeader { callsign, _pad1, size, n_cmds, _pad2 })
    }

    /// Appends the header's 16 bytes, with zero reserved bytes.
    pub fn to_writer(&self, out: &mut Vec<u8>)
        ensures
            final(out)@ == old(out)@ + uplink_header_bytes(*self),
    {
        write_all(out, self.callsign.as_slice());
        write_u8(out, 0);
        write_u8(out, 0);
        write_u32(out, self.size);
        write_u16(out, self.n_cmds);
        write_u8(out, 0);
        write_u8(out, 0);
        assert(out@ =~= old(out)@ + uplink_header_bytes(*self));
    }
}

/// The fixed 8-byte sub-header announcing one command.
#[derive(Debug, Clone, Copy, PartialEq, Eq)]
pub struct UplinkCommandHeader {
    /// The command's tag.
    pub cmd_type: u16,
    /// Reserved.
    pub _pad: [u8; 2],
    /// Size in bytes of the command's payload.
    pub cmd_sz: u32,
}

/// The sub-header's 8 bytes on the wire; reserved bytes are zero.
pub open spec fn cmd_header_bytes(h: UplinkCommandHeader) -> Seq<u8> {
    be_u16_bytes(h.cmd_type) + seq![0u8, 0u8] + be_u32_bytes(h.cmd_sz)
}

/// The sub-header in the first 8 bytes of `b`; reserved bytes are kept as read.
pub open spec fn cmd_header_of(b: Seq<u8>) -> UplinkCommandHeader {
    UplinkCommandHeader {
        cmd_type: be_u16_value(b),
        _pad: array_of::<2>(b.subrange(2, 4)),
        cmd_sz: be_u32_value(rest(b, 4)),
    }
}

/// The sub-header that announces command `c`.
pub open spec fn cmd_header_for(c: Command) -> UplinkCommandHeader {
    UplinkCommandHeader { cmd_type: c.tag(), _pad: zero_pad(), cmd_sz: c.payload_size() }
}

impl UplinkCommandHeader {
    /// Reads the sub-header at `*pos`; on success advances past its 8 bytes,
    /// on failure leaves `*pos` where it was.
    pub fn from_reader(input: &[u8], pos: &mut usize) -> (r: Result<Self, CodecError>)
        requires
            *old(pos) <= input@.len(),
        ensures
            *old(pos) + 8 <= input@.len() ==> r == Ok::<Self, CodecError>(
                cmd_header_of(rest(input@, *old(pos) as int)),
            ) && *final(pos) == *old(pos) + 8,
            *old(pos) + 8 > input@.len() ==> r == Err::<Self, CodecError>(CodecError::Truncated)
                && *final(pos) == *old(pos),
    {
        if input.len() - *pos < 8 {
            return Err(CodecError::Truncated);
        }
        let ghost start = *pos as int;
        let cmd_type = read_u16(input, pos)?;
        let _pad = read_array::<2>(input, pos)?;
        let cmd_sz = read_u32(input, pos)?;
        proof {
            let b = rest(input@, start);
            assert(b.subrange(2, 4) =~= input@.subrange(start + 2, start + 4));
            assert(rest(b, 4) =~= rest(input@, start + 4));
        }
        Ok(UplinkCommandHeader { cmd_type, _pad, cmd_sz })
    }

    /// Appends the sub-header's 8 bytes, with zero reserved bytes.
    pub fn to_writer(&self, out: &mut Vec<u8>)
        ensures
            final(out)@ == old(out)@ + cmd_header_bytes(*self),
    {
        write_u16(out, self.cmd_type);
        write_u8(out, 0);
        write_u8(out, 0);
        write_u32(out, self.cmd_sz);
        assert(out@ =~= old(out)@ + cmd_header_bytes(*self));
    }
}

/// The zero reserved bytes decode back to the zero pad.
proof fn lemma_zero_pad(a: [u8; 2])
    requires
        a@ == seq![0u8, 0u8],
    ensures
        a == zero_pad(),
{
    lemma_array_of(a);
}

/// A header with zero reserved bytes decodes to itself.
pub proof fn lemma_uplink_header_round_trip(h: UplinkPacketHeader, tail: Seq<u8>)
    requires
        h._pad1 == zero_pad(),
        h._pad2 == zero_pad(),
    ensures
        uplink_header_bytes(h).len() == 16,
        uplink_header_of(uplink_header_bytes(h) + tail) == h,
{
    broadcast use vstd::array::group_array_axioms;

    let b = uplink_header_bytes(h) + tail;
    lemma_be_u32_round_trip(h.size, rest(b, 12));
    lemma_be_u16_round_trip(h.n_cmds, rest(b, 14));
    assert(b.subrange(0, 6) =~= h.callsign@);
    lemma_array_of(h.callsign);
    assert(b.subrange(6, 8) =~= seq![0u8, 0u8]);
    assert(b.subrange(14, 16) =~= seq![0u8, 0u8]);
    assert(rest(b, 8) =~= be_u32_bytes(h.size) + rest(b, 12));
    assert(rest(b, 12) =~= be_u16_bytes(h.n_cmds) + rest(b, 14));
}

/// A sub-header with zero reserved bytes decodes to itself.
pub proof fn lemma_cmd_header_round_trip(h: UplinkCommandHeader, tail: Seq<u8>)
    requires
        h._pad == zero_pad(),
    ensures
        cmd_header_bytes(h).len() == 8,
        cmd_header_of(cmd_header_bytes(h) + tail) == h,
{
    let b = cmd_header_bytes(h) + tail;
    lemma_be_u16_round_trip(h.cmd_type, rest(b, 2));
    lemma_be_u32_round_trip(h.cmd_sz, tail);
    assert(b =~= be_u16_bytes(h.cmd_type) + rest(b, 2));
    assert(b.subrange(2, 4) =~= seq![0u8, 0u8]);
    assert(rest(b, 4) =~= be_u32_bytes(h.cmd_sz) + tail);
}

/// An uplink packet: header, one sub-header per command, and the commands.
pub struct UplinkPacket {
    pub header: UplinkPacketHeader,
    pub cmd_headers: Vec<UplinkCommandHeader>,
    pub commands: Vec<Command>,
}

/// The mathematical content of an [`UplinkPacket`].
#[verifier::ext_equal]
pub struct UplinkPacketView {
    pub header: UplinkPacketHeader,
    pub cmd_headers: Seq<UplinkCommandHeader>,
    pub commands: Seq<Command>,
}

impl View for UplinkPacket {
    type V = UplinkPacketView;

    open spec fn view(&self) -> UplinkPacketView {
        UplinkPacketView {
            header: self.header,
            cmd_headers: self.cmd_headers@,
            commands: self.commands@,
        }
    }
}

/// The sub-headers `hs` on the wire, in order.
pub open spec fn cmd_headers_bytes(hs: Seq<UplinkCommandHeader>) -> Seq<u8> {
    hs.map_values(|h: UplinkCommandHeader| cmd_header_bytes(h)).flatten()
}

/// The payloads of `cs` on the wire, in order.
pub open spec fn commands_bytes(cs: Seq<Command>) -> Seq<u8> {
    cs.map_values(|c: Command| c.payload()).flatten()
}

/// The sum of the payload sizes of `cs`.
pub open spec fn total_payload_size(cs: Seq<Command>) -> int
    decreases cs.len(),
{
    if cs.len() == 0 {
        0
    } else {
        total_payload_size(cs.drop_last()) + cs.last().payload_size()
    }
}

/// The `n` consecutive sub-headers at the start of `b`.
pub open spec fn parse_cmd_headers(b: Seq<u8>, n: nat) -> Seq<UplinkCommandHeader>
    decreases n,
{
    if n == 0 {
        seq![]
    } else {
        seq![cmd_header_of(b)] + parse_cmd_headers(rest(b, 8), (n - 1) as nat)
    }
}

/// The commands announced by `hs`, whose payloads follow one another from
/// the start of `b`: each takes exactly its declared size, and the first
/// payload that is cut short or does not decode gives the error.
pub open spec fn parse_commands(b: Seq<u8>, hs: Seq<UplinkCommandHeader>) -> Result<
    Seq<Command>,
    CodecError,
>
    decreases hs.len(),
{
    if hs.len() == 0 {
        Ok(seq![])
    } else if b.len() < hs[0].cmd_sz {
        Err(CodecError::Truncated)
    } else {
        match parse_command(hs[0].cmd_type, b.subrange(0, hs[0].cmd_sz as int)) {
            Err(e) => Err(e),
            Ok(c) => match parse_commands(rest(b, hs[0].cmd_sz as int), hs.drop_first()) {
                Err(e) => Err(e),
                Ok(cs) => Ok(seq![c] + cs),
            },
        }
    }
}

/// `r` with `cs` put in front of its commands, if it holds any.
pub open spec fn prefixed(cs: Seq<Command>, r: Result<Seq<Command>, CodecError>) -> Result<
    Seq<Command>,
    CodecError,
> {
    match r {
        Ok(more) => Ok(cs + more),
        Err(e) => Err(e),
    }
}

/// The uplink packet at the start of `b`: the header, then as many
/// sub-headers as it announces, then their payloads. The size field is
/// not checked; bytes after the last payload are ignored.
pub open spec fn parse_uplink_packet(b: Seq<u8>) -> Result<UplinkPacketView, CodecError> {
    if b.len() < 16 {
        Err(CodecError::Truncated)
    } else {
        let h = uplink_header_of(b);
        if b.len() < 16 + 8 * h.n_cmds {
            Err(CodecError::Truncated)
        } else {
            let hs = parse_cmd_headers(rest(b, 16), h.n_cmds as nat);
            match parse_commands(rest(b, 16 + 8 * h.n_cmds), hs) {
                Err(e) => Err(e),
                Ok(cs) => Ok(UplinkPacketView { header: h, cmd_headers: hs, commands: cs }),
            }
        }
    }
}

impl UplinkPacketView {
    /// The header and sub-headers are those derived from the commands:
    /// counts agree, the size is `16 + 8 * n + Σ payload sizes`, each
    /// sub-header carries its command's tag and size, and reserved bytes
    /// are zero.
    pub open spec fn is_consistent(&self) -> bool {
        &&& self.header.n_cmds == self.commands.len()
        &&& self.cmd_headers.len() == self.commands.len()
        &&& self.header.size == 16 + 8 * self.commands.len() + total_payload_size(self.commands)
        &&& self.header._pad1 == zero_pad()
        &&& self.header._pad2 == zero_pad()
        &&& forall|i: int|
            0 <= i < self.commands.len() ==> #[trigger] self.cmd_headers[i] == cmd_header_for(
                self.commands[i],
            )
    }
}

impl UplinkPacket {
    /// The packet on the wire: header, all sub-headers, then all payloads.
    pub open spec fn spec_bytes(&self) -> Seq<u8> {
        uplink_header_bytes(self.header) + cmd_headers_bytes(self.cmd_headers@) + commands_bytes(
            self.commands@,
        )
    }
}

/// Mapping then flattening one more element of a prefix appends that
/// element's image.
proof fn lemma_flatten_take<A>(xs: Seq<A>, f: spec_fn(A) -> Seq<u8>, i: int)
    requires
        0 <= i < xs.len(),
    ensures
        xs.take(i + 1).map_values(f).flatten() == xs.take(i).map_values(f).flatten() + f(xs[i]),
{
    assert(xs.take(i + 1).map_values(f) =~= xs.take(i).map_values(f).push(f(xs[i])));
    xs.take(i).map_values(f).lemma_flatten_push(f(xs[i]));
}

proof fn lemma_cmd_headers_bytes_take(hs: Seq<UplinkCommandHeader>, i: int)
    requires
        0 <= i < hs.len(),
    ensures
        cmd_headers_bytes(hs.take(i + 1)) == cmd_headers_bytes(hs.take(i)) + cmd_header_bytes(hs[i]),
{
    lemma_flatten_take(hs, |h: UplinkCommandHeader| cmd_header_bytes(h), i);
}

proof fn lemma_commands_bytes_take(cs: Seq<Command>, i: int)
    requires
        0 <= i < cs.len(),
    ensures
        commands_bytes(cs.take(i + 1)) == commands_bytes(cs.take(i)) + cs[i].payload(),
{
    lemma_flatten_take(cs, |c: Command| c.payload(), i);
}

proof fn lemma_parse_cmd_headers_len(b: Seq<u8>, n: nat)
    ensures
        parse_cmd_headers(b, n).len() == n,
    decreases n,
{
    if n > 0 {
        lemma_parse_cmd_headers_len(rest(b, 8), (n - 1) as nat);
    }
}

/// Mapping then flattening a non-empty sequence puts its first element's
/// image in front of the rest.
proof fn lemma_flatten_first<A>(xs: Seq<A>, f: spec_fn(A) -> Seq<u8>)
    requires
        xs.len() > 0,
    ensures
        xs.map_values(f).flatten() == f(xs[0]) + xs.drop_first().map_values(f).flatten(),
{
    assert(xs.map_values(f).drop_first() =~= xs.drop_first().map_values(f));
}

/// The payloads of a sequence of commands add up to at most one bitmap each.
proof fn lemma_total_payload_bound(cs: Seq<Command>)
    ensures
        0 <= total_payload_size(cs) <= BITMAP_LEN * cs.len(),
    decreases cs.len(),
{
    if cs.len() > 0 {
        lemma_total_payload_bound(cs.drop_last());
        lemma_payload_len(cs.last());
    }
}

/// Sub-headers with zero reserved bytes decode to themselves.
proof fn lemma_cmd_headers_round_trip(hs: Seq<UplinkCommandHeader>, tail: Seq<u8>)
    requires
        forall|i: int| 0 <= i < hs.len() ==> (#[trigger] hs[i])._pad == zero_pad(),
    ensures
        cmd_headers_bytes(hs).len() == 8 * hs.len(),
        parse_cmd_headers(cmd_headers_bytes(hs) + tail, hs.len()) == hs,
    decreases hs.len(),
{
    let f = |h: UplinkCommandHeader| cmd_header_bytes(h);
    if hs.len() == 0 {
        assert(parse_cmd_headers(cmd_headers_bytes(hs) + tail, 0) =~= hs);
    } else {
        let rest_hs = hs.drop_first();
        assert forall|i: int| 0 <= i < rest_hs.len() implies (#[trigger] rest_hs[i])._pad
            == zero_pad() by {
            assert(rest_hs[i] == hs[i + 1]);
        }
        lemma_cmd_headers_round_trip(rest_hs, tail);
        lemma_flatten_first(hs, f);
        let b = cmd_headers_bytes(hs) + tail;
        lemma_cmd_header_round_trip(hs[0], cmd_headers_bytes(rest_hs) + tail);
        assert(b =~= cmd_header_bytes(hs[0]) + (cmd_headers_bytes(rest_hs) + tail));
        assert(rest(b, 8) =~= cmd_headers_bytes(rest_hs) + tail);
        assert(parse_cmd_headers(b, hs.len()) =~= hs);
    }
}

/// The payloads of commands, announced by their own sub-headers, decode to
/// the same commands.
proof fn lemma_commands_round_trip(
    cs: Seq<Command>,
    hs: Seq<UplinkCommandHeader>,
    tail: Seq<u8>,
)
    requires
        hs.len() == cs.len(),
        forall|i: int| 0 <= i < cs.len() ==> #[trigger] hs[i] == cmd_header_for(cs[i]),
    ensures
        parse_commands(commands_bytes(cs) + tail, hs) == Ok::<Seq<Command>, CodecError>(cs),
    decreases cs.len(),
{
    let f = |c: Command| c.payload();
    if cs.len() == 0 {
        assert(cs =~= seq![]);
    } else {
        let rest_cs = cs.drop_first();
        let rest_hs = hs.drop_first();
        assert forall|i: int| 0 <= i < rest_cs.len() implies #[trigger] rest_hs[i]
            == cmd_header_for(rest_cs[i]) by {
            assert(rest_hs[i] == hs[i + 1]);
        }
        lemma_commands_round_trip(rest_cs, rest_hs, tail);
        lemma_flatten_first(cs, f);
        let c = cs[0];
        let b = commands_bytes(cs) + tail;
        lemma_payload_len(c);
        let n = c.payload_size() as int;
        assert(b =~= c.payload() + (commands_bytes(rest_cs) + tail));
        assert(b.subrange(0, n) =~= c.payload() + seq![]);
        lemma_command_round_trip(c, seq![]);
        assert(rest(b, n) =~= commands_bytes(rest_cs) + tail);
        assert(seq![c] + rest_cs =~= cs);
    }
}

/// Round trip: decoding the encoding of a packet whose headers are derived
/// from its commands (as [`UplinkPacket::new`] builds it) gives back the
/// same packet, field for field.
pub proof fn lemma_uplink_round_trip(p: UplinkPacket)
    requires
        p@.is_consistent(),
    ensures
        parse_uplink_packet(p.spec_bytes()) == Ok::<UplinkPacketView, CodecError>(p@),
{
    let hs = p.cmd_headers@;
    let cs = p.commands@;
    let n = cs.len() as int;
    let hb = cmd_headers_bytes(hs);
    let cb = commands_bytes(cs);
    let b = p.spec_bytes();
    assert forall|i: int| 0 <= i < hs.len() implies (#[trigger] hs[i])._pad == zero_pad() by {
        assert(hs[i] == cmd_header_for(cs[i]));
    }
    lemma_cmd_headers_round_trip(hs, cb);
    lemma_uplink_header_round_trip(p.header, hb + cb);
    lemma_commands_round_trip(cs, hs, seq![]);
    assert(b =~= uplink_header_bytes(p.header) + (hb + cb));
    assert(rest(b, 16) =~= hb + cb);
    assert(rest(b, 16 + 8 * n) =~= cb + seq![]);
    assert(parse_uplink_packet(b)->Ok_0 =~= p@);
}

impl UplinkPacket {
    /// Builds the packet for `commands` under `callsign`, deriving the
    /// command count, each sub-header and the total size from the commands.
    pub fn new(callsign: [u8; 6], commands: Vec<Command>) -> (r: Self)
        requires
            commands@.len() <= 0xFFFF,
        ensures
            r.header.callsign == callsign,
            r.commands@ == commands@,
            r@.is_consistent(),
    {
        broadcast use vstd::array::group_array_axioms;

        let n_cmds = commands.len() as u16;
        let mut data_size: u32 = 0;
        let mut cmd_headers: Vec<UplinkCommandHeader> = Vec::new();
        let mut i: usize = 0;
        while i < commands.len()
            invariant
                commands@.len() <= 0xFFFF,
                i <= commands@.len(),
                data_size == total_payload_size(commands@.take(i as int)),
                data_size <= BITMAP_LEN * i,
                cmd_headers@.len() == i,
                forall|j: int| 0 <= j < i ==> #[trigger] cmd_headers@[j] == cmd_header_for(commands@[j]),
            decreases commands@.len() - i,
        {
            let cmd = &commands[i];
            let sz = cmd.data_size();
            proof {
                lemma_payload_len(*cmd);
                assert(commands@.take(i + 1).drop_last() =~= commands@.take(i as int));
            }
            data_size = data_size + sz;
            let pad = [0u8; 2];
            proof {
                assert(pad@ =~= seq![0u8, 0u8]);
                lemma_zero_pad(pad);
            }
            cmd_headers.push(UplinkCommandHeader { cmd_type: cmd.cmd_type_to(), _pad: pad, cmd_sz: sz });
            i = i + 1;
        }
        assert(commands@.take(i as int) =~= commands@);
        let total_size = 16 + (n_cmds as u32) * 8 + data_size;
        let pad1 = [0u8; 2];
        let pad2 = [0u8; 2];
        proof {
            assert(pad1@ =~= seq![0u8, 0u8]);
            assert(pad2@ =~= seq![0u8, 0u8]);
            lemma_zero_pad(pad1);
            lemma_zero_pad(pad2);
        }
        let header = UplinkPacketHeader {
            callsign,
            _pad1: pad1,
            size: total_size,
            n_cmds,
            _pad2: pad2,
        };
        UplinkPacket { header, cmd_headers, commands }
    }

    /// Encodes the packet: header, then all sub-headers, then all payloads.
    /// Nothing is checked, so an inconsistent packet is encoded as it is.
    pub fn to_bytes(&self) -> (r: Vec<u8>)
        ensures
            r@ == self.spec_bytes(),
    {
        let mut out: Vec<u8> = Vec::new();
        self.header.to_writer(&mut out);
        let mut i: usize = 0;
        while i < self.cmd_headers.len()
            invariant
                i <= self.cmd_headers@.len(),
                out@ == uplink_header_bytes(self.header) + cmd_headers_bytes(
                    self.cmd_headers@.take(i as int),
                ),
            decreases self.cmd_headers@.len() - i,
        {
            self.cmd_headers[i].to_writer(&mut out);
            proof {
                lemma_cmd_headers_bytes_take(self.cmd_headers@, i as int);
                assert(out@ =~= uplink_header_bytes(self.header) + cmd_headers_bytes(
                    self.cmd_headers@.take(i + 1),
                ));
            }
            i = i + 1;
        }
        assert(self.cmd_headers@.take(i as int) =~= self.cmd_headers@);
        let ghost head = out@;
        let mut j: usize = 0;
        while j < self.commands.len()
            invariant
                j <= self.commands@.len(),
                out@ == head + commands_bytes(self.commands@.take(j as int)),
            decreases self.commands@.len() - j,
        {
            let payload = self.commands[j].to_bytes();
            write_all(&mut out, payload.as_slice());
            proof {
                lemma_commands_bytes_take(self.commands@, j as int);
                assert(out@ =~= head + commands_bytes(self.commands@.take(j + 1)));
            }
            j = j + 1;
        }
        assert(self.commands@.take(j as int) =~= self.commands@);
        out
    }

    /// Decodes a packet from the start of `bytes`: the header, the
    /// sub-headers it announces, then for each sub-header in order exactly
    /// `cmd_sz` payload bytes, decoded by its tag.
    pub fn from_bytes(bytes: &[u8]) -> (r: Result<Self, CodecError>)
        ensures
            r matches Ok(p) ==> parse_uplink_packet(bytes@) == Ok::<UplinkPacketView, CodecError>(
                p@,
            ),
            r matches Err(e) ==> parse_uplink_packet(bytes@) == Err::<UplinkPacketView, CodecError>(
                e,
            ),
    {
        let mut pos: usize = 0;
        proof {
            assert(rest(bytes@, 0) =~= bytes@);
        }
        let header = UplinkPacketHeader::from_reader(bytes, &mut pos)?;
        let n = header.n_cmds as usize;
        if bytes.len() - pos < 8 * n {
            return Err(CodecError::Truncated);
        }
        let mut cmd_headers: Vec<UplinkCommandHeader> = Vec::new();
        let mut i: usize = 0;
        while i < n
            invariant
                n == header.n_cmds,
                i <= n,
                pos == 16 + 8 * i,
                16 + 8 * n <= bytes@.len(),
                cmd_headers@ + parse_cmd_headers(rest(bytes@, pos as int), (n - i) as nat)
                    == parse_cmd_headers(rest(bytes@, 16), n as nat),
            decreases n - i,
        {
            let ghost p0 = pos as int;
            let h = UplinkCommandHeader::from_reader(bytes, &mut pos)?;
            proof {
                assert(rest(rest(bytes@, p0), 8) =~= rest(bytes@, p0 + 8));
                assert(cmd_headers@.push(h) + parse_cmd_headers(rest(bytes@, pos as int), (n - i - 1) as nat)
                    =~= cmd_headers@ + parse_cmd_headers(rest(bytes@, p0), (n - i) as nat));
            }
            cmd_headers.push(h);
            i = i + 1;
        }
        assert(cmd_headers@ =~= parse_cmd_headers(rest(bytes@, 16), n as nat));
        let ghost hs = cmd_headers@;
        let ghost start = pos as int;
        let mut commands: Vec<Command> = Vec::new();
        let mut k: usize = 0;
        proof {
            lemma_parse_cmd_headers_len(rest(bytes@, 16), n as nat);
            assert(hs.skip(0) =~= hs);
            assert(rest(bytes@, 16 + 8 * n) =~= rest(bytes@, start));
            match parse_commands(rest(bytes@, start), hs) {
                Ok(more) => assert(commands@ + more =~= more),
                Err(_) => {},
            }
        }
        while k < n
            invariant
                hs == cmd_headers@,
                hs.len() == n,
                k <= n,
                start <= pos <= bytes@.len(),
                commands@.len() == k,
                parse_uplink_packet(bytes@) == match parse_commands(rest(bytes@, start), hs) {
                    Err(e) => Err(e),
                    Ok(cs) => Ok(UplinkPacketView { header, cmd_headers: hs, commands: cs }),
                },
                parse_commands(rest(bytes@, start), hs) == prefixed(
                    commands@,
                    parse_commands(rest(bytes@, pos as int), hs.skip(k as int)),
                ),
            decreases n - k,
        {
            let h = cmd_headers[k];
            let sz = h.cmd_sz as usize;
            let ghost tail = rest(bytes@, pos as int);
            let ghost later = hs.skip(k as int);
            proof {
                assert(later[0] == h);
                assert(later.drop_first() =~= hs.skip(k + 1));
            }
            if bytes.len() - pos < sz {
                assert(parse_commands(tail, later) == Err::<Seq<Command>, CodecError>(CodecError::Truncated));
                return Err(CodecError::Truncated);
            }
            let payload = vstd::slice::slice_subrange(bytes, pos, pos + sz);
            proof {
                assert(payload@ =~= tail.subrange(0, sz as int));
                assert(rest(tail, sz as int) =~= rest(bytes@, pos + sz));
            }
            let c = Command::from_bytes(h.cmd_type, payload)?;
            proof {
                assert(commands@.push(c) =~= commands@ + seq![c]);
                assert(forall|m: Seq<Command>| (commands@ + seq![c]) + m =~= commands@ + (seq![c] + m));
            }
            commands.push(c);
            pos = pos + sz;
            k = k + 1;
        }
        proof {
            assert(hs.skip(k as int) =~= seq![]);
            assert(commands@ + seq![] =~= commands@);
        }
        Ok(UplinkPacket { header, cmd_headers, commands })
    }
}

} // verus!
