//! The space-packet envelope: a 48-bit primary header of bit-packed
//! fields, an optional (currently empty) secondary header and a
//! length-delimited data field.
use crate::wire::{
    be_u16_bytes, be_u16_value, lemma_be_u16_round_trip, read_u16, rest, write_all, write_u16,
    CodecError,
};
use vstd::prelude::*;

verus! {

/// Direction of a packet.
#[derive(Debug, Clone, Copy, PartialEq, Eq, Structural)]
pub enum PacketType {
    Telemetry,
    Telecommand,
}

impl PacketType {
    /// The one-bit code of this packet type on the wire.
    pub open spec fn code(self) -> u8 {
        match self {
            PacketType::Telemetry => 0,
            PacketType::Telecommand => 1,
        }
    }
}

/// The packet type that `value` codes for, if any.
pub open spec fn packet_type_of_code(value: u8) -> Result<PacketType, CodecError> {
    if value == 0 {
        Ok(PacketType::Telemetry)
    } else if value == 1 {
        Ok(PacketType::Telecommand)
    } else {
        Err(CodecError::InvalidPacketType)
    }
}

impl TryFrom<u8> for PacketType {
    type Error = CodecError;

    fn try_from(value: u8) -> (r: Result<PacketType, CodecError>) {
        match value {
            0 => Ok(PacketType::Telemetry),
            1 => Ok(PacketType::Telecommand),
            _ => Err(CodecError::InvalidPacketType),
        }
    }
}

impl vstd::std_specs::convert::TryFromSpecImpl<u8> for PacketType {
    open spec fn obeys_try_from_spec() -> bool {
        true
    }

    open spec fn try_from_spec(v: u8) -> Result<PacketType, CodecError> {
        packet_type_of_code(v)
    }
}

impl From<PacketType> for u8 {
    fn from(pt: PacketType) -> (r: u8) {
        match pt {
            PacketType::Telemetry => 0,
            PacketType::Telecommand => 1,
        }
    }
}

impl vstd::std_specs::convert::FromSpecImpl<PacketType> for u8 {
    open spec fn obeys_from_spec() -> bool {
        true
    }

    open spec fn from_spec(v: PacketType) -> u8 {
        v.code()
    }
}

/// The fixed 48-bit primary header.
#[derive(Debug, Clone, Copy, PartialEq, Eq, Structural)]
pub struct SpacePacketPrimaryHeader {
    /// Protocol version; 3 bits on the wire.
    pub packet_version_number: u8,
    pub packet_type: PacketType,
    /// Whether a secondary header follows the primary one.
    pub secondary_header_flag: bool,
    /// Logical channel; 11 bits on the wire.
    pub application_process_id: u16,
    /// `0` continuation, `1` first, `2` last, `3` unsegmented; 2 bits on the wire.
    pub sequence_flag: u8,
    /// Sequence count (mod 16384) or packet name; 14 bits on the wire.
    pub packet_sequence: u16,
    /// Number of bytes in the data field.
    pub data_length: u16,
}

/// Bits 15-13 version, bit 12 type, bit 11 secondary header flag,
/// bits 10-0 application process id.
pub open spec fn metadata_word(h: SpacePacketPrimaryHeader) -> u16 {
    ((h.packet_version_number % 8) * 0x2000 + h.packet_type.code() * 0x1000 + (if h.secondary_header_flag {
        0x800int
    } else {
        0
    }) + h.application_process_id % 0x800) as u16
}

/// Bits 15-14 sequence flags, bits 13-0 sequence count.
pub open spec fn sequence_word(h: SpacePacketPrimaryHeader) -> u16 {
    ((h.sequence_flag % 4) * 0x4000 + h.packet_sequence % 0x4000) as u16
}

/// The header's six bytes on the wire.
pub open spec fn primary_header_bytes(h: SpacePacketPrimaryHeader) -> Seq<u8> {
    be_u16_bytes(metadata_word(h)) + be_u16_bytes(sequence_word(h)) + be_u16_bytes(h.data_length)
}

/// The header whose three big-endian words are `w1`, `w2` and `len`.
pub open spec fn primary_header_of_words(w1: u16, w2: u16, len: u16) -> SpacePacketPrimaryHeader {
    SpacePacketPrimaryHeader {
        packet_version_number: (w1 / 0x2000) as u8,
        packet_type: if (w1 / 0x1000) % 2 == 0 {
            PacketType::Telemetry
        } else {
            PacketType::Telecommand
        },
        secondary_header_flag: (w1 / 0x800) % 2 == 1,
        application_process_id: (w1 % 0x800) as u16,
        sequence_flag: (w2 / 0x4000) as u8,
        packet_sequence: (w2 % 0x4000) as u16,
        data_length: len,
    }
}

/// The header at the start of `b`, or `None` when fewer than six bytes remain.
pub open spec fn parse_primary_header(b: Seq<u8>) -> Option<SpacePacketPrimaryHeader> {
    if b.len() < 6 {
        None
    } else {
        Some(
            primary_header_of_words(
                be_u16_value(b),
                be_u16_value(rest(b, 2)),
                be_u16_value(rest(b, 4)),
            ),
        )
    }
}

impl SpacePacketPrimaryHeader {
    /// Every field fits in its width on the wire.
    pub open spec fn fields_fit(&self) -> bool {
        &&& self.packet_version_number < 8
        &&& self.application_process_id < 0x800
        &&& self.sequence_flag < 4
        &&& self.packet_sequence < 0x4000
    }

    /// Reads the header at `*pos`; on success advances past its six bytes,
    /// on failure leaves `*pos` where it was.
    pub fn from_reader(input: &[u8], pos: &mut usize) -> (r: Result<Self, CodecError>)
        requires
            *old(pos) <= input@.len(),
        ensures
            r matches Ok(h) ==> parse_primary_header(rest(input@, *old(pos) as int)) == Some(h)
                && *final(pos) == *old(pos) + 6,
            r is Err ==> parse_primary_header(rest(input@, *old(pos) as int)) is None && r
                == Err::<Self, CodecError>(CodecError::Truncated) && *final(pos) == *old(pos),
    {
        if input.len() - *pos < 6 {
            return Err(CodecError::Truncated);
        }
        let ghost start = *pos as int;
        let metadata = match read_u16(input, pos) {
            Ok(w) => w,
            Err(e) => return Err(e),
        };
        let version = (metadata >> 13) as u8;
        let type_code = ((metadata >> 12) & 1) as u8;
        proof {
            lemma_metadata_fields(metadata);
        }
        let packet_type = match PacketType::try_from(type_code) {
            Ok(t) => t,
            Err(e) => return Err(e),
        };
        let secondary_header_flag = ((metadata >> 11) & 1) == 1;
        let application_process_id = metadata & 0x7FF;

        let sequence = match read_u16(input, pos) {
            Ok(w) => w,
            Err(e) => return Err(e),
        };
        proof {
            lemma_sequence_fields(sequence);
        }
        let sequence_flag = (sequence >> 14) as u8;
        let packet_sequence = sequence & 0x3FFF;

        let data_length = match read_u16(input, pos) {
            Ok(w) => w,
            Err(e) => return Err(e),
        };
        proof {
            let b = rest(input@, start);
            assert(rest(b, 2) =~= rest(input@, start + 2));
            assert(rest(b, 4) =~= rest(input@, start + 4));
        }
        Ok(SpacePacketPrimaryHeader {
            packet_version_number: version,
            packet_type,
            secondary_header_flag,
            application_process_id,
            sequence_flag,
            packet_sequence,
            data_length,
        })
    }

    /// Appends the header's six bytes.
    pub fn to_writer(&self, out: &mut Vec<u8>)
        ensures
            final(out)@ == old(out)@ + primary_header_bytes(*self),
    {
        let type_code: u8 = self.packet_type.into();
        let flag: u16 = if self.secondary_header_flag {
            1
        } else {
            0
        };
        let metadata: u16 = ((self.packet_version_number as u16) << 13) | ((type_code as u16) << 12)
            | (flag << 11) | (self.application_process_id & 0x7FF);
        let sequence: u16 = ((self.sequence_flag as u16) << 14) | (self.packet_sequence & 0x3FFF);
        proof {
            lemma_pack_metadata(self.packet_version_number, type_code as u16, flag, self.application_process_id);
            lemma_pack_sequence(self.sequence_flag, self.packet_sequence);
        }
        write_u16(out, metadata);
        write_u16(out, sequence);
        write_u16(out, self.data_length);
        assert(out@ =~= old(out)@ + primary_header_bytes(*self));
    }
}

proof fn lemma_metadata_fields(w: u16)
    ensures
        (w >> 13) as u8 == w / 0x2000,
        ((w >> 12) & 1) as u8 == (w / 0x1000) % 2,
        (((w >> 11) & 1) == 1) == ((w / 0x800) % 2 == 1),
        w & 0x7FF == w % 0x800,
{
    assert((w >> 13) == w / 0x2000 && (w >> 13) < 8) by (bit_vector);
    assert((w >> 12) & 1 == (w / 0x1000) % 2) by (bit_vector);
    assert((w >> 11) & 1 == (w / 0x800) % 2) by (bit_vector);
    assert(w & 0x7FF == w % 0x800) by (bit_vector);
}

proof fn lemma_sequence_fields(w: u16)
    ensures
        (w >> 14) as u8 == w / 0x4000,
        w & 0x3FFF == w % 0x4000,
{
    assert((w >> 14) == w / 0x4000 && (w >> 14) < 4) by (bit_vector);
    assert(w & 0x3FFF == w % 0x4000) by (bit_vector);
}

proof fn lemma_pack_metadata(v: u8, t: u16, f: u16, apid: u16)
    requires
        t <= 1,
        f <= 1,
    ensures
        ((v as u16) << 13) | (t << 12) | (f << 11) | (apid & 0x7FF) == ((v % 8) * 0x2000 + t
            * 0x1000 + f * 0x800 + apid % 0x800) as u16,
{
    let vw = v as u16;
    assert(((vw << 13) | (t << 12) | (f << 11) | (apid & 0x7FF)) == ((vw % 8) * 0x2000 + t * 0x1000
        + f * 0x800 + apid % 0x800) as u16) by (bit_vector)
        requires
            t <= 1,
            f <= 1,
    ;
}

proof fn lemma_pack_sequence(sf: u8, count: u16)
    ensures
        ((sf as u16) << 14) | (count & 0x3FFF) == ((sf % 4) * 0x4000 + count % 0x4000) as u16,
{
    let s = sf as u16;
    assert(((s << 14) | (count & 0x3FFF)) == ((s % 4) * 0x4000 + count % 0x4000) as u16)
        by (bit_vector);
}

/// Secondary header: no fields are defined yet, so it occupies no bytes;
/// its presence is signalled by the primary header's flag.
#[derive(Debug, Clone, Copy, PartialEq, Eq, Structural)]
pub struct SpacePacketSecondaryHeader {}

impl SpacePacketSecondaryHeader {
    /// Reads the (empty) secondary header: consumes nothing and always succeeds.
    pub fn from_reader(input: &[u8], pos: &mut usize) -> (r: Result<Self, CodecError>)
        ensures
            r == Ok::<Self, CodecError>(SpacePacketSecondaryHeader {  }),
            *final(pos) == *old(pos),
    {
        Ok(SpacePacketSecondaryHeader {  })
    }

    /// Writes the (empty) secondary header: appends nothing.
    pub fn to_writer(&self, out: &mut Vec<u8>)
        ensures
            final(out)@ == old(out)@,
    {
    }
}

/// A space packet: primary header, optional secondary header and data field.
#[derive(Debug, Clone, PartialEq)]
pub struct SpacePacket {
    pub primary_header: SpacePacketPrimaryHeader,
    pub secondary_header: Option<SpacePacketSecondaryHeader>,
    pub data: Vec<u8>,
}

/// The mathematical content of a [`SpacePacket`].
#[verifier::ext_equal]
pub struct SpacePacketView {
    pub primary_header: SpacePacketPrimaryHeader,
    pub secondary_header: Option<SpacePacketSecondaryHeader>,
    pub data: Seq<u8>,
}

impl View for SpacePacket {
    type V = SpacePacketView;

    open spec fn view(&self) -> SpacePacketView {
        SpacePacketView {
            primary_header: self.primary_header,
            secondary_header: self.secondary_header,
            data: self.data@,
        }
    }
}

/// The packet that `bytes` starts with, or `None` when the input ends
/// before the header or before the data field it announces.
pub open spec fn parse_space_packet(bytes: Seq<u8>) -> Option<SpacePacketView> {
    match parse_primary_header(bytes) {
        None => None,
        Some(h) => if bytes.len() < 6 + h.data_length {
            None
        } else {
            Some(
                SpacePacketView {
                    primary_header: h,
                    secondary_header: if h.secondary_header_flag {
                        Some(SpacePacketSecondaryHeader {  })
                    } else {
                        None
                    },
                    data: bytes.subrange(6, 6 + h.data_length),
                },
            )
        },
    }
}

impl SpacePacket {
    /// A packet whose header describes it: fields fit their widths, the
    /// secondary header is present exactly when flagged, and the data
    /// length is the length of the data field.
    pub open spec fn is_valid(&self) -> bool {
        &&& self.primary_header.fields_fit()
        &&& self.secondary_header is Some <==> self.primary_header.secondary_header_flag
        &&& self.primary_header.data_length == self.data@.len()
    }

    /// The packet on the wire: the primary header, the (empty) secondary
    /// header if present, then the data verbatim.
    pub open spec fn spec_bytes(&self) -> Seq<u8> {
        primary_header_bytes(self.primary_header) + self.data@
    }

    /// Decodes a packet from the start of `bytes`; bytes after the data
    /// field are ignored.
    pub fn from_bytes(bytes: &[u8]) -> (r: Result<Self, CodecError>)
        ensures
            r matches Ok(p) ==> parse_space_packet(bytes@) == Some(p@),
            r is Err ==> parse_space_packet(bytes@) is None && r == Err::<Self, CodecError>(
                CodecError::Truncated,
            ),
    {
        let mut pos: usize = 0;
        proof {
            assert(rest(bytes@, 0) =~= bytes@);
        }
        let primary_header = match SpacePacketPrimaryHeader::from_reader(bytes, &mut pos) {
            Ok(h) => h,
            Err(e) => return Err(e),
        };
        let secondary_header = if primary_header.secondary_header_flag {
            match SpacePacketSecondaryHeader::from_reader(bytes, &mut pos) {
                Ok(s) => Some(s),
                Err(e) => return Err(e),
            }
        } else {
            None
        };
        let n = primary_header.data_length as usize;
        if bytes.len() - pos < n {
            return Err(CodecError::Truncated);
        }
        let mut data: Vec<u8> = Vec::new();
        write_all(&mut data, vstd::slice::slice_subrange(bytes, pos, pos + n));
        Ok(SpacePacket { primary_header, secondary_header, data })
    }

    /// Encodes the packet.
    pub fn to_bytes(&self) -> (r: Vec<u8>)
        ensures
            r@ == self.spec_bytes(),
    {
        let mut out: Vec<u8> = Vec::new();
        self.primary_header.to_writer(&mut out);
        if let Some(secondary_header) = &self.secondary_header {
            secondary_header.to_writer(&mut out);
        }
        write_all(&mut out, self.data.as_slice());
        assert(out@ =~= self.spec_bytes());
        out
    }
}

/// Decoding the encoding of a valid header gives the header back.
pub proof fn lemma_primary_header_round_trip(h: SpacePacketPrimaryHeader, tail: Seq<u8>)
    requires
        h.fields_fit(),
    ensures
        primary_header_bytes(h).len() == 6,
        parse_primary_header(primary_header_bytes(h) + tail) == Some(h),
{
    let w1 = metadata_word(h);
    let w2 = sequence_word(h);
    let b = primary_header_bytes(h) + tail;
    lemma_be_u16_round_trip(w1, be_u16_bytes(w2) + be_u16_bytes(h.data_length) + tail);
    lemma_be_u16_round_trip(w2, be_u16_bytes(h.data_length) + tail);
    lemma_be_u16_round_trip(h.data_length, tail);
    assert(b =~= be_u16_bytes(w1) + (be_u16_bytes(w2) + be_u16_bytes(h.data_length) + tail));
    assert(rest(b, 2) =~= be_u16_bytes(w2) + be_u16_bytes(h.data_length) + tail);
    assert(rest(b, 4) =~= be_u16_bytes(h.data_length) + tail);
    let v = h.packet_version_number as u16;
    let t = h.packet_type.code() as u16;
    let f: u16 = if h.secondary_header_flag {
        1
    } else {
        0
    };
    let a = h.application_process_id;
    assert(w1 == (v * 0x2000 + t * 0x1000 + f * 0x800 + a) as u16);
    lemma_unpack_metadata(v, t, f, a);
    lemma_unpack_sequence(h.sequence_flag as u16, h.packet_sequence);
}

proof fn lemma_unpack_metadata(v: u16, t: u16, f: u16, a: u16)
    requires
        v < 8,
        t < 2,
        f < 2,
        a < 0x800,
    ensures
        ({
            let w = (v * 0x2000 + t * 0x1000 + f * 0x800 + a) as u16;
            &&& w / 0x2000 == v
            &&& (w / 0x1000) % 2 == t
            &&& (w / 0x800) % 2 == f
            &&& w % 0x800 == a
        }),
{
    assert({
        let w = (v * 0x2000 + t * 0x1000 + f * 0x800 + a) as u16;
        &&& w / 0x2000 == v
        &&& (w / 0x1000) % 2 == t
        &&& (w / 0x800) % 2 == f
        &&& w % 0x800 == a
    }) by (bit_vector)
        requires
            v < 8,
            t < 2,
            f < 2,
            a < 0x800,
    ;
}

proof fn lemma_unpack_sequence(s: u16, c: u16)
    requires
        s < 4,
        c < 0x4000,
    ensures
        ({
            let w = (s * 0x4000 + c) as u16;
            w / 0x4000 == s && w % 0x4000 == c
        }),
{
    assert({
        let w = (s * 0x4000 + c) as u16;
        w / 0x4000 == s && w % 0x4000 == c
    }) by (bit_vector)
        requires
            s < 4,
            c < 0x4000,
    ;
}

/// Round trip: decoding the encoding of a valid packet gives back the
/// same packet, field for field.
pub proof fn lemma_space_packet_round_trip(p: SpacePacket)
    requires
        p.is_valid(),
    ensures
        parse_space_packet(p.spec_bytes()) == Some(p@),
{
    let b = p.spec_bytes();
    lemma_primary_header_round_trip(p.primary_header, p.data@);
    assert(b.subrange(6, 6 + p.data@.len() as int) =~= p.data@);
    let v = parse_space_packet(b)->Some_0;
    assert(v.secondary_header == p.secondary_header);
    assert(v =~= p@);
}

} // verus!
