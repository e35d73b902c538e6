//! Wire-format codec for commanding and telemetering a small satellite:
//! a space-packet envelope and a batched uplink command packet.
//!
//! All multi-byte fields are big-endian. Decoding works on a byte slice
//! and a cursor position; encoding appends to a `Vec<u8>`.
pub mod space_packet;
pub mod uplink;
pub mod wire;

pub use space_packet::{
    PacketType, SpacePacket, SpacePacketPrimaryHeader, SpacePacketSecondaryHeader,
};
pub use uplink::{
    ADCSUpdate, Command, UplinkCommandHeader, UplinkPacket, UplinkPacketHeader, BITMAP_LEN,
};
pub use wire::CodecError;
