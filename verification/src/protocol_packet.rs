//! The event that plugins see for each raw packet at a connection's boundary.

use vstd::prelude::*;

verus! {

#[verifier::external_type_specification]
#[verifier::external_body]
pub struct ExBytes(bytes::Bytes);

/// `<bytes::Bytes as Clone>::clone`: another handle to the same bytes.
/// Nothing is claimed of the result.
pub assume_specification[ <bytes::Bytes as Clone>::clone ](b: &bytes::Bytes) -> bytes::Bytes;

/// Which way a packet travels.
#[derive(Clone, Copy, Debug, PartialEq, Eq, Structural)]
pub enum PacketDirection {
    Clientbound,
    Serverbound,
}

/// A packet that a plugin sends to the client in place of a translated one.
#[derive(Clone, Debug)]
pub struct PacketTranslationOutput {
    pub packet_id: i32,
    pub payload: bytes::Bytes,
}

/// A raw packet at the connection boundary, including login states before
/// there is a player; `P` is the handle of the player, once there is one.
#[derive(Clone)]
pub struct ProtocolPacketEvent<P> {
    pub connection_id: u64,
    pub player: Option<P>,
    pub direction: PacketDirection,
    pub packet_id: i32,
    pub payload: bytes::Bytes,
    pub protocol_version: i32,
    pub connection_state: u8,
    pub translated: bool,
    pub clientbound_packets: Vec<PacketTranslationOutput>,
    pub cancelled: bool,
}

impl<P> ProtocolPacketEvent<P> {
    /// An event for the packet, neither translated nor cancelled, with no
    /// packets to send in its place.
    pub fn new(
        connection_id: u64,
        player: Option<P>,
        direction: PacketDirection,
        packet_id: i32,
        payload: bytes::Bytes,
        protocol_version: i32,
        connection_state: u8,
    ) -> (r: Self)
        ensures
            r.connection_id == connection_id,
            r.player == player,
            r.direction == direction,
            r.packet_id == packet_id,
            r.payload == payload,
            r.protocol_version == protocol_version,
            r.connection_state == connection_state,
            !r.translated,
            r.clientbound_packets@.len() == 0,
            !r.cancelled,
    {
        Self {
            connection_id,
            player,
            direction,
            packet_id,
            payload,
            protocol_version,
            connection_state,
            translated: false,
            clientbound_packets: Vec::new(),
            cancelled: false,
        }
    }
}

} // verus!
