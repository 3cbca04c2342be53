use bytes::Bytes;
use pumpkin::protocol_packet::{PacketDirection, ProtocolPacketEvent};

#[test]
fn new_event_is_untouched() {
    let event: ProtocolPacketEvent<u32> = ProtocolPacketEvent::new(
        7,
        Some(3),
        PacketDirection::Serverbound,
        0x10,
        Bytes::from_static(b"abc"),
        772,
        2,
    );
    assert_eq!(event.connection_id, 7);
    assert_eq!(event.player, Some(3));
    assert_eq!(event.direction, PacketDirection::Serverbound);
    assert_eq!(event.packet_id, 0x10);
    assert_eq!(&event.payload[..], b"abc");
    assert_eq!(event.protocol_version, 772);
    assert_eq!(event.connection_state, 2);
    assert!(!event.translated);
    assert!(event.clientbound_packets.is_empty());
    assert!(!event.cancelled);
    let copy = event.clone();
    assert_eq!(copy.payload, event.payload);
}
