use pumpkin::config::{
    CConfigServerLinks, CFeatureFlags, CKnownPacks, CPluginMessage, KnownPack, Label, Link,
    LinkType,
};
use pumpkin::ser::{WritingError, MAX_STRING_BYTES};
use pumpkin::version::JavaMinecraftVersion;

const V: JavaMinecraftVersion = JavaMinecraftVersion::V_1_21;

#[test]
fn packet_ids_for_26_2() {
    assert_eq!(CFeatureFlags::to_id(JavaMinecraftVersion::V_26_2, 99), 12);
    assert_eq!(CKnownPacks::to_id(JavaMinecraftVersion::V_26_2, 99), 7);
    assert_eq!(CPluginMessage::to_id(JavaMinecraftVersion::V_26_2, 99), 2);
    assert_eq!(CConfigServerLinks::to_id(JavaMinecraftVersion::V_26_2, 99), 16);
    assert_eq!(CFeatureFlags::to_id(JavaMinecraftVersion::V_1_21, 99), 99);
    assert_eq!(CConfigServerLinks::to_id(JavaMinecraftVersion::V_26_1, 15), 15);
}

#[test]
fn feature_flags_bytes() {
    let features = ["minecraft:vanilla", "x"];
    let packet = CFeatureFlags::new(&features);
    let mut out = Vec::new();
    packet.write_packet_data(&mut out, &V).unwrap();
    let mut expected = vec![2, 17];
    expected.extend_from_slice(b"minecraft:vanilla");
    expected.extend_from_slice(&[1, b'x']);
    assert_eq!(out, expected);
}

#[test]
fn feature_flags_stop_at_too_long_string() {
    let long = "z".repeat(MAX_STRING_BYTES + 1);
    let features = ["a", long.as_str(), "b"];
    let packet = CFeatureFlags::new(&features);
    let mut out = Vec::new();
    assert_eq!(packet.write_packet_data(&mut out, &V), Err(WritingError::StringTooLong));
    assert_eq!(out, vec![3, 1, b'a']);
}

#[test]
fn known_packs_bytes() {
    let packs = [KnownPack { namespace: "minecraft", id: "core", version: "1.21" }];
    let packet = CKnownPacks::new(&packs);
    let mut out = Vec::new();
    packet.write_packet_data(&mut out, &V).unwrap();
    let mut expected = vec![1, 9];
    expected.extend_from_slice(b"minecraft");
    expected.push(4);
    expected.extend_from_slice(b"core");
    expected.push(4);
    expected.extend_from_slice(b"1.21");
    assert_eq!(out, expected);
    let empty: [KnownPack; 0] = [];
    let mut out = Vec::new();
    CKnownPacks::new(&empty).write_packet_data(&mut out, &V).unwrap();
    assert_eq!(out, vec![0]);
}

#[test]
fn plugin_message_bytes() {
    let data = [0xde, 0xad];
    let packet = CPluginMessage::new("vine:player_info", &data);
    let mut out = Vec::new();
    packet.write_packet_data(&mut out, &V).unwrap();
    let mut expected = vec![16];
    expected.extend_from_slice(b"vine:player_info");
    expected.extend_from_slice(&[0xde, 0xad]);
    assert_eq!(out, expected);
    let long = "c".repeat(MAX_STRING_BYTES + 1);
    let packet = CPluginMessage::new(&long, &data);
    let mut out = Vec::new();
    assert_eq!(packet.write_packet_data(&mut out, &V), Err(WritingError::StringTooLong));
    assert!(out.is_empty());
}

#[test]
fn server_links_bytes() {
    let component = [0x08, 0x00, 0x02, b'h', b'i'];
    let links = [
        Link { is_built_in: true, label: Label::BuiltIn(LinkType::Website), url: "https://a.b" },
        Link { is_built_in: false, label: Label::TextComponent(&component), url: "u" },
    ];
    let packet = CConfigServerLinks::new(&links);
    let mut out = Vec::new();
    packet.write_packet_data(&mut out, &V).unwrap();
    let mut expected = vec![2, 1, 6, 11];
    expected.extend_from_slice(b"https://a.b");
    expected.push(0);
    expected.extend_from_slice(&component);
    expected.extend_from_slice(&[1, b'u']);
    assert_eq!(out, expected);
}

#[test]
fn link_type_ids() {
    assert_eq!(LinkType::BugReport.id(), 0);
    assert_eq!(LinkType::Status.id(), 3);
    assert_eq!(LinkType::Announcements.id(), 9);
}
