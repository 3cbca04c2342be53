use std::time::{SystemTime, UNIX_EPOCH};

use ed25519_dalek::Signer;
use pumpkin::plugin_response::ForwardingState;
use pumpkin::ser::write_string;
use pumpkin::var_int::{write_var_int, VarInt};
use pumpkin::vine::{
    check_vine_plugin_response, get_verifying_key, read_game_profile,
    receive_vine_plugin_response, vine_login, SLoginPluginResponse, VineConfig, VineError,
    VINE_FORWARDING_VERSION,
};
use sha2::{Digest, Sha256};
use uuid::Uuid;

fn signing_key(secret: &str) -> ed25519_dalek::SigningKey {
    let seed: [u8; 32] = Sha256::digest(secret.as_bytes()).into();
    ed25519_dalek::SigningKey::from_bytes(&seed)
}

fn hex_config(key: &ed25519_dalek::SigningKey) -> VineConfig {
    VineConfig {
        enabled: true,
        public_key: hex::encode(key.verifying_key().to_bytes()),
        secret: String::new(),
    }
}

fn now() -> u64 {
    SystemTime::now().duration_since(UNIX_EPOCH).unwrap().as_secs()
}

/// The signed part of a reply, with the given version, timestamp, challenge,
/// address and profile.
fn payload(version: i32, timestamp: u64, challenge: &[u8; 16], address: &str, id: &Uuid) -> Vec<u8> {
    let mut payload = Vec::new();
    write_var_int(&mut payload, &VarInt(version));
    payload.extend_from_slice(&timestamp.to_be_bytes());
    payload.extend_from_slice(challenge);
    write_string(&mut payload, address).unwrap();
    payload.extend_from_slice(id.as_bytes());
    write_string(&mut payload, "Steve").unwrap();
    write_var_int(&mut payload, &VarInt(0));
    payload
}

fn signed(key: &ed25519_dalek::SigningKey, payload: &[u8]) -> SLoginPluginResponse {
    let signature = key.sign(payload);
    let mut full = Vec::new();
    full.extend_from_slice(&signature.to_bytes());
    full.extend_from_slice(payload);
    SLoginPluginResponse { message_id: VarInt(1), data: Some(full) }
}

#[test]
fn vine_key_derivation() {
    let config = VineConfig {
        enabled: true,
        public_key: String::new(),
        secret: "my-super-secret-seed".to_string(),
    };
    let key = get_verifying_key(&config).unwrap();
    let pub_hex = hex::encode(key.to_bytes());
    let config_with_hex = VineConfig { enabled: true, public_key: pub_hex, secret: String::new() };
    let key2 = get_verifying_key(&config_with_hex).unwrap();
    assert_eq!(key, key2);
}

#[test]
fn vine_plugin_response_verification() {
    let secret = "test-vine-secret";
    let signing_key = signing_key(secret);
    let config = hex_config(&signing_key);
    let challenge = [42u8; 16];
    let test_uuid = Uuid::new_v4();
    let response = signed(
        &signing_key,
        &payload(VINE_FORWARDING_VERSION, now(), &challenge, "127.0.0.1", &test_uuid),
    );

    let result = receive_vine_plugin_response(&config, &response, Some(challenge));
    assert!(result.is_ok());
    let (address, profile) = result.unwrap();
    let profile = profile.unwrap();
    assert_eq!(profile.name, "Steve");
    assert_eq!(profile.id, test_uuid.as_u128());
    assert_eq!(address, "127.0.0.1");
}

#[test]
fn vine_plugin_response_rejects_tampered_challenge() {
    let secret = "test-vine-secret";
    let signing_key = signing_key(secret);
    let config = hex_config(&signing_key);
    let challenge = [42u8; 16];
    let wrong_challenge = [99u8; 16];
    let response = signed(
        &signing_key,
        &payload(VINE_FORWARDING_VERSION, now(), &challenge, "127.0.0.1", &Uuid::new_v4()),
    );
    let result = receive_vine_plugin_response(&config, &response, Some(wrong_challenge));
    assert!(matches!(result, Err(VineError::ChallengeMismatch)));
}

#[test]
fn secret_seed_goes_through_sha256() {
    let config = VineConfig { enabled: true, public_key: String::new(), secret: "  s3cret \n".to_string() };
    let key = get_verifying_key(&config).unwrap();
    assert_eq!(key.to_bytes(), signing_key("s3cret").verifying_key().to_bytes().to_vec());
}

#[test]
fn secret_of_64_hex_digits_is_hashed_too() {
    let secret = hex::encode([7u8; 32]);
    let config = VineConfig { enabled: true, public_key: String::new(), secret: secret.clone() };
    let key = get_verifying_key(&config).unwrap();
    assert_eq!(key.to_bytes(), signing_key(&secret).verifying_key().to_bytes().to_vec());
    let raw_seed = ed25519_dalek::SigningKey::from_bytes(&[7u8; 32]).verifying_key().to_bytes();
    assert_ne!(key.to_bytes(), raw_seed.to_vec());
}

#[test]
fn blank_key_and_plain_secret_give_a_key() {
    let config = VineConfig { enabled: true, public_key: " \t".to_string(), secret: "abc".to_string() };
    let key = get_verifying_key(&config).unwrap();
    assert_eq!(key.to_bytes(), signing_key("abc").verifying_key().to_bytes().to_vec());
}

#[test]
fn whitespace_around_the_settings_changes_nothing() {
    let key = signing_key("k");
    let hex_key = hex::encode(key.verifying_key().to_bytes());
    let bare = VineConfig { enabled: true, public_key: hex_key.clone(), secret: "s".to_string() };
    let padded = VineConfig {
        enabled: true,
        public_key: format!("\u{3000}\n {}\u{a0}", hex_key),
        secret: "\u{2003}s\r".to_string(),
    };
    assert_eq!(get_verifying_key(&bare), get_verifying_key(&padded));
    let bare_secret = VineConfig { enabled: true, public_key: String::new(), secret: "s".to_string() };
    let padded_secret =
        VineConfig { enabled: true, public_key: "\u{85}".to_string(), secret: " s\u{2028}".to_string() };
    assert_eq!(get_verifying_key(&bare_secret), get_verifying_key(&padded_secret));
    assert_eq!(get_verifying_key(&bare_secret).unwrap().to_bytes(), signing_key("s").verifying_key().to_bytes().to_vec());
    let bad = VineConfig { enabled: true, public_key: "zz".to_string(), secret: String::new() };
    let padded_bad = VineConfig { enabled: true, public_key: " zz\t".to_string(), secret: " ".to_string() };
    assert_eq!(get_verifying_key(&bad), get_verifying_key(&padded_bad));
}

#[test]
fn public_key_errors() {
    let missing = VineConfig { enabled: true, public_key: " ".to_string(), secret: "\t".to_string() };
    assert_eq!(get_verifying_key(&missing), Err(VineError::MissingKeyConfig));
    let not_hex = VineConfig { enabled: true, public_key: "zz".to_string(), secret: String::new() };
    assert_eq!(get_verifying_key(&not_hex), Err(VineError::InvalidPublicKey));
    let short = VineConfig { enabled: true, public_key: "abcd".to_string(), secret: String::new() };
    assert_eq!(get_verifying_key(&short), Err(VineError::InvalidPublicKey));
    // y = 2 is not the y-coordinate of a point of the curve
    let mut bytes = [0u8; 32];
    bytes[0] = 2;
    let off_curve = VineConfig { enabled: true, public_key: hex::encode(bytes), secret: String::new() };
    assert_eq!(get_verifying_key(&off_curve), Err(VineError::InvalidPublicKey));
    // the public key wins over the secret, even with spaces around it
    let key = signing_key("k");
    let both = VineConfig {
        enabled: true,
        public_key: format!("  {}  ", hex::encode(key.verifying_key().to_bytes())),
        secret: "other".to_string(),
    };
    assert_eq!(get_verifying_key(&both).unwrap().to_bytes(), key.verifying_key().to_bytes().to_vec());
}

#[test]
fn reply_errors_in_order() {
    let key = signing_key("order");
    let config = hex_config(&key);
    let challenge = [1u8; 16];
    let t = 1_700_000_000u64;
    let id = Uuid::from_u128(5);
    let good = signed(&key, &payload(1, t, &challenge, "10.0.0.1", &id));

    assert_eq!(check_vine_plugin_response(&config, &good, None, t), Err(VineError::MissingChallenge));
    let no_data = SLoginPluginResponse { message_id: VarInt(1), data: None };
    assert_eq!(check_vine_plugin_response(&config, &no_data, Some(challenge), t), Err(VineError::NoData));
    let short = SLoginPluginResponse { message_id: VarInt(1), data: Some(vec![0; 88]) };
    assert_eq!(check_vine_plugin_response(&config, &short, Some(challenge), t), Err(VineError::DataTooShort));
    let no_key = VineConfig { enabled: true, public_key: String::new(), secret: String::new() };
    assert_eq!(check_vine_plugin_response(&no_key, &good, Some(challenge), t), Err(VineError::MissingKeyConfig));

    let mut tampered = good.data.clone().unwrap();
    let last = tampered.len() - 1;
    tampered[last] ^= 1;
    let tampered = SLoginPluginResponse { message_id: VarInt(1), data: Some(tampered) };
    assert_eq!(check_vine_plugin_response(&config, &tampered, Some(challenge), t), Err(VineError::InvalidSignature));

    let v2 = signed(&key, &payload(2, t, &challenge, "10.0.0.1", &id));
    assert_eq!(
        check_vine_plugin_response(&config, &v2, Some(challenge), t),
        Err(VineError::UnsupportedForwardVersion(2, 1))
    );

    assert_eq!(
        check_vine_plugin_response(&config, &good, Some(challenge), t + 31),
        Err(VineError::TimestampExpired(31, 30))
    );
    assert_eq!(
        check_vine_plugin_response(&config, &good, Some(challenge), t - 31),
        Err(VineError::TimestampExpired(-31, 30))
    );
    assert!(check_vine_plugin_response(&config, &good, Some(challenge), t + 30).is_ok());
    assert!(check_vine_plugin_response(&config, &good, Some(challenge), t - 30).is_ok());

    assert_eq!(
        check_vine_plugin_response(&config, &good, Some([2u8; 16]), t),
        Err(VineError::ChallengeMismatch)
    );

    let mut bad_address = Vec::new();
    write_var_int(&mut bad_address, &VarInt(1));
    bad_address.extend_from_slice(&t.to_be_bytes());
    bad_address.extend_from_slice(&challenge);
    bad_address.extend_from_slice(&[3, 0xff, 0xfe, 0xfd]);
    let bad_address = signed(&key, &bad_address);
    assert_eq!(
        check_vine_plugin_response(&config, &bad_address, Some(challenge), t),
        Err(VineError::FailedReadAddress)
    );

    let (address, profile) = check_vine_plugin_response(&config, &good, Some(challenge), t).unwrap();
    assert_eq!(address, "10.0.0.1");
    let profile = profile.unwrap();
    assert_eq!(profile.id, 5);
    assert_eq!(profile.name, "Steve");
    assert!(profile.properties.is_empty());
}

#[test]
fn reply_with_unreadable_profile_keeps_the_address() {
    let key = signing_key("profile");
    let config = hex_config(&key);
    let challenge = [1u8; 16];
    let t = 1_700_000_000u64;
    let full = payload(1, t, &challenge, "::1", &Uuid::from_u128(9));
    // version, timestamp, challenge and address take 1 + 8 + 16 + 4 bytes
    let cut_in_uuid = signed(&key, &full[..29 + 10]);
    let (address, profile) = check_vine_plugin_response(&config, &cut_in_uuid, Some(challenge), t).unwrap();
    assert_eq!(address, "::1");
    assert_eq!(profile, Err(VineError::FailedReadProfileUUID));
    let cut_in_name = signed(&key, &full[..29 + 16 + 3]);
    let (_, profile) = check_vine_plugin_response(&config, &cut_in_name, Some(challenge), t).unwrap();
    assert_eq!(profile, Err(VineError::FailedReadProfileName));
    let cut_in_properties = signed(&key, &full[..full.len() - 1]);
    let (_, profile) = check_vine_plugin_response(&config, &cut_in_properties, Some(challenge), t).unwrap();
    assert_eq!(profile, Err(VineError::FailedReadProfileProperties));
}

#[test]
fn timestamp_far_in_the_past_is_reported_clamped() {
    let key = signing_key("far");
    let config = hex_config(&key);
    let challenge = [1u8; 16];
    let id = Uuid::from_u128(5);
    // u64::MAX reads as -1, so the drift is now + 1
    let r = signed(&key, &payload(1, u64::MAX, &challenge, "a", &id));
    assert_eq!(check_vine_plugin_response(&config, &r, Some(challenge), 100), Err(VineError::TimestampExpired(101, 30)));
    // 2^63 reads as i64::MIN: the drift passes i64::MAX and is reported as i64::MAX
    let r = signed(&key, &payload(1, 1u64 << 63, &challenge, "a", &id));
    assert_eq!(
        check_vine_plugin_response(&config, &r, Some(challenge), 100),
        Err(VineError::TimestampExpired(i64::MAX, 30))
    );
}

#[test]
fn game_profile_reading() {
    let mut data = vec![0xaa];
    data.extend_from_slice(&Uuid::from_u128(0x0102).as_bytes()[..]);
    write_string(&mut data, "Alex").unwrap();
    write_var_int(&mut data, &VarInt(2));
    write_string(&mut data, "textures").unwrap();
    write_string(&mut data, "abc").unwrap();
    data.push(1);
    write_string(&mut data, "sig").unwrap();
    write_string(&mut data, "other").unwrap();
    write_string(&mut data, "v").unwrap();
    data.push(0);
    let profile = read_game_profile(&data, 1).unwrap();
    assert_eq!(profile.id, 0x0102);
    assert_eq!(profile.name, "Alex");
    assert_eq!(profile.properties.len(), 2);
    assert_eq!(profile.properties[0].name, "textures");
    assert_eq!(profile.properties[0].value, "abc");
    assert_eq!(profile.properties[0].signature.as_deref(), Some("sig"));
    assert_eq!(profile.properties[1].signature, None);

    assert!(matches!(read_game_profile(&data[..10], 1), Err(VineError::FailedReadProfileUUID)));
    assert!(matches!(read_game_profile(&data[..19], 1), Err(VineError::FailedReadProfileName)));
    assert!(matches!(read_game_profile(&data[..data.len() - 1], 1), Err(VineError::FailedReadProfileProperties)));
}

#[test]
fn login_query_carries_version_and_challenge() {
    let mut state = ForwardingState { vine_message_id: None, vine_challenge: None, velocity_message_id: Some(4) };
    let request = vine_login(&mut state);
    assert_eq!(state.vine_message_id, Some(request.message_id));
    let challenge = state.vine_challenge.unwrap();
    assert_eq!(request.payload.len(), 17);
    assert_eq!(request.payload[0], 1);
    assert_eq!(&request.payload[1..], &challenge[..]);
    assert_eq!(state.velocity_message_id, Some(4));
}
