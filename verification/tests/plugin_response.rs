use pumpkin::plugin_response::{
    consume_matching_query_id, route_plugin_response, ForwardingState, PluginResponseRoute,
};

#[test]
fn unrelated_plugin_replies_do_not_consume_forwarding_query_ids() {
    let mut expected = Some(42);
    assert!(!consume_matching_query_id(&mut expected, 7));
    assert_eq!(expected, Some(42));
    assert!(consume_matching_query_id(&mut expected, 42));
    assert_eq!(expected, None);
}

#[test]
fn query_id_is_consumed_only_once() {
    let mut expected = Some(5);
    assert!(consume_matching_query_id(&mut expected, 5));
    assert!(!consume_matching_query_id(&mut expected, 5));
    assert_eq!(expected, None);
}

#[test]
fn nothing_awaited_matches_nothing() {
    let mut expected = None;
    assert!(!consume_matching_query_id(&mut expected, 0));
    assert_eq!(expected, None);
}

fn state() -> ForwardingState {
    ForwardingState {
        vine_message_id: Some(11),
        vine_challenge: Some([3u8; 16]),
        velocity_message_id: Some(22),
    }
}

#[test]
fn vine_reply_takes_id_and_challenge() {
    let mut s = state();
    match route_plugin_response(&mut s, true, true, 11) {
        PluginResponseRoute::Vine(Some(c)) => assert_eq!(c, [3u8; 16]),
        _ => panic!("expected the vine route with the challenge"),
    }
    assert_eq!(s.vine_message_id, None);
    assert_eq!(s.vine_challenge, None);
    assert_eq!(s.velocity_message_id, Some(22));
}

#[test]
fn vine_route_ignores_other_ids() {
    let mut s = state();
    assert!(matches!(route_plugin_response(&mut s, true, true, 22), PluginResponseRoute::Ignore));
    assert_eq!(s.vine_message_id, Some(11));
    assert_eq!(s.vine_challenge, Some([3u8; 16]));
    assert_eq!(s.velocity_message_id, Some(22));
}

#[test]
fn velocity_reply_takes_its_id() {
    let mut s = state();
    assert!(matches!(route_plugin_response(&mut s, false, true, 22), PluginResponseRoute::Velocity));
    assert_eq!(s.velocity_message_id, None);
    assert_eq!(s.vine_message_id, Some(11));
    let mut s = state();
    assert!(matches!(route_plugin_response(&mut s, false, true, 11), PluginResponseRoute::Ignore));
    assert_eq!(s.velocity_message_id, Some(22));
}

#[test]
fn no_forwarding_ignores_everything() {
    let mut s = state();
    assert!(matches!(route_plugin_response(&mut s, false, false, 11), PluginResponseRoute::Ignore));
    assert_eq!(s.vine_message_id, Some(11));
    assert_eq!(s.velocity_message_id, Some(22));
}
