//! Which forwarding handshake a login plugin reply belongs to.

use vstd::prelude::*;

verus! {

/// What `consume_matching_query_id` answers for the awaited id `expected` and
/// the reply's id `received`: whether they match, and the id still awaited
/// afterwards.
pub open spec fn consume_outcome(expected: Option<i32>, received: i32) -> (bool, Option<i32>) {
    if expected == Some(received) {
        (true, None)
    } else {
        (false, expected)
    }
}

/// Takes the awaited query id when the reply carries it: a reply to another
/// query leaves the awaited id in place.
pub fn consume_matching_query_id(expected: &mut Option<i32>, received: i32) -> (r: bool)
    ensures
        (r, *final(expected)) == consume_outcome(*old(expected), received),
{
    if *expected == Some(received) {
        *expected = None;
        true
    } else {
        false
    }
}

/// A query id is answered at most once: after a reply has consumed it, a
/// second reply with the same id does not match.
pub proof fn lemma_query_id_consumed_once(expected: Option<i32>, received: i32)
    ensures
        consume_outcome(expected, received).0 ==> !consume_outcome(
            consume_outcome(expected, received).1,
            received,
        ).0,
{
}

/// A reply to another query changes nothing: it neither matches nor consumes
/// the awaited id.
pub proof fn lemma_unrelated_reply_keeps_query_id(expected: Option<i32>, received: i32)
    requires
        expected != Some(received),
    ensures
        consume_outcome(expected, received) == (false, expected),
{
}

/// The forwarding handshakes that a pending connection waits on.
pub struct ForwardingState {
    pub vine_message_id: Option<i32>,
    pub vine_challenge: Option<[u8; 16]>,
    pub velocity_message_id: Option<i32>,
}

/// What to do with a login plugin reply.
pub enum PluginResponseRoute {
    /// The reply answers no awaited query; it is dropped.
    Ignore,
    /// The reply answers the Vine query; it is checked against the challenge
    /// that was sent, if one was.
    Vine(Option<[u8; 16]>),
    /// The reply answers the Velocity query.
    Velocity,
}

/// Routes a login plugin reply with id `message_id`. With Vine enabled the
/// reply must answer the Vine query, which consumes its id and the challenge;
/// otherwise, with Velocity enabled, it must answer the Velocity query, which
/// consumes its id; otherwise it is ignored.
pub fn route_plugin_response(
    state: &mut ForwardingState,
    vine_enabled: bool,
    velocity_enabled: bool,
    message_id: i32,
) -> (r: PluginResponseRoute)
    ensures
        vine_enabled ==> {
            let (hit, left) = consume_outcome(old(state).vine_message_id, message_id);
            &&& final(state).vine_message_id == left
            &&& final(state).velocity_message_id == old(state).velocity_message_id
            &&& hit ==> r == PluginResponseRoute::Vine(old(state).vine_challenge)
                && final(state).vine_challenge is None
            &&& !hit ==> r is Ignore && final(state).vine_challenge == old(state).vine_challenge
        },
        !vine_enabled && velocity_enabled ==> {
            let (hit, left) = consume_outcome(old(state).velocity_message_id, message_id);
            &&& final(state).velocity_message_id == left
            &&& final(state).vine_message_id == old(state).vine_message_id
            &&& final(state).vine_challenge == old(state).vine_challenge
            &&& hit ==> r is Velocity
            &&& !hit ==> r is Ignore
        },
        !vine_enabled && !velocity_enabled ==> r is Ignore && *final(state) == *old(state),
{
    if vine_enabled {
        if !consume_matching_query_id(&mut state.vine_message_id, message_id) {
            return PluginResponseRoute::Ignore;
        }
        let challenge = state.vine_challenge.take();
        PluginResponseRoute::Vine(challenge)
    } else if velocity_enabled {
        if !consume_matching_query_id(&mut state.velocity_message_id, message_id) {
            return PluginResponseRoute::Ignore;
        }
        PluginResponseRoute::Velocity
    } else {
        PluginResponseRoute::Ignore
    }
}

} // verus!
