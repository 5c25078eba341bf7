use flesh::codec::FLESHMessage;
use flesh::envelope::Identity;
use flesh::network::{DropReason, Inbound, Network, ResolveStep, RoutingAction, SendError};
use flesh::routing::RoutingMessage;
use flesh::status::Status;

const A: u128 = 0x01;
const B: u128 = 0x02;
const R: u128 = 0x03;

fn node(id: u128, seed: u8) -> Network {
    Network::new(Identity::from_secret(id, vec![seed; 32]).unwrap())
}

fn wire(from: &Network, rm: RoutingMessage) -> Vec<u8> {
    rm.to_message().unwrap().sign(from.identity()).unwrap().serialize().unwrap()
}

fn routed(n: &mut Network, bytes: &[u8], now: u64) -> RoutingAction {
    match n.receive(bytes, now) {
        Inbound::Routing(rm) => n.handle(rm, now),
        other => panic!("not routing: {:?}", other),
    }
}

fn reply(a: RoutingAction) -> RoutingMessage {
    match a {
        RoutingAction::Reply(r) => r,
        other => panic!("no reply: {:?}", other),
    }
}

#[test]
fn announce_request_provide_key() {
    let mut a = node(A, 1);
    let mut b = node(B, 2);
    let k_a = a.identity().public_key();
    let announce = wire(&a, a.announcement());
    let req = reply(routed(&mut b, &announce, 10));
    assert!(matches!(req, RoutingMessage::RequestKey(id) if id == A));
    let provide = reply(routed(&mut a, &wire(&b, req), 11));
    match &provide {
        RoutingMessage::ProvideKey(id, k) => {
            assert_eq!(*id, A);
            assert_eq!(k, &k_a);
        },
        other => panic!("{:?}", other),
    }
    assert!(matches!(routed(&mut b, &wire(&a, provide), 12), RoutingAction::Nothing));
    assert!(!b.peers().knows(A, 12));
    assert!(b.peers().key(A, 12).is_none());
    let pong = reply(routed(&mut a, &wire(&b, RoutingMessage::Ping(A, B)), 40));
    assert!(matches!(pong, RoutingMessage::Pong(to, from) if to == B && from == A));
    assert!(matches!(routed(&mut b, &wire(&a, pong), 41), RoutingAction::Nothing));
    assert!(b.peers().knows(A, 41));
    assert_eq!(b.peers().key(A, 41), Some(k_a));
}

#[test]
fn announce_of_known_peer_needs_no_key() {
    let mut a = node(A, 1);
    let mut b = node(B, 2);
    b.handle(RoutingMessage::ProvideKey(A, a.identity().public_key()), 1);
    b.handle(RoutingMessage::Pong(B, A), 2);
    assert!(matches!(routed(&mut b, &wire(&a, a.announcement()), 3), RoutingAction::Nothing));
    let _ = &mut a;
}

#[test]
fn request_key_for_other_known_peer() {
    let a = node(A, 1);
    let mut r = node(R, 3);
    r.handle(RoutingMessage::ProvideKey(A, a.identity().public_key()), 1);
    assert!(matches!(r.handle(RoutingMessage::RequestKey(A), 2), RoutingAction::Nothing));
    r.handle(RoutingMessage::Pong(R, A), 3);
    match r.handle(RoutingMessage::RequestKey(A), 4) {
        RoutingAction::Reply(RoutingMessage::ProvideKey(id, k)) => {
            assert_eq!(id, A);
            assert_eq!(k, a.identity().public_key());
        },
        other => panic!("{:?}", other),
    }
}

#[test]
fn invalid_key_is_not_recorded() {
    let mut b = node(B, 2);
    assert!(matches!(b.handle(RoutingMessage::ProvideKey(A, vec![1; 31]), 1), RoutingAction::Nothing));
    b.handle(RoutingMessage::Pong(B, A), 2);
    assert!(!b.peers().knows(A, 2));
}

#[test]
fn changed_key_is_reported() {
    let a = node(A, 1);
    let c = node(R, 3);
    let mut b = node(B, 2);
    b.handle(RoutingMessage::ProvideKey(A, a.identity().public_key()), 1);
    assert!(matches!(b.handle(RoutingMessage::ProvideKey(A, c.identity().public_key()), 2), RoutingAction::KeyChanged(id) if id == A));
}

#[test]
fn ping_for_someone_else_is_ignored() {
    let mut a = node(A, 1);
    assert!(matches!(a.handle(RoutingMessage::Ping(B, R), 1), RoutingAction::Nothing));
}

#[test]
fn relay_offer_and_local_peer_stays_local() {
    let a = node(A, 1);
    let b = node(B, 2);
    let mut r = node(R, 3);
    r.handle(RoutingMessage::ProvideKey(B, b.identity().public_key()), 1);
    assert!(matches!(r.handle(RoutingMessage::RequestRelayCapability(B), 1), RoutingAction::Nothing));
    r.handle(RoutingMessage::Pong(R, B), 2);
    let offer = reply(r.handle(RoutingMessage::RequestRelayCapability(B), 3));
    assert!(matches!(offer, RoutingMessage::ProvideRelayCapability(from, to, true) if from == R && to == B));
    let mut a = a;
    a.handle(RoutingMessage::ProvideKey(B, b.identity().public_key()), 4);
    a.handle(offer, 5);
    assert!(!a.peers().knows(B, 5));
    let m = FLESHMessage::new(Status::Acknowledge).with_target(B).with_body(b"hi".to_vec());
    assert!(matches!(a.send(m, 5), Err(SendError::UnknownPeer)));
}

#[test]
fn relay_wrapper_is_one_frame_to_the_relay() {
    let a = node(A, 1);
    let inner = FLESHMessage::new(Status::Acknowledge).with_target(B).with_body(b"hi".to_vec());
    let w = RoutingMessage::Relay(B, inner).to_message().unwrap().with_target(R).sign(a.identity()).unwrap();
    let bytes = w.serialize().unwrap();
    let mut r = node(R, 3);
    let mut b = node(B, 2);
    match r.receive(&bytes, 1) {
        Inbound::Routing(rm) => assert!(matches!(r.handle(rm, 1), RoutingAction::Nothing)),
        other => panic!("{:?}", other),
    }
    match b.receive(&bytes, 1) {
        Inbound::Application { message, .. } => assert!(matches!(message.status, Status::Relay)),
        other => panic!("{:?}", other),
    }
    let inner = FLESHMessage::new(Status::Acknowledge).with_target(B).with_body(b"hi".to_vec());
    match b.handle(RoutingMessage::Relay(B, inner), 2) {
        RoutingAction::Deliver(m) => assert_eq!(m.body, b"hi".to_vec()),
        other => panic!("{:?}", other),
    }
}

#[test]
fn relay_failure_surfaces() {
    let mut a = node(A, 1);
    match a.handle(RoutingMessage::RelayFailure(A, b"gone".to_vec()), 1) {
        RoutingAction::Failure(r) => assert_eq!(r, b"gone".to_vec()),
        other => panic!("{:?}", other),
    }
    assert!(matches!(a.handle(RoutingMessage::RelayFailure(B, vec![]), 1), RoutingAction::Nothing));
}

#[test]
fn signature_tamper_is_dropped_and_counted() {
    let a = node(A, 1);
    let mut b = node(B, 2);
    b.handle(RoutingMessage::ProvideKey(A, a.identity().public_key()), 1);
    b.handle(RoutingMessage::Pong(B, A), 2);
    let m = FLESHMessage::new(Status::Acknowledge).with_body(b"hello".to_vec()).sign(a.identity()).unwrap();
    let good = m.serialize().unwrap();
    match b.receive(&good, 3) {
        Inbound::Application { message, verified } => {
            assert!(verified);
            assert_eq!(message.body, b"hello".to_vec());
        },
        other => panic!("{:?}", other),
    }
    let mut bad = m;
    bad.body[0] ^= 0xff;
    let bad = bad.serialize().unwrap();
    assert!(matches!(b.receive(&bad, 4), Inbound::Dropped(DropReason::SignatureInvalid)));
    assert_eq!(b.counters().signature_invalid, 1);
}

#[test]
fn unknown_peer_send_fails() {
    let a = node(A, 1);
    let m = FLESHMessage::new(Status::Acknowledge).with_target(0x99).with_body(b"x".to_vec());
    assert!(matches!(a.send(m, 1), Err(SendError::UnknownPeer)));
    let m = FLESHMessage::new(Status::Acknowledge).with_target(0x99);
    assert!(matches!(a.route(m, 1), Err(SendError::UnknownPeer)));
}

#[test]
fn broadcast_send_is_signed() {
    let a = node(A, 1);
    let bytes = a.send(FLESHMessage::new(Status::Acknowledge).with_body(b"all".to_vec()), 1).unwrap();
    let m = FLESHMessage::deserialize(&bytes).unwrap();
    assert_eq!(m.sender, Some(A));
    assert!(m.target.is_none());
    assert!(m.verify(&a.identity().public_key()).is_ok());
}

#[test]
fn direct_send_is_encrypted_and_delivered() {
    let mut a = node(A, 1);
    let mut b = node(B, 2);
    a.handle(RoutingMessage::ProvideKey(B, b.identity().public_key()), 1);
    a.handle(RoutingMessage::Pong(A, B), 2);
    b.handle(RoutingMessage::ProvideKey(A, a.identity().public_key()), 1);
    b.handle(RoutingMessage::Pong(B, A), 2);
    let bytes = a.send(FLESHMessage::new(Status::Acknowledge).with_target(B).with_body(b"hi".to_vec()), 3).unwrap();
    let wire = FLESHMessage::deserialize(&bytes).unwrap();
    assert_ne!(wire.body, b"hi".to_vec());
    match b.receive(&bytes, 4) {
        Inbound::Application { message, verified } => {
            assert!(verified);
            assert_eq!(message.body, b"hi".to_vec());
        },
        other => panic!("{:?}", other),
    }
    let mut c = node(R, 3);
    match c.receive(&bytes, 4) {
        Inbound::Application { message, verified } => {
            assert!(!verified);
            assert_ne!(message.body, b"hi".to_vec());
        },
        other => panic!("{:?}", other),
    }
}

#[test]
fn corrupted_ciphertext_is_dropped_and_counted() {
    let mut a = node(A, 1);
    let mut b = node(B, 2);
    a.handle(RoutingMessage::ProvideKey(B, b.identity().public_key()), 1);
    a.handle(RoutingMessage::Pong(A, B), 2);
    let bytes = a.send(FLESHMessage::new(Status::Acknowledge).with_target(B).with_body(b"hi".to_vec()), 3).unwrap();
    let mut m = FLESHMessage::deserialize(&bytes).unwrap();
    m.body[0] ^= 1;
    assert!(matches!(b.accept(m, 4), Inbound::Dropped(DropReason::DecryptFailed)));
    assert_eq!(b.counters().decrypt_failed, 1);
}

#[test]
fn malformed_and_self_loop_are_dropped() {
    let mut a = node(A, 1);
    assert!(matches!(a.receive(&[1, 2, 3], 1), Inbound::Dropped(DropReason::Malformed)));
    assert_eq!(a.counters().malformed, 1);
    let own = wire(&a, a.announcement());
    assert!(matches!(a.receive(&own, 1), Inbound::Dropped(DropReason::SelfLoop)));
}

#[test]
fn routing_message_round_trips_through_message() {
    let cases = vec![
        RoutingMessage::Announce(5),
        RoutingMessage::Ping(5, 6),
        RoutingMessage::Pong(6, 5),
        RoutingMessage::RequestKey(7),
        RoutingMessage::ProvideKey(7, vec![1; 32]),
        RoutingMessage::RequestRelayCapability(8),
        RoutingMessage::ProvideRelayCapability(8, 9, false),
        RoutingMessage::RelayFailure(9, b"why".to_vec()),
    ];
    for c in cases {
        let text = format!("{:?}", c);
        let status = c.status().as_u8();
        let m = c.to_message().unwrap();
        assert_eq!(m.status.as_u8(), status);
        let back = RoutingMessage::from_message(&m).unwrap();
        assert_eq!(format!("{:?}", back), text);
    }
    assert_eq!(RoutingMessage::Announce(1).status().as_u8(), 1);
    assert_eq!(RoutingMessage::RequestRelayCapability(1).status().as_u8(), 6);
    assert!(RoutingMessage::from_message(&FLESHMessage::new(Status::Announce)).is_none());
}

#[test]
fn send_with_fixed_randomness_is_exact() {
    let mut a = node(A, 1);
    let b = node(B, 2);
    a.handle(RoutingMessage::ProvideKey(B, b.identity().public_key()), 1);
    a.handle(RoutingMessage::Pong(A, B), 2);
    let mk = || {
        let mut m = FLESHMessage::new(Status::Acknowledge).with_target(B).with_body(b"hi".to_vec());
        m.timestamp = 1234;
        m
    };
    let b1 = a.send_with(mk(), 3, &[7u8; 32], &[8u8; 12]).unwrap();
    let b2 = a.send_with(mk(), 3, &[7u8; 32], &[8u8; 12]).unwrap();
    assert_eq!(b1, b2);
    let expected = mk()
        .encrypt_body_with(&b.identity().public_key(), &[7u8; 32], &[8u8; 12])
        .unwrap()
        .sign(a.identity())
        .unwrap()
        .serialize()
        .unwrap();
    assert_eq!(b1, expected);
    let wire = FLESHMessage::deserialize(&b1).unwrap();
    assert_eq!(wire.body.len(), 2 + 16);
    assert!(wire.verify(&a.identity().public_key()).is_ok());
    assert_eq!(wire.decrypt_body(b.identity()).unwrap().body, b"hi".to_vec());
    assert!(matches!(a.send_with(mk().with_target(0x77), 3, &[7u8; 32], &[8u8; 12]), Err(SendError::UnknownPeer)));
}

#[test]
fn resolve_steps() {
    let mut a = node(A, 1);
    let b = node(B, 2);
    assert!(matches!(a.resolve_step(B, 5, 10), ResolveStep::Wait));
    assert!(matches!(a.resolve_step(B, 10, 10), ResolveStep::GiveUp));
    a.handle(RoutingMessage::ProvideKey(B, b.identity().public_key()), 6);
    a.handle(RoutingMessage::Pong(A, B), 7);
    match a.resolve_step(B, 8, 10) {
        ResolveStep::Found(k) => assert_eq!(k, b.identity().public_key()),
        other => panic!("{:?}", other),
    }
}
