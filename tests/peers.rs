use flesh::peers::{NodeRelation, NodeRelationshipMap, RESOLUTION_TTL_SECS};

fn key(b: u8) -> Vec<u8> {
    vec![b; 32]
}

#[test]
fn first_announce_is_stale() {
    let mut t = NodeRelationshipMap::new();
    assert!(!t.announced(7, key(1), 100));
    assert!(!t.knows(7, 100));
    assert!(t.key(7, 100).is_none());
    assert!(t.get(7, 100).is_none());
    assert!(!t.can_relay(7, 100));
}

#[test]
fn pong_makes_fresh_and_local() {
    let mut t = NodeRelationshipMap::new();
    t.announced(7, key(1), 100);
    t.pong(7, 200);
    assert!(t.knows(7, 200));
    assert_eq!(t.key(7, 200), Some(key(1)));
    assert!(t.can_relay(7, 200));
    assert_eq!(t.get(7, 200), Some((NodeRelation::Local, key(1))));
}

#[test]
fn second_announce_refreshes_and_reports_key_change() {
    let mut t = NodeRelationshipMap::new();
    t.announced(7, key(1), 100);
    assert!(!t.announced(7, key(1), 150));
    assert!(t.knows(7, 150));
    assert!(t.announced(7, key(2), 160));
    assert_eq!(t.key(7, 160), Some(key(2)));
}

#[test]
fn freshness_ends_at_ttl() {
    let mut t = NodeRelationshipMap::new();
    t.announced(7, key(1), 0);
    t.pong(7, 1000);
    assert!(t.knows(7, 1000 + RESOLUTION_TTL_SECS - 1));
    assert!(!t.knows(7, 1000 + RESOLUTION_TTL_SECS));
}

#[test]
fn pong_of_unknown_peer_is_ignored() {
    let mut t = NodeRelationshipMap::new();
    t.pong(9, 10);
    assert!(!t.knows(9, 10));
}

#[test]
fn relayed_does_not_demote_local() {
    let mut t = NodeRelationshipMap::new();
    t.announced(7, key(1), 100);
    t.pong(7, 100);
    t.relayed(7, 42, 150);
    assert_eq!(t.get(7, 150), Some((NodeRelation::Local, key(1))));
    t.relayed(8, 42, 150);
    assert!(!t.knows(8, 150));
}

#[test]
fn relayed_leaves_first_learned_peer_stale() {
    let mut t = NodeRelationshipMap::new();
    t.announced(7, key(1), 100);
    t.relayed(7, 42, 120);
    assert!(!t.knows(7, 120));
}
