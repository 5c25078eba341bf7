//! The routing engine: what a node does with each routing control message it
//! receives, how it classifies inbound messages, and how it routes its own.
use vstd::prelude::*;
use crate::codec::{FLESHMessage, MessageError, MessageModel, PROTOCOL_VERSION, encode, encodable, is_for, parse, status_canonical, same_but_headers, lemma_parse_encode};
use crate::crypto::{ed25519_point_valid, ed25519_public, valid_public_key};
use crate::envelope::{Identity, stamped, signed_model, verify_outcome, ephemeral_key_name, nonce_name, receiver_key, sender_key, encrypt_rel, envelope_removed};
use crate::routing::for_name;
use crate::crypto::{aead_seal, random_bytes};
use vstd::bytes::spec_u128_to_le_bytes;
use crate::headers::header_lookup;
use crate::crypto::aead_open;
use crate::peers::{NodeRelation, NodeRelationshipMap, PeerModel, knows_spec, pong_spec, announced_spec, relayed_spec};
use crate::routing::{RoutingMessage, RoutingModel, routing_view};

verus! {

/// What the engine does after a routing control message.
#[derive(Debug)]
pub enum RoutingAction {
    /// Nothing to send.
    Nothing,
    /// Broadcast this reply.
    Reply(RoutingMessage),
    /// Hand this relayed message to the application stream.
    Deliver(FLESHMessage),
    /// A relay reported a failure, with its reason.
    Failure(Vec<u8>),
    /// A known peer's key was replaced by a different one: possible
    /// impersonation.
    KeyChanged(u128),
}

/// A routing action, as mathematical values.
pub enum ActionModel {
    Nothing,
    Reply(RoutingModel),
    Deliver(MessageModel),
    Failure(Seq<u8>),
    KeyChanged(u128),
}

impl View for RoutingAction {
    type V = ActionModel;

    open spec fn view(&self) -> ActionModel {
        match self {
            RoutingAction::Nothing => ActionModel::Nothing,
            RoutingAction::Reply(r) => ActionModel::Reply(r@),
            RoutingAction::Deliver(m) => ActionModel::Deliver(m@),
            RoutingAction::Failure(v) => ActionModel::Failure(v@),
            RoutingAction::KeyChanged(i) => ActionModel::KeyChanged(*i),
        }
    }
}

/// The table and the action after a routing control message `r` reaches the
/// node `me` with secret key `secret` at time `now`.
pub open spec fn handle_spec(t: Map<u128, PeerModel>, me: u128, secret: Seq<u8>, r: RoutingModel, now: u64) -> (Map<u128, PeerModel>, ActionModel) {
    match r {
        RoutingModel::Announce(id) => (t, if knows_spec(t, id, now) {
            ActionModel::Nothing
        } else {
            ActionModel::Reply(RoutingModel::RequestKey(id))
        }),
        RoutingModel::Ping(to, from) => (t, if to == me {
            ActionModel::Reply(RoutingModel::Pong(from, me))
        } else {
            ActionModel::Nothing
        }),
        RoutingModel::Pong(to, from) => if to == me {
            (pong_spec(t, from, now), ActionModel::Nothing)
        } else {
            (t, ActionModel::Nothing)
        },
        RoutingModel::RequestKey(id) => (t, if id == me {
            ActionModel::Reply(RoutingModel::ProvideKey(me, ed25519_public(secret)))
        } else if knows_spec(t, id, now) {
            ActionModel::Reply(RoutingModel::ProvideKey(id, t[id].key))
        } else {
            ActionModel::Nothing
        }),
        RoutingModel::ProvideKey(id, key) => if key.len() == 32 && ed25519_point_valid(key) {
            (announced_spec(t, id, key, now), if t.contains_key(id) && t[id].key != key {
                ActionModel::KeyChanged(id)
            } else {
                ActionModel::Nothing
            })
        } else {
            (t, ActionModel::Nothing)
        },
        RoutingModel::RequestRelayCapability(id) => (t, if knows_spec(t, id, now) && t[id].relation == NodeRelation::Local {
            ActionModel::Reply(RoutingModel::ProvideRelayCapability(me, id, true))
        } else {
            ActionModel::Nothing
        }),
        RoutingModel::ProvideRelayCapability(from, to, ok) => if ok {
            (relayed_spec(t, to, from, now), ActionModel::Nothing)
        } else {
            (t, ActionModel::Nothing)
        },
        RoutingModel::Relay(id, inner) => (t, if id == me {
            ActionModel::Deliver(inner)
        } else {
            ActionModel::Nothing
        }),
        RoutingModel::RelayFailure(id, reason) => (t, if id == me {
            ActionModel::Failure(reason)
        } else {
            ActionModel::Nothing
        }),
    }
}

/// Counts of inbound messages that were dropped, by reason.
#[derive(Clone, Copy, Debug, PartialEq, Eq, Structural)]
pub struct Counters {
    pub malformed: u64,
    pub signature_invalid: u64,
    pub decrypt_failed: u64,
}

/// Why an inbound message was dropped.
#[derive(Clone, Copy, Debug, PartialEq, Eq, Structural)]
pub enum DropReason {
    /// The bytes are not a message.
    Malformed,
    /// The message is this node's own.
    SelfLoop,
    /// The sender's signature does not verify.
    SignatureInvalid,
    /// The message is encrypted to this node and does not decrypt.
    DecryptFailed,
}

/// Where an inbound message goes.
#[derive(Debug)]
pub enum Inbound {
    /// To the routing engine.
    Routing(RoutingMessage),
    /// To the application stream; `verified` tells whether the sender's
    /// signature was checked against a known key.
    Application { message: FLESHMessage, verified: bool },
    /// Nowhere.
    Dropped(DropReason),
}

/// One step of resolving a peer's key.
#[derive(Debug)]
pub enum ResolveStep {
    /// The key, from a fresh entry.
    Found(Vec<u8>),
    /// Not known yet: keep waiting.
    Wait,
    /// Not known, and the deadline has passed.
    GiveUp,
}

/// Seconds that resolving a key waits for an answer.
pub const RESOLVE_TIMEOUT_SECS: u64 = 10;

/// Why a message could not be sent.
#[derive(Clone, Copy, Debug, PartialEq, Eq, Structural)]
pub enum SendError {
    /// The target has no fresh entry in the peer table.
    UnknownPeer,
    /// The message could not be encoded, encrypted or signed.
    Message(MessageError),
}

pub open spec fn bump(c: u64) -> u64 {
    if c < u64::MAX { (c + 1) as u64 } else { c }
}

fn bumped(c: u64) -> (r: u64)
    ensures
        r == bump(c),
{
    if c < u64::MAX { c + 1 } else { c }
}

/// A node of the overlay: its identity, its peer table and its counters.
#[derive(Debug)]
pub struct Network {
    identity: Identity,
    nodes: NodeRelationshipMap,
    counters: Counters,
}

impl Network {
    /// This node's id.
    pub closed spec fn me(&self) -> u128 {
        self.identity.peer_id()
    }

    /// This node's secret key.
    pub closed spec fn secret(&self) -> Seq<u8> {
        self.identity.secret_key()
    }

    /// The peer table.
    pub closed spec fn table(&self) -> Map<u128, PeerModel> {
        self.nodes@
    }

    /// The drop counters.
    pub closed spec fn stats(&self) -> Counters {
        self.counters
    }

    /// A node with the given identity, an empty table and zero counters.
    pub fn new(identity: Identity) -> (r: Network)
        ensures
            r.me() == identity.peer_id(),
            r.secret() == identity.secret_key(),
            r.table() == Map::<u128, PeerModel>::empty(),
            r.stats() == (Counters { malformed: 0, signature_invalid: 0, decrypt_failed: 0 }),
    {
        Network {
            identity,
            nodes: NodeRelationshipMap::new(),
            counters: Counters { malformed: 0, signature_invalid: 0, decrypt_failed: 0 },
        }
    }

    /// This node's id.
    pub fn id(&self) -> (r: u128)
        ensures
            r == self.me(),
    {
        self.identity.id()
    }

    /// This node's identity.
    pub fn identity(&self) -> (r: &Identity)
        ensures
            r.peer_id() == self.me(),
            r.secret_key() == self.secret(),
    {
        &self.identity
    }

    /// The peer table.
    pub fn peers(&self) -> (r: &NodeRelationshipMap)
        ensures
            r@ == self.table(),
    {
        &self.nodes
    }

    /// The drop counters.
    pub fn counters(&self) -> (r: Counters)
        ensures
            r == self.stats(),
    {
        self.counters
    }

    /// What to do while resolving the key of `id` at `now`, having started
    /// to wait with the given deadline: take the key from a fresh entry, else
    /// wait until the deadline, then give up.
    pub fn resolve_step(&self, id: u128, now: u64, deadline: u64) -> (r: ResolveStep)
        ensures
            knows_spec(self.table(), id, now) ==> (r matches ResolveStep::Found(k) && k@ == self.table()[id].key),
            !knows_spec(self.table(), id, now) ==> (r is Wait <==> now < deadline),
            !knows_spec(self.table(), id, now) ==> (r is GiveUp <==> now >= deadline),
    {
        match self.nodes.key(id, now) {
            Some(k) => ResolveStep::Found(k),
            None => if now < deadline {
                ResolveStep::Wait
            } else {
                ResolveStep::GiveUp
            },
        }
    }

    /// The announcement this node broadcasts periodically.
    pub fn announcement(&self) -> (r: RoutingMessage)
        ensures
            r@ == RoutingModel::Announce(self.me()),
    {
        RoutingMessage::Announce(self.id())
    }

    /// Applies a routing control message to the peer table and says what to
    /// do next.
    pub fn handle(&mut self, msg: RoutingMessage, now: u64) -> (r: RoutingAction)
        ensures
            (final(self).table(), r@) == handle_spec(old(self).table(), old(self).me(), old(self).secret(), msg@, now),
            final(self).me() == old(self).me(),
            final(self).secret() == old(self).secret(),
            final(self).stats() == old(self).stats(),
    {
        let me = self.identity.id();
        match msg {
            RoutingMessage::Announce(id) => {
                if self.nodes.knows(id, now) {
                    RoutingAction::Nothing
                } else {
                    RoutingAction::Reply(RoutingMessage::RequestKey(id))
                }
            },
            RoutingMessage::Ping(to, from) => {
                if to == me {
                    RoutingAction::Reply(RoutingMessage::Pong(from, me))
                } else {
                    RoutingAction::Nothing
                }
            },
            RoutingMessage::Pong(to, from) => {
                if to == me {
                    self.nodes.pong(from, now);
                }
                RoutingAction::Nothing
            },
            RoutingMessage::RequestKey(id) => {
                if id == me {
                    RoutingAction::Reply(RoutingMessage::ProvideKey(me, self.identity.public_key()))
                } else {
                    match self.nodes.key(id, now) {
                        Some(k) => RoutingAction::Reply(RoutingMessage::ProvideKey(id, k)),
                        None => RoutingAction::Nothing,
                    }
                }
            },
            RoutingMessage::ProvideKey(id, key) => {
                if key.len() == 32 && valid_public_key(key.as_slice()) {
                    if self.nodes.announced(id, key, now) {
                        RoutingAction::KeyChanged(id)
                    } else {
                        RoutingAction::Nothing
                    }
                } else {
                    RoutingAction::Nothing
                }
            },
            RoutingMessage::RequestRelayCapability(id) => {
                if self.nodes.can_relay(id, now) {
                    RoutingAction::Reply(RoutingMessage::ProvideRelayCapability(me, id, true))
                } else {
                    RoutingAction::Nothing
                }
            },
            RoutingMessage::ProvideRelayCapability(from, to, ok) => {
                if ok {
                    self.nodes.relayed(to, from, now);
                }
                RoutingAction::Nothing
            },
            RoutingMessage::Relay(id, inner) => {
                if id == me {
                    RoutingAction::Deliver(inner)
                } else {
                    RoutingAction::Nothing
                }
            },
            RoutingMessage::RelayFailure(id, reason) => {
                if id == me {
                    RoutingAction::Failure(reason)
                } else {
                    RoutingAction::Nothing
                }
            },
        }
    }

    /// Decodes an inbound packet and sorts it; undecodable bytes are dropped
    /// and counted.
    pub fn receive(&mut self, data: &[u8], now: u64) -> (r: Inbound)
        ensures
            final(self).me() == old(self).me(),
            final(self).secret() == old(self).secret(),
            final(self).table() == old(self).table(),
            parse(data@) is None ==> r == Inbound::Dropped(DropReason::Malformed)
                && final(self).stats() == (Counters { malformed: bump(old(self).stats().malformed), ..old(self).stats() }),
            parse(data@) matches Some(m) ==> accept_spec(old(self).table(), old(self).me(), old(self).secret(), old(self).stats(), m, now, r, final(self).stats()),
    {
        match FLESHMessage::deserialize(data) {
            Ok(m) => self.accept(m, now),
            Err(_) => {
                self.counters.malformed = bumped(self.counters.malformed);
                Inbound::Dropped(DropReason::Malformed)
            },
        }
    }

    /// The message to put on the medium for `m`: as it is when broadcast or
    /// when its target is reachable directly, wrapped in a relay message
    /// targeted at the relay otherwise. Fails when the target has no fresh
    /// entry.
    pub fn route(&self, m: FLESHMessage, now: u64) -> (r: Result<FLESHMessage, SendError>)
        ensures
            route_spec(self.table(), m@, now, r),
    {
        match m.target {
            None => Ok(m),
            Some(id) => match self.nodes.get(id, now) {
                None => Err(SendError::UnknownPeer),
                Some((NodeRelation::Local, _)) => Ok(m),
                Some((NodeRelation::Relay { via }, _)) => {
                    match RoutingMessage::Relay(id, m).to_message() {
                        Ok(w) => Ok(w.with_target(via)),
                        Err(e) => Err(SendError::Message(e)),
                    }
                },
            },
        }
    }

    /// The bytes to transmit for an application message, with the given
    /// ephemeral X25519 secret and nonce for its encryption: a broadcast is
    /// signed by this node; a targeted message is encrypted to the target's
    /// key from the table and signed, then sent as it is when the target is
    /// reached directly, or wrapped in a relay message for the relay that is
    /// signed again.
    pub fn send_with(&self, m: FLESHMessage, now: u64, ephemeral: &[u8], nonce: &[u8]) -> (r: Result<Vec<u8>, SendError>)
        requires
            ephemeral@.len() == 32,
            nonce@.len() == 12,
        ensures
            send_rel(self.table(), self.me(), self.secret(), m@, now, ephemeral@, nonce@, bytes_view(r)),
    {
        match m.target {
            None => {
                let s = match m.sign(&self.identity) {
                    Ok(s) => s,
                    Err(e) => return Err(SendError::Message(e)),
                };
                match s.serialize() {
                    Ok(b) => Ok(b),
                    Err(e) => Err(SendError::Message(e)),
                }
            },
            Some(id) => {
                let (rel, key) = match self.nodes.get(id, now) {
                    Some(x) => x,
                    None => return Err(SendError::UnknownPeer),
                };
                if key.len() != 32 {
                    return Err(SendError::Message(MessageError::EncryptionError));
                }
                let ghost mv = m@;
                let enc = match m.encrypt_body_with(key.as_slice(), ephemeral, nonce) {
                    Ok(x) => x,
                    Err(e) => return Err(SendError::Message(e)),
                };
                let ghost ev = enc@;
                assert(encrypt_rel(mv, key@, ephemeral@, nonce@, Ok(ev)));
                let s = match enc.sign(&self.identity) {
                    Ok(s) => s,
                    Err(e) => return Err(SendError::Message(e)),
                };
                let ghost sv = s@;
                let x = match self.route(s, now) {
                    Ok(x) => x,
                    Err(e) => return Err(e),
                };
                match rel {
                    NodeRelation::Local => {
                        let r = match x.serialize() {
                            Ok(b) => Ok(b),
                            Err(e) => Err(SendError::Message(e)),
                        };
                        assert(targeted_rel(rel, id, ev, self.me(), self.secret(), bytes_view(r)));
                        r
                    },
                    NodeRelation::Relay { via } => {
                        let ghost wv = x@;
                        assert(relay_wrapper(wv, id, sv, via));
                        let sw = match x.sign(&self.identity) {
                            Ok(y) => y,
                            Err(e) => {
                                let r = Err(SendError::Message(e));
                                assert(targeted_rel(rel, id, ev, self.me(), self.secret(), bytes_view(r)));
                                return r;
                            },
                        };
                        let r = match sw.serialize() {
                            Ok(b) => Ok(b),
                            Err(e) => Err(SendError::Message(e)),
                        };
                        assert(targeted_rel(rel, id, ev, self.me(), self.secret(), bytes_view(r)));
                        r
                    },
                }
            },
        }
    }

    /// The bytes to transmit for an application message, with a fresh
    /// ephemeral secret and nonce from the system's generator when it is
    /// targeted.
    pub fn send(&self, m: FLESHMessage, now: u64) -> (r: Result<Vec<u8>, SendError>)
        ensures
            m.target is None ==> send_rel(self.table(), self.me(), self.secret(), m@, now, Seq::empty(), Seq::empty(), bytes_view(r)),
            m.target matches Some(id) ==> (r == Err::<Vec<u8>, SendError>(SendError::UnknownPeer) <==> !knows_spec(self.table(), id, now)),
            m.target matches Some(id) && knows_spec(self.table(), id, now)
                && (self.table()[id].key.len() != 32 || !ed25519_point_valid(self.table()[id].key))
                ==> r == Err::<Vec<u8>, SendError>(SendError::Message(MessageError::EncryptionError)),
            r is Err ==> (r == Err::<Vec<u8>, SendError>(SendError::UnknownPeer)
                || r == Err::<Vec<u8>, SendError>(SendError::Message(MessageError::EncryptionError))
                || r == Err::<Vec<u8>, SendError>(SendError::Message(MessageError::SerializationError))),
            r matches Ok(b) ==> exists|e: Seq<u8>, n: Seq<u8>| e.len() == 32 && n.len() == 12
                && #[trigger] send_rel(self.table(), self.me(), self.secret(), m@, now, e, n, Ok(b@)),
    {
        if m.target.is_none() {
            let z: [u8; 32] = [0u8; 32];
            let w: [u8; 12] = [0u8; 12];
            let r = self.send_with(m, now, z.as_slice(), w.as_slice());
            return r;
        }
        let e = match random_bytes(32) {
            Some(b) => b,
            None => return self.fail_without_randomness(m, now),
        };
        let n = match random_bytes(12) {
            Some(b) => b,
            None => return self.fail_without_randomness(m, now),
        };
        self.send_with(m, now, e.as_slice(), n.as_slice())
    }

    fn fail_without_randomness(&self, m: FLESHMessage, now: u64) -> (r: Result<Vec<u8>, SendError>)
        requires
            m.target is Some,
        ensures
            m.target matches Some(id) && !knows_spec(self.table(), id, now) ==> r == Err::<Vec<u8>, SendError>(SendError::UnknownPeer),
            m.target matches Some(id) && knows_spec(self.table(), id, now) ==> r == Err::<Vec<u8>, SendError>(SendError::Message(MessageError::EncryptionError)),
    {
        match m.target {
            Some(id) => if self.nodes.knows(id, now) {
                Err(SendError::Message(MessageError::EncryptionError))
            } else {
                Err(SendError::UnknownPeer)
            },
            None => Err(SendError::UnknownPeer),
        }
    }

    /// Sorts a decoded inbound message: this node's own messages are dropped;
    /// routing controls for this node go to the engine; the rest goes to the
    /// application stream once its signature (when the sender's key is known)
    /// and its encryption (when it is encrypted to this node) check out.
    pub fn accept(&mut self, m: FLESHMessage, now: u64) -> (r: Inbound)
        ensures
            final(self).me() == old(self).me(),
            final(self).secret() == old(self).secret(),
            final(self).table() == old(self).table(),
            accept_spec(old(self).table(), old(self).me(), old(self).secret(), old(self).stats(), m@, now, r, final(self).stats()),
    {
        let me = self.identity.id();
        if m.sender == Some(me) {
            return Inbound::Dropped(DropReason::SelfLoop);
        }
        if m.for_id(me) {
            match RoutingMessage::from_message(&m) {
                Some(rm) => return Inbound::Routing(rm),
                None => {},
            }
        }
        let mut verified = false;
        if let (Some(s), Some(_)) = (m.sender, &m.signature) {
            if let Some(k) = self.nodes.key(s, now) {
                if k.len() == 32 {
                    match m.verify(k.as_slice()) {
                        Ok(()) => { verified = true; },
                        Err(_) => {
                            self.counters.signature_invalid = bumped(self.counters.signature_invalid);
                            return Inbound::Dropped(DropReason::SignatureInvalid);
                        },
                    }
                }
            }
        }
        let eph = crate::envelope::ephemeral_key_header_bytes();
        if m.target == Some(me) && m.headers.get(eph.as_slice()).is_some() {
            match m.decrypt_body(&self.identity) {
                Ok(d) => Inbound::Application { message: d, verified },
                Err(_) => {
                    self.counters.decrypt_failed = bumped(self.counters.decrypt_failed);
                    Inbound::Dropped(DropReason::DecryptFailed)
                },
            }
        } else {
            Inbound::Application { message: m, verified }
        }
    }
}

/// What routing `m` gives: unchanged when broadcast or local, a relay wrapper
/// targeted at the relay, or an unknown-peer error.
pub open spec fn route_spec(t: Map<u128, PeerModel>, m: MessageModel, now: u64, r: Result<FLESHMessage, SendError>) -> bool {
    match m.target {
        None => r matches Ok(x) && x@ == m,
        Some(id) => if !knows_spec(t, id, now) {
            r == Err::<FLESHMessage, SendError>(SendError::UnknownPeer)
        } else {
            match t[id].relation {
                NodeRelation::Local => r matches Ok(x) && x@ == m,
                NodeRelation::Relay { via } => if encodable(m) {
                    r matches Ok(w) && relay_wrapper(w@, id, m, via)
                        && (status_canonical(m.status) ==> routing_view(w@) == Some(RoutingModel::Relay(id, m)))
                } else {
                    r == Err::<FLESHMessage, SendError>(SendError::Message(MessageError::SerializationError))
                },
            }
        },
    }
}

pub open spec fn bytes_view(r: Result<Vec<u8>, SendError>) -> Result<Seq<u8>, SendError> {
    match r {
        Ok(b) => Ok(b@),
        Err(e) => Err(e),
    }
}

/// A relay message for the relay `via` that carries `inner` to `id`.
pub open spec fn relay_wrapper(w: MessageModel, id: u128, inner: MessageModel, via: u128) -> bool {
    &&& w.status == crate::status::Status::Relay
    &&& w.version == PROTOCOL_VERSION
    &&& w.target == Some(via)
    &&& w.sender is None
    &&& w.signature is None
    &&& w.body == encode(inner)
    &&& w.headers == seq![(for_name(), spec_u128_to_le_bytes(id))]
}

/// What sending the encrypted message `enc` to `id` gives, by relation: its
/// signed encoding when `id` is reached directly, else the signed encoding of
/// a relay wrapper around it; a length that does not fit is an error.
pub open spec fn targeted_rel(rel: NodeRelation, id: u128, enc: MessageModel, me: u128, secret: Seq<u8>, r: Result<Seq<u8>, SendError>) -> bool {
    if !encodable(stamped(enc, me)) {
        r == Err::<Seq<u8>, SendError>(SendError::Message(MessageError::SerializationError))
    } else {
        match rel {
            NodeRelation::Local => r == Ok::<Seq<u8>, SendError>(encode(signed_model(enc, me, secret))),
            NodeRelation::Relay { via } => exists|w: MessageModel|
                #[trigger] relay_wrapper(w, id, signed_model(enc, me, secret), via) && if encodable(stamped(w, me)) {
                    r == Ok::<Seq<u8>, SendError>(encode(signed_model(w, me, secret)))
                } else {
                    r == Err::<Seq<u8>, SendError>(SendError::Message(MessageError::SerializationError))
                },
        }
    }
}

/// What sending `m` from `me` gives with ephemeral secret `e` and nonce `n`.
pub open spec fn send_rel(t: Map<u128, PeerModel>, me: u128, secret: Seq<u8>, m: MessageModel, now: u64, e: Seq<u8>, n: Seq<u8>, r: Result<Seq<u8>, SendError>) -> bool {
    match m.target {
        None => if encodable(stamped(m, me)) {
            r == Ok::<Seq<u8>, SendError>(encode(signed_model(m, me, secret)))
        } else {
            r == Err::<Seq<u8>, SendError>(SendError::Message(MessageError::SerializationError))
        },
        Some(id) => if !knows_spec(t, id, now) {
            r == Err::<Seq<u8>, SendError>(SendError::UnknownPeer)
        } else if t[id].key.len() != 32 || !ed25519_point_valid(t[id].key) || aead_seal(sender_key(t[id].key, e), n, m.body) is None {
            r == Err::<Seq<u8>, SendError>(SendError::Message(MessageError::EncryptionError))
        } else {
            exists|enc: MessageModel| #[trigger] encrypt_rel(m, t[id].key, e, n, Ok(enc)) && targeted_rel(t[id].relation, id, enc, me, secret, r)
        },
    }
}

/// The sender's signature can be checked: the message is signed and the
/// sender has a fresh 32-byte key in the table.
pub open spec fn checkable(t: Map<u128, PeerModel>, m: MessageModel, now: u64) -> bool {
    m.sender matches Some(s) && m.signature is Some && knows_spec(t, s, now) && t[s].key.len() == 32
}

/// The message is encrypted to `me`.
pub open spec fn encrypted_to(m: MessageModel, me: u128) -> bool {
    m.target == Some(me) && header_lookup(m.headers, ephemeral_key_name()) is Some
}

/// The plaintext of a message encrypted to the holder of `secret`, if it opens.
pub open spec fn decrypt_plain(m: MessageModel, secret: Seq<u8>) -> Option<Seq<u8>> {
    match (header_lookup(m.headers, ephemeral_key_name()), header_lookup(m.headers, nonce_name())) {
        (Some(e), Some(n)) => if e.len() == 32 && n.len() == 12 {
            aead_open(receiver_key(secret, e), n, m.body)
        } else {
            None
        },
        _ => None,
    }
}

/// Where an inbound message `m` goes, and the counters afterwards.
pub open spec fn accept_spec(t: Map<u128, PeerModel>, me: u128, secret: Seq<u8>, c: Counters, m: MessageModel, now: u64, r: Inbound, c2: Counters) -> bool {
    if m.sender == Some(me) {
        r == Inbound::Dropped(DropReason::SelfLoop) && c2 == c
    } else if routing_view(m) is Some && is_for(m, me) {
        r matches Inbound::Routing(x) && x@ == routing_view(m)->0 && c2 == c
    } else if checkable(t, m, now) && verify_outcome(m, t[m.sender->0].key) is Err {
        r == Inbound::Dropped(DropReason::SignatureInvalid) && c2 == (Counters { signature_invalid: bump(c.signature_invalid), ..c })
    } else if encrypted_to(m, me) {
        match decrypt_plain(m, secret) {
            None => r == Inbound::Dropped(DropReason::DecryptFailed) && c2 == (Counters { decrypt_failed: bump(c.decrypt_failed), ..c }),
            Some(p) => r matches Inbound::Application { message: d, verified } && d@.body == p
                && same_but_headers(m, (MessageModel { body: m.body, ..d@ })) && envelope_removed(m, d@)
                && verified == checkable(t, m, now) && c2 == c,
        }
    } else {
        r matches Inbound::Application { message: d, verified } && d@ == m && verified == checkable(t, m, now) && c2 == c
    }
}

} // verus!
