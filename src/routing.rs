//! Routing control messages and their binding to message headers and bodies.
use vstd::prelude::*;
use vstd::bytes::{spec_u128_from_le_bytes, spec_u128_to_le_bytes, u128_from_le_bytes, u128_to_le_bytes, lemma_auto_spec_u128_to_from_le_bytes};
use crate::codec::{FLESHMessage, MessageError, MessageModel, encode, encodable, parse, status_canonical, lemma_parse_encode};
use crate::headers::{Headers, header_lookup};
use crate::status::Status;

verus! {

/// `self`
pub open spec fn self_name() -> Seq<u8> { seq![115u8, 101, 108, 102] }
/// `for`
pub open spec fn for_name() -> Seq<u8> { seq![102u8, 111, 114] }
/// `to`
pub open spec fn to_name() -> Seq<u8> { seq![116u8, 111] }
/// `from`
pub open spec fn from_name() -> Seq<u8> { seq![102u8, 114, 111, 109] }
/// `status`
pub open spec fn status_name() -> Seq<u8> { seq![115u8, 116, 97, 116, 117, 115] }
/// `true`
pub open spec fn true_text() -> Seq<u8> { seq![116u8, 114, 117, 101] }
/// `false`
pub open spec fn false_text() -> Seq<u8> { seq![102u8, 97, 108, 115, 101] }

fn self_header() -> (r: Vec<u8>) ensures r@ == self_name() {
    let r = vec![115u8, 101, 108, 102]; assert(r@ =~= self_name()); r
}
fn for_header() -> (r: Vec<u8>) ensures r@ == for_name() {
    let r = vec![102u8, 111, 114]; assert(r@ =~= for_name()); r
}
fn to_header() -> (r: Vec<u8>) ensures r@ == to_name() {
    let r = vec![116u8, 111]; assert(r@ =~= to_name()); r
}
fn from_header() -> (r: Vec<u8>) ensures r@ == from_name() {
    let r = vec![102u8, 114, 111, 109]; assert(r@ =~= from_name()); r
}
fn status_header() -> (r: Vec<u8>) ensures r@ == status_name() {
    let r = vec![115u8, 116, 97, 116, 117, 115]; assert(r@ =~= status_name()); r
}
fn bool_text(b: bool) -> (r: Vec<u8>) ensures r@ == (if b { true_text() } else { false_text() }) {
    if b {
        let r = vec![116u8, 114, 117, 101]; assert(r@ =~= true_text()); r
    } else {
        let r = vec![102u8, 97, 108, 115, 101]; assert(r@ =~= false_text()); r
    }
}

/// A routing control message, as mathematical values.
pub enum RoutingModel {
    Announce(u128),
    Ping(u128, u128),
    Pong(u128, u128),
    RequestKey(u128),
    ProvideKey(u128, Seq<u8>),
    RequestRelayCapability(u128),
    ProvideRelayCapability(u128, u128, bool),
    Relay(u128, MessageModel),
    RelayFailure(u128, Seq<u8>),
}

/// A routing control message.
#[derive(Debug)]
pub enum RoutingMessage {
    /// A peer announces itself.
    Announce(u128),
    /// Ping(to, from): asks `to` whether it is reachable directly.
    Ping(u128, u128),
    /// Pong(to, from): `from` answers a ping of `to`.
    Pong(u128, u128),
    /// Asks for the key of a peer.
    RequestKey(u128),
    /// Gives the key of a peer.
    ProvideKey(u128, Vec<u8>),
    /// Asks who can relay to a peer.
    RequestRelayCapability(u128),
    /// ProvideRelayCapability(from, to, ok): `from` offers to relay to `to`.
    ProvideRelayCapability(u128, u128, bool),
    /// A message to be delivered to a peer.
    Relay(u128, FLESHMessage),
    /// A relay could not deliver to a peer, with the reason.
    RelayFailure(u128, Vec<u8>),
}

impl View for RoutingMessage {
    type V = RoutingModel;

    open spec fn view(&self) -> RoutingModel {
        match self {
            RoutingMessage::Announce(a) => RoutingModel::Announce(*a),
            RoutingMessage::Ping(a, b) => RoutingModel::Ping(*a, *b),
            RoutingMessage::Pong(a, b) => RoutingModel::Pong(*a, *b),
            RoutingMessage::RequestKey(a) => RoutingModel::RequestKey(*a),
            RoutingMessage::ProvideKey(a, k) => RoutingModel::ProvideKey(*a, k@),
            RoutingMessage::RequestRelayCapability(a) => RoutingModel::RequestRelayCapability(*a),
            RoutingMessage::ProvideRelayCapability(a, b, c) => RoutingModel::ProvideRelayCapability(*a, *b, *c),
            RoutingMessage::Relay(a, m) => RoutingModel::Relay(*a, m@),
            RoutingMessage::RelayFailure(a, r) => RoutingModel::RelayFailure(*a, r@),
        }
    }
}

pub open spec fn routing_opt_view(o: Option<RoutingMessage>) -> Option<RoutingModel> {
    match o {
        Some(r) => Some(r@),
        None => None,
    }
}

/// The status that carries each routing control message.
pub open spec fn routing_status(r: RoutingModel) -> Status {
    match r {
        RoutingModel::Announce(..) => Status::Announce,
        RoutingModel::Ping(..) => Status::Ping,
        RoutingModel::Pong(..) => Status::Pong,
        RoutingModel::RequestKey(..) => Status::RequestKey,
        RoutingModel::ProvideKey(..) => Status::ProvideKey,
        RoutingModel::RequestRelayCapability(..) => Status::RequestRelay,
        RoutingModel::ProvideRelayCapability(..) => Status::ProvideRelay,
        RoutingModel::Relay(..) => Status::Relay,
        RoutingModel::RelayFailure(..) => Status::RelayFailure,
    }
}

/// The peer id held in header `name`: 16 bytes, little-endian.
pub open spec fn id_header(hs: Seq<(Seq<u8>, Seq<u8>)>, name: Seq<u8>) -> Option<u128> {
    match header_lookup(hs, name) {
        Some(v) => if v.len() == 16 { Some(spec_u128_from_le_bytes(v)) } else { None },
        None => None,
    }
}

/// The flag held in header `name`: `true` or `false`.
pub open spec fn bool_header(hs: Seq<(Seq<u8>, Seq<u8>)>, name: Seq<u8>) -> Option<bool> {
    match header_lookup(hs, name) {
        Some(v) => if v == true_text() { Some(true) } else if v == false_text() { Some(false) } else { None },
        None => None,
    }
}

/// The routing control message that a message carries, if any: its status is
/// one of the routing controls and the headers and body it needs are there.
pub open spec fn routing_view(m: MessageModel) -> Option<RoutingModel> {
    let hs = m.headers;
    match m.status {
        Status::Announce => match id_header(hs, self_name()) {
            Some(i) => Some(RoutingModel::Announce(i)),
            None => None,
        },
        Status::Ping => match (id_header(hs, to_name()), id_header(hs, from_name())) {
            (Some(t), Some(f)) => Some(RoutingModel::Ping(t, f)),
            _ => None,
        },
        Status::Pong => match (id_header(hs, to_name()), id_header(hs, from_name())) {
            (Some(t), Some(f)) => Some(RoutingModel::Pong(t, f)),
            _ => None,
        },
        Status::RequestKey => match id_header(hs, for_name()) {
            Some(i) => Some(RoutingModel::RequestKey(i)),
            None => None,
        },
        Status::ProvideKey => match id_header(hs, for_name()) {
            Some(i) => Some(RoutingModel::ProvideKey(i, m.body)),
            None => None,
        },
        Status::RequestRelay => match id_header(hs, for_name()) {
            Some(i) => Some(RoutingModel::RequestRelayCapability(i)),
            None => None,
        },
        Status::ProvideRelay => match (id_header(hs, from_name()), id_header(hs, to_name()), bool_header(hs, status_name())) {
            (Some(f), Some(t), Some(b)) => Some(RoutingModel::ProvideRelayCapability(f, t, b)),
            _ => None,
        },
        Status::Relay => match (id_header(hs, for_name()), parse(m.body)) {
            (Some(i), Some(inner)) => Some(RoutingModel::Relay(i, inner)),
            _ => None,
        },
        Status::RelayFailure => match id_header(hs, for_name()) {
            Some(i) => Some(RoutingModel::RelayFailure(i, m.body)),
            None => None,
        },
        _ => None,
    }
}

/// A routing message that survives the trip through a message: a relayed
/// message's status reads back as itself.
pub open spec fn routing_wf(r: RoutingModel) -> bool {
    match r {
        RoutingModel::Relay(_, inner) => status_canonical(inner.status),
        _ => true,
    }
}

fn read_id_header(hs: &Headers, name: &[u8]) -> (r: Option<u128>)
    ensures
        r == id_header(hs@, name@),
{
    match hs.get(name) {
        Some(v) => if v.len() == 16 {
            Some(u128_from_le_bytes(v.as_slice()))
        } else {
            None
        },
        None => None,
    }
}

fn read_bool_header(hs: &Headers, name: &[u8]) -> (r: Option<bool>)
    ensures
        r == bool_header(hs@, name@),
{
    match hs.get(name) {
        Some(v) => if crate::peers::bytes_equal(v.as_slice(), bool_text(true).as_slice()) {
            Some(true)
        } else if crate::peers::bytes_equal(v.as_slice(), bool_text(false).as_slice()) {
            Some(false)
        } else {
            None
        },
        None => None,
    }
}

proof fn lemma_id_value(hs: Seq<(Seq<u8>, Seq<u8>)>, name: Seq<u8>, id: u128)
    requires
        header_lookup(hs, name) == Some(spec_u128_to_le_bytes(id)),
    ensures
        id_header(hs, name) == Some(id),
{
    lemma_auto_spec_u128_to_from_le_bytes();
}

impl RoutingMessage {
    /// The status that carries this message.
    pub fn status(&self) -> (r: Status)
        ensures
            r == routing_status(self@),
    {
        match self {
            RoutingMessage::Announce(..) => Status::Announce,
            RoutingMessage::Ping(..) => Status::Ping,
            RoutingMessage::Pong(..) => Status::Pong,
            RoutingMessage::RequestKey(..) => Status::RequestKey,
            RoutingMessage::ProvideKey(..) => Status::ProvideKey,
            RoutingMessage::RequestRelayCapability(..) => Status::RequestRelay,
            RoutingMessage::ProvideRelayCapability(..) => Status::ProvideRelay,
            RoutingMessage::Relay(..) => Status::Relay,
            RoutingMessage::RelayFailure(..) => Status::RelayFailure,
        }
    }

    /// The routing control message that `m` carries, if any.
    pub fn from_message(m: &FLESHMessage) -> (r: Option<RoutingMessage>)
        ensures
            routing_opt_view(r) == routing_view(m@),
    {
        let hs = &m.headers;
        match m.status {
            Status::Announce => match read_id_header(hs, self_header().as_slice()) {
                Some(i) => Some(RoutingMessage::Announce(i)),
                None => None,
            },
            Status::Ping => match (read_id_header(hs, to_header().as_slice()), read_id_header(hs, from_header().as_slice())) {
                (Some(t), Some(f)) => Some(RoutingMessage::Ping(t, f)),
                _ => None,
            },
            Status::Pong => match (read_id_header(hs, to_header().as_slice()), read_id_header(hs, from_header().as_slice())) {
                (Some(t), Some(f)) => Some(RoutingMessage::Pong(t, f)),
                _ => None,
            },
            Status::RequestKey => match read_id_header(hs, for_header().as_slice()) {
                Some(i) => Some(RoutingMessage::RequestKey(i)),
                None => None,
            },
            Status::ProvideKey => match read_id_header(hs, for_header().as_slice()) {
                Some(i) => Some(RoutingMessage::ProvideKey(i, crate::headers::slice_copy(m.body.as_slice()))),
                None => None,
            },
            Status::RequestRelay => match read_id_header(hs, for_header().as_slice()) {
                Some(i) => Some(RoutingMessage::RequestRelayCapability(i)),
                None => None,
            },
            Status::ProvideRelay => match (
                read_id_header(hs, from_header().as_slice()),
                read_id_header(hs, to_header().as_slice()),
                read_bool_header(hs, status_header().as_slice()),
            ) {
                (Some(f), Some(t), Some(b)) => Some(RoutingMessage::ProvideRelayCapability(f, t, b)),
                _ => None,
            },
            Status::Relay => match read_id_header(hs, for_header().as_slice()) {
                Some(i) => match FLESHMessage::deserialize(m.body.as_slice()) {
                    Ok(inner) => Some(RoutingMessage::Relay(i, inner)),
                    Err(_) => None,
                },
                None => None,
            },
            Status::RelayFailure => match read_id_header(hs, for_header().as_slice()) {
                Some(i) => Some(RoutingMessage::RelayFailure(i, crate::headers::slice_copy(m.body.as_slice()))),
                None => None,
            },
            _ => None,
        }
    }

    /// The message that carries this routing control, broadcast and unsigned.
    /// Only a relayed message whose lengths do not fit can fail.
    pub fn to_message(self) -> (r: Result<FLESHMessage, MessageError>)
        ensures
            r is Err <==> (self@ matches RoutingModel::Relay(_, inner) && !encodable(inner)),
            r is Err ==> r == Err::<FLESHMessage, MessageError>(MessageError::SerializationError),
            r matches Ok(m) ==> m.status == routing_status(self@) && m.target is None
                && m.sender is None && m.signature is None,
            r matches Ok(m) ==> (routing_wf(self@) ==> routing_view(m@) == Some(self@)),
            r matches Ok(m) ==> m.version == crate::codec::PROTOCOL_VERSION,
            r matches Ok(m) ==> (self@ matches RoutingModel::Relay(i, inner) ==> (m@.body == encode(inner)
                && m@.headers == seq![(for_name(), spec_u128_to_le_bytes(i))])),
    {
        let ghost v = self@;
        let status = self.status();
        let m = FLESHMessage::new(status);
        proof { lemma_auto_spec_u128_to_from_le_bytes(); }
        match self {
            RoutingMessage::Announce(i) => {
                let m = m.with_header_bytes(self_header(), u128_to_le_bytes(i));
                proof { lemma_id_value(m@.headers, self_name(), i); }
                Ok(m)
            },
            RoutingMessage::Ping(t, f) => {
                let m = m.with_header_bytes(to_header(), u128_to_le_bytes(t));
                let m = m.with_header_bytes(from_header(), u128_to_le_bytes(f));
                proof {
                    assert(header_lookup(m@.headers, to_name()) == Some(spec_u128_to_le_bytes(t)));
                    lemma_id_value(m@.headers, to_name(), t);
                    lemma_id_value(m@.headers, from_name(), f);
                }
                Ok(m)
            },
            RoutingMessage::Pong(t, f) => {
                let m = m.with_header_bytes(to_header(), u128_to_le_bytes(t));
                let m = m.with_header_bytes(from_header(), u128_to_le_bytes(f));
                proof {
                    assert(header_lookup(m@.headers, to_name()) == Some(spec_u128_to_le_bytes(t)));
                    lemma_id_value(m@.headers, to_name(), t);
                    lemma_id_value(m@.headers, from_name(), f);
                }
                Ok(m)
            },
            RoutingMessage::RequestKey(i) => {
                let m = m.with_header_bytes(for_header(), u128_to_le_bytes(i));
                proof { lemma_id_value(m@.headers, for_name(), i); }
                Ok(m)
            },
            RoutingMessage::ProvideKey(i, k) => {
                let m = m.with_header_bytes(for_header(), u128_to_le_bytes(i));
                let m = m.with_body(k);
                proof { lemma_id_value(m@.headers, for_name(), i); }
                Ok(m)
            },
            RoutingMessage::RequestRelayCapability(i) => {
                let m = m.with_header_bytes(for_header(), u128_to_le_bytes(i));
                proof { lemma_id_value(m@.headers, for_name(), i); }
                Ok(m)
            },
            RoutingMessage::ProvideRelayCapability(f, t, b) => {
                let m = m.with_header_bytes(from_header(), u128_to_le_bytes(f));
                let m = m.with_header_bytes(to_header(), u128_to_le_bytes(t));
                let m = m.with_header_bytes(status_header(), bool_text(b));
                proof {
                    assert(header_lookup(m@.headers, from_name()) == Some(spec_u128_to_le_bytes(f)));
                    assert(header_lookup(m@.headers, to_name()) == Some(spec_u128_to_le_bytes(t)));
                    lemma_id_value(m@.headers, from_name(), f);
                    lemma_id_value(m@.headers, to_name(), t);
                }
                Ok(m)
            },
            RoutingMessage::Relay(i, inner) => {
                let body = match inner.serialize() {
                    Ok(b) => b,
                    Err(e) => return Err(e),
                };
                inner.headers.note_wf();
                proof {
                    if routing_wf(v) {
                        lemma_parse_encode(inner@);
                    }
                }
                let m = m.with_header_bytes(for_header(), u128_to_le_bytes(i));
                let m = m.with_body(body);
                proof { lemma_id_value(m@.headers, for_name(), i); }
                Ok(m)
            },
            RoutingMessage::RelayFailure(i, reason) => {
                let m = m.with_header_bytes(for_header(), u128_to_le_bytes(i));
                let m = m.with_body(reason);
                proof { lemma_id_value(m@.headers, for_name(), i); }
                Ok(m)
            },
        }
    }
}

} // verus!
