//! The peer table: what this node knows of each peer, and how fresh it is.
use vstd::prelude::*;
use std::collections::HashMap;
use crate::headers::slice_copy;

verus! {

broadcast use vstd::std_specs::hash::group_hash_axioms;

/// Seconds for which a peer entry stays fresh after it was last refreshed.
pub const RESOLUTION_TTL_SECS: u64 = 5000;

/// Seconds between two announcements of this node.
pub const ANNOUNCE_DURATION_SECS: u64 = 30;

/// How this node reaches a peer.
#[derive(Clone, Copy, Debug, PartialEq, Eq, Structural)]
pub enum NodeRelation {
    /// Directly, over the transport.
    Local,
    /// Through a third peer that reaches it directly.
    Relay { via: u128 },
}

/// What the table holds of one peer, as mathematical values.
pub struct PeerModel {
    /// When the entry was last refreshed; `None` while it has never been.
    pub last_seen: Option<u64>,
    pub relation: NodeRelation,
    pub key: Seq<u8>,
}

/// One row of the table.
#[derive(Debug)]
pub struct PeerEntry {
    pub last_seen: Option<u64>,
    pub relation: NodeRelation,
    pub key: Vec<u8>,
}

impl View for PeerEntry {
    type V = PeerModel;

    open spec fn view(&self) -> PeerModel {
        PeerModel { last_seen: self.last_seen, relation: self.relation, key: self.key@ }
    }
}

/// An entry is fresh when it was refreshed less than the TTL ago.
pub open spec fn fresh(e: PeerModel, now: u64) -> bool {
    match e.last_seen {
        Some(t) => now < t + RESOLUTION_TTL_SECS,
        None => false,
    }
}

/// The table knows `id`: it holds a fresh entry for it.
pub open spec fn knows_spec(m: Map<u128, PeerModel>, id: u128, now: u64) -> bool {
    m.contains_key(id) && fresh(m[id], now)
}

/// The table after a pong from `id`: a known peer becomes fresh and local.
pub open spec fn pong_spec(m: Map<u128, PeerModel>, id: u128, now: u64) -> Map<u128, PeerModel> {
    if m.contains_key(id) {
        m.insert(id, PeerModel { last_seen: Some(now), relation: NodeRelation::Local, key: m[id].key })
    } else {
        m
    }
}

/// The table after learning `key` for `id`: a new peer is recorded as not yet
/// fresh; a known one is refreshed and takes the new key.
pub open spec fn announced_spec(m: Map<u128, PeerModel>, id: u128, key: Seq<u8>, now: u64) -> Map<u128, PeerModel> {
    if m.contains_key(id) {
        m.insert(id, PeerModel { last_seen: Some(now), relation: m[id].relation, key })
    } else {
        m.insert(id, PeerModel { last_seen: None, relation: NodeRelation::Local, key })
    }
}

/// The table after learning that `via` relays to `id`: a local entry is left
/// alone, any other known entry becomes a fresh relay through `via`.
pub open spec fn relayed_spec(m: Map<u128, PeerModel>, id: u128, via: u128, now: u64) -> Map<u128, PeerModel> {
    if m.contains_key(id) && m[id].relation != NodeRelation::Local {
        m.insert(id, PeerModel { last_seen: Some(now), relation: NodeRelation::Relay { via }, key: m[id].key })
    } else {
        m
    }
}

/// Mapping from peer id to what this node knows of the peer.
#[derive(Debug)]
pub struct NodeRelationshipMap {
    peers: HashMap<u128, PeerEntry>,
}

impl View for NodeRelationshipMap {
    type V = Map<u128, PeerModel>;

    closed spec fn view(&self) -> Map<u128, PeerModel> {
        Map::new(|k: u128| self.peers@.contains_key(k), |k: u128| self.peers@[k]@)
    }
}

impl NodeRelationshipMap {
    /// An empty table.
    pub fn new() -> (r: NodeRelationshipMap)
        ensures
            r@ == Map::<u128, PeerModel>::empty(),
    {
        let r = NodeRelationshipMap { peers: HashMap::new() };
        assert(r@ =~= Map::<u128, PeerModel>::empty());
        r
    }

    fn put(&mut self, id: u128, e: PeerEntry)
        ensures
            final(self)@ == old(self)@.insert(id, e@),
    {
        self.peers.insert(id, e);
        assert(self@ =~= old(self)@.insert(id, e@));
    }

    /// The peer answered a ping: it is reachable directly.
    pub fn pong(&mut self, id: u128, now: u64)
        ensures
            final(self)@ == pong_spec(old(self)@, id, now),
    {
        if let Some(e) = self.peers.remove(&id) {
            self.put(id, PeerEntry { last_seen: Some(now), relation: NodeRelation::Local, key: e.key });
            assert(self@ =~= pong_spec(old(self)@, id, now));
        }
    }

    /// The key of `id` was learned. Returns whether it differs from the key
    /// already held, which may be an impersonation.
    pub fn announced(&mut self, id: u128, key: Vec<u8>, now: u64) -> (changed: bool)
        ensures
            final(self)@ == announced_spec(old(self)@, id, key@, now),
            changed == (old(self)@.contains_key(id) && old(self)@[id].key != key@),
    {
        match self.peers.remove(&id) {
            Some(e) => {
                let changed = !bytes_equal(e.key.as_slice(), key.as_slice());
                self.put(id, PeerEntry { last_seen: Some(now), relation: e.relation, key });
                assert(self@ =~= announced_spec(old(self)@, id, key@, now));
                changed
            },
            None => {
                self.put(id, PeerEntry { last_seen: None, relation: NodeRelation::Local, key });
                assert(self@ =~= announced_spec(old(self)@, id, key@, now));
                false
            },
        }
    }

    /// `via` offered to relay to `id`.
    pub fn relayed(&mut self, id: u128, via: u128, now: u64)
        ensures
            final(self)@ == relayed_spec(old(self)@, id, via, now),
    {
        match self.peers.remove(&id) {
            Some(e) => {
                let relation = match e.relation {
                    NodeRelation::Local => NodeRelation::Local,
                    NodeRelation::Relay { .. } => NodeRelation::Relay { via },
                };
                let last_seen = match e.relation {
                    NodeRelation::Local => e.last_seen,
                    NodeRelation::Relay { .. } => Some(now),
                };
                self.put(id, PeerEntry { last_seen, relation, key: e.key });
                assert(self@ =~= relayed_spec(old(self)@, id, via, now));
            },
            None => {},
        }
    }

    fn fresh_entry(&self, id: u128, now: u64) -> (r: Option<&PeerEntry>)
        ensures
            r is Some <==> knows_spec(self@, id, now),
            r matches Some(e) ==> e@ == self@[id],
    {
        match self.peers.get(&id) {
            Some(e) => match e.last_seen {
                Some(t) => if (now as u128) < (t as u128) + (RESOLUTION_TTL_SECS as u128) {
                    Some(e)
                } else {
                    None
                },
                None => None,
            },
            None => None,
        }
    }

    /// Whether the table holds a fresh entry for `id`.
    pub fn knows(&self, id: u128, now: u64) -> (r: bool)
        ensures
            r == knows_spec(self@, id, now),
    {
        self.fresh_entry(id, now).is_some()
    }

    /// The key of `id`, when its entry is fresh.
    pub fn key(&self, id: u128, now: u64) -> (r: Option<Vec<u8>>)
        ensures
            r is Some == knows_spec(self@, id, now),
            r matches Some(k) ==> k@ == self@[id].key,
    {
        match self.fresh_entry(id, now) {
            Some(e) => Some(slice_copy(e.key.as_slice())),
            None => None,
        }
    }

    /// Whether this node offers to relay to `id`: its entry is fresh and local.
    pub fn can_relay(&self, id: u128, now: u64) -> (r: bool)
        ensures
            r == (knows_spec(self@, id, now) && self@[id].relation == NodeRelation::Local),
    {
        match self.fresh_entry(id, now) {
            Some(e) => match e.relation {
                NodeRelation::Local => true,
                NodeRelation::Relay { .. } => false,
            },
            None => false,
        }
    }

    /// The relation to `id` and its key, when its entry is fresh.
    pub fn get(&self, id: u128, now: u64) -> (r: Option<(NodeRelation, Vec<u8>)>)
        ensures
            r is Some == knows_spec(self@, id, now),
            r matches Some((rel, k)) ==> rel == self@[id].relation && k@ == self@[id].key,
    {
        match self.fresh_entry(id, now) {
            Some(e) => Some((e.relation, slice_copy(e.key.as_slice()))),
            None => None,
        }
    }
}

/// Whether two byte strings are equal.
pub fn bytes_equal(a: &[u8], b: &[u8]) -> (r: bool)
    ensures
        r == (a@ == b@),
{
    if a.len() != b.len() {
        return false;
    }
    let mut i: usize = 0;
    while i < a.len()
        invariant
            i <= a@.len(),
            a@.len() == b@.len(),
            forall|j: int| 0 <= j < i ==> a@[j] == b@[j],
        decreases a@.len() - i,
    {
        if a[i] != b[i] {
            return false;
        }
        i = i + 1;
    }
    assert(a@ =~= b@);
    true
}

/// A relay offer never demotes a local peer: the table is left as it was.
pub proof fn lemma_relayed_keeps_local(m: Map<u128, PeerModel>, id: u128, via: u128, now: u64)
    requires
        m.contains_key(id),
        m[id].relation == NodeRelation::Local,
    ensures
        relayed_spec(m, id, via, now) == m,
{
}

/// No update of the table turns a local entry into a relayed one.
pub proof fn lemma_local_stays_local(m: Map<u128, PeerModel>, x: u128, id: u128, via: u128, key: Seq<u8>, now: u64)
    requires
        m.contains_key(x),
        m[x].relation == NodeRelation::Local,
    ensures
        pong_spec(m, id, now)[x].relation == NodeRelation::Local,
        announced_spec(m, id, key, now)[x].relation == NodeRelation::Local,
        relayed_spec(m, id, via, now)[x].relation == NodeRelation::Local,
{
}

/// A peer first learned through its key is not known until a pong or a
/// second key refreshes it; a relay offer does not refresh it.
pub proof fn lemma_first_key_is_stale(m: Map<u128, PeerModel>, id: u128, key: Seq<u8>, now: u64, later: u64, via: u128)
    requires
        !m.contains_key(id),
    ensures
        !knows_spec(announced_spec(m, id, key, now), id, later),
        !knows_spec(relayed_spec(announced_spec(m, id, key, now), id, via, later), id, later),
        knows_spec(pong_spec(announced_spec(m, id, key, now), id, later), id, later),
        knows_spec(announced_spec(announced_spec(m, id, key, now), id, key, later), id, later),
{
}

/// An update of the peer table.
pub enum PeerUpdate {
    Pong(u128),
    Announced(u128, Seq<u8>),
    Relayed(u128, u128),
}

/// The table after the updates `ops`, made at the times `times`.
pub open spec fn apply_updates(m: Map<u128, PeerModel>, ops: Seq<PeerUpdate>, times: Seq<u64>) -> Map<u128, PeerModel>
    decreases ops.len(),
{
    if ops.len() == 0 || times.len() < ops.len() {
        m
    } else {
        let prev = apply_updates(m, ops.drop_last(), times);
        let t = times[ops.len() - 1];
        match ops.last() {
            PeerUpdate::Pong(id) => pong_spec(prev, id, t),
            PeerUpdate::Announced(id, k) => announced_spec(prev, id, k, t),
            PeerUpdate::Relayed(id, via) => relayed_spec(prev, id, via, t),
        }
    }
}

/// The update refreshes `id`: a pong from it, or its key learned again.
pub open spec fn refreshes(op: PeerUpdate, id: u128) -> bool {
    match op {
        PeerUpdate::Pong(x) => x == id,
        PeerUpdate::Announced(x, _) => x == id,
        PeerUpdate::Relayed(_, _) => false,
    }
}

/// A peer first learned through its key stays unknown through any later
/// updates until a pong from it or its key learned again refreshes it.
pub proof fn lemma_stale_until_refreshed(
    m: Map<u128, PeerModel>,
    id: u128,
    key: Seq<u8>,
    now: u64,
    ops: Seq<PeerUpdate>,
    times: Seq<u64>,
    later: u64,
)
    requires
        !m.contains_key(id),
        forall|i: int| 0 <= i < ops.len() ==> !refreshes(#[trigger] ops[i], id),
    ensures
        !knows_spec(apply_updates(announced_spec(m, id, key, now), ops, times), id, later),
        apply_updates(announced_spec(m, id, key, now), ops, times).contains_key(id),
        apply_updates(announced_spec(m, id, key, now), ops, times)[id] == (PeerModel { last_seen: None, relation: NodeRelation::Local, key }),
    decreases ops.len(),
{
    if ops.len() > 0 && times.len() >= ops.len() {
        let p = ops.drop_last();
        assert forall|i: int| 0 <= i < p.len() implies !refreshes(#[trigger] p[i], id) by {
            assert(p[i] == ops[i]);
        }
        lemma_stale_until_refreshed(m, id, key, now, p, times, later);
        assert(!refreshes(ops[ops.len() - 1], id));
    }
}

} // verus!
