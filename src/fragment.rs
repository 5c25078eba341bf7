//! Fragmentation of payloads that exceed a transport's frame size, and their
//! reassembly.
use vstd::prelude::*;
use vstd::bytes::{
    spec_u128_from_le_bytes, spec_u128_to_le_bytes, spec_u16_from_le_bytes, spec_u16_to_le_bytes,
    lemma_auto_spec_u128_to_from_le_bytes, lemma_auto_spec_u16_to_from_le_bytes, u128_from_le_bytes,
    u128_to_le_bytes, u16_from_le_bytes, u16_to_le_bytes,
};
use vstd::slice::{slice_subrange, slice_to_vec};

verus! {

/// Bytes of each frame kept back for the fragment's own fields.
pub const FRAGMENT_OVERHEAD: usize = 100;

/// Seconds after its last fragment at which an incomplete reassembly is
/// dropped.
pub const REASSEMBLY_TIMEOUT_SECS: u64 = 300;

/// Seconds between two sweeps for stalled reassemblies.
pub const REASSEMBLY_GC_INTERVAL_SECS: u64 = 60;

/// Seconds between two fragments of one payload on the medium.
pub const SPLIT_MESSAGE_DELAY_SECS: u64 = 1;

/// One fragment of a payload.
#[derive(Debug)]
pub struct MessagePart {
    /// The part-id shared by all fragments of one payload.
    pub id: u128,
    /// The fragment's index.
    pub part: u16,
    /// How many fragments the payload has.
    pub total_parts: u16,
    pub data: Vec<u8>,
}

/// What a frame on the medium holds.
#[derive(Debug)]
pub enum InternalFrame {
    /// One fragment of a larger payload.
    Split(MessagePart),
    /// A whole payload.
    Complete(Vec<u8>),
}

/// A frame, as mathematical values.
pub enum FrameModel {
    Split { id: u128, part: u16, total: u16, data: Seq<u8> },
    Complete(Seq<u8>),
}

impl View for InternalFrame {
    type V = FrameModel;

    open spec fn view(&self) -> FrameModel {
        match self {
            InternalFrame::Split(p) => FrameModel::Split { id: p.id, part: p.part, total: p.total_parts, data: p.data@ },
            InternalFrame::Complete(d) => FrameModel::Complete(d@),
        }
    }
}

/// The wire form of a frame: a tag, then for a fragment its part-id, index
/// and count (little-endian), then the data.
pub open spec fn encode_frame(f: FrameModel) -> Seq<u8> {
    match f {
        FrameModel::Complete(d) => seq![0u8] + d,
        FrameModel::Split { id, part, total, data } => seq![1u8] + spec_u128_to_le_bytes(id)
            + spec_u16_to_le_bytes(part) + spec_u16_to_le_bytes(total) + data,
    }
}

/// The frame that bytes hold, if any.
pub open spec fn parse_frame(s: Seq<u8>) -> Option<FrameModel> {
    if s.len() == 0 {
        None
    } else if s[0] == 0 {
        Some(FrameModel::Complete(s.skip(1)))
    } else if s[0] == 1 && s.len() >= 21 {
        Some(FrameModel::Split {
            id: spec_u128_from_le_bytes(s.subrange(1, 17)),
            part: spec_u16_from_le_bytes(s.subrange(17, 19)),
            total: spec_u16_from_le_bytes(s.subrange(19, 21)),
            data: s.skip(21),
        })
    } else {
        None
    }
}

/// Decoding a frame's encoding gives the frame back.
pub proof fn lemma_frame_round_trip(f: FrameModel)
    ensures
        parse_frame(encode_frame(f)) == Some(f),
{
    lemma_auto_spec_u128_to_from_le_bytes();
    lemma_auto_spec_u16_to_from_le_bytes();
    let s = encode_frame(f);
    match f {
        FrameModel::Complete(d) => {
            assert(s.skip(1) =~= d);
        },
        FrameModel::Split { id, part, total, data } => {
            assert(s.subrange(1, 17) =~= spec_u128_to_le_bytes(id));
            assert(s.subrange(17, 19) =~= spec_u16_to_le_bytes(part));
            assert(s.subrange(19, 21) =~= spec_u16_to_le_bytes(total));
            assert(s.skip(21) =~= data);
        },
    }
}

fn append(out: &mut Vec<u8>, src: &[u8])
    ensures
        final(out)@ == old(out)@ + src@,
{
    let mut i: usize = 0;
    while i < src.len()
        invariant
            i <= src@.len(),
            out@ == old(out)@ + src@.take(i as int),
        decreases src@.len() - i,
    {
        out.push(src[i]);
        assert(src@.take(i + 1) =~= src@.take(i as int).push(src@[i as int]));
        i = i + 1;
    }
    assert(src@.take(i as int) =~= src@);
}

impl InternalFrame {
    /// The bytes of this frame.
    pub fn encode(&self) -> (r: Vec<u8>)
        ensures
            r@ == encode_frame(self@),
    {
        let mut out: Vec<u8> = Vec::new();
        match self {
            InternalFrame::Complete(d) => {
                out.push(0u8);
                append(&mut out, d.as_slice());
            },
            InternalFrame::Split(p) => {
                out.push(1u8);
                append(&mut out, u128_to_le_bytes(p.id).as_slice());
                append(&mut out, u16_to_le_bytes(p.part).as_slice());
                append(&mut out, u16_to_le_bytes(p.total_parts).as_slice());
                append(&mut out, p.data.as_slice());
            },
        }
        assert(out@ =~= encode_frame(self@));
        out
    }

    /// The frame that `s` holds, if any.
    pub fn decode(s: &[u8]) -> (r: Option<InternalFrame>)
        ensures
            match parse_frame(s@) {
                Some(f) => r matches Some(x) && x@ == f,
                None => r is None,
            },
    {
        if s.len() == 0 {
            None
        } else if s[0] == 0 {
            Some(InternalFrame::Complete(slice_to_vec(slice_subrange(s, 1, s.len()))))
        } else if s[0] == 1 && s.len() >= 21 {
            let id = u128_from_le_bytes(slice_subrange(s, 1, 17));
            let part = u16_from_le_bytes(slice_subrange(s, 17, 19));
            let total_parts = u16_from_le_bytes(slice_subrange(s, 19, 21));
            let data = slice_to_vec(slice_subrange(s, 21, s.len()));
            Some(InternalFrame::Split(MessagePart { id, part, total_parts, data }))
        } else {
            None
        }
    }
}

/// The `i`-th chunk of `data` cut in pieces of `size` bytes.
pub open spec fn chunk(data: Seq<u8>, size: nat, i: nat) -> Seq<u8> {
    let start: int = (i * size) as int;
    let end: int = if (i + 1) * size <= data.len() { ((i + 1) * size) as int } else { data.len() as int };
    data.subrange(start, end)
}

/// How many chunks of `size` bytes `len` bytes make.
pub open spec fn chunk_count(len: nat, size: nat) -> nat
    recommends
        size > 0,
{
    if len % size == 0 { len / size } else { len / size + 1 }
}

/// The frames a payload is sent as: whole when it fits `max_frame`, else
/// fragments of `max_frame - 100` bytes under the part-id `id`, numbered from
/// zero.
pub open spec fn fragments_of(data: Seq<u8>, max_frame: nat, id: u128, frames: Seq<FrameModel>) -> bool {
    if data.len() <= max_frame {
        frames == seq![FrameModel::Complete(data)]
    } else {
        let size = (max_frame - FRAGMENT_OVERHEAD) as nat;
        let n = chunk_count(data.len(), size);
        &&& frames.len() == n
        &&& forall|i: int| 0 <= i < n ==> #[trigger] frames[i] == (FrameModel::Split {
            id,
            part: i as u16,
            total: n as u16,
            data: chunk(data, size, i as nat),
        })
    }
}

proof fn lemma_chunk_bounds(len: nat, size: nat, i: nat)
    requires
        size > 0,
        i < chunk_count(len, size),
    ensures
        i * size < len,
        chunk_count(len, size) * size >= len,
        chunk_count(len, size) <= len,
{
    let q = len / size;
    let r = len % size;
    vstd::arithmetic::div_mod::lemma_fundamental_div_mod(len as int, size as int);
    assert(len == size * q + r);
    if r == 0 {
        assert(i <= q - 1);
        assert(i * size <= (q - 1) * size) by (nonlinear_arith)
            requires i <= q - 1, size > 0;
        assert((q - 1) * size == q * size - size) by (nonlinear_arith);
        assert(q * size == size * q) by (nonlinear_arith);
        assert(q >= 1) by (nonlinear_arith) requires len == size * q, len > 0 || i < q, size > 0;
        assert(q <= len) by (nonlinear_arith) requires len == size * q, size > 0, q >= 0;
    } else {
        assert(i <= q);
        assert(i * size <= q * size) by (nonlinear_arith)
            requires i <= q, size > 0;
        assert(q * size == size * q) by (nonlinear_arith);
        assert((q + 1) * size == size * q + size) by (nonlinear_arith);
        assert(q + 1 <= len) by (nonlinear_arith) requires len == size * q + r, size > 0, q >= 0, r >= 1;
    }
}

/// Cuts a payload into the frames it is sent as, under part-id `id`. `None`
/// when it needs more fragments than a count can number.
pub fn split_message(data: &[u8], max_frame: usize, id: u128) -> (r: Option<Vec<InternalFrame>>)
    requires
        max_frame > FRAGMENT_OVERHEAD,
    ensures
        match r {
            Some(v) => fragments_of(data@, max_frame as nat, id, v@.map_values(|f: InternalFrame| f@)),
            None => data@.len() > max_frame && chunk_count(data@.len(), (max_frame - FRAGMENT_OVERHEAD) as nat) > u16::MAX,
        },
{
    let mut out: Vec<InternalFrame> = Vec::new();
    if data.len() <= max_frame {
        out.push(InternalFrame::Complete(slice_to_vec(data)));
        assert(out@.map_values(|f: InternalFrame| f@) =~= seq![FrameModel::Complete(data@)]);
        return Some(out);
    }
    let size = max_frame - FRAGMENT_OVERHEAD;
    let len = data.len();
    let q = len / size;
    proof {
        vstd::arithmetic::div_mod::lemma_fundamental_div_mod(len as int, size as int);
        if len % size != 0 {
            assert(size >= 2);
            assert(q < len) by (nonlinear_arith)
                requires len == size * q + len % size, size >= 2, len % size >= 0, len > 0, q >= 0;
        }
    }
    let n: usize = if len % size == 0 { q } else { q + 1 };
    assert(n == chunk_count(len as nat, size as nat));
    if n > 0xffff {
        return None;
    }
    let mut i: usize = 0;
    while i < n
        invariant
            size == max_frame - FRAGMENT_OVERHEAD,
            size > 0,
            len == data@.len(),
            n == chunk_count(len as nat, size as nat),
            n <= 0xffff,
            i <= n,
            out@.len() == i,
            forall|j: int| 0 <= j < i ==> #[trigger] out@[j]@ == (FrameModel::Split {
                id,
                part: j as u16,
                total: n as u16,
                data: chunk(data@, size as nat, j as nat),
            }),
        decreases n - i,
    {
        proof { lemma_chunk_bounds(len as nat, size as nat, i as nat); }
        assert(i * size < len);
        let start = i * size;
        let end = if len - start >= size { start + size } else { len };
        assert((i + 1) * size == i * size + size) by (nonlinear_arith);
        let piece = slice_to_vec(slice_subrange(data, start, end));
        out.push(InternalFrame::Split(MessagePart { id, part: i as u16, total_parts: n as u16, data: piece }));
        i = i + 1;
    }
    let ghost fm = out@.map_values(|f: InternalFrame| f@);
    assert forall|j: int| 0 <= j < n implies #[trigger] fm[j] == (FrameModel::Split {
        id,
        part: j as u16,
        total: n as u16,
        data: chunk(data@, size as nat, j as nat),
    }) by {
        assert(fm[j] == out@[j]@);
    }
    Some(out)
}

// ---- reassembly ----

/// What is held of one payload being reassembled.
pub struct PendingModel {
    pub total: u16,
    pub parts: Seq<Option<Seq<u8>>>,
    pub last_update: u64,
}

/// The fragments received so far of one payload.
#[derive(Debug)]
pub struct PendingReassembly {
    id: u128,
    total: u16,
    parts: Vec<Option<Vec<u8>>>,
    last_update: u64,
}

pub open spec fn opt_view(o: Option<Vec<u8>>) -> Option<Seq<u8>> {
    match o {
        Some(v) => Some(v@),
        None => None,
    }
}

#[verifier::opaque]
pub closed spec fn pmodel(p: PendingReassembly) -> PendingModel {
    PendingModel {
        total: p.total,
        parts: p.parts@.map_values(|o: Option<Vec<u8>>| opt_view(o)),
        last_update: p.last_update,
    }
}

pub closed spec fn ids_unique(v: Seq<PendingReassembly>) -> bool {
    forall|i: int, j: int| 0 <= i < v.len() && 0 <= j < v.len() && i != j ==> #[trigger] v[i].id != #[trigger] v[j].id
}

pub closed spec fn pending_map(v: Seq<PendingReassembly>) -> Map<u128, PendingModel> {
    Map::new(
        |id: u128| exists|k: int| 0 <= k < v.len() && v[k].id == id,
        |id: u128| pmodel(v[choose|k: int| 0 <= k < v.len() && v[k].id == id]),
    )
}

proof fn lemma_map_at(v: Seq<PendingReassembly>, k: int)
    requires
        ids_unique(v),
        0 <= k < v.len(),
    ensures
        pending_map(v).contains_key(v[k].id),
        pending_map(v)[v[k].id] == pmodel(v[k]),
{
    let id = v[k].id;
    let c = choose|c: int| 0 <= c < v.len() && v[c].id == id;
    if c != k {
        assert(v[c].id != v[k].id);
    }
}

proof fn lemma_map_remove(v: Seq<PendingReassembly>, k: int)
    requires
        ids_unique(v),
        0 <= k < v.len(),
    ensures
        ids_unique(v.remove(k)),
        pending_map(v.remove(k)) == pending_map(v).remove(v[k].id),
{
    let w = v.remove(k);
    assert forall|i: int, j: int| 0 <= i < w.len() && 0 <= j < w.len() && i != j implies #[trigger] w[i].id != #[trigger] w[j].id by {
        let a = if i < k { i } else { i + 1 };
        let b = if j < k { j } else { j + 1 };
        assert(w[i] == v[a]);
        assert(w[j] == v[b]);
    }
    let m1 = pending_map(w);
    let m2 = pending_map(v).remove(v[k].id);
    assert forall|id: u128| m1.contains_key(id) <==> m2.contains_key(id) by {
        if m1.contains_key(id) {
            let c = choose|c: int| 0 <= c < w.len() && w[c].id == id;
            let a = if c < k { c } else { c + 1 };
            assert(w[c] == v[a]);
        }
        if m2.contains_key(id) {
            let c = choose|c: int| 0 <= c < v.len() && v[c].id == id;
            assert(c != k);
            let a = if c < k { c } else { c - 1 };
            assert(w[a] == v[c]);
        }
    }
    assert forall|id: u128| m1.contains_key(id) implies m1[id] == m2[id] by {
        let c = choose|c: int| 0 <= c < w.len() && w[c].id == id;
        let a = if c < k { c } else { c + 1 };
        assert(w[c] == v[a]);
        lemma_map_at(w, c);
        lemma_map_at(v, a);
    }
    assert(m1 =~= m2);
}

proof fn lemma_map_push(v: Seq<PendingReassembly>, p: PendingReassembly)
    requires
        ids_unique(v),
        !pending_map(v).contains_key(p.id),
    ensures
        ids_unique(v.push(p)),
        pending_map(v.push(p)) == pending_map(v).insert(p.id, pmodel(p)),
{
    let w = v.push(p);
    assert forall|i: int, j: int| 0 <= i < w.len() && 0 <= j < w.len() && i != j implies #[trigger] w[i].id != #[trigger] w[j].id by {
        if i < v.len() && j < v.len() {
            assert(w[i] == v[i] && w[j] == v[j]);
        } else if i < v.len() {
            assert(w[i] == v[i]);
            assert(!(exists|k: int| 0 <= k < v.len() && v[k].id == p.id));
        } else if j < v.len() {
            assert(w[j] == v[j]);
            assert(!(exists|k: int| 0 <= k < v.len() && v[k].id == p.id));
        }
    }
    let m1 = pending_map(w);
    let m2 = pending_map(v).insert(p.id, pmodel(p));
    assert forall|id: u128| m1.contains_key(id) <==> m2.contains_key(id) by {
        if m1.contains_key(id) {
            let c = choose|c: int| 0 <= c < w.len() && w[c].id == id;
            if c < v.len() {
                assert(w[c] == v[c]);
            }
        }
        if m2.contains_key(id) && id != p.id {
            let c = choose|c: int| 0 <= c < v.len() && v[c].id == id;
            assert(w[c] == v[c]);
        }
        if id == p.id {
            assert(w[v.len() as int] == p);
        }
    }
    assert forall|id: u128| m1.contains_key(id) implies m1[id] == m2[id] by {
        let c = choose|c: int| 0 <= c < w.len() && w[c].id == id;
        lemma_map_at(w, c);
        if c < v.len() {
            assert(w[c] == v[c]);
            lemma_map_at(v, c);
        } else {
            assert(w[c] == p);
        }
    }
    assert(m1 =~= m2);
}

/// Every slot holds a fragment.
pub open spec fn all_filled(parts: Seq<Option<Seq<u8>>>) -> bool {
    forall|i: int| 0 <= i < parts.len() ==> #[trigger] parts[i] is Some
}

/// The fragments' data, concatenated in index order.
pub open spec fn concat_parts(parts: Seq<Option<Seq<u8>>>) -> Seq<u8>
    decreases parts.len(),
{
    if parts.len() == 0 {
        Seq::empty()
    } else {
        concat_parts(parts.drop_last()) + match parts.last() {
            Some(d) => d,
            None => Seq::empty(),
        }
    }
}

/// The slots with one fragment filled in, unless that slot already was.
pub open spec fn fill(parts: Seq<Option<Seq<u8>>>, i: int, data: Seq<u8>) -> Seq<Option<Seq<u8>>> {
    if parts[i] is None { parts.update(i, Some(data)) } else { parts }
}

/// Reassembly state and output after fragment `part` of `total` under part-id
/// `id` arrives at time `now`. A fragment whose index is out of range, or whose
/// count disagrees with the one first seen, is ignored; a fragment already
/// held is kept as it was; the payload is delivered, and its entry dropped,
/// when every fragment is in.
pub open spec fn receive_spec(st: Map<u128, PendingModel>, id: u128, part: u16, total: u16, data: Seq<u8>, now: u64) -> (Map<u128, PendingModel>, Option<Seq<u8>>) {
    if total == 0 || part >= total {
        (st, None)
    } else {
        let e = if st.contains_key(id) {
            st[id]
        } else {
            PendingModel { total, parts: empty_slots(total as nat), last_update: now }
        };
        if e.total != total {
            (st, None)
        } else {
            let parts = fill(e.parts, part as int, data);
            if all_filled(parts) {
                (st.remove(id), Some(concat_parts(parts)))
            } else {
                (st.insert(id, PendingModel { total, parts, last_update: now }), None)
            }
        }
    }
}

/// An entry survives a sweep at `now` while less than the timeout has passed
/// since its last fragment.
pub open spec fn survives(e: PendingModel, now: u64) -> bool {
    now < e.last_update + REASSEMBLY_TIMEOUT_SECS
}

/// The state after a sweep at `now`.
pub open spec fn gc_spec(st: Map<u128, PendingModel>, now: u64) -> Map<u128, PendingModel> {
    Map::new(|id: u128| st.contains_key(id) && survives(st[id], now), |id: u128| st[id])
}

/// The payloads being reassembled, by part-id.
#[derive(Debug)]
pub struct Reassembler {
    pending: Vec<PendingReassembly>,
}

impl View for Reassembler {
    type V = Map<u128, PendingModel>;

    closed spec fn view(&self) -> Map<u128, PendingModel> {
        pending_map(self.pending@)
    }
}

fn none_slots(n: u16) -> (r: Vec<Option<Vec<u8>>>)
    ensures
        r@.len() == n,
        forall|i: int| 0 <= i < n ==> #[trigger] r@[i] is None,
{
    let mut v: Vec<Option<Vec<u8>>> = Vec::new();
    let mut i: u16 = 0;
    while i < n
        invariant
            i <= n,
            v@.len() == i,
            forall|j: int| 0 <= j < i ==> #[trigger] v@[j] is None,
        decreases n - i,
    {
        v.push(None);
        i = i + 1;
    }
    v
}

fn filled(parts: &Vec<Option<Vec<u8>>>) -> (r: bool)
    ensures
        r == all_filled(parts@.map_values(|o: Option<Vec<u8>>| opt_view(o))),
{
    let ghost pv = parts@.map_values(|o: Option<Vec<u8>>| opt_view(o));
    let mut i: usize = 0;
    while i < parts.len()
        invariant
            i <= parts@.len(),
            pv == parts@.map_values(|o: Option<Vec<u8>>| opt_view(o)),
            forall|j: int| 0 <= j < i ==> #[trigger] pv[j] is Some,
        decreases parts@.len() - i,
    {
        if parts[i].is_none() {
            assert(pv[i as int] is None);
            return false;
        }
        i = i + 1;
    }
    true
}

fn concatenate(parts: &Vec<Option<Vec<u8>>>) -> (r: Vec<u8>)
    ensures
        r@ == concat_parts(parts@.map_values(|o: Option<Vec<u8>>| opt_view(o))),
{
    let ghost pv = parts@.map_values(|o: Option<Vec<u8>>| opt_view(o));
    let mut out: Vec<u8> = Vec::new();
    let mut i: usize = 0;
    while i < parts.len()
        invariant
            i <= parts@.len(),
            pv == parts@.map_values(|o: Option<Vec<u8>>| opt_view(o)),
            out@ == concat_parts(pv.take(i as int)),
        decreases parts@.len() - i,
    {
        assert(pv.take(i + 1).drop_last() =~= pv.take(i as int));
        assert(pv.take(i + 1).last() == pv[i as int]);
        match &parts[i] {
            Some(d) => append(&mut out, d.as_slice()),
            None => {
                assert(out@ =~= out@ + Seq::<u8>::empty());
            },
        }
        i = i + 1;
    }
    assert(pv.take(i as int) =~= pv);
    out
}

impl Reassembler {
    /// Part-ids are unique and each entry has one slot per fragment.
    pub closed spec fn wf(&self) -> bool {
        &&& ids_unique(self.pending@)
        &&& forall|k: int| 0 <= k < self.pending@.len() ==> (#[trigger] self.pending@[k]).parts@.len() == self.pending@[k].total
    }

    /// No payload in progress.
    pub fn new() -> (r: Reassembler)
        ensures
            r.wf(),
            r@ == Map::<u128, PendingModel>::empty(),
    {
        let r = Reassembler { pending: Vec::new() };
        assert(r@ =~= Map::<u128, PendingModel>::empty());
        r
    }

    /// Whether no payload is in progress.
    pub fn is_empty(&self) -> (r: bool)
        requires
            self.wf(),
        ensures
            r == (self@ == Map::<u128, PendingModel>::empty()),
    {
        if self.pending.len() == 0 {
            assert(self@ =~= Map::<u128, PendingModel>::empty());
            true
        } else {
            proof { lemma_map_at(self.pending@, 0); }
            assert(self@.contains_key(self.pending@[0].id));
            false
        }
    }

    /// Whether a payload with part-id `id` is in progress.
    pub fn contains(&self, id: u128) -> (r: bool)
        requires
            self.wf(),
        ensures
            r == self@.contains_key(id),
    {
        self.find(id).is_some()
    }

    fn find(&self, id: u128) -> (r: Option<usize>)
        requires
            self.wf(),
        ensures
            r is None <==> !self@.contains_key(id),
            r matches Some(k) ==> k < self.pending@.len() && self.pending@[k as int].id == id,
    {
        let mut k: usize = 0;
        while k < self.pending.len()
            invariant
                k <= self.pending@.len(),
                forall|j: int| 0 <= j < k ==> self.pending@[j].id != id,
            decreases self.pending@.len() - k,
        {
            if self.pending[k].id == id {
                return Some(k);
            }
            k = k + 1;
        }
        None
    }

    /// Takes in one fragment received at `now`; returns the payload when it
    /// was the last one missing.
    pub fn receive_part(&mut self, p: MessagePart, now: u64) -> (r: Option<Vec<u8>>)
        requires
            old(self).wf(),
        ensures
            final(self).wf(),
            (final(self)@, match r { Some(v) => Some(v@), None => None }) == receive_spec(old(self)@, p.id, p.part, p.total_parts, p.data@, now),
    {
        let ghost st = self@;
        let MessagePart { id, part, total_parts, data } = p;
        let ghost dv = data@;
        if total_parts == 0 || part >= total_parts {
            return None;
        }
        let mut entry = match self.find(id) {
            None => PendingReassembly { id, total: total_parts, parts: none_slots(total_parts), last_update: now },
            Some(k) => {
                if self.pending[k].total != total_parts {
                    proof { lemma_map_at(self.pending@, k as int); reveal(pmodel); }
                    return None;
                }
                proof { lemma_map_at(self.pending@, k as int); lemma_map_remove(self.pending@, k as int); }
                self.pending.remove(k)
            },
        };
        let ghost base = pmodel(entry).parts;
        proof {
            reveal(pmodel);
            if !st.contains_key(id) {
                assert(base =~= Seq::new(total_parts as nat, |i: int| None::<Seq<u8>>));
            }
        }
        if entry.parts[part as usize].is_none() {
            entry.parts.set(part as usize, Some(data));
        }
        entry.last_update = now;
        proof {
            reveal(pmodel);
            assert(pmodel(entry).parts =~= fill(base, part as int, dv));
            assert(pmodel(entry) == PendingModel { total: total_parts, parts: fill(base, part as int, dv), last_update: now });
        }
        if filled(&entry.parts) {
            let out = concatenate(&entry.parts);
            proof { reveal(pmodel); }
            proof {
                assert(self@ =~= st.remove(id));
            }
            Some(out)
        } else {
            proof { lemma_map_push(self.pending@, entry); }
            self.pending.push(entry);
            proof {
                assert(self@ =~= st.insert(id, PendingModel { total: total_parts, parts: fill(base, part as int, dv), last_update: now }));
            }
            None
        }
    }

    /// Drops the payloads whose last fragment arrived the timeout or more
    /// before `now`.
    pub fn collect_garbage(&mut self, now: u64)
        requires
            old(self).wf(),
        ensures
            final(self).wf(),
            final(self)@ == gc_spec(old(self)@, now),
    {
        let ghost st = self@;
        let mut i: usize = 0;
        while i < self.pending.len()
            invariant
                self.wf(),
                i <= self.pending@.len(),
                forall|j: int| 0 <= j < i ==> keeps(#[trigger] self.pending@[j], now),
                gc_spec(self@, now) == gc_spec(st, now),
            decreases self.pending@.len() - i,
        {
            let e = &self.pending[i];
            if now < e.last_update || now - e.last_update < REASSEMBLY_TIMEOUT_SECS {
                i = i + 1;
            } else {
                let ghost before = self.pending@;
                proof {
                    lemma_map_at(before, i as int);
                    lemma_map_remove(before, i as int);
                    lemma_pmodel_fields(before[i as int]);
                    lemma_gc_drop(pending_map(before), before[i as int].id, now);
                }
                self.pending.remove(i);
                assert forall|j: int| 0 <= j < i implies keeps(#[trigger] self.pending@[j], now) by {
                    assert(self.pending@[j] == before[j]);
                }
                assert forall|k: int| 0 <= k < self.pending@.len() implies (#[trigger] self.pending@[k]).parts@.len() == self.pending@[k].total by {
                    let a = if k < i { k } else { k + 1 };
                    assert(self.pending@[k] == before[a]);
                }
            }
        }
        proof {
            let m = self@;
            assert forall|id: u128| m.contains_key(id) implies survives(#[trigger] m[id], now) by {
                let k = choose|k: int| 0 <= k < self.pending@.len() && self.pending@[k].id == id;
                lemma_map_at(self.pending@, k);
                lemma_pmodel_fields(self.pending@[k]);
                assert(keeps(self.pending@[k], now));
            }
            assert(gc_spec(m, now) =~= m);
        }
    }
}

proof fn lemma_gc_drop(m: Map<u128, PendingModel>, id: u128, now: u64)
    requires
        m.contains_key(id),
        !survives(m[id], now),
    ensures
        gc_spec(m.remove(id), now) == gc_spec(m, now),
{
    assert(gc_spec(m.remove(id), now) =~= gc_spec(m, now));
}

proof fn lemma_pmodel_fields(p: PendingReassembly)
    ensures
        pmodel(p).last_update == p.last_update,
        pmodel(p).total == p.total,
{
    reveal(pmodel);
}

/// An entry survives a sweep at `now`.
pub closed spec fn keeps(p: PendingReassembly, now: u64) -> bool {
    now < p.last_update + REASSEMBLY_TIMEOUT_SECS
}

// ---- delivery in any order ----

/// The reassembly state and the outputs after the frames of `frames` at the
/// positions `order` arrive one after the other at time `now`.
pub open spec fn deliver(st: Map<u128, PendingModel>, frames: Seq<FrameModel>, order: Seq<int>, now: u64) -> (Map<u128, PendingModel>, Seq<Option<Seq<u8>>>)
    decreases order.len(),
{
    if order.len() == 0 {
        (st, Seq::empty())
    } else {
        let (s1, outs) = deliver(st, frames, order.drop_last(), now);
        match frames[order.last()] {
            FrameModel::Split { id, part, total, data } => {
                let (s2, o) = receive_spec(s1, id, part, total, data, now);
                (s2, outs.push(o))
            },
            FrameModel::Complete(d) => (s1, outs.push(Some(d))),
        }
    }
}

/// Slots holding the chunks whose indices `o` lists.
pub open spec fn slots(data: Seq<u8>, size: nat, n: nat, o: Seq<int>) -> Seq<Option<Seq<u8>>> {
    Seq::new(n, |i: int| if o.contains(i) { Some(chunk(data, size, i as nat)) } else { None })
}

/// Every chunk of `data`, in order, as filled slots.
pub open spec fn chunk_slots(data: Seq<u8>, size: nat, m: nat) -> Seq<Option<Seq<u8>>> {
    Seq::new(m, |i: int| Some(chunk(data, size, i as nat)))
}

/// `n` empty slots.
pub open spec fn empty_slots(n: nat) -> Seq<Option<Seq<u8>>> {
    Seq::new(n, |i: int| None)
}

proof fn lemma_covers(o: Seq<int>, n: int)
    requires
        o.no_duplicates(),
        0 <= n,
        forall|i: int| 0 <= i < o.len() ==> 0 <= #[trigger] o[i] < n,
    ensures
        o.len() <= n,
        o.len() == n <==> forall|x: int| 0 <= x < n ==> o.contains(x),
{
    let s = o.to_set();
    let r = vstd::set_lib::set_int_range(0, n);
    o.unique_seq_to_set();
    vstd::set_lib::lemma_int_range(0, n);
    assert(s.subset_of(r)) by {
        assert forall|x: int| s.contains(x) implies r.contains(x) by {
            let i = choose|i: int| 0 <= i < o.len() && o[i] == x;
        }
    }
    vstd::set_lib::lemma_len_subset(s, r);
    if o.len() == n {
        vstd::set_lib::lemma_subset_equality(s, r);
        assert forall|x: int| 0 <= x < n implies o.contains(x) by {
            assert(r.contains(x));
            assert(s.contains(x));
        }
    }
    if forall|x: int| 0 <= x < n ==> o.contains(x) {
        assert(r.subset_of(s)) by {
            assert forall|x: int| r.contains(x) implies s.contains(x) by {
                assert(o.contains(x));
            }
        }
        vstd::set_lib::lemma_len_subset(r, s);
    }
}

proof fn lemma_concat_chunks(data: Seq<u8>, size: nat, m: nat)
    requires
        size > 0,
        m <= chunk_count(data.len(), size),
        data.len() > 0,
    ensures
        concat_parts(chunk_slots(data, size, m)) == data.take(
            if m * size <= data.len() { (m * size) as int } else { data.len() as int },
        ),
    decreases m,
{
    let s = chunk_slots(data, size, m);
    if m == 0 {
        assert(m * size == 0) by (nonlinear_arith) requires m == 0;
        assert(data.take(0) =~= Seq::<u8>::empty());
    } else {
        let k = (m - 1) as nat;
        lemma_chunk_bounds(data.len(), size, k);
        lemma_concat_chunks(data, size, k);
        assert(s.drop_last() =~= chunk_slots(data, size, k));
        assert(k * size <= data.len());
        assert(m * size == k * size + size) by (nonlinear_arith)
            requires m == k + 1;
        let hi: int = if m * size <= data.len() { (m * size) as int } else { data.len() as int };
        assert(s.last() == Some(chunk(data, size, k)));
        assert(chunk(data, size, k) == data.subrange((k * size) as int, hi));
        assert(concat_parts(s.drop_last()) == data.take((k * size) as int));
        assert(concat_parts(s) == concat_parts(s.drop_last()) + chunk(data, size, k));
        assert(data.take((k * size) as int) + data.subrange((k * size) as int, hi) =~= data.take(hi));
    }
}

proof fn lemma_count_positive(len: nat, size: nat)
    requires
        len > size > 0,
    ensures
        chunk_count(len, size) >= 1,
{
    vstd::arithmetic::div_mod::lemma_fundamental_div_mod(len as int, size as int);
    vstd::arithmetic::div_mod::lemma_mod_pos_bound(len as int, size as int);
    if len / size == 0 {
        assert(size * (len / size) == 0) by (nonlinear_arith)
            requires len / size == 0;
    }
}

proof fn lemma_deliver_prefix(
    data: Seq<u8>,
    max_frame: nat,
    id: u128,
    frames: Seq<FrameModel>,
    order: Seq<int>,
    st: Map<u128, PendingModel>,
    now: u64,
    k: nat,
)
    requires
        max_frame > FRAGMENT_OVERHEAD,
        data.len() > max_frame,
        fragments_of(data, max_frame, id, frames),
        frames.len() <= u16::MAX,
        order.no_duplicates(),
        order.len() <= frames.len(),
        forall|i: int| 0 <= i < order.len() ==> 0 <= #[trigger] order[i] < frames.len(),
        !st.contains_key(id),
        k <= order.len(),
    ensures
        ({
            let size = (max_frame - FRAGMENT_OVERHEAD) as nat;
            let n = frames.len();
            let (sk, outs) = deliver(st, frames, order.take(k as int), now);
            &&& outs.len() == k
            &&& forall|i: int| 0 <= i < k && i + 1 < n ==> (#[trigger] outs[i]) is None
            &&& k == 0 ==> sk == st
            &&& 0 < k < n ==> sk == st.insert(id, PendingModel { total: n as u16, parts: slots(data, size, n, order.take(k as int)), last_update: now })
            &&& k == n ==> sk == st && outs[k - 1] == Some(data)
        }),
    decreases k,
{
    let size = (max_frame - FRAGMENT_OVERHEAD) as nat;
    let n = frames.len();
    lemma_count_positive(data.len(), size);
    if k == 0 {
        assert(order.take(0) =~= Seq::<int>::empty());
    } else {
        let k1 = (k - 1) as nat;
        lemma_deliver_prefix(data, max_frame, id, frames, order, st, now, k1);
        let pre = order.take(k1 as int);
        let cur = order.take(k as int);
        assert(cur.drop_last() =~= pre);
        assert(cur.last() == order[k1 as int]);
        let j = order[k1 as int];
        let (s1, outs1) = deliver(st, frames, pre, now);
        assert(frames[j] == FrameModel::Split { id, part: j as u16, total: n as u16, data: chunk(data, size, j as nat) });
        assert((j as u16) as int == j);
        assert((n as u16) as nat == n);
        assert(!pre.contains(j)) by {
            if pre.contains(j) {
                let t = choose|t: int| 0 <= t < pre.len() && pre[t] == j;
                assert(order[t] == order[k1 as int]);
            }
        }
        let base = if k1 == 0 {
            empty_slots(n)
        } else {
            slots(data, size, n, pre)
        };
        assert(base =~= slots(data, size, n, pre));
        let filled_parts = fill(base, j, chunk(data, size, j as nat));
        assert(filled_parts =~= slots(data, size, n, cur)) by {
            assert forall|i: int| 0 <= i < n implies #[trigger] filled_parts[i] == slots(data, size, n, cur)[i] by {
                assert(cur.contains(i) <==> (pre.contains(i) || i == j)) by {
                    if cur.contains(i) {
                        let t = choose|t: int| 0 <= t < cur.len() && cur[t] == i;
                        if t < k1 {
                            assert(pre[t] == i);
                        }
                    }
                    if pre.contains(i) {
                        let t = choose|t: int| 0 <= t < pre.len() && pre[t] == i;
                        assert(cur[t] == i);
                    }
                    if i == j {
                        assert(cur[k1 as int] == j);
                    }
                }
            }
        }
        assert(cur.no_duplicates()) by {
            assert forall|a: int, b: int| 0 <= a < cur.len() && 0 <= b < cur.len() && a != b implies cur[a] != cur[b] by {
                assert(cur[a] == order[a] && cur[b] == order[b]);
            }
        }
        lemma_covers(cur, n as int);
        let e = if s1.contains_key(id) {
            s1[id]
        } else {
            PendingModel { total: n as u16, parts: empty_slots((n as u16) as nat), last_update: now }
        };
        assert(e.total == n as u16);
        assert(e.parts == base);
        assert(fill(e.parts, (j as u16) as int, chunk(data, size, j as nat)) == filled_parts);
        let (s2, o2) = receive_spec(s1, id, j as u16, n as u16, chunk(data, size, j as nat), now);
        assert(deliver(st, frames, cur, now) == (s2, outs1.push(o2)));
        if k == n {
            assert(all_filled(filled_parts));
            assert(filled_parts =~= chunk_slots(data, size, n));
            lemma_concat_chunks(data, size, n);
            lemma_chunk_bounds(data.len(), size, 0);
            assert(data.take(data.len() as int) =~= data);
            assert(o2 == Some(concat_parts(filled_parts)));
            assert(o2 == Some(data));
            assert(s2 =~= st);
        } else {
            assert(!all_filled(filled_parts)) by {
                let x = choose|x: int| 0 <= x < n && !cur.contains(x);
                assert(filled_parts[x] is None);
            }
            assert(o2 is None);
            assert(s2 =~= st.insert(id, PendingModel { total: n as u16, parts: slots(data, size, n, cur), last_update: now }));
        }
        let outs = outs1.push(o2);
        assert forall|i: int| 0 <= i < k && i + 1 < n implies (#[trigger] outs[i]) is None by {
            if i < k1 {
                assert(outs[i] == outs1[i]);
            }
        }
    }
}

/// The fragments of a payload, delivered in any order with none lost,
/// reassemble to the payload, which comes out with the last one; with any of
/// them withheld, nothing comes out and the pending entry holds exactly the
/// chunks delivered.
pub proof fn lemma_reassembly_any_order(
    data: Seq<u8>,
    max_frame: nat,
    id: u128,
    frames: Seq<FrameModel>,
    order: Seq<int>,
    st: Map<u128, PendingModel>,
    now: u64,
)
    requires
        max_frame > FRAGMENT_OVERHEAD,
        data.len() > max_frame,
        fragments_of(data, max_frame, id, frames),
        frames.len() <= u16::MAX,
        order.no_duplicates(),
        order.len() <= frames.len(),
        forall|i: int| 0 <= i < order.len() ==> 0 <= #[trigger] order[i] < frames.len(),
        !st.contains_key(id),
    ensures
        ({
            let (s, outs) = deliver(st, frames, order, now);
            &&& outs.len() == order.len()
            &&& order.len() < frames.len() ==> forall|i: int| 0 <= i < outs.len() ==> (#[trigger] outs[i]) is None
            &&& 0 < order.len() < frames.len() ==> s == st.insert(id, PendingModel {
                total: frames.len() as u16,
                parts: slots(data, (max_frame - FRAGMENT_OVERHEAD) as nat, frames.len(), order),
                last_update: now,
            })
            &&& order.len() == frames.len() ==> s == st && outs[outs.len() - 1] == Some(data)
                && forall|i: int| 0 <= i < outs.len() - 1 ==> (#[trigger] outs[i]) is None
        }),
{
    lemma_deliver_prefix(data, max_frame, id, frames, order, st, now, order.len());
    assert(order.take(order.len() as int) =~= order);
}

} // verus!
