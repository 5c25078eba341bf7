use vstd::prelude::*;
use vstd::bytes::{
    spec_u128_from_le_bytes, spec_u128_to_le_bytes, spec_u16_from_le_bytes, spec_u16_to_le_bytes,
    spec_u32_from_le_bytes, spec_u32_to_le_bytes, spec_u64_from_le_bytes, spec_u64_to_le_bytes,
    lemma_auto_spec_u128_to_from_le_bytes, lemma_auto_spec_u16_to_from_le_bytes,
    lemma_auto_spec_u32_to_from_le_bytes, lemma_auto_spec_u64_to_from_le_bytes, u128_from_le_bytes,
    u128_to_le_bytes, u16_from_le_bytes, u16_to_le_bytes, u32_from_le_bytes, u32_to_le_bytes,
    u64_from_le_bytes, u64_to_le_bytes,
};
use vstd::slice::{slice_subrange, slice_to_vec};
use crate::headers::{Header, Headers, entries_view, headers_wf, header_lookup, lower_name, name_ok, lowercase_name, lemma_lower_name_ok};
use crate::clock::unix_time_secs;
use vstd::string::{is_ascii, StringSliceAdditionalSpecFns};
use crate::status::{Status, status_code, status_of_code, is_standard, is_standard_code, lemma_standard_codes_unique};

verus! {

/// What a message holds, as mathematical values.
pub struct MessageModel {
    pub version: u16,
    pub status: Status,
    pub target: Option<u128>,
    pub sender: Option<u128>,
    pub timestamp: u64,
    pub headers: Seq<(Seq<u8>, Seq<u8>)>,
    pub body: Seq<u8>,
    pub signature: Option<Seq<u8>>,
}

pub open spec fn opt_bytes_view(o: Option<Vec<u8>>) -> Option<Seq<u8>> {
    match o {
        Some(v) => Some(v@),
        None => None,
    }
}

// ---- the encoding ----

pub open spec fn enc_opt_id(t: Option<u128>) -> Seq<u8> {
    match t {
        None => seq![0u8],
        Some(x) => seq![1u8] + spec_u128_to_le_bytes(x),
    }
}

pub open spec fn enc_bytes(b: Seq<u8>) -> Seq<u8> {
    spec_u32_to_le_bytes(b.len() as u32) + b
}

pub open spec fn enc_opt_bytes(o: Option<Seq<u8>>) -> Seq<u8> {
    match o {
        None => seq![0u8],
        Some(b) => seq![1u8] + enc_bytes(b),
    }
}

pub open spec fn enc_header(h: (Seq<u8>, Seq<u8>)) -> Seq<u8> {
    spec_u16_to_le_bytes(h.0.len() as u16) + h.0 + enc_bytes(h.1)
}

pub open spec fn enc_headers(hs: Seq<(Seq<u8>, Seq<u8>)>) -> Seq<u8>
    decreases hs.len(),
{
    if hs.len() == 0 {
        Seq::empty()
    } else {
        enc_header(hs[0]) + enc_headers(hs.drop_first())
    }
}

/// The wire form of a message: version, status, target, sender, timestamp,
/// header count and headers, body, signature, in that order, integers in
/// little-endian order and each optional field behind a presence tag.
pub open spec fn encode(m: MessageModel) -> Seq<u8> {
    enc_front(m) + enc_back(m)
}

/// Version, status, target, sender and timestamp.
pub open spec fn enc_front(m: MessageModel) -> Seq<u8> {
    spec_u16_to_le_bytes(m.version) + (seq![status_code(m.status)] + (enc_opt_id(m.target) + (
    enc_opt_id(m.sender) + spec_u64_to_le_bytes(m.timestamp))))
}

/// Headers, body and signature.
pub open spec fn enc_back(m: MessageModel) -> Seq<u8> {
    spec_u32_to_le_bytes(m.headers.len() as u32) + (enc_headers(m.headers) + (enc_bytes(m.body)
        + enc_opt_bytes(m.signature)))
}

/// The wire form of everything but the signature.
pub open spec fn enc_main(m: MessageModel) -> Seq<u8> {
    spec_u16_to_le_bytes(m.version) + (seq![status_code(m.status)] + (enc_opt_id(m.target) + (
    enc_opt_id(m.sender) + (spec_u64_to_le_bytes(m.timestamp) + (spec_u32_to_le_bytes(
        m.headers.len() as u32,
    ) + (enc_headers(m.headers) + enc_bytes(m.body)))))))
}

pub open spec fn header_fits(h: (Seq<u8>, Seq<u8>)) -> bool {
    h.0.len() <= u16::MAX && h.1.len() <= u32::MAX
}

/// Every length of the message fits the field that carries it.
pub open spec fn encodable(m: MessageModel) -> bool {
    &&& m.headers.len() <= u32::MAX
    &&& forall|i: int| 0 <= i < m.headers.len() ==> header_fits(#[trigger] m.headers[i])
    &&& m.body.len() <= u32::MAX
    &&& m.signature matches Some(s) ==> s.len() <= u32::MAX
}

/// A status that reads back as itself: a named one, or a custom one whose
/// code has no name.
pub open spec fn status_canonical(s: Status) -> bool {
    is_standard(s) || !is_standard_code(status_code(s))
}

/// A message as the decoder can produce it.
pub open spec fn message_wf(m: MessageModel) -> bool {
    headers_wf(m.headers) && status_canonical(m.status) && encodable(m)
}

/// The message with its signature cleared: the input of signing.
pub open spec fn unsigned(m: MessageModel) -> MessageModel {
    MessageModel { signature: None, ..m }
}

// ---- the decoding, one field at a time ----

pub open spec fn first<T>(o: Option<(T, Seq<u8>)>) -> T {
    match o { Some((v, _)) => v, None => arbitrary() }
}

pub open spec fn rest<T>(o: Option<(T, Seq<u8>)>) -> Seq<u8> {
    match o { Some((_, r)) => r, None => Seq::empty() }
}

pub open spec fn p_u16(s: Seq<u8>) -> Option<(u16, Seq<u8>)> {
    if s.len() >= 2 { Some((spec_u16_from_le_bytes(s.take(2)), s.skip(2))) } else { None }
}

pub open spec fn p_u32(s: Seq<u8>) -> Option<(u32, Seq<u8>)> {
    if s.len() >= 4 { Some((spec_u32_from_le_bytes(s.take(4)), s.skip(4))) } else { None }
}

pub open spec fn p_u64(s: Seq<u8>) -> Option<(u64, Seq<u8>)> {
    if s.len() >= 8 { Some((spec_u64_from_le_bytes(s.take(8)), s.skip(8))) } else { None }
}

pub open spec fn p_u128(s: Seq<u8>) -> Option<(u128, Seq<u8>)> {
    if s.len() >= 16 { Some((spec_u128_from_le_bytes(s.take(16)), s.skip(16))) } else { None }
}

pub open spec fn p_opt_id(s: Seq<u8>) -> Option<(Option<u128>, Seq<u8>)> {
    if s.len() == 0 {
        None
    } else if s[0] == 0 {
        Some((None, s.skip(1)))
    } else if s[0] == 1 {
        match p_u128(s.skip(1)) {
            Some((x, r)) => Some((Some(x), r)),
            None => None,
        }
    } else {
        None
    }
}

pub open spec fn p_bytes(s: Seq<u8>) -> Option<(Seq<u8>, Seq<u8>)> {
    match p_u32(s) {
        Some((n, r)) => if n <= r.len() { Some((r.take(n as int), r.skip(n as int))) } else { None },
        None => None,
    }
}

pub open spec fn p_opt_bytes(s: Seq<u8>) -> Option<(Option<Seq<u8>>, Seq<u8>)> {
    if s.len() == 0 {
        None
    } else if s[0] == 0 {
        Some((None, s.skip(1)))
    } else if s[0] == 1 {
        match p_bytes(s.skip(1)) {
            Some((b, r)) => Some((Some(b), r)),
            None => None,
        }
    } else {
        None
    }
}

pub open spec fn p_header(s: Seq<u8>) -> Option<((Seq<u8>, Seq<u8>), Seq<u8>)> {
    match p_u16(s) {
        Some((n, r)) => if n <= r.len() {
            match p_bytes(r.skip(n as int)) {
                Some((v, r2)) => Some(((r.take(n as int), v), r2)),
                None => None,
            }
        } else {
            None
        },
        None => None,
    }
}

pub open spec fn p_headers(s: Seq<u8>, k: nat) -> Option<(Seq<(Seq<u8>, Seq<u8>)>, Seq<u8>)>
    decreases k,
{
    if k == 0 {
        Some((Seq::empty(), s))
    } else {
        match p_header(s) {
            Some((h, r)) => match p_headers(r, (k - 1) as nat) {
                Some((hs, r2)) => Some((seq![h] + hs, r2)),
                None => None,
            },
            None => None,
        }
    }
}

pub open spec fn p_front(s: Seq<u8>) -> Option<((u16, u8, Option<u128>, Option<u128>, u64), Seq<u8>)> {
    match p_u16(s) {
        None => None,
        Some((version, r1)) => if r1.len() == 0 {
            None
        } else {
            match p_opt_id(r1.skip(1)) {
                None => None,
                Some((target, r2)) => match p_opt_id(r2) {
                    None => None,
                    Some((sender, r3)) => match p_u64(r3) {
                        None => None,
                        Some((timestamp, r4)) => Some(((version, r1[0], target, sender, timestamp), r4)),
                    },
                },
            }
        },
    }
}

pub open spec fn p_back(s: Seq<u8>) -> Option<((Seq<(Seq<u8>, Seq<u8>)>, Seq<u8>, Option<Seq<u8>>), Seq<u8>)> {
    match p_u32(s) {
        None => None,
        Some((n, r5)) => match p_headers(r5, n as nat) {
            None => None,
            Some((headers, r6)) => match p_bytes(r6) {
                None => None,
                Some((body, r7)) => match p_opt_bytes(r7) {
                    None => None,
                    Some((signature, r8)) => Some(((headers, body, signature), r8)),
                },
            },
        },
    }
}

/// The message that the bytes `s` hold, if they hold one.
pub open spec fn parse(s: Seq<u8>) -> Option<MessageModel> {
    match p_front(s) {
        None => None,
        Some((f, r)) => match p_back(r) {
            None => None,
            Some((b, r2)) => if r2.len() == 0 && headers_wf(b.0) {
                Some(
                    MessageModel {
                        version: f.0,
                        status: status_of_code(f.1),
                        target: f.2,
                        sender: f.3,
                        timestamp: f.4,
                        headers: b.0,
                        body: b.1,
                        signature: b.2,
                    },
                )
            } else {
                None
            },
        },
    }
}

// ---- the decoding reads back the encoding ----


proof fn lemma_p_u16(x: u16, r: Seq<u8>)
    ensures
        p_u16(spec_u16_to_le_bytes(x) + r) == Some((x, r)),
{
    lemma_auto_spec_u16_to_from_le_bytes();
    lemma_auto_spec_u32_to_from_le_bytes();
    lemma_auto_spec_u64_to_from_le_bytes();
    lemma_auto_spec_u128_to_from_le_bytes();
    let e = spec_u16_to_le_bytes(x);
    assert(e.len() == 2);
    assert(spec_u16_from_le_bytes(e) == x);
    assert((e + r).take(2) =~= e);
    assert((e + r).skip(2) =~= r);
}

proof fn lemma_p_u32(x: u32, r: Seq<u8>)
    ensures
        p_u32(spec_u32_to_le_bytes(x) + r) == Some((x, r)),
{
    lemma_auto_spec_u16_to_from_le_bytes();
    lemma_auto_spec_u32_to_from_le_bytes();
    lemma_auto_spec_u64_to_from_le_bytes();
    lemma_auto_spec_u128_to_from_le_bytes();
    let e = spec_u32_to_le_bytes(x);
    assert(e.len() == 4);
    assert(spec_u32_from_le_bytes(e) == x);
    assert((e + r).take(4) =~= e);
    assert((e + r).skip(4) =~= r);
}

proof fn lemma_p_u64(x: u64, r: Seq<u8>)
    ensures
        p_u64(spec_u64_to_le_bytes(x) + r) == Some((x, r)),
{
    lemma_auto_spec_u16_to_from_le_bytes();
    lemma_auto_spec_u32_to_from_le_bytes();
    lemma_auto_spec_u64_to_from_le_bytes();
    lemma_auto_spec_u128_to_from_le_bytes();
    let e = spec_u64_to_le_bytes(x);
    assert(e.len() == 8);
    assert(spec_u64_from_le_bytes(e) == x);
    assert((e + r).take(8) =~= e);
    assert((e + r).skip(8) =~= r);
}

proof fn lemma_p_u128(x: u128, r: Seq<u8>)
    ensures
        p_u128(spec_u128_to_le_bytes(x) + r) == Some((x, r)),
{
    lemma_auto_spec_u16_to_from_le_bytes();
    lemma_auto_spec_u32_to_from_le_bytes();
    lemma_auto_spec_u64_to_from_le_bytes();
    lemma_auto_spec_u128_to_from_le_bytes();
    let e = spec_u128_to_le_bytes(x);
    assert(e.len() == 16);
    assert(spec_u128_from_le_bytes(e) == x);
    assert((e + r).take(16) =~= e);
    assert((e + r).skip(16) =~= r);
}

proof fn lemma_p_opt_id(t: Option<u128>, r: Seq<u8>)
    ensures
        p_opt_id(enc_opt_id(t) + r) == Some((t, r)),
{
    let s = enc_opt_id(t) + r;
    match t {
        None => {
            assert(s.skip(1) =~= r);
        },
        Some(x) => {
            lemma_auto_spec_u16_to_from_le_bytes();
    lemma_auto_spec_u32_to_from_le_bytes();
    lemma_auto_spec_u64_to_from_le_bytes();
    lemma_auto_spec_u128_to_from_le_bytes();
            assert(s.skip(1) =~= spec_u128_to_le_bytes(x) + r);
            lemma_p_u128(x, r);
        },
    }
}

proof fn lemma_p_bytes(b: Seq<u8>, r: Seq<u8>)
    requires
        b.len() <= u32::MAX,
    ensures
        p_bytes(enc_bytes(b) + r) == Some((b, r)),
{
    lemma_auto_spec_u16_to_from_le_bytes();
    lemma_auto_spec_u32_to_from_le_bytes();
    lemma_auto_spec_u64_to_from_le_bytes();
    lemma_auto_spec_u128_to_from_le_bytes();
    let s = enc_bytes(b) + r;
    assert(s =~= spec_u32_to_le_bytes(b.len() as u32) + (b + r));
    lemma_p_u32(b.len() as u32, b + r);
    assert((b + r).take(b.len() as int) =~= b);
    assert((b + r).skip(b.len() as int) =~= r);
}

proof fn lemma_p_opt_bytes(o: Option<Seq<u8>>, r: Seq<u8>)
    requires
        o matches Some(b) ==> b.len() <= u32::MAX,
    ensures
        p_opt_bytes(enc_opt_bytes(o) + r) == Some((o, r)),
{
    let s = enc_opt_bytes(o) + r;
    match o {
        None => {
            assert(s.skip(1) =~= r);
        },
        Some(b) => {
            lemma_auto_spec_u16_to_from_le_bytes();
    lemma_auto_spec_u32_to_from_le_bytes();
    lemma_auto_spec_u64_to_from_le_bytes();
    lemma_auto_spec_u128_to_from_le_bytes();
            assert(s.skip(1) =~= enc_bytes(b) + r);
            lemma_p_bytes(b, r);
        },
    }
}

proof fn lemma_p_header(h: (Seq<u8>, Seq<u8>), r: Seq<u8>)
    requires
        header_fits(h),
    ensures
        p_header(enc_header(h) + r) == Some((h, r)),
{
    lemma_auto_spec_u16_to_from_le_bytes();
    lemma_auto_spec_u32_to_from_le_bytes();
    lemma_auto_spec_u64_to_from_le_bytes();
    lemma_auto_spec_u128_to_from_le_bytes();
    let s = enc_header(h) + r;
    let n = h.0;
    assert(s =~= spec_u16_to_le_bytes(n.len() as u16) + (n + (enc_bytes(h.1) + r)));
    lemma_p_u16(n.len() as u16, n + (enc_bytes(h.1) + r));
    let rr = n + (enc_bytes(h.1) + r);
    assert(rr.take(n.len() as int) =~= n);
    assert(rr.skip(n.len() as int) =~= enc_bytes(h.1) + r);
    lemma_p_bytes(h.1, r);
}

proof fn lemma_p_headers(hs: Seq<(Seq<u8>, Seq<u8>)>, r: Seq<u8>)
    requires
        forall|i: int| 0 <= i < hs.len() ==> header_fits(#[trigger] hs[i]),
    ensures
        p_headers(enc_headers(hs) + r, hs.len()) == Some((hs, r)),
    decreases hs.len(),
{
    if hs.len() > 0 {
        let t = hs.drop_first();
        assert forall|i: int| 0 <= i < t.len() implies header_fits(#[trigger] t[i]) by {
            assert(t[i] == hs[i + 1]);
        }
        lemma_p_headers(t, r);
        assert(header_fits(hs[0]));
        assert(enc_headers(hs) + r =~= enc_header(hs[0]) + (enc_headers(t) + r));
        lemma_p_header(hs[0], enc_headers(t) + r);
        assert(seq![hs[0]] + t =~= hs);
    } else {
        assert(enc_headers(hs) + r =~= r);
    }
}

proof fn lemma_p_front(m: MessageModel, r: Seq<u8>)
    ensures
        p_front(enc_front(m) + r) == Some(
            ((m.version, status_code(m.status), m.target, m.sender, m.timestamp), r),
        ),
{
    let r4 = r;
    let r3 = spec_u64_to_le_bytes(m.timestamp) + r4;
    let r2 = enc_opt_id(m.sender) + r3;
    let r1 = seq![status_code(m.status)] + (enc_opt_id(m.target) + r2);
    assert(enc_front(m) + r =~= spec_u16_to_le_bytes(m.version) + r1);
    lemma_p_u16(m.version, r1);
    assert(r1.skip(1) =~= enc_opt_id(m.target) + r2);
    lemma_p_opt_id(m.target, r2);
    lemma_p_opt_id(m.sender, r3);
    lemma_p_u64(m.timestamp, r4);
}

proof fn lemma_p_back(m: MessageModel)
    requires
        encodable(m),
    ensures
        p_back(enc_back(m)) == Some(((m.headers, m.body, m.signature), Seq::<u8>::empty())),
{
    let r8 = Seq::<u8>::empty();
    let r7 = enc_opt_bytes(m.signature);
    let r6 = enc_bytes(m.body) + r7;
    let r5 = enc_headers(m.headers) + r6;
    lemma_p_u32(m.headers.len() as u32, r5);
    lemma_p_headers(m.headers, r6);
    lemma_p_bytes(m.body, r7);
    assert(r7 =~= r7 + r8);
    lemma_p_opt_bytes(m.signature, r8);
}

/// Decoding the encoding of a well-formed message gives the message back.
pub proof fn lemma_parse_encode(m: MessageModel)
    requires
        message_wf(m),
    ensures
        parse(encode(m)) == Some(m),
{
    lemma_standard_codes_unique(m.status);
    lemma_p_front(m, enc_back(m));
    lemma_p_back(m);
    assert(status_of_code(status_code(m.status)) == m.status);
}

// ---- the encoding is what was decoded ----

proof fn lemma_e_u16(s: Seq<u8>)
    requires
        p_u16(s) is Some,
    ensures
        s == spec_u16_to_le_bytes(first(p_u16(s))) + rest(p_u16(s)),
{
    lemma_auto_spec_u16_to_from_le_bytes();
    lemma_auto_spec_u32_to_from_le_bytes();
    lemma_auto_spec_u64_to_from_le_bytes();
    lemma_auto_spec_u128_to_from_le_bytes();
    let t = s.take(2);
    assert(t.len() == 2);
    assert(spec_u16_to_le_bytes(spec_u16_from_le_bytes(t)) == t);
    assert(s =~= s.take(2) + s.skip(2));
}

proof fn lemma_e_u32(s: Seq<u8>)
    requires
        p_u32(s) is Some,
    ensures
        s == spec_u32_to_le_bytes(first(p_u32(s))) + rest(p_u32(s)),
{
    lemma_auto_spec_u16_to_from_le_bytes();
    lemma_auto_spec_u32_to_from_le_bytes();
    lemma_auto_spec_u64_to_from_le_bytes();
    lemma_auto_spec_u128_to_from_le_bytes();
    let t = s.take(4);
    assert(t.len() == 4);
    assert(spec_u32_to_le_bytes(spec_u32_from_le_bytes(t)) == t);
    assert(s =~= s.take(4) + s.skip(4));
}

proof fn lemma_e_u64(s: Seq<u8>)
    requires
        p_u64(s) is Some,
    ensures
        s == spec_u64_to_le_bytes(first(p_u64(s))) + rest(p_u64(s)),
{
    lemma_auto_spec_u16_to_from_le_bytes();
    lemma_auto_spec_u32_to_from_le_bytes();
    lemma_auto_spec_u64_to_from_le_bytes();
    lemma_auto_spec_u128_to_from_le_bytes();
    let t = s.take(8);
    assert(t.len() == 8);
    assert(spec_u64_to_le_bytes(spec_u64_from_le_bytes(t)) == t);
    assert(s =~= s.take(8) + s.skip(8));
}

proof fn lemma_e_u128(s: Seq<u8>)
    requires
        p_u128(s) is Some,
    ensures
        s == spec_u128_to_le_bytes(first(p_u128(s))) + rest(p_u128(s)),
{
    lemma_auto_spec_u16_to_from_le_bytes();
    lemma_auto_spec_u32_to_from_le_bytes();
    lemma_auto_spec_u64_to_from_le_bytes();
    lemma_auto_spec_u128_to_from_le_bytes();
    let t = s.take(16);
    assert(t.len() == 16);
    assert(spec_u128_to_le_bytes(spec_u128_from_le_bytes(t)) == t);
    assert(s =~= s.take(16) + s.skip(16));
}

proof fn lemma_e_opt_id(s: Seq<u8>)
    requires
        p_opt_id(s) is Some,
    ensures
        s == enc_opt_id(first(p_opt_id(s))) + rest(p_opt_id(s)),
{
    if s[0] == 0 {
        assert(s =~= seq![0u8] + s.skip(1));
    } else {
        lemma_e_u128(s.skip(1));
        assert(s =~= seq![1u8] + s.skip(1));
    }
}

proof fn lemma_e_bytes(s: Seq<u8>)
    requires
        p_bytes(s) is Some,
    ensures
        s == enc_bytes(first(p_bytes(s))) + rest(p_bytes(s)),
        first(p_bytes(s)).len() <= u32::MAX,
{
    lemma_e_u32(s);
    let (n, r) = p_u32(s)->0;
    assert(r =~= r.take(n as int) + r.skip(n as int));
    assert(s =~= spec_u32_to_le_bytes(n) + r.take(n as int) + r.skip(n as int));
}

proof fn lemma_e_opt_bytes(s: Seq<u8>)
    requires
        p_opt_bytes(s) is Some,
    ensures
        s == enc_opt_bytes(first(p_opt_bytes(s))) + rest(p_opt_bytes(s)),
        first(p_opt_bytes(s)) matches Some(b) ==> b.len() <= u32::MAX,
{
    if s[0] == 0 {
        assert(s =~= seq![0u8] + s.skip(1));
    } else {
        lemma_e_bytes(s.skip(1));
        assert(s =~= seq![1u8] + s.skip(1));
    }
}

proof fn lemma_e_header(s: Seq<u8>)
    requires
        p_header(s) is Some,
    ensures
        s == enc_header(first(p_header(s))) + rest(p_header(s)),
        header_fits(first(p_header(s))),
{
    lemma_e_u16(s);
    let (n, r) = p_u16(s)->0;
    lemma_e_bytes(r.skip(n as int));
    assert(r =~= r.take(n as int) + r.skip(n as int));
    let (h, r2) = p_header(s)->0;
    assert(s =~= spec_u16_to_le_bytes(n) + h.0 + enc_bytes(h.1) + r2);
}

proof fn lemma_e_headers(s: Seq<u8>, k: nat)
    requires
        p_headers(s, k) is Some,
    ensures
        s == enc_headers(first(p_headers(s, k))) + rest(p_headers(s, k)),
        first(p_headers(s, k)).len() == k,
        forall|i: int|
            0 <= i < k ==> header_fits(#[trigger] first(p_headers(s, k))[i]),
    decreases k,
{
    if k == 0 {
        assert(s =~= Seq::<u8>::empty() + s);
    } else {
        lemma_e_header(s);
        let (h, r) = p_header(s)->0;
        lemma_e_headers(r, (k - 1) as nat);
        let (t, r2) = p_headers(r, (k - 1) as nat)->0;
        let hs = seq![h] + t;
        assert(hs.drop_first() =~= t);
        assert(hs[0] == h);
        assert(s =~= enc_header(h) + enc_headers(t) + r2);
        assert forall|i: int| 0 <= i < k implies header_fits(#[trigger] hs[i]) by {
            if i > 0 {
                assert(hs[i] == t[i - 1]);
            }
        }
    }
}

/// Bytes that decode to a message are that message's encoding.
proof fn lemma_e_front(s: Seq<u8>)
    requires
        p_front(s) is Some,
    ensures
        ({
            let (f, r) = p_front(s)->0;
            s == spec_u16_to_le_bytes(f.0) + (seq![f.1] + (enc_opt_id(f.2) + (enc_opt_id(f.3)
                + spec_u64_to_le_bytes(f.4)))) + r
        }),
{
    lemma_e_u16(s);
    let r1 = rest(p_u16(s));
    lemma_e_opt_id(r1.skip(1));
    let r2 = rest(p_opt_id(r1.skip(1)));
    lemma_e_opt_id(r2);
    let r3 = rest(p_opt_id(r2));
    lemma_e_u64(r3);
    assert(r1 =~= seq![r1[0]] + r1.skip(1));
    let (f, r) = p_front(s)->0;
    assert(s =~= spec_u16_to_le_bytes(f.0) + (seq![f.1] + (enc_opt_id(f.2) + (enc_opt_id(f.3)
        + spec_u64_to_le_bytes(f.4)))) + r);
}

proof fn lemma_e_back(s: Seq<u8>)
    requires
        p_back(s) is Some,
    ensures
        ({
            let (b, r) = p_back(s)->0;
            &&& s == spec_u32_to_le_bytes(b.0.len() as u32) + (enc_headers(b.0) + (enc_bytes(b.1)
                + enc_opt_bytes(b.2))) + r
            &&& b.0.len() <= u32::MAX
            &&& forall|i: int| 0 <= i < b.0.len() ==> header_fits(#[trigger] b.0[i])
            &&& b.1.len() <= u32::MAX
            &&& b.2 matches Some(g) ==> g.len() <= u32::MAX
        }),
{
    lemma_e_u32(s);
    let (n, r5) = p_u32(s)->0;
    lemma_e_headers(r5, n as nat);
    let r6 = rest(p_headers(r5, n as nat));
    lemma_e_bytes(r6);
    let r7 = rest(p_bytes(r6));
    lemma_e_opt_bytes(r7);
    let (b, r) = p_back(s)->0;
    assert(b.0.len() == n);
    assert(s =~= spec_u32_to_le_bytes(b.0.len() as u32) + (enc_headers(b.0) + (enc_bytes(b.1)
        + enc_opt_bytes(b.2))) + r);
}

/// Bytes that decode to a message are that message's encoding.
pub proof fn lemma_encode_parse(s: Seq<u8>)
    requires
        parse(s) is Some,
    ensures
        encode(parse(s)->0) == s,
        message_wf(parse(s)->0),
{
    let m = parse(s)->0;
    lemma_e_front(s);
    let (f, r) = p_front(s)->0;
    lemma_e_back(r);
    let c = f.1;
    lemma_standard_codes_unique(status_of_code(c));
    assert(status_code(status_of_code(c)) == c) by {
        if is_standard_code(c) {
            let t = choose|t: Status| is_standard(t) && status_code(t) == c;
        }
    }
    let (b, r2) = p_back(r)->0;
    assert(r2 =~= Seq::<u8>::empty());
    assert(enc_front(m) + enc_back(m) =~= s);
}

// ---- messages ----

/// A message of the overlay: routing control or application data.
#[derive(Debug)]
pub struct FLESHMessage {
    pub version: u16,
    pub target: Option<u128>,
    pub sender: Option<u128>,
    pub timestamp: u64,
    pub headers: Headers,
    pub body: Vec<u8>,
    pub signature: Option<Vec<u8>>,
    pub status: Status,
}

impl View for FLESHMessage {
    type V = MessageModel;

    open spec fn view(&self) -> MessageModel {
        MessageModel {
            version: self.version,
            status: self.status,
            target: self.target,
            sender: self.sender,
            timestamp: self.timestamp,
            headers: self.headers@,
            body: self.body@,
            signature: opt_bytes_view(self.signature),
        }
    }
}

/// Why a message could not be handled.
#[derive(Debug, Clone, Copy, PartialEq, Eq, Structural)]
pub enum MessageError {
    /// A length does not fit the field that carries it.
    SerializationError,
    /// The bytes are not the encoding of a message.
    DeserializationError,
    /// The message carries no signature.
    MissingSignature,
    /// The signature does not verify.
    InvalidSignature,
    /// The body could not be encrypted.
    EncryptionError,
    /// The body could not be decrypted.
    DecryptionError,
    /// The headers that decryption needs are missing.
    MissingEncryptionData,
    /// The headers that decryption needs are malformed.
    InvalidEncryptionData,
}

proof fn lemma_encode_main(m: MessageModel)
    ensures
        encode(m) == enc_main(m) + enc_opt_bytes(m.signature),
{
    let a = spec_u16_to_le_bytes(m.version) + (seq![status_code(m.status)] + (enc_opt_id(m.target)
        + (enc_opt_id(m.sender) + spec_u64_to_le_bytes(m.timestamp))));
    let b = spec_u32_to_le_bytes(m.headers.len() as u32);
    let c = enc_headers(m.headers);
    let d = enc_bytes(m.body);
    let e = enc_opt_bytes(m.signature);
    assert(enc_front(m) == a);
    assert(enc_back(m) == b + (c + (d + e)));
    assert(enc_main(m) =~= a + (b + (c + d)));
    assert(a + (b + (c + (d + e))) =~= (a + (b + (c + d))) + e);
}

fn append_bytes(out: &mut Vec<u8>, src: &[u8])
    ensures
        final(out)@ == old(out)@ + src@,
{
    let mut i: usize = 0;
    while i < src.len()
        invariant
            i <= src@.len(),
            out@ == old(out)@ + src@.take(i as int),
        decreases src@.len() - i,
    {
        out.push(src[i]);
        assert(src@.take(i + 1) =~= src@.take(i as int).push(src@[i as int]));
        i = i + 1;
    }
    assert(src@.take(i as int) =~= src@);
}

fn write_opt_id(out: &mut Vec<u8>, t: Option<u128>)
    ensures
        final(out)@ == old(out)@ + enc_opt_id(t),
{
    match t {
        None => {
            out.push(0u8);
            assert(out@ =~= old(out)@ + enc_opt_id(t));
        },
        Some(x) => {
            out.push(1u8);
            let b = u128_to_le_bytes(x);
            append_bytes(out, b.as_slice());
            assert(out@ =~= old(out)@ + enc_opt_id(t));
        },
    }
}

fn write_bytes(out: &mut Vec<u8>, b: &[u8])
    requires
        b@.len() <= u32::MAX,
    ensures
        final(out)@ == old(out)@ + enc_bytes(b@),
{
    let n = u32_to_le_bytes(b.len() as u32);
    append_bytes(out, n.as_slice());
    append_bytes(out, b);
    assert(out@ =~= old(out)@ + enc_bytes(b@));
}

proof fn lemma_enc_headers_concat(a: Seq<(Seq<u8>, Seq<u8>)>, b: Seq<(Seq<u8>, Seq<u8>)>)
    ensures
        enc_headers(a + b) == enc_headers(a) + enc_headers(b),
    decreases a.len(),
{
    if a.len() == 0 {
        assert(a + b =~= b);
        assert(enc_headers(a) + enc_headers(b) =~= enc_headers(b));
    } else {
        assert((a + b).drop_first() =~= a.drop_first() + b);
        lemma_enc_headers_concat(a.drop_first(), b);
        assert(enc_headers(a + b) =~= enc_headers(a) + enc_headers(b));
    }
}

proof fn lemma_enc_headers_one(h: (Seq<u8>, Seq<u8>))
    ensures
        enc_headers(seq![h]) == enc_header(h),
{
    assert(seq![h].drop_first() =~= Seq::<(Seq<u8>, Seq<u8>)>::empty());
    assert(seq![h][0] == h);
    assert(enc_headers(Seq::<(Seq<u8>, Seq<u8>)>::empty()) == Seq::<u8>::empty());
    assert(enc_header(h) + Seq::<u8>::empty() =~= enc_header(h));
}

fn write_headers(out: &mut Vec<u8>, headers: &Headers) -> (ok: bool)
    ensures
        ok <==> forall|j: int| 0 <= j < headers@.len() ==> header_fits(#[trigger] headers@[j]),
        ok ==> final(out)@ == old(out)@ + enc_headers(headers@),
{
    let ghost hs = headers@;
    let n = headers.len();
    let mut i: usize = 0;
    while i < n
        invariant
            n == hs.len(),
            hs == headers@,
            i <= n,
            out@ == old(out)@ + enc_headers(hs.take(i as int)),
            forall|j: int| 0 <= j < i ==> header_fits(#[trigger] hs[j]),
        decreases n - i,
    {
        let h = headers.entry(i);
        if h.name.len() > 0xffff || h.value.len() > 0xffff_ffff {
            assert(!header_fits(hs[i as int]));
            return false;
        }
        let ghost before = out@;
        let l = u16_to_le_bytes(h.name.len() as u16);
        append_bytes(out, l.as_slice());
        append_bytes(out, h.name.as_slice());
        write_bytes(out, h.value.as_slice());
        proof {
            assert(out@ =~= before + enc_header(hs[i as int]));
            assert(hs.take(i + 1) =~= hs.take(i as int) + seq![hs[i as int]]);
            lemma_enc_headers_concat(hs.take(i as int), seq![hs[i as int]]);
            lemma_enc_headers_one(hs[i as int]);
            assert(out@ =~= old(out)@ + enc_headers(hs.take(i + 1)));
        }
        i = i + 1;
    }
    assert(hs.take(i as int) =~= hs);
    true
}

impl FLESHMessage {
    /// The encoding of this message, when every length fits its field.
    pub fn serialize(&self) -> (r: Result<Vec<u8>, MessageError>)
        ensures
            encodable(self@) ==> (r matches Ok(b) && b@ == encode(self@)),
            !encodable(self@) ==> r == Err::<Vec<u8>, MessageError>(MessageError::SerializationError),
    {
        self.serialize_with(true)
    }

    /// The encoding of this message with its signature cleared: the bytes that
    /// a signature covers.
    pub fn serialize_unsigned(&self) -> (r: Result<Vec<u8>, MessageError>)
        ensures
            encodable(unsigned(self@)) ==> (r matches Ok(b) && b@ == encode(unsigned(self@))),
            !encodable(unsigned(self@)) ==> r == Err::<Vec<u8>, MessageError>(
                MessageError::SerializationError,
            ),
    {
        self.serialize_with(false)
    }

    fn write_main(&self, out: &mut Vec<u8>) -> (ok: bool)
        requires
            old(out)@.len() == 0,
        ensures
            ok <==> encodable(unsigned(self@)),
            ok ==> final(out)@ == enc_main(self@),
    {
        let ghost m = self@;
        let v = u16_to_le_bytes(self.version);
        append_bytes(out, v.as_slice());
        let ghost o1 = out@;
        out.push(self.status.as_u8());
        let ghost o2 = out@;
        write_opt_id(out, self.target);
        let ghost o3 = out@;
        write_opt_id(out, self.sender);
        let ghost o4 = out@;
        let t = u64_to_le_bytes(self.timestamp);
        append_bytes(out, t.as_slice());
        let ghost o5 = out@;
        let n = self.headers.len();
        if n > 0xffff_ffffusize {
            return false;
        }
        let c = u32_to_le_bytes(n as u32);
        append_bytes(out, c.as_slice());
        let ghost o6 = out@;
        if !write_headers(out, &self.headers) {
            return false;
        }
        let ghost o7 = out@;
        if self.body.len() > 0xffff_ffff {
            return false;
        }
        write_bytes(out, self.body.as_slice());
        proof {
            let q8 = enc_bytes(m.body);
            let q7 = enc_headers(m.headers);
            let q6 = spec_u32_to_le_bytes(m.headers.len() as u32);
            let q5 = spec_u64_to_le_bytes(m.timestamp);
            let q4 = enc_opt_id(m.sender);
            let q3 = enc_opt_id(m.target);
            let q2 = seq![status_code(m.status)];
            assert(o2 =~= o1 + q2);
            let r7 = q7 + q8;
            let r6 = q6 + r7;
            let r5 = q5 + r6;
            let r4 = q4 + r5;
            let r3 = q3 + r4;
            let r2 = q2 + r3;
            assert(out@ =~= o6 + r7);
            assert(out@ =~= o5 + r6);
            assert(out@ =~= o4 + r5);
            assert(out@ =~= o3 + r4);
            assert(out@ =~= o2 + r3);
            assert(out@ =~= o1 + r2);
            assert(out@ =~= enc_main(m));
        }
        true
    }

    fn serialize_with(&self, with_signature: bool) -> (r: Result<Vec<u8>, MessageError>)
        ensures
            ({
                let m = if with_signature { self@ } else { unsigned(self@) };
                &&& encodable(m) ==> (r matches Ok(b) && b@ == encode(m))
                &&& !encodable(m) ==> r == Err::<Vec<u8>, MessageError>(
                    MessageError::SerializationError,
                )
            }),
    {
        let ghost m = if with_signature { self@ } else { unsigned(self@) };
        let mut out: Vec<u8> = Vec::new();
        if !self.write_main(&mut out) {
            return Err(MessageError::SerializationError);
        }
        assert(enc_main(m) == enc_main(self@));
        if with_signature {
            match &self.signature {
                None => {
                    out.push(0u8);
                },
                Some(s) => {
                    if s.len() > 0xffff_ffff {
                        return Err(MessageError::SerializationError);
                    }
                    out.push(1u8);
                    write_bytes(&mut out, s.as_slice());
                },
            }
        } else {
            out.push(0u8);
        }
        proof { lemma_encode_main(m); }
        assert(out@ =~= enc_main(m) + enc_opt_bytes(m.signature));
        Ok(out)
    }
}

// ---- reading ----

/// `r` is what the field reader `o` gives on the bytes of `b` from some
/// position: the same value, and the position after it.
pub open spec fn read_matches<T>(o: Option<(T, Seq<u8>)>, r: Option<(T, usize)>, b: Seq<u8>) -> bool {
    match o {
        None => r is None,
        Some((x, rest)) => r matches Some((y, p)) && y == x && p <= b.len() && rest == b.skip(
            p as int,
        ),
    }
}

pub open spec fn read_bytes_matches(
    o: Option<(Seq<u8>, Seq<u8>)>,
    r: Option<(Vec<u8>, usize)>,
    b: Seq<u8>,
) -> bool {
    match o {
        None => r is None,
        Some((x, rest)) => r matches Some((y, p)) && y@ == x && p <= b.len() && rest == b.skip(
            p as int,
        ),
    }
}

fn read_u16(b: &[u8], pos: usize) -> (r: Option<(u16, usize)>)
    requires
        pos <= b@.len(),
    ensures
        read_matches(p_u16(b@.skip(pos as int)), r, b@),
{
    if b.len() - pos < 2 {
        return None;
    }
    let x = u16_from_le_bytes(slice_subrange(b, pos, pos + 2));
    assert(b@.skip(pos as int).take(2) =~= b@.subrange(pos as int, pos + 2));
    assert(b@.skip(pos as int).skip(2) =~= b@.skip(pos + 2));
    Some((x, pos + 2))
}

fn read_u32(b: &[u8], pos: usize) -> (r: Option<(u32, usize)>)
    requires
        pos <= b@.len(),
    ensures
        read_matches(p_u32(b@.skip(pos as int)), r, b@),
{
    if b.len() - pos < 4 {
        return None;
    }
    let x = u32_from_le_bytes(slice_subrange(b, pos, pos + 4));
    assert(b@.skip(pos as int).take(4) =~= b@.subrange(pos as int, pos + 4));
    assert(b@.skip(pos as int).skip(4) =~= b@.skip(pos + 4));
    Some((x, pos + 4))
}

fn read_u64(b: &[u8], pos: usize) -> (r: Option<(u64, usize)>)
    requires
        pos <= b@.len(),
    ensures
        read_matches(p_u64(b@.skip(pos as int)), r, b@),
{
    if b.len() - pos < 8 {
        return None;
    }
    let x = u64_from_le_bytes(slice_subrange(b, pos, pos + 8));
    assert(b@.skip(pos as int).take(8) =~= b@.subrange(pos as int, pos + 8));
    assert(b@.skip(pos as int).skip(8) =~= b@.skip(pos + 8));
    Some((x, pos + 8))
}

fn read_u128(b: &[u8], pos: usize) -> (r: Option<(u128, usize)>)
    requires
        pos <= b@.len(),
    ensures
        read_matches(p_u128(b@.skip(pos as int)), r, b@),
{
    if b.len() - pos < 16 {
        return None;
    }
    let x = u128_from_le_bytes(slice_subrange(b, pos, pos + 16));
    assert(b@.skip(pos as int).take(16) =~= b@.subrange(pos as int, pos + 16));
    assert(b@.skip(pos as int).skip(16) =~= b@.skip(pos + 16));
    Some((x, pos + 16))
}

fn read_opt_id(b: &[u8], pos: usize) -> (r: Option<(Option<u128>, usize)>)
    requires
        pos <= b@.len(),
    ensures
        read_matches(p_opt_id(b@.skip(pos as int)), r, b@),
{
    if pos >= b.len() {
        return None;
    }
    assert(b@.skip(pos as int)[0] == b@[pos as int]);
    assert(b@.skip(pos as int).skip(1) =~= b@.skip(pos + 1));
    if b[pos] == 0 {
        Some((None, pos + 1))
    } else if b[pos] == 1 {
        match read_u128(b, pos + 1) {
            Some((x, p)) => Some((Some(x), p)),
            None => None,
        }
    } else {
        None
    }
}

fn read_bytes(b: &[u8], pos: usize) -> (r: Option<(Vec<u8>, usize)>)
    requires
        pos <= b@.len(),
    ensures
        read_bytes_matches(p_bytes(b@.skip(pos as int)), r, b@),
{
    match read_u32(b, pos) {
        None => None,
        Some((n, p)) => {
            if (n as usize) > b.len() - p {
                return None;
            }
            let end = p + n as usize;
            let v = slice_to_vec(slice_subrange(b, p, end));
            assert(b@.skip(p as int).take(n as int) =~= b@.subrange(p as int, end as int));
            assert(b@.skip(p as int).skip(n as int) =~= b@.skip(end as int));
            Some((v, end))
        },
    }
}

fn read_opt_bytes(b: &[u8], pos: usize) -> (r: Option<(Option<Vec<u8>>, usize)>)
    requires
        pos <= b@.len(),
    ensures
        match p_opt_bytes(b@.skip(pos as int)) {
            None => r is None,
            Some((x, rest)) => r matches Some((y, p)) && opt_bytes_view(y) == x && p <= b@.len()
                && rest == b@.skip(p as int),
        },
{
    if pos >= b.len() {
        return None;
    }
    assert(b@.skip(pos as int)[0] == b@[pos as int]);
    assert(b@.skip(pos as int).skip(1) =~= b@.skip(pos + 1));
    if b[pos] == 0 {
        Some((None, pos + 1))
    } else if b[pos] == 1 {
        match read_bytes(b, pos + 1) {
            Some((v, p)) => Some((Some(v), p)),
            None => None,
        }
    } else {
        None
    }
}

fn read_header(b: &[u8], pos: usize) -> (r: Option<(Header, usize)>)
    requires
        pos <= b@.len(),
    ensures
        match p_header(b@.skip(pos as int)) {
            None => r is None,
            Some((h, rest)) => r matches Some((y, p)) && (y.name@, y.value@) == h && p <= b@.len()
                && rest == b@.skip(p as int),
        },
{
    match read_u16(b, pos) {
        None => None,
        Some((n, p)) => {
            if (n as usize) > b.len() - p {
                return None;
            }
            let end = p + n as usize;
            let name = slice_to_vec(slice_subrange(b, p, end));
            assert(b@.skip(p as int).take(n as int) =~= b@.subrange(p as int, end as int));
            assert(b@.skip(p as int).skip(n as int) =~= b@.skip(end as int));
            match read_bytes(b, end) {
                None => None,
                Some((value, q)) => Some((Header { name, value }, q)),
            }
        },
    }
}

pub open spec fn prepend_headers(
    acc: Seq<(Seq<u8>, Seq<u8>)>,
    o: Option<(Seq<(Seq<u8>, Seq<u8>)>, Seq<u8>)>,
) -> Option<(Seq<(Seq<u8>, Seq<u8>)>, Seq<u8>)> {
    match o {
        Some((hs, r)) => Some((acc + hs, r)),
        None => None,
    }
}

fn read_headers(b: &[u8], pos: usize, n: u32) -> (r: Option<(Vec<Header>, usize)>)
    requires
        pos <= b@.len(),
    ensures
        match p_headers(b@.skip(pos as int), n as nat) {
            None => r is None,
            Some((hs, rest)) => r matches Some((v, p)) && entries_view(v@) == hs && p <= b@.len()
                && rest == b@.skip(p as int),
        },
{
    let ghost whole = p_headers(b@.skip(pos as int), n as nat);
    let mut acc: Vec<Header> = Vec::new();
    let mut p = pos;
    let mut i: u32 = 0;
    assert(entries_view(acc@) + Seq::<(Seq<u8>, Seq<u8>)>::empty() =~= Seq::<(Seq<u8>, Seq<u8>)>::empty());
    assert(prepend_headers(entries_view(acc@), p_headers(b@.skip(p as int), (n - i) as nat)) == whole) by {
        match p_headers(b@.skip(p as int), (n - i) as nat) {
            Some((hs, r)) => { assert(entries_view(acc@) + hs =~= hs); },
            None => {},
        }
    }
    while i < n
        invariant
            i <= n,
            p <= b@.len(),
            whole == p_headers(b@.skip(pos as int), n as nat),
            prepend_headers(entries_view(acc@), p_headers(b@.skip(p as int), (n - i) as nat))
                == whole,
        decreases n - i,
    {
        match read_header(b, p) {
            None => {
                return None;
            },
            Some((h, q)) => {
                let ghost old_acc = entries_view(acc@);
                let ghost hv = (h.name@, h.value@);
                acc.push(h);
                proof {
                    assert(entries_view(acc@) =~= old_acc.push(hv));
                    match p_headers(b@.skip(q as int), (n - i - 1) as nat) {
                        Some((hs, r)) => {
                            assert(old_acc + (seq![hv] + hs) =~= old_acc.push(hv) + hs);
                        },
                        None => {},
                    }
                }
                p = q;
                i = i + 1;
            },
        }
    }
    assert(entries_view(acc@) + Seq::<(Seq<u8>, Seq<u8>)>::empty() =~= entries_view(acc@));
    Some((acc, p))
}

impl FLESHMessage {
    /// The message whose encoding is `data`.
    pub fn deserialize(data: &[u8]) -> (r: Result<FLESHMessage, MessageError>)
        ensures
            r matches Ok(m) ==> encode(m@) == data@ && message_wf(m@),
            r is Err ==> r == Err::<FLESHMessage, MessageError>(MessageError::DeserializationError)
                && forall|m: MessageModel| message_wf(m) ==> encode(m) != data@,
            match parse(data@) {
                Some(m) => r matches Ok(x) && x@ == m,
                None => r is Err,
            },
    {
        let r = Self::decode(data);
        proof {
            if parse(data@) is Some {
                lemma_encode_parse(data@);
            } else {
                assert forall|m: MessageModel| message_wf(m) implies encode(m) != data@ by {
                    if encode(m) == data@ {
                        lemma_parse_encode(m);
                    }
                }
            }
        }
        r
    }

    fn decode(data: &[u8]) -> (r: Result<FLESHMessage, MessageError>)
        ensures
            match parse(data@) {
                Some(m) => r matches Ok(x) && x@ == m,
                None => r == Err::<FLESHMessage, MessageError>(MessageError::DeserializationError),
            },
    {
        let err = Err(MessageError::DeserializationError);
        assert(data@.skip(0) =~= data@);
        let (version, q1) = match read_u16(data, 0) {
            Some(x) => x,
            None => return err,
        };
        if q1 >= data.len() {
            return err;
        }
        let code = data[q1];
        assert(data@.skip(q1 as int)[0] == code);
        assert(data@.skip(q1 as int).skip(1) =~= data@.skip(q1 + 1));
        let (target, q2) = match read_opt_id(data, q1 + 1) {
            Some(x) => x,
            None => return err,
        };
        let (sender, q3) = match read_opt_id(data, q2) {
            Some(x) => x,
            None => return err,
        };
        let (timestamp, q4) = match read_u64(data, q3) {
            Some(x) => x,
            None => return err,
        };
        assert(p_front(data@) == Some(((version, code, target, sender, timestamp), data@.skip(q4 as int))));
        let (n, q5) = match read_u32(data, q4) {
            Some(x) => x,
            None => return err,
        };
        let (entries, q6) = match read_headers(data, q5, n) {
            Some(x) => x,
            None => return err,
        };
        let (body, q7) = match read_bytes(data, q6) {
            Some(x) => x,
            None => return err,
        };
        let (signature, q8) = match read_opt_bytes(data, q7) {
            Some(x) => x,
            None => return err,
        };
        assert(p_back(data@.skip(q4 as int)) == Some(((entries_view(entries@), body@, opt_bytes_view(signature)), data@.skip(q8 as int))));
        if q8 != data.len() {
            return err;
        }
        let headers = match Headers::from_entries(entries) {
            Some(h) => h,
            None => return err,
        };
        let status = Status::from_u8(code);
        let m = FLESHMessage { version, target, sender, timestamp, headers, body, signature, status };
        assert(m@ == parse(data@)->0);
        Ok(m)
    }
}

/// The protocol version: the major version of this library.
pub const PROTOCOL_VERSION: u16 = 0;

/// `b` is `a` with every field but the headers kept.
pub open spec fn same_but_headers(a: MessageModel, b: MessageModel) -> bool {
    b == MessageModel { headers: b.headers, ..a }
}

/// The headers of `b` are those of `a` with `value` stored under `name`.
pub open spec fn headers_put(a: Seq<(Seq<u8>, Seq<u8>)>, b: Seq<(Seq<u8>, Seq<u8>)>, name: Seq<u8>, value: Seq<u8>) -> bool {
    forall|n: Seq<u8>| #[trigger] header_lookup(b, n) == if n == name { Some(value) } else { header_lookup(a, n) }
}

/// The message is for `id`: it is broadcast, or targets `id`.
pub open spec fn is_for(m: MessageModel, id: u128) -> bool {
    m.target == Some(id) || m.target is None
}

impl FLESHMessage {
    /// An empty message with the given status, stamped with the current time.
    pub fn new(status: Status) -> (r: FLESHMessage)
        ensures
            r.status == status,
            r.version == PROTOCOL_VERSION,
            r.target is None,
            r.sender is None,
            r.headers@.len() == 0,
            r.body@.len() == 0,
            r.signature is None,
    {
        FLESHMessage {
            status,
            version: PROTOCOL_VERSION,
            target: None,
            sender: None,
            timestamp: unix_time_secs(),
            headers: Headers::new(),
            body: Vec::new(),
            signature: None,
        }
    }

    /// The message addressed to `target`.
    pub fn with_target(self, target: u128) -> (r: FLESHMessage)
        ensures
            r@ == (MessageModel { target: Some(target), ..self@ }),
    {
        let mut m = self;
        m.target = Some(target);
        m
    }

    /// The message marked as sent by `sender`.
    pub fn with_sender(self, sender: u128) -> (r: FLESHMessage)
        ensures
            r@ == (MessageModel { sender: Some(sender), ..self@ }),
    {
        let mut m = self;
        m.sender = Some(sender);
        m
    }

    /// The message with `value` stored under the header `key`; names are
    /// case-insensitive and kept in lower case.
    pub fn with_header(self, key: &str, value: Vec<u8>) -> (r: FLESHMessage)
        requires
            is_ascii(key),
        ensures
            same_but_headers(self@, r@),
            headers_put(self@.headers, r@.headers, lower_name(key.spec_bytes()), value@),
    {
        proof { vstd::string::is_ascii_spec_bytes(key); }
        let b = key.as_bytes();
        assert forall|i: int| 0 <= i < b@.len() implies #[trigger] b@[i] < 128 by {
            assert(b@[i] == key@[i] as u8);
        }
        let name = lowercase_name(b);
        proof { lemma_lower_name_ok(b@); }
        self.with_header_bytes(name, value)
    }

    /// The message with `value` stored under the header `name`, a valid name.
    pub fn with_header_bytes(self, name: Vec<u8>, value: Vec<u8>) -> (r: FLESHMessage)
        requires
            name_ok(name@),
        ensures
            same_but_headers(self@, r@),
            headers_put(self@.headers, r@.headers, name@, value@),
            self@.headers.len() == 0 ==> r@.headers == seq![(name@, value@)],
    {
        let mut m = self;
        let h = m.headers;
        m.headers = h.insert(name, value);
        m
    }

    /// The message with the given body.
    pub fn with_body(self, body: Vec<u8>) -> (r: FLESHMessage)
        ensures
            r@ == (MessageModel { body: body@, ..self@ }),
    {
        let mut m = self;
        m.body = body;
        m
    }

    /// Whether the status is in the routing, hints or oks category.
    pub fn is_ok(&self) -> (r: bool)
        ensures
            r == crate::status::status_is_ok(self.status),
    {
        self.status.is_ok()
    }

    /// Whether the message is broadcast or targets `id`.
    pub fn for_id(&self, id: u128) -> (r: bool)
        ensures
            r == is_for(self@, id),
    {
        match self.target {
            Some(t) => t == id,
            None => true,
        }
    }
}

/// Serialization is deterministic: re-encoding a decoded encoding gives the
/// same bytes, for any status, a custom one that borrows a named code
/// included (it reads back as the named one, with the same code).
pub proof fn lemma_serialize_deterministic(m: MessageModel)
    requires
        headers_wf(m.headers),
        encodable(m),
    ensures
        parse(encode(m)) is Some,
        encode(parse(encode(m))->0) == encode(m),
        status_canonical(m.status) ==> parse(encode(m)) == Some(m),
{
    let c = status_code(m.status);
    let s = status_of_code(c);
    assert(status_code(s) == c && status_canonical(s)) by {
        if is_standard_code(c) {
            let t = choose|t: Status| is_standard(t) && status_code(t) == c;
        }
    }
    let m2 = MessageModel { status: s, ..m };
    assert(encode(m2) == encode(m));
    lemma_parse_encode(m2);
    if status_canonical(m.status) {
        lemma_parse_encode(m);
    }
}

/// Messages that agree on every field and store the same value under every
/// header name, whatever order the headers were set in, encode alike.
pub proof fn lemma_encoding_canonical(m1: MessageModel, m2: MessageModel)
    requires
        headers_wf(m1.headers),
        headers_wf(m2.headers),
        same_but_headers(m1, m2),
        forall|n: Seq<u8>| #[trigger] header_lookup(m1.headers, n) == header_lookup(m2.headers, n),
    ensures
        encode(m1) == encode(m2),
{
    crate::headers::lemma_headers_canonical(m1.headers, m2.headers);
    assert(m1 == m2);
}

} // verus!
