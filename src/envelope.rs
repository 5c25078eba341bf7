//! Signing, verification, encryption and decryption of messages.
use vstd::prelude::*;
use crate::codec::{FLESHMessage, MessageError, MessageModel, encode, encodable, unsigned, same_but_headers};
use crate::crypto::{
    aead_open, aead_seal, ed25519_accepts, ed25519_montgomery, ed25519_point_valid, ed25519_public,
    ed25519_scalar, ed25519_signature, x25519_public, x25519_shared, montgomery_of, open,
    public_key_of, random_bytes, scalar_of, seal, sign_bytes, uuid_from_random, verify_bytes,
    x25519_agree, x25519_public_of,
};
use crate::headers::header_lookup;

verus! {

/// A node's identity: its peer id and its Ed25519 secret key.
#[derive(Debug)]
pub struct Identity {
    id: u128,
    secret: Vec<u8>,
}

impl Identity {
    #[verifier::type_invariant]
    spec fn inv(self) -> bool {
        self.secret@.len() == 32
    }

    /// The 32 bytes of the secret key.
    pub closed spec fn secret_key(self) -> Seq<u8> {
        self.secret@
    }

    /// The peer id.
    pub closed spec fn peer_id(self) -> u128 {
        self.id
    }

    /// The peer id.
    pub fn id(&self) -> (r: u128)
        ensures
            r == self.peer_id(),
    {
        self.id
    }

    /// The identity with the given id and 32-byte secret key.
    pub fn from_secret(id: u128, secret: Vec<u8>) -> (r: Option<Identity>)
        ensures
            r is Some <==> secret@.len() == 32,
            r matches Some(i) ==> i.peer_id() == id && i.secret_key() == secret@,
    {
        if secret.len() == 32 {
            Some(Identity { id, secret })
        } else {
            None
        }
    }

    /// A fresh identity: a random id and a random secret key, or `None` when
    /// the system's generator fails.
    pub fn generate() -> (r: Option<Identity>) {
        let idb = random_bytes(16)?;
        let secret = random_bytes(32)?;
        Some(Identity { id: uuid_from_random(idb.as_slice()), secret })
    }

    /// The secret key's bytes.
    pub fn secret(&self) -> (r: &[u8])
        ensures
            r@ == self.secret_key(),
            r@.len() == 32,
    {
        proof { use_type_invariant(self); }
        self.secret.as_slice()
    }

    /// The verifying key that belongs to the secret key.
    pub fn public_key(&self) -> (r: Vec<u8>)
        ensures
            r@ == ed25519_public(self.secret_key()),
            r@.len() == 32,
    {
        public_key_of(self.secret())
    }
}

/// Name of the header that carries the sender's ephemeral X25519 key.
pub open spec fn ephemeral_key_name() -> Seq<u8> {
    seq![101u8, 112, 104, 101, 109, 101, 114, 97, 108, 95, 107, 101, 121]
}

/// Name of the header that carries the AEAD nonce.
pub open spec fn nonce_name() -> Seq<u8> {
    seq![110u8, 111, 110, 99, 101]
}

fn ephemeral_key_header() -> (r: Vec<u8>)
    ensures
        r@ == ephemeral_key_name(),
{
    let r = vec![101u8, 112, 104, 101, 109, 101, 114, 97, 108, 95, 107, 101, 121];
    assert(r@ =~= ephemeral_key_name());
    r
}

/// The name of the header that carries the ephemeral key.
pub fn ephemeral_key_header_bytes() -> (r: Vec<u8>)
    ensures
        r@ == ephemeral_key_name(),
{
    ephemeral_key_header()
}

fn nonce_header() -> (r: Vec<u8>)
    ensures
        r@ == nonce_name(),
{
    let r = vec![110u8, 111, 110, 99, 101];
    assert(r@ =~= nonce_name());
    r
}

/// The message as signing stamps it: sender set, signature cleared.
pub open spec fn stamped(m: MessageModel, id: u128) -> MessageModel {
    MessageModel { sender: Some(id), signature: None, ..m }
}

/// The message that signing produces: stamped, with the Ed25519 signature of
/// the stamped message's encoding attached.
pub open spec fn signed_model(m: MessageModel, id: u128, secret: Seq<u8>) -> MessageModel {
    MessageModel {
        signature: Some(ed25519_signature(secret, encode(stamped(m, id)))),
        ..stamped(m, id)
    }
}

/// What verification under `key` answers for `m`.
pub open spec fn verify_outcome(m: MessageModel, key: Seq<u8>) -> Result<(), MessageError> {
    match m.signature {
        None => Err(MessageError::MissingSignature),
        Some(sig) => if !encodable(unsigned(m)) {
            Err(MessageError::SerializationError)
        } else if ed25519_point_valid(key) && sig.len() == 64 && ed25519_accepts(
            key,
            encode(unsigned(m)),
            sig,
        ) {
            Ok(())
        } else {
            Err(MessageError::InvalidSignature)
        },
    }
}

/// The key that the sender of an encrypted message derives.
pub open spec fn sender_key(target_public: Seq<u8>, ephemeral: Seq<u8>) -> Seq<u8> {
    x25519_shared(ephemeral, ed25519_montgomery(target_public))
}

/// The key that the target of an encrypted message derives.
pub open spec fn receiver_key(secret: Seq<u8>, ephemeral_public: Seq<u8>) -> Seq<u8> {
    x25519_shared(ed25519_scalar(secret), ephemeral_public)
}

/// `b`'s headers are `a`'s with the two envelope headers set.
pub open spec fn envelope_added(a: MessageModel, b: MessageModel, ephemeral_public: Seq<u8>, nonce: Seq<u8>) -> bool {
    forall|n: Seq<u8>|
        #[trigger] header_lookup(b.headers, n) == if n == ephemeral_key_name() {
            Some(ephemeral_public)
        } else if n == nonce_name() {
            Some(nonce)
        } else {
            header_lookup(a.headers, n)
        }
}

/// `b`'s headers are `a`'s without the two envelope headers.
pub open spec fn envelope_removed(a: MessageModel, b: MessageModel) -> bool {
    forall|n: Seq<u8>|
        #[trigger] header_lookup(b.headers, n) == if n == ephemeral_key_name() || n == nonce_name() {
            None
        } else {
            header_lookup(a.headers, n)
        }
}

pub open spec fn result_view(r: Result<FLESHMessage, MessageError>) -> Result<MessageModel, MessageError> {
    match r {
        Ok(m) => Ok(m@),
        Err(e) => Err(e),
    }
}

/// What encrypting `m` to `target_key` with ephemeral secret `e` and nonce `n`
/// gives: the body sealed under the sender's key, the two envelope headers
/// added, every other field kept.
pub open spec fn encrypt_rel(m: MessageModel, target_key: Seq<u8>, e: Seq<u8>, n: Seq<u8>, r: Result<MessageModel, MessageError>) -> bool {
    if !ed25519_point_valid(target_key) {
        r == Err::<MessageModel, MessageError>(MessageError::EncryptionError)
    } else {
        match aead_seal(sender_key(target_key, e), n, m.body) {
            None => r == Err::<MessageModel, MessageError>(MessageError::EncryptionError),
            Some(c) => r matches Ok(x) && x.body == c && same_but_headers(m, (MessageModel { body: m.body, ..x }))
                && envelope_added(m, x, x25519_public(e), n) && x25519_public(e).len() == 32
                && c.len() == m.body.len() + 16 && aead_open(sender_key(target_key, e), n, c) == Some(m.body),
        }
    }
}

/// What decrypting `m` with `secret` gives: the body opened under the
/// receiver's key, the envelope headers removed, every other field kept.
pub open spec fn decrypt_rel(m: MessageModel, secret: Seq<u8>, r: Result<MessageModel, MessageError>) -> bool {
    match (header_lookup(m.headers, ephemeral_key_name()), header_lookup(m.headers, nonce_name())) {
        (Some(e), Some(n)) => if e.len() != 32 || n.len() != 12 {
            r == Err::<MessageModel, MessageError>(MessageError::InvalidEncryptionData)
        } else {
            match aead_open(receiver_key(secret, e), n, m.body) {
                None => r == Err::<MessageModel, MessageError>(MessageError::DecryptionError),
                Some(p) => r matches Ok(x) && x.body == p && same_but_headers(m, (MessageModel { body: m.body, ..x }))
                    && envelope_removed(m, x),
            }
        },
        _ => r == Err::<MessageModel, MessageError>(MessageError::MissingEncryptionData),
    }
}

impl FLESHMessage {
    /// Stamps the sender and signs the encoding of the message with its
    /// signature cleared.
    pub fn sign(self, identity: &Identity) -> (r: Result<FLESHMessage, MessageError>)
        ensures
            encodable(stamped(self@, identity.peer_id())) ==> (r matches Ok(m) && m@ == signed_model(
                self@,
                identity.peer_id(),
                identity.secret_key(),
            )),
            !encodable(stamped(self@, identity.peer_id())) ==> r == Err::<FLESHMessage, MessageError>(
                MessageError::SerializationError,
            ),
            r matches Ok(m) ==> (m@.signature matches Some(g) && g.len() == 64),
    {
        let mut m = self;
        m.sender = Some(identity.id());
        m.signature = None;
        let bytes = match m.serialize() {
            Ok(b) => b,
            Err(e) => return Err(e),
        };
        let sig = sign_bytes(identity.secret(), bytes.as_slice());
        m.signature = Some(sig);
        Ok(m)
    }

    /// Checks the signature against `key` over the encoding of the message
    /// with its signature cleared.
    pub fn verify(&self, key: &[u8]) -> (r: Result<(), MessageError>)
        requires
            key@.len() == 32,
        ensures
            r == verify_outcome(self@, key@),
    {
        let sig = match &self.signature {
            None => return Err(MessageError::MissingSignature),
            Some(s) => s,
        };
        let bytes = match self.serialize_unsigned() {
            Ok(b) => b,
            Err(e) => return Err(e),
        };
        if verify_bytes(key, bytes.as_slice(), sig.as_slice()) {
            Ok(())
        } else {
            Err(MessageError::InvalidSignature)
        }
    }

    /// Encrypts the body to the holder of `target_key` with the given
    /// ephemeral X25519 secret and nonce, and records both envelope headers.
    ///
    /// The target's Ed25519 verifying key is converted to its X25519
    /// (Montgomery) form before the key agreement, and the receiver uses the
    /// matching X25519 secret of its signing key. Using the raw Ed25519 key
    /// bytes as X25519 keys instead would give keys that do not correspond;
    /// the conversion is chosen deliberately over that weaker scheme.
    pub fn encrypt_body_with(self, target_key: &[u8], ephemeral: &[u8], nonce: &[u8]) -> (r: Result<FLESHMessage, MessageError>)
        requires
            target_key@.len() == 32,
            ephemeral@.len() == 32,
            nonce@.len() == 12,
        ensures
            encrypt_rel(self@, target_key@, ephemeral@, nonce@, result_view(r)),
    {
        let mont = match montgomery_of(target_key) {
            Some(k) => k,
            None => return Err(MessageError::EncryptionError),
        };
        let shared = x25519_agree(ephemeral, mont.as_slice());
        let sealed = match seal(shared.as_slice(), nonce, self.body.as_slice()) {
            Some(c) => c,
            None => return Err(MessageError::EncryptionError),
        };
        let public = x25519_public_of(ephemeral);
        let mut m = self;
        m.body = sealed;
        let nv = crate::headers::slice_copy(nonce);
        let m = m.with_header_bytes(ephemeral_key_header(), public);
        let m = m.with_header_bytes(nonce_header(), nv);
        Ok(m)
    }

    /// Encrypts the body to the holder of `target_key` with a fresh ephemeral
    /// secret and nonce from the system's generator.
    pub fn encrypt_body(self, target_key: &[u8]) -> (r: Result<FLESHMessage, MessageError>)
        requires
            target_key@.len() == 32,
        ensures
            !ed25519_point_valid(target_key@) ==> r is Err,
            r is Err ==> r == Err::<FLESHMessage, MessageError>(MessageError::EncryptionError),
            r matches Ok(m) ==> exists|e: Seq<u8>, n: Seq<u8>| e.len() == 32 && n.len() == 12
                && #[trigger] encrypt_rel(self@, target_key@, e, n, Ok(m@)),
    {
        let e = match random_bytes(32) {
            Some(b) => b,
            None => return Err(MessageError::EncryptionError),
        };
        let n = match random_bytes(12) {
            Some(b) => b,
            None => return Err(MessageError::EncryptionError),
        };
        self.encrypt_body_with(target_key, e.as_slice(), n.as_slice())
    }

    /// Decrypts the body with the identity's key and removes the envelope
    /// headers. The X25519 secret is the one that belongs to the identity's
    /// Ed25519 signing key (its scalar bytes), not the raw key bytes.
    pub fn decrypt_body(self, identity: &Identity) -> (r: Result<FLESHMessage, MessageError>)
        ensures
            decrypt_rel(self@, identity.secret_key(), result_view(r)),
    {
        let ek = ephemeral_key_header();
        let nk = nonce_header();
        let e = match self.headers.get(ek.as_slice()) {
            Some(v) => v,
            None => return Err(MessageError::MissingEncryptionData),
        };
        let n = match self.headers.get(nk.as_slice()) {
            Some(v) => v,
            None => return Err(MessageError::MissingEncryptionData),
        };
        if e.len() != 32 || n.len() != 12 {
            return Err(MessageError::InvalidEncryptionData);
        }
        let scalar = scalar_of(identity.secret());
        let shared = x25519_agree(scalar.as_slice(), e.as_slice());
        let plain = match open(shared.as_slice(), n.as_slice(), self.body.as_slice()) {
            Some(p) => p,
            None => return Err(MessageError::DecryptionError),
        };
        let mut m = self;
        m.body = plain;
        let h = m.headers;
        let h = h.remove(ek.as_slice());
        m.headers = h.remove(nk.as_slice());
        Ok(m)
    }
}

/// Verifying a signed message under the signer's verifying key checks exactly
/// the signature that signing attached, over exactly the bytes that signing
/// covered; it succeeds when Ed25519 accepts that signature.
pub proof fn lemma_sign_then_verify(m: MessageModel, id: u128, secret: Seq<u8>)
    requires
        encodable(stamped(m, id)),
    ensures
        unsigned(signed_model(m, id, secret)) == stamped(m, id),
        ({
            let b = encode(stamped(m, id));
            let public = ed25519_public(secret);
            let sig = ed25519_signature(secret, b);
            verify_outcome(signed_model(m, id, secret), public) == if ed25519_point_valid(public)
                && sig.len() == 64 && ed25519_accepts(public, b, sig) {
                Ok::<(), MessageError>(())
            } else {
                Err(MessageError::InvalidSignature)
            }
        }),
{
    assert(unsigned(signed_model(m, id, secret)) == stamped(m, id));
}

/// Decrypting with the target's secret what was encrypted to its verifying key
/// opens the sealed body with the nonce it was sealed under, removes the two
/// envelope headers and keeps every other field. When the X25519 agreement
/// gives both sides the same key, the message as it was comes back: the body,
/// every header and every other field.
pub proof fn lemma_decrypt_after_encrypt(
    m: MessageModel,
    secret: Seq<u8>,
    e: Seq<u8>,
    n: Seq<u8>,
    c: MessageModel,
    d: Result<MessageModel, MessageError>,
)
    requires
        n.len() == 12,
        encrypt_rel(m, ed25519_public(secret), e, n, Ok(c)),
        decrypt_rel(c, secret, d),
        header_lookup(m.headers, ephemeral_key_name()) is None,
        header_lookup(m.headers, nonce_name()) is None,
    ensures
        aead_open(receiver_key(secret, x25519_public(e)), n, c.body) is None ==> d == Err::<MessageModel, MessageError>(MessageError::DecryptionError),
        aead_open(receiver_key(secret, x25519_public(e)), n, c.body) matches Some(p) ==> (d matches Ok(x)
            && x.body == p && same_but_headers(m, (MessageModel { body: m.body, ..x }))
            && forall|name: Seq<u8>| #[trigger] header_lookup(x.headers, name) == header_lookup(m.headers, name)),
        receiver_key(secret, x25519_public(e)) == sender_key(ed25519_public(secret), e)
            ==> (d matches Ok(x) && x.body == m.body && same_but_headers(m, x)
            && forall|name: Seq<u8>| #[trigger] header_lookup(x.headers, name) == header_lookup(m.headers, name)),
{
    assert(header_lookup(c.headers, ephemeral_key_name()) == Some(x25519_public(e)));
    assert(header_lookup(c.headers, nonce_name()) == Some(n));
    if let Ok(x) = d {
        assert forall|name: Seq<u8>| #[trigger] header_lookup(x.headers, name) == header_lookup(m.headers, name) by {
            assert(header_lookup(x.headers, name) == if name == ephemeral_key_name() || name == nonce_name() { None } else { header_lookup(c.headers, name) });
        }
    }
}

} // verus!
