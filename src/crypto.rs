//! The cryptographic primitives that the envelope is built from. Each function
//! here makes one call into an outside crate; what it returns is named by a
//! specification function of the same family, so that the envelope's contracts
//! can say exactly which bytes went where.
use vstd::prelude::*;

verus! {

/// The Ed25519 verifying key of a 32-byte secret key.
pub uninterp spec fn ed25519_public(secret: Seq<u8>) -> Seq<u8>;

/// The Ed25519 signature of `msg` under a 32-byte secret key.
pub uninterp spec fn ed25519_signature(secret: Seq<u8>, msg: Seq<u8>) -> Seq<u8>;

/// Whether strict Ed25519 verification accepts `sig` on `msg` under `public`.
pub uninterp spec fn ed25519_accepts(public: Seq<u8>, msg: Seq<u8>, sig: Seq<u8>) -> bool;

/// Whether 32 bytes decompress to a point of the Edwards curve.
pub uninterp spec fn ed25519_point_valid(public: Seq<u8>) -> bool;

/// The X25519 (Montgomery) form of a valid Ed25519 verifying key.
pub uninterp spec fn ed25519_montgomery(public: Seq<u8>) -> Seq<u8>;

/// The X25519 secret that belongs to an Ed25519 secret key.
pub uninterp spec fn ed25519_scalar(secret: Seq<u8>) -> Seq<u8>;

/// The X25519 public key of a 32-byte secret.
pub uninterp spec fn x25519_public(secret: Seq<u8>) -> Seq<u8>;

/// The X25519 shared secret of a secret and a public key.
pub uninterp spec fn x25519_shared(secret: Seq<u8>, public: Seq<u8>) -> Seq<u8>;

/// ChaCha20-Poly1305 sealing of `plain` under `key` and `nonce`.
pub uninterp spec fn aead_seal(key: Seq<u8>, nonce: Seq<u8>, plain: Seq<u8>) -> Option<Seq<u8>>;

/// ChaCha20-Poly1305 opening of `sealed` under `key` and `nonce`.
pub uninterp spec fn aead_open(key: Seq<u8>, nonce: Seq<u8>, sealed: Seq<u8>) -> Option<Seq<u8>>;

pub open spec fn opt_view(o: Option<Vec<u8>>) -> Option<Seq<u8>> {
    match o {
        Some(v) => Some(v@),
        None => None,
    }
}

/// Relies on `ed25519_dalek::SigningKey::verifying_key`: the verifying key
/// depends on the secret key alone, and is the compression of a curve point,
/// so `VerifyingKey::from_bytes` takes it back.
#[verifier::external_body]
pub(crate) fn public_key_of(secret: &[u8]) -> (r: Vec<u8>)
    requires
        secret@.len() == 32,
    ensures
        r@ == ed25519_public(secret@),
        r@.len() == 32,
        ed25519_point_valid(r@),
{
    let s: [u8; 32] = secret.try_into().unwrap();
    ed25519_dalek::SigningKey::from_bytes(&s).verifying_key().to_bytes().to_vec()
}

/// Relies on `ed25519_dalek::SigningKey::sign`: deterministic Ed25519, a
/// 64-byte signature that depends on the key and the message alone.
#[verifier::external_body]
pub(crate) fn sign_bytes(secret: &[u8], msg: &[u8]) -> (r: Vec<u8>)
    requires
        secret@.len() == 32,
    ensures
        r@ == ed25519_signature(secret@, msg@),
        r@.len() == 64,
{
    let s: [u8; 32] = secret.try_into().unwrap();
    ed25519_dalek::Signer::sign(&ed25519_dalek::SigningKey::from_bytes(&s), msg).to_bytes().to_vec()
}

/// Relies on `ed25519_dalek::VerifyingKey::verify_strict`, after
/// `VerifyingKey::from_bytes` (fails on bytes that are no curve point) and
/// `Signature::from_slice` (fails unless given 64 bytes).
#[verifier::external_body]
pub(crate) fn verify_bytes(public: &[u8], msg: &[u8], sig: &[u8]) -> (r: bool)
    requires
        public@.len() == 32,
    ensures
        r == (ed25519_point_valid(public@) && sig@.len() == 64 && ed25519_accepts(public@, msg@, sig@)),
{
    let p: [u8; 32] = public.try_into().unwrap();
    let Ok(key) = ed25519_dalek::VerifyingKey::from_bytes(&p) else { return false };
    let Ok(sig) = ed25519_dalek::Signature::from_slice(sig) else { return false };
    key.verify_strict(msg, &sig).is_ok()
}

/// Relies on `ed25519_dalek::VerifyingKey::from_bytes`: it succeeds exactly
/// when the bytes decompress to a curve point.
#[verifier::external_body]
pub(crate) fn valid_public_key(public: &[u8]) -> (r: bool)
    requires
        public@.len() == 32,
    ensures
        r == ed25519_point_valid(public@),
{
    let p: [u8; 32] = public.try_into().unwrap();
    ed25519_dalek::VerifyingKey::from_bytes(&p).is_ok()
}

/// Relies on `ed25519_dalek::VerifyingKey::to_montgomery`, after
/// `VerifyingKey::from_bytes`.
#[verifier::external_body]
pub(crate) fn montgomery_of(public: &[u8]) -> (r: Option<Vec<u8>>)
    requires
        public@.len() == 32,
    ensures
        r is Some == ed25519_point_valid(public@),
        r matches Some(m) ==> m@ == ed25519_montgomery(public@) && m@.len() == 32,
{
    let p: [u8; 32] = public.try_into().unwrap();
    match ed25519_dalek::VerifyingKey::from_bytes(&p) {
        Ok(k) => Some(k.to_montgomery().to_bytes().to_vec()),
        Err(_) => None,
    }
}

/// Relies on `ed25519_dalek::SigningKey::to_scalar_bytes`: as its
/// documentation says, the X25519 secret whose public key is the Montgomery
/// form of the signing key's verifying key.
#[verifier::external_body]
pub(crate) fn scalar_of(secret: &[u8]) -> (r: Vec<u8>)
    requires
        secret@.len() == 32,
    ensures
        r@ == ed25519_scalar(secret@),
        r@.len() == 32,
        x25519_public(r@) == ed25519_montgomery(ed25519_public(secret@)),
{
    let s: [u8; 32] = secret.try_into().unwrap();
    ed25519_dalek::SigningKey::from_bytes(&s).to_scalar_bytes().to_vec()
}

/// Relies on `x25519_dalek::PublicKey::from(&StaticSecret)`.
#[verifier::external_body]
pub(crate) fn x25519_public_of(secret: &[u8]) -> (r: Vec<u8>)
    requires
        secret@.len() == 32,
    ensures
        r@ == x25519_public(secret@),
        r@.len() == 32,
{
    let s: [u8; 32] = secret.try_into().unwrap();
    x25519_dalek::PublicKey::from(&x25519_dalek::StaticSecret::from(s)).to_bytes().to_vec()
}

/// Relies on `x25519_dalek::StaticSecret::diffie_hellman`.
#[verifier::external_body]
pub(crate) fn x25519_agree(secret: &[u8], public: &[u8]) -> (r: Vec<u8>)
    requires
        secret@.len() == 32,
        public@.len() == 32,
    ensures
        r@ == x25519_shared(secret@, public@),
        r@.len() == 32,
{
    let s: [u8; 32] = secret.try_into().unwrap();
    let p: [u8; 32] = public.try_into().unwrap();
    x25519_dalek::StaticSecret::from(s).diffie_hellman(&x25519_dalek::PublicKey::from(p)).to_bytes().to_vec()
}

/// Relies on `chacha20poly1305::ChaCha20Poly1305`'s `Aead::encrypt` with a
/// 32-byte key and a 12-byte nonce: the ciphertext followed by a 16-byte tag,
/// which `Aead::decrypt` under the same key and nonce opens to the plaintext.
#[verifier::external_body]
pub(crate) fn seal(key: &[u8], nonce: &[u8], plain: &[u8]) -> (r: Option<Vec<u8>>)
    requires
        key@.len() == 32,
        nonce@.len() == 12,
    ensures
        opt_view(r) == aead_seal(key@, nonce@, plain@),
        r matches Some(c) ==> c@.len() == plain@.len() + 16 && aead_open(key@, nonce@, c@) == Some(plain@),
{
    let Ok(c) = <chacha20poly1305::ChaCha20Poly1305 as chacha20poly1305::KeyInit>::new_from_slice(key) else { return None };
    chacha20poly1305::aead::Aead::encrypt(&c, chacha20poly1305::Nonce::from_slice(nonce), plain).ok()
}

/// Relies on `chacha20poly1305::ChaCha20Poly1305`'s `Aead::decrypt` with a
/// 32-byte key and a 12-byte nonce: `None` when the tag does not verify.
#[verifier::external_body]
pub(crate) fn open(key: &[u8], nonce: &[u8], sealed: &[u8]) -> (r: Option<Vec<u8>>)
    requires
        key@.len() == 32,
        nonce@.len() == 12,
    ensures
        opt_view(r) == aead_open(key@, nonce@, sealed@),
{
    let Ok(c) = <chacha20poly1305::ChaCha20Poly1305 as chacha20poly1305::KeyInit>::new_from_slice(key) else { return None };
    chacha20poly1305::aead::Aead::decrypt(&c, chacha20poly1305::Nonce::from_slice(nonce), sealed).ok()
}

/// Relies on `rand_core::OsRng::try_fill_bytes`: `n` bytes from the operating
/// system's generator, or `None` when it fails.
#[verifier::external_body]
pub(crate) fn random_bytes(n: usize) -> (r: Option<Vec<u8>>)
    ensures
        r matches Some(v) ==> v@.len() == n,
{
    let mut v = vec![0u8; n];
    match rand_core::RngCore::try_fill_bytes(&mut rand_core::OsRng, &mut v) {
        Ok(()) => Some(v),
        Err(_) => None,
    }
}

/// Relies on `uuid::Builder::from_random_bytes`: a version 4 identifier made
/// from 16 random bytes.
#[verifier::external_body]
pub(crate) fn uuid_from_random(random: &[u8]) -> (r: u128)
    requires
        random@.len() == 16,
{
    let b: [u8; 16] = random.try_into().unwrap();
    uuid::Builder::from_random_bytes(b).into_uuid().as_u128()
}

} // verus!
