use flesh::codec::{FLESHMessage, MessageError};
use flesh::envelope::Identity;
use flesh::status::Status;

fn identity(id: u128, seed: u8) -> Identity {
    Identity::from_secret(id, vec![seed; 32]).unwrap()
}

#[test]
fn identity_from_secret_checks_length() {
    assert!(Identity::from_secret(1, vec![0u8; 31]).is_none());
    let i = identity(7, 3);
    assert_eq!(i.id(), 7);
    assert_eq!(i.secret(), &[3u8; 32][..]);
}

#[test]
fn public_key_matches_ed25519() {
    let i = identity(1, 9);
    let expected = ed25519_dalek::SigningKey::from_bytes(&[9u8; 32]).verifying_key().to_bytes().to_vec();
    assert_eq!(i.public_key(), expected);
}

#[test]
fn generated_identities_differ() {
    let a = Identity::generate().unwrap();
    let b = Identity::generate().unwrap();
    assert_ne!(a.id(), b.id());
    assert_ne!(a.secret(), b.secret());
}

#[test]
fn sign_then_verify() {
    let a = identity(0x01, 1);
    let m = FLESHMessage::new(Status::Acknowledge).with_body(b"payload".to_vec()).sign(&a).unwrap();
    assert_eq!(m.sender, Some(0x01));
    let sig = m.signature.clone().unwrap();
    assert_eq!(sig.len(), 64);
    assert!(m.verify(&a.public_key()).is_ok());
    let unsigned = FLESHMessage::deserialize(&m.serialize().unwrap()).unwrap();
    let key = ed25519_dalek::VerifyingKey::from_bytes(&a.public_key().try_into().unwrap()).unwrap();
    let mut copy = unsigned;
    copy.signature = None;
    let signature = ed25519_dalek::Signature::from_slice(&sig).unwrap();
    assert!(key.verify_strict(&copy.serialize().unwrap(), &signature).is_ok());
}

#[test]
fn tampered_body_fails_verification() {
    let a = identity(0x01, 1);
    let mut m = FLESHMessage::new(Status::Acknowledge).with_body(b"payload".to_vec()).sign(&a).unwrap();
    m.body[0] ^= 1;
    assert!(matches!(m.verify(&a.public_key()), Err(MessageError::InvalidSignature)));
}

#[test]
fn wrong_key_and_missing_signature() {
    let a = identity(0x01, 1);
    let b = identity(0x02, 2);
    let m = FLESHMessage::new(Status::Acknowledge).sign(&a).unwrap();
    assert!(matches!(m.verify(&b.public_key()), Err(MessageError::InvalidSignature)));
    let u = FLESHMessage::new(Status::Acknowledge);
    assert!(matches!(u.verify(&a.public_key()), Err(MessageError::MissingSignature)));
}

#[test]
fn encrypt_then_decrypt() {
    let b = identity(0x02, 2);
    let m = FLESHMessage::new(Status::Acknowledge).with_target(0x02).with_header("x", vec![1]).with_body(b"secret".to_vec());
    let e = m.encrypt_body(&b.public_key()).unwrap();
    assert_ne!(e.body, b"secret".to_vec());
    assert_eq!(e.body.len(), 6 + 16);
    assert_eq!(e.headers.get(b"ephemeral_key").unwrap().len(), 32);
    assert_eq!(e.headers.get(b"nonce").unwrap().len(), 12);
    let d = e.decrypt_body(&b).unwrap();
    assert_eq!(d.body, b"secret".to_vec());
    assert!(d.headers.get(b"ephemeral_key").is_none());
    assert!(d.headers.get(b"nonce").is_none());
    assert_eq!(d.headers.get(b"x").unwrap(), &vec![1]);
}

#[test]
fn encrypt_with_fixed_randomness_is_deterministic() {
    let b = identity(0x02, 2);
    let m1 = FLESHMessage::new(Status::Acknowledge).with_body(b"abc".to_vec());
    let m2 = FLESHMessage::new(Status::Acknowledge).with_body(b"abc".to_vec());
    let e1 = m1.encrypt_body_with(&b.public_key(), &[5u8; 32], &[6u8; 12]).unwrap();
    let e2 = m2.encrypt_body_with(&b.public_key(), &[5u8; 32], &[6u8; 12]).unwrap();
    assert_eq!(e1.body, e2.body);
    let eph = x25519_dalek::PublicKey::from(&x25519_dalek::StaticSecret::from([5u8; 32])).to_bytes().to_vec();
    assert_eq!(e1.headers.get(b"ephemeral_key").unwrap(), &eph);
    assert_eq!(e1.headers.get(b"nonce").unwrap(), &vec![6u8; 12]);
    assert_eq!(e1.decrypt_body(&b).unwrap().body, b"abc".to_vec());
}

#[test]
fn empty_body_round_trips() {
    let b = identity(0x02, 2);
    let e = FLESHMessage::new(Status::Acknowledge).encrypt_body(&b.public_key()).unwrap();
    assert_eq!(e.body.len(), 16);
    assert!(e.decrypt_body(&b).unwrap().body.is_empty());
}

#[test]
fn bit_flips_fail_decryption() {
    let b = identity(0x02, 2);
    let e = FLESHMessage::new(Status::Acknowledge).with_body(b"secret".to_vec()).encrypt_body(&b.public_key()).unwrap();
    let bytes = e.serialize().unwrap();
    for i in 0..e.body.len() {
        let mut c = FLESHMessage::deserialize(&bytes).unwrap();
        c.body[i] ^= 0x10;
        assert!(matches!(c.decrypt_body(&b), Err(MessageError::DecryptionError)));
    }
    let mut nonce = e.headers.get(b"nonce").unwrap().clone();
    nonce[0] ^= 1;
    let c = FLESHMessage::deserialize(&bytes).unwrap().with_header("nonce", nonce);
    assert!(matches!(c.decrypt_body(&b), Err(MessageError::DecryptionError)));
}

#[test]
fn wrong_recipient_fails_decryption() {
    let b = identity(0x02, 2);
    let c = identity(0x03, 3);
    let e = FLESHMessage::new(Status::Acknowledge).with_body(b"secret".to_vec()).encrypt_body(&b.public_key()).unwrap();
    assert!(matches!(e.decrypt_body(&c), Err(MessageError::DecryptionError)));
}

#[test]
fn decrypt_error_variants() {
    let b = identity(0x02, 2);
    let m = FLESHMessage::new(Status::Acknowledge).with_body(vec![1]);
    assert!(matches!(m.decrypt_body(&b), Err(MessageError::MissingEncryptionData)));
    let m = FLESHMessage::new(Status::Acknowledge).with_header("ephemeral_key", vec![0; 31]).with_header("nonce", vec![0; 12]);
    assert!(matches!(m.decrypt_body(&b), Err(MessageError::InvalidEncryptionData)));
}

#[test]
fn encrypt_to_invalid_key_fails() {
    let mut bad = [0u8; 32];
    let mut found = false;
    for y in 2u8..=255 {
        bad[0] = y;
        if ed25519_dalek::VerifyingKey::from_bytes(&bad).is_err() {
            found = true;
            break;
        }
    }
    assert!(found);
    let m = FLESHMessage::new(Status::Acknowledge).with_body(vec![1]);
    assert!(matches!(m.encrypt_body(&bad), Err(MessageError::EncryptionError)));
}
