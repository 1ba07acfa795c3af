use p2p_core::hash::{hash, Hashable};
use p2p_core::object::ObjectRequest;
use p2p_core::key::{KeyPair, PrivateKey, PublicKey, Signature};
use p2p_core::reader::{Reader, ReaderError};
use p2p_core::serializer::Serializer;

#[test]
fn sha256_known_vector() {
    // SHA-256("abc"), a published test vector.
    let digest = hash(b"abc");
    assert_eq!(
        digest.to_hex(),
        "ba7816bf8f01cfea414140de5dae2223b00361a396177a9cb410ff61f20015ad"
    );
}

#[test]
fn sha256_empty_input() {
    let digest = hash(b"");
    assert_eq!(
        digest.to_hex(),
        "e3b0c44298fc1c149afbf4c8996fb92427ae41e4649b934ca495991b7852b855"
    );
}

#[test]
fn hash_to_hex_is_lowercase_pairs() {
    let digest = p2p_core::hash::Hash::new(vec![0xABu8; 32]);
    assert_eq!(digest.to_hex(), "ab".repeat(32));
    assert_eq!(p2p_core::hash::Hash::zero().to_hex(), "00".repeat(32));
    assert_eq!(p2p_core::hash::Hash::max().to_hex(), "ff".repeat(32));
}

#[test]
fn hash_accessors() {
    let digest = p2p_core::hash::Hash::new((0u8..32).collect());
    assert_eq!(digest.as_bytes()[31], 31);
    let bytes = digest.clone().to_bytes();
    assert_eq!(bytes.len(), 32);
    assert_eq!(bytes[0], 0);
}

#[test]
fn hashable_digest_is_the_hash_of_the_encoding() {
    let request = ObjectRequest::Block(p2p_core::hash::Hash::zero());
    let via_trait = request.hash();
    let via_bytes = hash(&request.to_bytes());
    assert_eq!(via_trait, via_bytes);
}

#[test]
fn sign_and_verify_round_trip() {
    let pair = KeyPair::new();
    let digest = hash(b"message to protect");
    let signature = pair.sign(digest.as_bytes());
    assert!(pair.get_public_key().verify_signature(&digest, &signature));
    // A different message must not verify.
    let other = hash(b"another message");
    assert!(!pair.get_public_key().verify_signature(&other, &signature));
}

#[test]
fn corrupted_signature_is_rejected() {
    let pair = KeyPair::new();
    let digest = hash(b"payload");
    let signature = pair.sign(digest.as_bytes());
    let mut bytes = signature.to_bytes();
    bytes[0] ^= 0x01;
    let mut reader = Reader::new(&bytes);
    let tampered = Signature::read(&mut reader).expect("still parses");
    assert!(!pair.get_public_key().verify_signature(&digest, &tampered));
}

#[test]
fn public_key_round_trips_through_the_codec() {
    let pair = KeyPair::new();
    let bytes = pair.get_public_key().to_bytes();
    assert_eq!(bytes.len(), 32);
    let mut reader = Reader::new(&bytes);
    let decoded = PublicKey::read(&mut reader).expect("valid key");
    assert_eq!(&decoded, pair.get_public_key());
}

#[test]
fn signature_round_trips_through_the_codec() {
    let pair = KeyPair::new();
    let digest = hash(b"x");
    let signature = pair.sign(digest.as_bytes());
    let bytes = signature.to_bytes();
    assert_eq!(bytes.len(), 64);
    let mut reader = Reader::new(&bytes);
    let decoded = Signature::read(&mut reader).expect("valid signature");
    assert_eq!(decoded, signature);
    assert_eq!(decoded.to_hex().len(), 128);
}

#[test]
fn signature_with_unreduced_scalar_is_rejected() {
    let mut bytes = vec![0u8; 64];
    bytes[63] = 0xE0;
    let mut reader = Reader::new(&bytes);
    assert_eq!(Signature::read(&mut reader), Err(ReaderError::ErrorTryInto));
}

#[test]
fn distinct_pairs_do_not_cross_verify() {
    let pair = KeyPair::new();
    let digest = hash(b"relay");
    let signature = pair.sign(digest.as_bytes());
    let public = pair.get_public_key().clone();

    let other = KeyPair::new();
    let mismatched = other.get_public_key().clone();

    assert!(public.verify_signature(&digest, &signature));
    assert!(!mismatched.verify_signature(&digest, &signature));
}

#[test]
fn try_from_keys_rejects_a_foreign_public_key() {
    let other = KeyPair::new();
    let foreign_public = other.get_public_key().clone();
    let private = PrivateKey::new(vec![7u8; 32]);
    assert!(KeyPair::try_from_keys(foreign_public, private).is_none());
}
