//! Ed25519 key material and signatures.
//!
//! Keys and signatures are held as their raw bytes; every Ed25519
//! computation is delegated to the signature library behind a small set of
//! trusted wrappers. Signing is deterministic, so the wrappers' results are
//! named functions of the key and message bytes.

use crate::hash::{encode_hex, hex_of};
use crate::reader::{Reader, ReaderError};
use crate::serializer::Serializer;
use crate::writer::Writer;
use vstd::prelude::*;

verus! {

/// Byte length of a public key and of a private key seed.
pub const KEY_LENGTH: usize = 32;

/// Byte length of a signature.
pub const SIGNATURE_LENGTH: usize = 64;

/// The public key derived from a 32-byte seed. Fixed by the Ed25519
/// standard; nothing is stated of its value beyond its length.
pub uninterp spec fn ed25519_public_of(seed: Seq<u8>) -> Seq<u8>;

/// Whether 32 bytes decompress to a point of the curve, as the signature
/// library's public-key parser decides it.
pub uninterp spec fn ed25519_pubkey_ok(bytes: Seq<u8>) -> bool;

/// The deterministic Ed25519 signature of `data` under the key with the
/// given seed.
pub uninterp spec fn ed25519_sign_of(seed: Seq<u8>, data: Seq<u8>) -> Seq<u8>;

/// Whether the signature checks out against the public key and message, as
/// the signature library decides it.
pub uninterp spec fn ed25519_verify_of(public: Seq<u8>, data: Seq<u8>, sig: Seq<u8>) -> bool;

/// The signatures the signature library's parser accepts: 64 bytes whose
/// scalar half passes the partial reduction check (top three bits of the
/// last byte clear).
pub open spec fn sig_bytes_ok(s: Seq<u8>) -> bool {
    s.len() == SIGNATURE_LENGTH && s[63] < 32
}

/// An Ed25519 public key, 32 bytes naming a curve point.
#[derive(Clone, Debug, PartialEq, Eq)]
pub struct PublicKey(Vec<u8>);

/// An Ed25519 private key: the 32-byte seed. Sensitive; its bytes leave
/// the type only through explicit export.
pub struct PrivateKey(Vec<u8>);

/// An Ed25519 signature, 64 bytes.
#[derive(Clone, Debug, PartialEq, Eq)]
pub struct Signature(Vec<u8>);

/// A private key with its derived public key.
pub struct KeyPair {
    public_key: PublicKey,
    private_key: PrivateKey,
}

impl View for PublicKey {
    type V = Seq<u8>;

    closed spec fn view(&self) -> Seq<u8> {
        self.0@
    }
}

impl View for PrivateKey {
    type V = Seq<u8>;

    closed spec fn view(&self) -> Seq<u8> {
        self.0@
    }
}

impl View for Signature {
    type V = Seq<u8>;

    closed spec fn view(&self) -> Seq<u8> {
        self.0@
    }
}

impl PublicKey {
    pub open spec fn wf(self) -> bool {
        self@.len() == KEY_LENGTH && ed25519_pubkey_ok(self@)
    }

    pub fn as_bytes(&self) -> (r: &[u8])
        ensures
            r@ == self@,
    {
        self.0.as_slice()
    }

    /// Whether `signature` is a valid signature of the digest's 32 bytes
    /// under this key.
    pub fn verify_signature(&self, hash: &crate::hash::Hash, signature: &Signature) -> (r: bool)
        requires
            self.wf(),
            signature@.len() == SIGNATURE_LENGTH,
        ensures
            r == ed25519_verify_of(self@, hash@, signature@),
    {
        verify_raw(&self.0, hash.as_bytes(), &signature.0)
    }
}

impl PrivateKey {
    pub open spec fn wf(self) -> bool {
        self@.len() == KEY_LENGTH
    }

    /// Wraps a 32-byte seed.
    pub fn new(bytes: Vec<u8>) -> (r: Self)
        requires
            bytes@.len() == KEY_LENGTH,
        ensures
            r@ == bytes@,
            r.wf(),
    {
        PrivateKey(bytes)
    }

    /// Signs `data` with this key. The matching public key is passed in,
    /// as the signature library's signing routine wants both halves.
    pub fn sign(&self, data: &[u8], public_key: &PublicKey) -> (r: Signature)
        requires
            self.wf(),
            public_key.wf(),
            public_key@ == ed25519_public_of(self@),
        ensures
            r@ == ed25519_sign_of(self@, data@),
            r.wf(),
    {
        Signature(sign_raw(&self.0, &public_key.0, data))
    }
}

impl Signature {
    pub open spec fn wf(self) -> bool {
        sig_bytes_ok(self@)
    }

    /// The signature's 128-character lowercase hexadecimal form.
    pub fn to_hex(&self) -> (r: String)
        ensures
            r@ == hex_of(self@),
    {
        encode_hex(self.0.as_slice())
    }
}

impl KeyPair {
    pub closed spec fn wf(self) -> bool {
        &&& self.private_key.wf()
        &&& self.public_key.wf()
        &&& self.public_key@ == ed25519_public_of(self.private_key@)
    }

    /// Generates a fresh key pair from 32 bytes of operating-system
    /// randomness.
    pub fn new() -> (r: Self)
        ensures
            r.wf(),
    {
        let seed = random_seed();
        let public = derive_public(&seed);
        KeyPair { public_key: PublicKey(public), private_key: PrivateKey(seed) }
    }

    /// Assembles a pair from its two halves.
    pub fn from_keys(public_key: PublicKey, private_key: PrivateKey) -> (r: Self)
        requires
            private_key.wf(),
            public_key.wf(),
            public_key@ == ed25519_public_of(private_key@),
        ensures
            r.wf(),
            r.public_key()@ == public_key@,
            r.private_key()@ == private_key@,
    {
        KeyPair { public_key, private_key }
    }

    /// Assembles a pair after checking that the two halves belong
    /// together: the public key must be the one derived from the seed.
    /// Yields nothing when they do not match.
    pub fn try_from_keys(public_key: PublicKey, private_key: PrivateKey) -> (r: Option<KeyPair>)
        requires
            private_key.wf(),
        ensures
            r matches Some(kp) ==> kp.wf() && kp.public_key()@ == public_key@ && kp.private_key()@
                == private_key@,
            r is None ==> public_key@ != ed25519_public_of(private_key@),
    {
        let derived = derive_public(&private_key.0);
        if keys_match(&derived, &public_key.0) {
            Some(KeyPair::from_keys(public_key, private_key))
        } else {
            None
        }
    }

    /// The private half's bytes, for contracts only.
    pub closed spec fn private_key(self) -> PrivateKey {
        self.private_key
    }

    /// The public half, for contracts only.
    pub closed spec fn public_key(self) -> PublicKey {
        self.public_key
    }

    pub fn get_public_key(&self) -> (r: &PublicKey)
        requires
            self.wf(),
        ensures
            r == self.public_key(),
            r.wf(),
    {
        &self.public_key
    }

    pub fn sign(&self, data: &[u8]) -> (r: Signature)
        requires
            self.wf(),
        ensures
            r@ == ed25519_sign_of(self.private_key()@, data@),
            r.wf(),
    {
        self.private_key.sign(data, &self.public_key)
    }
}

impl Serializer for PublicKey {
    open spec fn m_wf(m: Seq<u8>) -> bool {
        m.len() == KEY_LENGTH && ed25519_pubkey_ok(m)
    }

    open spec fn m_encode(m: Seq<u8>) -> Seq<u8> {
        m
    }

    fn write(&self, writer: &mut Writer) {
        writer.write_bytes(self.0.as_slice());
    }

    fn read(reader: &mut Reader) -> (r: Result<Self, ReaderError>) {
        let bytes = reader.read_bytes_32()?;
        proof {
            if old(reader).remaining().len() == 32 {
                assert(old(reader).remaining().take(32) =~= old(reader).remaining());
            }
        }
        if check_pubkey(&bytes) {
            Ok(PublicKey(bytes))
        } else {
            Err(ReaderError::ErrorTryInto)
        }
    }
}

impl Serializer for Signature {
    open spec fn m_wf(m: Seq<u8>) -> bool {
        sig_bytes_ok(m)
    }

    open spec fn m_encode(m: Seq<u8>) -> Seq<u8> {
        m
    }

    fn write(&self, writer: &mut Writer) {
        writer.write_bytes(self.0.as_slice());
    }

    fn read(reader: &mut Reader) -> (r: Result<Self, ReaderError>) {
        let bytes = reader.read_bytes_64()?;
        proof {
            if old(reader).remaining().len() == 64 {
                assert(old(reader).remaining().take(64) =~= old(reader).remaining());
            }
        }
        if bytes[63] < 32 {
            Ok(Signature(bytes))
        } else {
            Err(ReaderError::ErrorTryInto)
        }
    }
}

/// Byte-wise equality of two key buffers.
fn keys_match(a: &Vec<u8>, b: &Vec<u8>) -> (r: bool)
    ensures
        r == (a@ == b@),
{
    if a.len() != b.len() {
        proof {
            assert(a@ != b@);
        }
        return false;
    }
    let n = a.len();
    let mut i: usize = 0;
    while i < n
        invariant
            i <= n,
            n == a@.len() == b@.len(),
            forall|j: int| 0 <= j < i ==> a@[j] == b@[j],
        decreases n - i,
    {
        if a[i] != b[i] {
            return false;
        }
        i = i + 1;
    }
    proof {
        assert(a@ =~= b@);
    }
    true
}

/// Relies on rand's OsRng (fill_bytes): 32 bytes of randomness; nothing is
/// stated of their values.
#[verifier::external_body]
fn random_seed() -> (r: Vec<u8>)
    ensures
        r@.len() == KEY_LENGTH,
{
    let mut csprng = rand::rngs::OsRng;
    let mut bytes = [0u8; 32];
    rand::RngCore::fill_bytes(&mut csprng, &mut bytes);
    bytes.to_vec()
}

/// Relies on ed25519_dalek::PublicKey::from(&SecretKey): derivation of the
/// public key is a function of the seed alone; the result is 32 bytes and
/// parses back as a valid public key, being the compression of a real
/// curve point.
#[verifier::external_body]
fn derive_public(seed: &Vec<u8>) -> (r: Vec<u8>)
    requires
        seed@.len() == KEY_LENGTH,
    ensures
        r@ == ed25519_public_of(seed@),
        r@.len() == KEY_LENGTH,
        ed25519_pubkey_ok(r@),
{
    let secret = ed25519_dalek::SecretKey::from_bytes(seed).unwrap();
    let public = ed25519_dalek::PublicKey::from(&secret);
    public.to_bytes().to_vec()
}

/// Relies on ed25519_dalek::PublicKey::from_bytes: parsing succeeds
/// exactly when the 32 bytes decompress to a curve point, a function of
/// the bytes alone.
#[verifier::external_body]
fn check_pubkey(bytes: &Vec<u8>) -> (r: bool)
    requires
        bytes@.len() == KEY_LENGTH,
    ensures
        r == ed25519_pubkey_ok(bytes@),
{
    ed25519_dalek::PublicKey::from_bytes(bytes).is_ok()
}

/// Relies on ed25519_dalek::ExpandedSecretKey::sign: Ed25519 signing is
/// deterministic, a function of seed and message; the signature is 64
/// bytes whose scalar half is reduced, so it passes the parser's check.
#[verifier::external_body]
fn sign_raw(seed: &Vec<u8>, public: &Vec<u8>, data: &[u8]) -> (r: Vec<u8>)
    requires
        seed@.len() == KEY_LENGTH,
        ed25519_pubkey_ok(public@),
        public@ == ed25519_public_of(seed@),
    ensures
        r@ == ed25519_sign_of(seed@, data@),
        sig_bytes_ok(r@),
{
    let secret = ed25519_dalek::SecretKey::from_bytes(seed).unwrap();
    let public = ed25519_dalek::PublicKey::from_bytes(public).unwrap();
    let expanded = ed25519_dalek::ExpandedSecretKey::from(&secret);
    expanded.sign(data, &public).to_bytes().to_vec()
}

/// Relies on ed25519_dalek's Verifier::verify: acceptance is a function of
/// public key, message and signature bytes; unparsable keys or signatures
/// are rejected.
#[verifier::external_body]
fn verify_raw(public: &Vec<u8>, data: &[u8], sig: &Vec<u8>) -> (r: bool)
    requires
        public@.len() == KEY_LENGTH,
        sig@.len() == SIGNATURE_LENGTH,
    ensures
        r == ed25519_verify_of(public@, data@, sig@),
{
    let key = match ed25519_dalek::PublicKey::from_bytes(public) {
        Ok(k) => k,
        Err(_) => {
            return false;
        },
    };
    let signature = match ed25519_dalek::Signature::from_bytes(sig) {
        Ok(s) => s,
        Err(_) => {
            return false;
        },
    };
    ed25519_dalek::Verifier::verify(&key, data, &signature).is_ok()
}

} // verus!
