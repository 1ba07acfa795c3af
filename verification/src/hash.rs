//! 32-byte digests.
//!
//! A `Hash` is an opaque 32-byte value compared by content. On the wire it
//! is exactly its 32 raw bytes.

use vstd::prelude::*;

verus! {

/// The SHA-256 digest of a byte string. Its value is fixed by the SHA-256
/// standard; the library states nothing about it beyond its length.
pub uninterp spec fn sha256_of(data: Seq<u8>) -> Seq<u8>;

/// The character for one hexadecimal digit, lower case.
pub open spec fn hex_digit(n: u8) -> char {
    if n < 10 {
        ((n + 48) as u8) as char
    } else {
        ((n + 87) as u8) as char
    }
}

/// The lowercase hexadecimal spelling of a byte string: two digits per
/// byte, high nibble first.
pub open spec fn hex_of(s: Seq<u8>) -> Seq<char> {
    Seq::new(s.len() * 2, |i: int| if i % 2 == 0 {
        hex_digit(s[i / 2] / 16)
    } else {
        hex_digit(s[i / 2] % 16)
    })
}

/// Number of bytes in a digest.
pub const HASH_SIZE: usize = 32;

/// A 32-byte digest, compared by byte content.
#[derive(Clone, Debug, PartialEq, Eq)]
pub struct Hash(Vec<u8>);

impl View for Hash {
    type V = Seq<u8>;

    closed spec fn view(&self) -> Seq<u8> {
        self.0@
    }
}

impl Hash {
    pub open spec fn wf(self) -> bool {
        self@.len() == HASH_SIZE
    }

    pub fn new(bytes: Vec<u8>) -> (r: Self)
        requires
            bytes@.len() == HASH_SIZE,
        ensures
            r@ == bytes@,
            r.wf(),
    {
        Hash(bytes)
    }

    /// The digest whose bytes are all zero.
    pub fn zero() -> (r: Self)
        ensures
            r.wf(),
            r@ == Seq::new(HASH_SIZE as nat, |i: int| 0u8),
    {
        Hash(filled_vec(0))
    }

    /// The digest whose bytes are all `0xff`.
    pub fn max() -> (r: Self)
        ensures
            r.wf(),
            r@ == Seq::new(HASH_SIZE as nat, |i: int| 0xffu8),
    {
        Hash(filled_vec(0xff))
    }

    pub fn as_bytes(&self) -> (r: &[u8])
        ensures
            r@ == self@,
    {
        self.0.as_slice()
    }

    pub fn to_bytes(self) -> (r: Vec<u8>)
        ensures
            r@ == self@,
    {
        self.0
    }

    /// The digest's 64-character lowercase hexadecimal form.
    pub fn to_hex(&self) -> (r: String)
        ensures
            r@ == hex_of(self@),
    {
        encode_hex(self.0.as_slice())
    }
}

/// Computes the SHA-256 digest of the given bytes.
pub fn hash(value: &[u8]) -> (r: Hash)
    ensures
        r.wf(),
        r@ == sha256_of(value@),
{
    let digest = sha256(value);
    Hash::new(digest)
}

/// Relies on sha2::Sha256 (update, then finalize): the digest depends on
/// the input bytes alone and is 32 bytes long.
#[verifier::external_body]
fn sha256(value: &[u8]) -> (r: Vec<u8>)
    ensures
        r@ == sha256_of(value@),
        r@.len() == 32,
{
    let mut hasher = <sha2::Sha256 as sha2::Digest>::new();
    sha2::Digest::update(&mut hasher, value);
    sha2::Digest::finalize(hasher).to_vec()
}

/// Relies on hex::encode: two lowercase digits per byte, high nibble
/// first.
#[verifier::external_body]
pub(crate) fn encode_hex(b: &[u8]) -> (r: String)
    ensures
        r@ == hex_of(b@),
{
    hex::encode(b)
}

impl crate::serializer::Serializer for Hash {
    open spec fn m_wf(m: Seq<u8>) -> bool {
        m.len() == HASH_SIZE
    }

    open spec fn m_encode(m: Seq<u8>) -> Seq<u8> {
        m
    }

    fn write(&self, writer: &mut crate::writer::Writer) {
        writer.write_hash(self);
    }

    fn read(reader: &mut crate::reader::Reader) -> (r: Result<Self, crate::reader::ReaderError>) {
        let h = reader.read_hash()?;
        proof {
            if old(reader).remaining().len() == 32 {
                assert(old(reader).remaining().take(32) =~= old(reader).remaining());
            }
        }
        Ok(h)
    }
}

/// The capability of being hashed: any wire type's digest is the SHA-256
/// of its canonical encoding. Encoding is deterministic and canonical, so
/// the digest identifies the value.
pub trait Hashable: crate::serializer::Serializer {
    fn hash(&self) -> (h: Hash)
        requires
            Self::m_wf(self@),
        ensures
            h.wf(),
            h@ == sha256_of(Self::m_encode(self@)),
    {
        let bytes = self.to_bytes();
        hash(bytes.as_slice())
    }
}

/// A vector of `HASH_SIZE` copies of `b`.
fn filled_vec(b: u8) -> (r: Vec<u8>)
    ensures
        r@ == Seq::new(HASH_SIZE as nat, |i: int| b),
{
    let mut v: Vec<u8> = Vec::new();
    let mut i: usize = 0;
    while i < HASH_SIZE
        invariant
            i <= HASH_SIZE,
            v@ == Seq::new(i as nat, |j: int| b),
        decreases HASH_SIZE - i,
    {
        v.push(b);
        i = i + 1;
        proof {
            assert(v@ =~= Seq::new(i as nat, |j: int| b));
        }
    }
    v
}

} // verus!
