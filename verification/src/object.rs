//! Requests and responses for blocks and transactions.
//!
//! A request names an object kind and its digest. A response carries the
//! object's bytes, or echoes the request when the object is not known. The
//! object payloads themselves belong to the blockchain collaborator; here
//! they are opaque bytes.

use crate::error::P2pError;
use crate::hash::{sha256_of, Hashable};
use crate::reader::{Reader, ReaderError};
use crate::serializer::Serializer;
use crate::writer::Writer;
use vstd::prelude::*;

verus! {

/// A request for one object by digest.
#[derive(Clone, Debug, PartialEq, Eq)]
pub enum ObjectRequest {
    Block(crate::hash::Hash),
    Transaction(crate::hash::Hash),
}

/// The mathematical model of a request: the kind and the digest's bytes.
pub enum ObjectRequestView {
    Block(Seq<u8>),
    Transaction(Seq<u8>),
}

impl ObjectRequestView {
    /// The digest named by the request.
    pub open spec fn hash_bytes(self) -> Seq<u8> {
        match self {
            ObjectRequestView::Block(h) => h,
            ObjectRequestView::Transaction(h) => h,
        }
    }
}

impl View for ObjectRequest {
    type V = ObjectRequestView;

    open spec fn view(&self) -> ObjectRequestView {
        match self {
            ObjectRequest::Block(h) => ObjectRequestView::Block(h@),
            ObjectRequest::Transaction(h) => ObjectRequestView::Transaction(h@),
        }
    }
}

impl ObjectRequest {
    /// The digest of the requested object.
    pub fn get_hash(&self) -> (r: &crate::hash::Hash)
        ensures
            r@ == self@.hash_bytes(),
    {
        match self {
            ObjectRequest::Block(hash) => hash,
            ObjectRequest::Transaction(hash) => hash,
        }
    }
}

impl Serializer for ObjectRequest {
    open spec fn m_wf(m: ObjectRequestView) -> bool {
        m.hash_bytes().len() == 32
    }

    open spec fn m_encode(m: ObjectRequestView) -> Seq<u8> {
        match m {
            ObjectRequestView::Block(h) => seq![0u8] + h,
            ObjectRequestView::Transaction(h) => seq![1u8] + h,
        }
    }

    fn write(&self, writer: &mut Writer) {
        match self {
            ObjectRequest::Block(hash) => {
                writer.write_u8(0);
                writer.write_hash(hash);
                proof {
                    assert(writer@ =~= old(writer)@ + Self::m_encode(self@));
                }
            },
            ObjectRequest::Transaction(hash) => {
                writer.write_u8(1);
                writer.write_hash(hash);
                proof {
                    assert(writer@ =~= old(writer)@ + Self::m_encode(self@));
                }
            },
        }
    }

    fn read(reader: &mut Reader) -> (r: Result<Self, ReaderError>) {
        let ghost rem = old(reader).remaining();
        let id = reader.read_u8()?;
        proof {
            assert(reader.remaining() =~= rem.skip(1));
        }
        let v = match id {
            0 => ObjectRequest::Block(reader.read_hash()?),
            1 => ObjectRequest::Transaction(reader.read_hash()?),
            _ => {
                return Err(ReaderError::InvalidValue);
            },
        };
        proof {
            assert(rem.take(33) =~= Self::m_encode(v@));
            assert forall|m: ObjectRequestView|
                Self::m_wf(m) && rem == Self::m_encode(m) implies m == v@ by {
                assert(Self::m_encode(m)[0] == rem[0]);
                assert(m.hash_bytes() =~= rem.skip(1));
                assert(v@.hash_bytes() =~= rem.skip(1));
            }
        }
        Ok(v)
    }
}

impl Hashable for ObjectRequest {

}

/// A response held by value, for an object that was found.
#[derive(Clone, Debug, PartialEq, Eq)]
pub enum OwnedObjectResponse {
    Block(Vec<u8>),
    Transaction(Vec<u8>),
}

/// A response on the wire: the object's bytes, or the echoed request when
/// the object is not known.
#[derive(Clone, Debug, PartialEq, Eq)]
pub enum ObjectResponse {
    Block(Vec<u8>),
    Transaction(Vec<u8>),
    NotFound(ObjectRequest),
}

impl OwnedObjectResponse {
    /// The payload bytes the response carries.
    pub open spec fn spec_payload(self) -> Seq<u8> {
        match self {
            OwnedObjectResponse::Block(b) => b@,
            OwnedObjectResponse::Transaction(b) => b@,
        }
    }

    /// The digest of the carried object: the SHA-256 of its bytes, since an
    /// object's canonical encoding is exactly the bytes on the wire.
    pub fn get_hash(&self) -> (r: crate::hash::Hash)
        ensures
            r.wf(),
            r@ == sha256_of(self.spec_payload()),
    {
        match self {
            OwnedObjectResponse::Block(block) => crate::hash::hash(block.as_slice()),
            OwnedObjectResponse::Transaction(tx) => crate::hash::hash(tx.as_slice()),
        }
    }
}

/// The mathematical model of a response.
pub enum ObjectResponseView {
    Block(Seq<u8>),
    Transaction(Seq<u8>),
    NotFound(ObjectRequestView),
}

impl View for ObjectResponse {
    type V = ObjectResponseView;

    open spec fn view(&self) -> ObjectResponseView {
        match self {
            ObjectResponse::Block(b) => ObjectResponseView::Block(b@),
            ObjectResponse::Transaction(b) => ObjectResponseView::Transaction(b@),
            ObjectResponse::NotFound(q) => ObjectResponseView::NotFound(q@),
        }
    }
}

impl ObjectResponse {
    /// Yields the found object, or the echoed request as an error.
    pub fn to_owned(self) -> (r: Result<OwnedObjectResponse, P2pError>)
        ensures
            match self@ {
                ObjectResponseView::Block(b) => r matches Ok(o) && o matches
                    OwnedObjectResponse::Block(p) && p@ == b,
                ObjectResponseView::Transaction(b) => r matches Ok(o) && o matches
                    OwnedObjectResponse::Transaction(p) && p@ == b,
                ObjectResponseView::NotFound(q) => r matches Err(e) && e matches
                    P2pError::ObjectNotFound(oq) && oq@ == q,
            },
    {
        match self {
            ObjectResponse::Block(block) => Ok(OwnedObjectResponse::Block(block)),
            ObjectResponse::Transaction(tx) => Ok(OwnedObjectResponse::Transaction(tx)),
            ObjectResponse::NotFound(request) => Err(P2pError::ObjectNotFound(request)),
        }
    }
}

impl ObjectResponse {
    /// The request this response answers: for a found object, a request
    /// for its digest; for `NotFound`, the echoed request itself.
    pub fn get_request(&self) -> (r: ObjectRequest)
        requires
            Self::m_wf(self@),
        ensures
            r@ == (match self@ {
                ObjectResponseView::Block(b) => ObjectRequestView::Block(sha256_of(b)),
                ObjectResponseView::Transaction(b) => ObjectRequestView::Transaction(
                    sha256_of(b),
                ),
                ObjectResponseView::NotFound(q) => q,
            }),
    {
        match self {
            ObjectResponse::Block(block) => ObjectRequest::Block(
                crate::hash::hash(block.as_slice()),
            ),
            ObjectResponse::Transaction(tx) => ObjectRequest::Transaction(
                crate::hash::hash(tx.as_slice()),
            ),
            ObjectResponse::NotFound(request) => copy_request(request),
        }
    }
}

/// A fresh copy of a request.
fn copy_request(q: &ObjectRequest) -> (r: ObjectRequest)
    requires
        q@.hash_bytes().len() == 32,
    ensures
        r@ == q@,
{
    match q {
        ObjectRequest::Block(h) => ObjectRequest::Block(
            crate::hash::Hash::new(vstd::slice::slice_to_vec(h.as_bytes())),
        ),
        ObjectRequest::Transaction(h) => ObjectRequest::Transaction(
            crate::hash::Hash::new(vstd::slice::slice_to_vec(h.as_bytes())),
        ),
    }
}

/// Answers one object request from what the chain holds: the object's
/// bytes when it was found, the echoed request when it was not.
pub fn respond_object_request(request: ObjectRequest, found: Option<Vec<u8>>) -> (r: ObjectResponse)
    ensures
        r@ == (match found {
            Option::Some(ref payload) => match request@ {
                ObjectRequestView::Block(_) => ObjectResponseView::Block(payload@),
                ObjectRequestView::Transaction(_) => ObjectResponseView::Transaction(payload@),
            },
            Option::None => ObjectResponseView::NotFound(request@),
        }),
{
    match found {
        Option::Some(payload) => match request {
            ObjectRequest::Block(_) => ObjectResponse::Block(payload),
            ObjectRequest::Transaction(_) => ObjectResponse::Transaction(payload),
        },
        Option::None => ObjectResponse::NotFound(request),
    }
}

impl Serializer for ObjectResponse {
    open spec fn m_wf(m: ObjectResponseView) -> bool {
        match m {
            ObjectResponseView::Block(_) => true,
            ObjectResponseView::Transaction(_) => true,
            ObjectResponseView::NotFound(q) => q.hash_bytes().len() == 32,
        }
    }

    open spec fn m_encode(m: ObjectResponseView) -> Seq<u8> {
        match m {
            ObjectResponseView::Block(b) => seq![0u8] + b,
            ObjectResponseView::Transaction(b) => seq![1u8] + b,
            ObjectResponseView::NotFound(q) => seq![2u8] + ObjectRequest::m_encode(q),
        }
    }

    fn write(&self, writer: &mut Writer) {
        match self {
            ObjectResponse::Block(block) => {
                writer.write_u8(0);
                writer.write_bytes(block.as_slice());
                proof {
                    assert(writer@ =~= old(writer)@ + Self::m_encode(self@));
                }
            },
            ObjectResponse::Transaction(tx) => {
                writer.write_u8(1);
                writer.write_bytes(tx.as_slice());
                proof {
                    assert(writer@ =~= old(writer)@ + Self::m_encode(self@));
                }
            },
            ObjectResponse::NotFound(obj) => {
                writer.write_u8(2);
                obj.write(writer);
                proof {
                    assert(writer@ =~= old(writer)@ + Self::m_encode(self@));
                }
            },
        }
    }

    fn read(reader: &mut Reader) -> (r: Result<Self, ReaderError>) {
        let ghost rem = old(reader).remaining();
        let id = reader.read_u8()?;
        proof {
            assert(reader.remaining() =~= rem.skip(1));
        }
        match id {
            0 => {
                let n = reader.size();
                let b = reader.read_bytes(n)?;
                let v = ObjectResponse::Block(b);
                proof {
                    assert(v@->Block_0 =~= rem.skip(1));
                    lemma_response_payload_pins(rem, v@);
                }
                Ok(v)
            },
            1 => {
                let n = reader.size();
                let b = reader.read_bytes(n)?;
                let v = ObjectResponse::Transaction(b);
                proof {
                    assert(v@->Transaction_0 =~= rem.skip(1));
                    lemma_response_payload_pins(rem, v@);
                }
                Ok(v)
            },
            2 => {
                let q = match ObjectRequest::read(reader) {
                    Ok(q) => q,
                    Err(e) => {
                        proof {
                            assert forall|m: ObjectResponseView|
                                Self::m_wf(m) && rem == Self::m_encode(m) implies false by {
                                assert(Self::m_encode(m)[0] == rem[0]);
                                match m {
                                    ObjectResponseView::NotFound(mq) => {
                                        assert(ObjectRequest::m_encode(mq) =~= rem.skip(1));
                                    },
                                    _ => {},
                                }
                            }
                        }
                        return Err(e);
                    },
                };
                let v = ObjectResponse::NotFound(q);
                proof {
                    assert(rem.skip(1).take(ObjectRequest::m_encode(q@).len() as int) =~= rem.take(
                        1 + ObjectRequest::m_encode(q@).len() as int,
                    ).skip(1));
                    assert(rem.take(1 + ObjectRequest::m_encode(q@).len() as int) =~= Self::m_encode(
                        v@,
                    ));
                    assert forall|m: ObjectResponseView|
                        Self::m_wf(m) && rem == Self::m_encode(m) implies m == v@ by {
                        assert(Self::m_encode(m)[0] == rem[0]);
                        match m {
                            ObjectResponseView::NotFound(mq) => {
                                assert(ObjectRequest::m_encode(mq) =~= rem.skip(1));
                                assert(q@ == mq);
                            },
                            _ => {},
                        }
                    }
                }
                Ok(v)
            },
            _ => Err(ReaderError::InvalidValue),
        }
    }
}

/// After a payload-carrying tag, the rest of the buffer is the payload, so
/// the whole buffer is the response's encoding.
proof fn lemma_response_payload_pins(rem: Seq<u8>, m: ObjectResponseView)
    requires
        rem.len() >= 1,
        m matches ObjectResponseView::Block(b) ==> rem[0] == 0 && b == rem.skip(1),
        m matches ObjectResponseView::Transaction(b) ==> rem[0] == 1 && b == rem.skip(1),
        m is Block || m is Transaction,
    ensures
        ObjectResponse::m_encode(m) == rem,
        forall|m2: ObjectResponseView|
            ObjectResponse::m_wf(m2) && rem == ObjectResponse::m_encode(m2) ==> m2 == m,
{
    assert(ObjectResponse::m_encode(m) =~= rem);
    assert forall|m2: ObjectResponseView|
        ObjectResponse::m_wf(m2) && rem == ObjectResponse::m_encode(m2) implies m2 == m by {
        assert(ObjectResponse::m_encode(m2)[0] == rem[0]);
        match m2 {
            ObjectResponseView::Block(b2) => {
                assert(b2 =~= rem.skip(1));
            },
            ObjectResponseView::Transaction(b2) => {
                assert(b2 =~= rem.skip(1));
            },
            ObjectResponseView::NotFound(_) => {},
        }
    }
}

} // verus!
