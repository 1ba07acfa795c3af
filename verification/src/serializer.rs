//! The codec contract every wire type obeys.
//!
//! A wire type abstracts to a mathematical model (its `View`); the model
//! has a canonical byte encoding. `write` appends exactly that encoding;
//! `read` decodes it back. The two `read` clauses state the round trip both
//! ways: a buffer holding exactly the encoding of a well-formed model
//! decodes to a value of that model consuming every byte, and whatever
//! `read` accepts is well-formed and re-encodes to precisely the consumed
//! bytes.

use crate::reader::{Reader, ReaderError};
use crate::writer::Writer;
use vstd::prelude::*;

verus! {

pub trait Serializer: View + Sized {
    /// The models that can legally go on the wire.
    spec fn m_wf(m: Self::V) -> bool;

    /// The canonical byte encoding of a model.
    spec fn m_encode(m: Self::V) -> Seq<u8>;

    /// Appends exactly the canonical encoding.
    fn write(&self, writer: &mut Writer)
        requires
            Self::m_wf(self@),
        ensures
            final(writer)@ == old(writer)@ + Self::m_encode(self@),
    ;

    /// Decodes one value.
    fn read(reader: &mut Reader) -> (r: Result<Self, ReaderError>)
        requires
            old(reader).wf(),
        ensures
            final(reader).wf(),
            final(reader).data() == old(reader).data(),
            old(reader).pos() <= final(reader).pos(),
            r matches Ok(v) ==> Self::m_wf(v@) && final(reader).pos() - old(reader).pos()
                == Self::m_encode(v@).len() && old(reader).remaining().take(
                Self::m_encode(v@).len() as int,
            ) == Self::m_encode(v@),
            forall|m: Self::V|
                Self::m_wf(m) && old(reader).remaining() == Self::m_encode(m) ==> (r matches Ok(v)
                    && v@ == m) && final(reader).pos() == old(reader).pos() + Self::m_encode(
                    m,
                ).len(),
    ;

    /// The canonical encoding as a fresh byte vector.
    fn to_bytes(&self) -> (r: Vec<u8>)
        requires
            Self::m_wf(self@),
        ensures
            r@ == Self::m_encode(self@),
    {
        let mut writer = Writer::new();
        self.write(&mut writer);
        writer.to_bytes()
    }
}

} // verus!
