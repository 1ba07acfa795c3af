//! Safe cursor-based reading from a byte buffer.
//!
//! A `Reader` wraps an immutable byte slice and a cursor. Every read first
//! checks that enough bytes remain and fails with `InvalidSize` otherwise;
//! no read ever indexes out of bounds, whatever the input.

use crate::endian::{be_bytes, be_read, be_value, lemma_be_bytes_of_be_value, lemma_be_value_bound};
use vstd::prelude::*;
use vstd::slice::{slice_index_get, slice_subrange, slice_to_vec};
use vstd::utf8::{decode_utf8, decode_utf8_encode_utf8, encode_utf8, valid_utf8};

verus! {

/// What can go wrong while decoding bytes.
#[derive(Clone, Copy, Debug, PartialEq, Eq, Structural)]
pub enum ReaderError {
    /// Fewer bytes remain than the read needs, or a declared length is out
    /// of its allowed range.
    InvalidSize,
    /// The bytes are present but denote no valid value (bad UTF-8, unknown
    /// variant byte).
    InvalidValue,
    /// A hexadecimal string could not be decoded.
    InvalidHex,
    /// A byte buffer could not be converted to the requested form.
    ErrorTryInto,
}

/// Cursor over an immutable byte slice; reads advance the cursor.
pub struct Reader<'a> {
    bytes: &'a [u8],
    total: usize,
}

impl<'a> Reader<'a> {
    /// The whole buffer the reader was created over.
    pub closed spec fn data(self) -> Seq<u8> {
        self.bytes@
    }

    /// The cursor: how many bytes have been consumed.
    pub closed spec fn pos(self) -> int {
        self.total as int
    }

    pub open spec fn wf(self) -> bool {
        0 <= self.pos() <= self.data().len()
    }

    /// The bytes not yet consumed.
    pub open spec fn remaining(self) -> Seq<u8> {
        self.data().skip(self.pos())
    }

    pub fn new(bytes: &'a [u8]) -> (r: Self)
        ensures
            r.wf(),
            r.data() == bytes@,
            r.pos() == 0,
    {
        Reader { bytes, total: 0 }
    }

    pub fn read_bytes(&mut self, n: usize) -> (r: Result<Vec<u8>, ReaderError>)
        requires
            old(self).wf(),
        ensures
            final(self).wf(),
            final(self).data() == old(self).data(),
            n > old(self).remaining().len() ==> r == Err::<Vec<u8>, ReaderError>(
                ReaderError::InvalidSize,
            ) && final(self).pos() == old(self).pos(),
            n <= old(self).remaining().len() ==> final(self).pos() == old(self).pos() + n && (
            r matches Ok(v) && v@ == old(self).remaining().take(n as int)),
    {
        if n > self.size() {
            return Err(ReaderError::InvalidSize);
        }
        let buffer_len = self.bytes.len();
        proof {
            assert(self.total + n <= buffer_len);
        }
        let part = slice_subrange(self.bytes, self.total, self.total + n);
        let result = slice_to_vec(part);
        self.total = self.total + n;
        proof {
            assert(result@ =~= old(self).remaining().take(n as int));
        }
        Ok(result)
    }

    pub fn read_u8(&mut self) -> (r: Result<u8, ReaderError>)
        requires
            old(self).wf(),
        ensures
            final(self).wf(),
            final(self).data() == old(self).data(),
            old(self).remaining().len() == 0 ==> r == Err::<u8, ReaderError>(
                ReaderError::InvalidSize,
            ) && final(self).pos() == old(self).pos(),
            old(self).remaining().len() > 0 ==> r == Ok::<u8, ReaderError>(
                old(self).remaining()[0],
            ) && final(self).pos() == old(self).pos() + 1,
    {
        if self.size() == 0 {
            return Err(ReaderError::InvalidSize);
        }
        let buffer_len = self.bytes.len();
        proof {
            assert(self.total + 1 <= buffer_len);
        }
        let byte: u8 = *slice_index_get(self.bytes, self.total);
        self.total = self.total + 1;
        Ok(byte)
    }

    pub fn read_bool(&mut self) -> (r: Result<bool, ReaderError>)
        requires
            old(self).wf(),
        ensures
            final(self).wf(),
            final(self).data() == old(self).data(),
            old(self).remaining().len() == 0 ==> r == Err::<bool, ReaderError>(
                ReaderError::InvalidSize,
            ) && final(self).pos() == old(self).pos(),
            old(self).remaining().len() > 0 ==> r == Ok::<bool, ReaderError>(
                old(self).remaining()[0] == 1,
            ) && final(self).pos() == old(self).pos() + 1,
    {
        Ok(self.read_u8()? == 1)
    }

    pub fn read_bytes_32(&mut self) -> (r: Result<Vec<u8>, ReaderError>)
        requires
            old(self).wf(),
        ensures
            final(self).wf(),
            final(self).data() == old(self).data(),
            old(self).remaining().len() < 32 ==> r == Err::<Vec<u8>, ReaderError>(
                ReaderError::InvalidSize,
            ) && final(self).pos() == old(self).pos(),
            old(self).remaining().len() >= 32 ==> final(self).pos() == old(self).pos() + 32 && (
            r matches Ok(v) && v@ == old(self).remaining().take(32)),
    {
        self.read_bytes(32)
    }

    pub fn read_bytes_64(&mut self) -> (r: Result<Vec<u8>, ReaderError>)
        requires
            old(self).wf(),
        ensures
            final(self).wf(),
            final(self).data() == old(self).data(),
            old(self).remaining().len() < 64 ==> r == Err::<Vec<u8>, ReaderError>(
                ReaderError::InvalidSize,
            ) && final(self).pos() == old(self).pos(),
            old(self).remaining().len() >= 64 ==> final(self).pos() == old(self).pos() + 64 && (
            r matches Ok(v) && v@ == old(self).remaining().take(64)),
    {
        self.read_bytes(64)
    }

    pub fn read_hash(&mut self) -> (r: Result<crate::hash::Hash, ReaderError>)
        requires
            old(self).wf(),
        ensures
            final(self).wf(),
            final(self).data() == old(self).data(),
            old(self).remaining().len() < 32 ==> r == Err::<crate::hash::Hash, ReaderError>(
                ReaderError::InvalidSize,
            ) && final(self).pos() == old(self).pos(),
            old(self).remaining().len() >= 32 ==> final(self).pos() == old(self).pos() + 32 && (
            r matches Ok(h) && h.wf() && h@ == old(self).remaining().take(32)),
    {
        Ok(crate::hash::Hash::new(self.read_bytes_32()?))
    }

    /// Reads `width` big-endian bytes as an integer, `width` at most 16.
    fn read_be(&mut self, width: usize) -> (r: Result<u128, ReaderError>)
        requires
            old(self).wf(),
            1 <= width <= 16,
        ensures
            final(self).wf(),
            final(self).data() == old(self).data(),
            width > old(self).remaining().len() ==> r == Err::<u128, ReaderError>(
                ReaderError::InvalidSize,
            ) && final(self).pos() == old(self).pos(),
            width <= old(self).remaining().len() ==> final(self).pos() == old(self).pos() + width && (
            r matches Ok(v) && v as nat == be_value(old(self).remaining().take(width as int))
                && be_bytes(v as nat, width as nat) == old(self).remaining().take(width as int)),
    {
        if width > self.size() {
            return Err(ReaderError::InvalidSize);
        }
        let buffer_len = self.bytes.len();
        proof {
            assert(self.total + width <= buffer_len);
        }
        let part = slice_subrange(self.bytes, self.total, self.total + width);
        let v = be_read(part);
        self.total = self.total + width;
        proof {
            assert(part@ =~= old(self).remaining().take(width as int));
            lemma_be_bytes_of_be_value(part@);
        }
        Ok(v)
    }

    pub fn read_u16(&mut self) -> (r: Result<u16, ReaderError>)
        requires
            old(self).wf(),
        ensures
            final(self).wf(),
            final(self).data() == old(self).data(),
            old(self).remaining().len() < 2 ==> r == Err::<u16, ReaderError>(
                ReaderError::InvalidSize,
            ) && final(self).pos() == old(self).pos(),
            old(self).remaining().len() >= 2 ==> final(self).pos() == old(self).pos() + 2 && (
            r matches Ok(v) && v as nat == be_value(old(self).remaining().take(2)) && be_bytes(
                v as nat,
                2,
            ) == old(self).remaining().take(2)),
    {
        let v = self.read_be(2)?;
        proof {
            lemma_be_value_bound(old(self).remaining().take(2));
            crate::endian::lemma_pow256_vals();
        }
        Ok(v as u16)
    }

    pub fn read_u32(&mut self) -> (r: Result<u32, ReaderError>)
        requires
            old(self).wf(),
        ensures
            final(self).wf(),
            final(self).data() == old(self).data(),
            old(self).remaining().len() < 4 ==> r == Err::<u32, ReaderError>(
                ReaderError::InvalidSize,
            ) && final(self).pos() == old(self).pos(),
            old(self).remaining().len() >= 4 ==> final(self).pos() == old(self).pos() + 4 && (
            r matches Ok(v) && v as nat == be_value(old(self).remaining().take(4)) && be_bytes(
                v as nat,
                4,
            ) == old(self).remaining().take(4)),
    {
        let v = self.read_be(4)?;
        proof {
            lemma_be_value_bound(old(self).remaining().take(4));
            crate::endian::lemma_pow256_vals();
        }
        Ok(v as u32)
    }

    pub fn read_u64(&mut self) -> (r: Result<u64, ReaderError>)
        requires
            old(self).wf(),
        ensures
            final(self).wf(),
            final(self).data() == old(self).data(),
            old(self).remaining().len() < 8 ==> r == Err::<u64, ReaderError>(
                ReaderError::InvalidSize,
            ) && final(self).pos() == old(self).pos(),
            old(self).remaining().len() >= 8 ==> final(self).pos() == old(self).pos() + 8 && (
            r matches Ok(v) && v as nat == be_value(old(self).remaining().take(8)) && be_bytes(
                v as nat,
                8,
            ) == old(self).remaining().take(8)),
    {
        let v = self.read_be(8)?;
        proof {
            lemma_be_value_bound(old(self).remaining().take(8));
            crate::endian::lemma_pow256_vals();
        }
        Ok(v as u64)
    }

    pub fn read_u128(&mut self) -> (r: Result<u128, ReaderError>)
        requires
            old(self).wf(),
        ensures
            final(self).wf(),
            final(self).data() == old(self).data(),
            old(self).remaining().len() < 16 ==> r == Err::<u128, ReaderError>(
                ReaderError::InvalidSize,
            ) && final(self).pos() == old(self).pos(),
            old(self).remaining().len() >= 16 ==> final(self).pos() == old(self).pos() + 16 && (
            r matches Ok(v) && v as nat == be_value(old(self).remaining().take(16)) && be_bytes(
                v as nat,
                16,
            ) == old(self).remaining().take(16)),
    {
        self.read_be(16)
    }

    /// Reads exactly `size` bytes and decodes them as UTF-8. The cursor
    /// advances past the bytes even when they are not valid UTF-8.
    pub fn read_string_with_size(&mut self, size: usize) -> (r: Result<String, ReaderError>)
        requires
            old(self).wf(),
        ensures
            final(self).wf(),
            final(self).data() == old(self).data(),
            size > old(self).remaining().len() ==> r == Err::<String, ReaderError>(
                ReaderError::InvalidSize,
            ) && final(self).pos() == old(self).pos(),
            size <= old(self).remaining().len() ==> final(self).pos() == old(self).pos() + size && (valid_utf8(
                old(self).remaining().take(size as int),
            ) ==> (r matches Ok(s) && s@ == decode_utf8(old(self).remaining().take(size as int))
                && encode_utf8(s@) == old(self).remaining().take(size as int))),
            size <= old(self).remaining().len() && !valid_utf8(
                old(self).remaining().take(size as int),
            ) ==> r == Err::<String, ReaderError>(ReaderError::InvalidValue),
    {
        let bytes = self.read_bytes(size)?;
        proof {
            if valid_utf8(bytes@) {
                decode_utf8_encode_utf8(bytes@);
            }
        }
        string_from_utf8(bytes)
    }

    /// Reads a one-byte length prefix, then that many bytes of UTF-8.
    pub fn read_string(&mut self) -> (r: Result<String, ReaderError>)
        requires
            old(self).wf(),
        ensures
            final(self).wf(),
            final(self).data() == old(self).data(),
            old(self).remaining().len() == 0 ==> r == Err::<String, ReaderError>(
                ReaderError::InvalidSize,
            ) && final(self).pos() == old(self).pos(),
            old(self).remaining().len() > 0 ==> string_read_ensures(
                old(self).remaining(),
                old(self).remaining()[0] as int,
                old(self).pos(),
                final(self).pos(),
                r,
            ),
    {
        let size = self.read_u8()?;
        proof {
            assert(self.remaining() =~= old(self).remaining().skip(1));
            if 1 + size as int <= old(self).remaining().len() {
                assert(old(self).remaining().skip(1).take(size as int) =~= old(
                    self,
                ).remaining().subrange(1, 1 + size as int));
            }
        }
        self.read_string_with_size(size as usize)
    }

    /// Reads a one-byte length prefix; zero means absent, anything else is
    /// the length of the UTF-8 string that follows.
    pub fn read_optional_string(&mut self) -> (r: Result<Option<String>, ReaderError>)
        requires
            old(self).wf(),
        ensures
            final(self).wf(),
            final(self).data() == old(self).data(),
            old(self).remaining().len() == 0 ==> r == Err::<Option<String>, ReaderError>(
                ReaderError::InvalidSize,
            ) && final(self).pos() == old(self).pos(),
            old(self).remaining().len() > 0 && old(self).remaining()[0] == 0 ==> (r matches Ok(o)
                && o is None) && final(self).pos() == old(self).pos() + 1,
            old(self).remaining().len() > 0 && old(self).remaining()[0] != 0
                ==> opt_string_read_ensures(
                old(self).remaining(),
                old(self).remaining()[0] as int,
                old(self).pos(),
                final(self).pos(),
                r,
            ),
    {
        let n = self.read_u8()?;
        if n == 0 {
            return Ok(None);
        }
        proof {
            assert(self.remaining() =~= old(self).remaining().skip(1));
            if 1 + n as int <= old(self).remaining().len() {
                assert(old(self).remaining().skip(1).take(n as int) =~= old(
                    self,
                ).remaining().subrange(1, 1 + n as int));
            }
        }
        Ok(Some(self.read_string_with_size(n as usize)?))
    }

    pub fn total_size(&self) -> (r: usize)
        ensures
            r == self.data().len(),
    {
        self.bytes.len()
    }

    pub fn size(&self) -> (r: usize)
        requires
            self.wf(),
        ensures
            r == self.remaining().len(),
    {
        self.bytes.len() - self.total
    }

    pub fn total_read(&self) -> (r: usize)
        ensures
            r == self.pos(),
    {
        self.total
    }
}

/// What reading a length-prefixed string leaves behind, given the bytes
/// that were remaining, the announced length `n`, and the cursor before and
/// after: too few bytes fail with `InvalidSize` after the length byte,
/// invalid UTF-8 fails with `InvalidValue` after consuming the bytes, and
/// valid UTF-8 is decoded, consuming the length byte and the bytes.
pub open spec fn string_read_ensures(
    rem: Seq<u8>,
    n: int,
    old_pos: int,
    new_pos: int,
    r: Result<String, ReaderError>,
) -> bool {
    let body = rem.subrange(1, 1 + n);
    if 1 + n > rem.len() {
        r == Err::<String, ReaderError>(ReaderError::InvalidSize) && new_pos == old_pos + 1
    } else if !valid_utf8(body) {
        r == Err::<String, ReaderError>(ReaderError::InvalidValue) && new_pos == old_pos + 1 + n
    } else {
        (r matches Ok(s) && s@ == decode_utf8(body) && encode_utf8(s@) == body) && new_pos
            == old_pos + 1 + n
    }
}

/// As `string_read_ensures`, for the present case of an optional string.
pub open spec fn opt_string_read_ensures(
    rem: Seq<u8>,
    n: int,
    old_pos: int,
    new_pos: int,
    r: Result<Option<String>, ReaderError>,
) -> bool {
    let body = rem.subrange(1, 1 + n);
    if 1 + n > rem.len() {
        r == Err::<Option<String>, ReaderError>(ReaderError::InvalidSize) && new_pos == old_pos + 1
    } else if !valid_utf8(body) {
        r == Err::<Option<String>, ReaderError>(ReaderError::InvalidValue) && new_pos == old_pos + 1
            + n
    } else {
        (r matches Ok(o) && o matches Some(s) && s@ == decode_utf8(body) && encode_utf8(s@)
            == body) && new_pos == old_pos + 1 + n
    }
}

/// Relies on String::from_utf8: it succeeds exactly on valid UTF-8 input
/// and yields the string whose characters are the input's UTF-8 decoding.
#[verifier::external_body]
fn string_from_utf8(bytes: Vec<u8>) -> (r: Result<String, ReaderError>)
    ensures
        r matches Ok(s) ==> valid_utf8(bytes@) && s@ == decode_utf8(bytes@),
        r matches Err(e) ==> !valid_utf8(bytes@) && e == ReaderError::InvalidValue,
{
    match String::from_utf8(bytes) {
        Ok(s) => Ok(s),
        Err(_) => Err(ReaderError::InvalidValue),
    }
}

} // verus!
