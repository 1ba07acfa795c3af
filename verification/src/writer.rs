//! Append-only byte buffer with the wire format's primitives.
//!
//! The `Writer` is the mirror of `Reader`: big-endian integers, raw bytes,
//! one-byte-length-prefixed strings. Every method states exactly which
//! bytes it appends.

use crate::endian::{be_bytes, be_write};
use vstd::prelude::*;

verus! {

/// Length-prefixed encoding of a string: one length byte, then the UTF-8
/// bytes. Meaningful only for strings of at most 255 UTF-8 bytes.
pub open spec fn encode_str(s: Seq<char>) -> Seq<u8> {
    seq![vstd::utf8::encode_utf8(s).len() as u8] + vstd::utf8::encode_utf8(s)
}

/// Encoding of an optional string: a single zero byte when absent, the
/// string's length-prefixed encoding when present.
pub open spec fn encode_opt_str(s: Option<Seq<char>>) -> Seq<u8> {
    match s {
        Option::None => seq![0u8],
        Option::Some(t) => encode_str(t),
    }
}

/// Append-only byte buffer; its view is the bytes written so far.
pub struct Writer {
    bytes: Vec<u8>,
}

impl View for Writer {
    type V = Seq<u8>;

    closed spec fn view(&self) -> Seq<u8> {
        self.bytes@
    }
}

impl Writer {
    pub fn new() -> (r: Self)
        ensures
            r@ == Seq::<u8>::empty(),
    {
        Writer { bytes: Vec::new() }
    }

    pub fn write_u8(&mut self, v: u8)
        ensures
            final(self)@ == old(self)@ + seq![v],
    {
        self.bytes.push(v);
        proof {
            assert(self@ =~= old(self)@ + seq![v]);
        }
    }

    pub fn write_bool(&mut self, v: bool)
        ensures
            final(self)@ == old(self)@ + seq![if v { 1u8 } else { 0u8 }],
    {
        self.write_u8(if v { 1 } else { 0 });
    }

    pub fn write_u16(&mut self, v: u16)
        ensures
            final(self)@ == old(self)@ + be_bytes(v as nat, 2),
    {
        be_write(&mut self.bytes, v as u128, 2);
    }

    pub fn write_u32(&mut self, v: u32)
        ensures
            final(self)@ == old(self)@ + be_bytes(v as nat, 4),
    {
        be_write(&mut self.bytes, v as u128, 4);
    }

    pub fn write_u64(&mut self, v: u64)
        ensures
            final(self)@ == old(self)@ + be_bytes(v as nat, 8),
    {
        be_write(&mut self.bytes, v as u128, 8);
    }

    pub fn write_u128(&mut self, v: u128)
        ensures
            final(self)@ == old(self)@ + be_bytes(v as nat, 16),
    {
        be_write(&mut self.bytes, v, 16);
    }

    pub fn write_bytes(&mut self, b: &[u8])
        ensures
            final(self)@ == old(self)@ + b@,
    {
        let n = b.len();
        let mut i: usize = 0;
        proof {
            assert(self@ =~= old(self)@ + b@.take(0));
        }
        while i < n
            invariant
                i <= n,
                n == b@.len(),
                self@ == old(self)@ + b@.take(i as int),
            decreases n - i,
        {
            self.bytes.push(b[i]);
            i = i + 1;
            proof {
                assert(self@ =~= old(self)@ + b@.take(i as int));
            }
        }
        proof {
            assert(old(self)@ + b@.take(n as int) =~= old(self)@ + b@);
        }
    }

    /// One length byte, then the string's UTF-8 bytes.
    pub fn write_string(&mut self, s: &str)
        requires
            vstd::utf8::encode_utf8(s@).len() <= 255,
        ensures
            final(self)@ == old(self)@ + encode_str(s@),
    {
        let b = s.as_bytes();
        self.write_u8(b.len() as u8);
        self.write_bytes(b);
        proof {
            assert(self@ =~= old(self)@ + encode_str(s@));
        }
    }

    /// A zero byte for `None`, the length-prefixed string for `Some`.
    pub fn write_optional_string(&mut self, s: &Option<String>)
        requires
            s matches Some(t) ==> 1 <= vstd::utf8::encode_utf8(t@).len() <= 255,
        ensures
            final(self)@ == old(self)@ + encode_opt_str(match *s {
                Option::None => Option::None,
                Option::Some(ref t) => Option::Some(t@),
            }),
    {
        match s {
            Option::None => {
                self.write_u8(0);
                proof {
                    assert(self@ =~= old(self)@ + seq![0u8]);
                }
            },
            Option::Some(t) => {
                self.write_string(t.as_str());
            },
        }
    }

    /// The digest's 32 raw bytes.
    pub fn write_hash(&mut self, h: &crate::hash::Hash)
        requires
            h.wf(),
        ensures
            final(self)@ == old(self)@ + h@,
    {
        self.write_bytes(h.as_bytes());
    }

    pub fn total_write(&self) -> (r: usize)
        ensures
            r == self@.len(),
    {
        self.bytes.len()
    }

    pub fn bytes(&self) -> (r: &[u8])
        ensures
            r@ == self@,
    {
        self.bytes.as_slice()
    }

    pub fn to_bytes(self) -> (r: Vec<u8>)
        ensures
            r@ == self@,
    {
        self.bytes
    }
}

} // verus!
