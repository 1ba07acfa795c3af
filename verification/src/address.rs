//! Socket addresses as the wire sees them.
//!
//! An address is one kind byte (0 for IPv4, 1 for IPv6), the address bytes
//! big-endian, and a two-byte big-endian port. Any other kind byte is
//! rejected. The type holds the address as plain integers so that the whole
//! codec is verified; conversion from and to the operating system's socket
//! address type happens outside the library.

use crate::endian::{
    be_bytes, lemma_be_bytes_len, lemma_be_value_of_be_bytes, lemma_pow256_vals,
};
use crate::reader::{Reader, ReaderError};
use crate::writer::Writer;
use vstd::prelude::*;

verus! {

/// A remote endpoint: IP address (as one big-endian integer) and port.
#[derive(Clone, Copy, Debug, PartialEq, Eq, Structural)]
pub enum PeerAddr {
    V4 { ip: u32, port: u16 },
    V6 { ip: u128, port: u16 },
}

impl View for PeerAddr {
    type V = PeerAddr;

    open spec fn view(&self) -> PeerAddr {
        *self
    }
}

/// The wire encoding of one address: kind byte, address bytes, port.
pub open spec fn encode_addr(a: PeerAddr) -> Seq<u8> {
    match a {
        PeerAddr::V4 { ip, port } => seq![0u8] + be_bytes(ip as nat, 4) + be_bytes(port as nat, 2),
        PeerAddr::V6 { ip, port } => seq![1u8] + be_bytes(ip as nat, 16) + be_bytes(
            port as nat,
            2,
        ),
    }
}

/// The concatenated encodings of a sequence of addresses.
pub open spec fn encode_addrs(s: Seq<PeerAddr>) -> Seq<u8>
    decreases s.len(),
{
    if s.len() == 0 {
        Seq::empty()
    } else {
        encode_addr(s[0]) + encode_addrs(s.skip(1))
    }
}

pub broadcast proof fn lemma_encode_addr_len(a: PeerAddr)
    ensures
        (#[trigger] encode_addr(a)).len() == if a is V4 {
            7int
        } else {
            19int
        },
        encode_addr(a)[0] == if a is V4 {
            0u8
        } else {
            1u8
        },
{
    match a {
        PeerAddr::V4 { ip, port } => {
            lemma_be_bytes_len(ip as nat, 4);
            lemma_be_bytes_len(port as nat, 2);
        },
        PeerAddr::V6 { ip, port } => {
            lemma_be_bytes_len(ip as nat, 16);
            lemma_be_bytes_len(port as nat, 2);
        },
    }
}

pub proof fn lemma_encode_addrs_push(s: Seq<PeerAddr>, a: PeerAddr)
    ensures
        encode_addrs(s.push(a)) == encode_addrs(s) + encode_addr(a),
    decreases s.len(),
{
    reveal_with_fuel(encode_addrs, 3);
    assert(s.push(a)[0] == if s.len() == 0 {
        a
    } else {
        s[0]
    });
    if s.len() == 0 {
        assert(s.push(a).skip(1) =~= Seq::<PeerAddr>::empty());
        assert(encode_addrs(s.push(a)) =~= encode_addrs(s) + encode_addr(a));
    } else {
        assert(s.push(a).skip(1) =~= s.skip(1).push(a));
        lemma_encode_addrs_push(s.skip(1), a);
        assert(encode_addrs(s.push(a)) =~= encode_addrs(s) + encode_addr(a));
    }
}

impl PeerAddr {
    /// Appends the address's wire encoding.
    pub fn write(&self, writer: &mut Writer)
        ensures
            final(writer)@ == old(writer)@ + encode_addr(*self),
    {
        match self {
            PeerAddr::V4 { ip, port } => {
                writer.write_u8(0);
                writer.write_u32(*ip);
                writer.write_u16(*port);
                proof {
                    assert(writer@ =~= old(writer)@ + encode_addr(*self));
                }
            },
            PeerAddr::V6 { ip, port } => {
                writer.write_u8(1);
                writer.write_u128(*ip);
                writer.write_u16(*port);
                proof {
                    assert(writer@ =~= old(writer)@ + encode_addr(*self));
                }
            },
        }
    }

    /// Decodes one address. Any buffer beginning with the encoding of an
    /// address yields exactly that address; a kind byte other than 0 or 1
    /// is `InvalidValue`; missing bytes are `InvalidSize`.
    pub fn read(reader: &mut Reader) -> (r: Result<PeerAddr, ReaderError>)
        requires
            old(reader).wf(),
        ensures
            final(reader).wf(),
            final(reader).data() == old(reader).data(),
            old(reader).pos() <= final(reader).pos(),
            r matches Ok(a) ==> final(reader).pos() - old(reader).pos() == encode_addr(a).len()
                && old(reader).remaining().take(encode_addr(a).len() as int) == encode_addr(a),
            forall|a: PeerAddr|
                encode_addr(a).len() <= old(reader).remaining().len() && old(
                    reader,
                ).remaining().take(encode_addr(a).len() as int) == encode_addr(a) ==> r == Ok::<
                    PeerAddr,
                    ReaderError,
                >(a) && final(reader).pos() == old(reader).pos() + encode_addr(a).len(),
            old(reader).remaining().len() == 0 ==> r == Err::<PeerAddr, ReaderError>(
                ReaderError::InvalidSize,
            ),
            old(reader).remaining().len() > 0 && old(reader).remaining()[0] != 0 && old(
                reader,
            ).remaining()[0] != 1 ==> r == Err::<PeerAddr, ReaderError>(ReaderError::InvalidValue),
            old(reader).remaining().len() > 0 && old(reader).remaining()[0] == 0 && old(
                reader,
            ).remaining().len() < 7 ==> r == Err::<PeerAddr, ReaderError>(ReaderError::InvalidSize),
            old(reader).remaining().len() > 0 && old(reader).remaining()[0] == 1 && old(
                reader,
            ).remaining().len() < 19 ==> r == Err::<PeerAddr, ReaderError>(
                ReaderError::InvalidSize,
            ),
    {
        broadcast use lemma_encode_addr_len;

        let ghost rem = old(reader).remaining();
        let kind = reader.read_u8()?;
        proof {
            assert(reader.remaining() =~= rem.skip(1));
        }
        if kind == 0 {
            let ip = reader.read_u32()?;
            proof {
                assert(reader.remaining() =~= rem.skip(5));
            }
            let port = reader.read_u16()?;
            let a = PeerAddr::V4 { ip, port };
            proof {
                lemma_addr_read_pins(rem, a);
            }
            Ok(a)
        } else if kind == 1 {
            let ip = reader.read_u128()?;
            proof {
                assert(reader.remaining() =~= rem.skip(17));
            }
            let port = reader.read_u16()?;
            let a = PeerAddr::V6 { ip, port };
            proof {
                lemma_addr_read_pins(rem, a);
            }
            Ok(a)
        } else {
            Err(ReaderError::InvalidValue)
        }
    }
}

/// Splices the fields of a decoded address back into one encoding, and pins
/// down the decoded address as the only one whose encoding the buffer
/// starts with.
proof fn lemma_addr_read_pins(rem: Seq<u8>, a: PeerAddr)
    requires
        match a {
            PeerAddr::V4 { ip, port } => rem.len() >= 7 && rem[0] == 0 && rem.skip(1).take(4)
                == be_bytes(ip as nat, 4) && rem.skip(5).take(2) == be_bytes(port as nat, 2),
            PeerAddr::V6 { ip, port } => rem.len() >= 19 && rem[0] == 1 && rem.skip(1).take(16)
                == be_bytes(ip as nat, 16) && rem.skip(17).take(2) == be_bytes(port as nat, 2),
        },
    ensures
        rem.take(encode_addr(a).len() as int) == encode_addr(a),
        forall|b: PeerAddr|
            encode_addr(b).len() <= rem.len() && rem.take(encode_addr(b).len() as int)
                == encode_addr(b) ==> b == a,
{
    lemma_pow256_vals();
    lemma_encode_addr_len(a);
    match a {
        PeerAddr::V4 { ip: a_ip, port: a_port } => {
            lemma_be_bytes_len(a_ip as nat, 4);
            lemma_be_bytes_len(a_port as nat, 2);
            assert(rem.take(7) =~= encode_addr(a));
            assert forall|b: PeerAddr|
                encode_addr(b).len() <= rem.len() && rem.take(encode_addr(b).len() as int)
                    == encode_addr(b) implies b == a by {
                lemma_encode_addr_len(b);
                match b {
                    PeerAddr::V4 { ip, port } => {
                        lemma_be_bytes_len(ip as nat, 4);
                        lemma_be_bytes_len(port as nat, 2);
                        assert(encode_addr(b) == encode_addr(a));
                        assert(be_bytes(ip as nat, 4) =~= encode_addr(b).subrange(1, 5));
                        assert(be_bytes(a_ip as nat, 4) =~= encode_addr(a).subrange(1, 5));
                        assert(be_bytes(port as nat, 2) =~= encode_addr(b).subrange(5, 7));
                        assert(be_bytes(a_port as nat, 2) =~= encode_addr(a).subrange(5, 7));
                        lemma_be_value_of_be_bytes(ip as nat, 4);
                        lemma_be_value_of_be_bytes(a_ip as nat, 4);
                        lemma_be_value_of_be_bytes(port as nat, 2);
                        lemma_be_value_of_be_bytes(a_port as nat, 2);
                    },
                    PeerAddr::V6 { ip, port } => {
                        assert(encode_addr(b)[0] == 1 && rem[0] == 0);
                    },
                }
            }
        },
        PeerAddr::V6 { ip: a_ip, port: a_port } => {
            lemma_be_bytes_len(a_ip as nat, 16);
            lemma_be_bytes_len(a_port as nat, 2);
            assert(rem.take(19) =~= encode_addr(a));
            assert forall|b: PeerAddr|
                encode_addr(b).len() <= rem.len() && rem.take(encode_addr(b).len() as int)
                    == encode_addr(b) implies b == a by {
                lemma_encode_addr_len(b);
                match b {
                    PeerAddr::V4 { ip, port } => {
                        assert(encode_addr(b)[0] == 0 && rem[0] == 1);
                    },
                    PeerAddr::V6 { ip, port } => {
                        lemma_be_bytes_len(ip as nat, 16);
                        lemma_be_bytes_len(port as nat, 2);
                        assert(encode_addr(b) == encode_addr(a));
                        assert(be_bytes(ip as nat, 16) =~= encode_addr(b).subrange(1, 17));
                        assert(be_bytes(a_ip as nat, 16) =~= encode_addr(a).subrange(1, 17));
                        assert(be_bytes(port as nat, 2) =~= encode_addr(b).subrange(17, 19));
                        assert(be_bytes(a_port as nat, 2) =~= encode_addr(a).subrange(17, 19));
                        lemma_be_value_of_be_bytes(ip as nat, 16);
                        lemma_be_value_of_be_bytes(a_ip as nat, 16);
                        lemma_be_value_of_be_bytes(port as nat, 2);
                        lemma_be_value_of_be_bytes(a_port as nat, 2);
                    },
                }
            }
        },
    }
}

/// A byte string is a prefix of another.
pub open spec fn is_prefix_of(p: Seq<u8>, x: Seq<u8>) -> bool {
    p.len() <= x.len() && x.take(p.len() as int) == p
}

/// Two addresses whose encodings begin the same byte string are the same
/// address: the kind byte fixes the variant and the length, so the
/// encodings coincide, and equal encodings carry equal fields.
pub proof fn lemma_addr_prefix_unique(x: Seq<u8>, a: PeerAddr, b: PeerAddr)
    requires
        is_prefix_of(encode_addr(a), x),
        is_prefix_of(encode_addr(b), x),
    ensures
        a == b,
{
    broadcast use lemma_encode_addr_len;

    lemma_pow256_vals();
    assert(encode_addr(a)[0] == x[0]);
    assert(encode_addr(b)[0] == x[0]);
    assert(encode_addr(a) == encode_addr(b)) by {
        assert(encode_addr(a) =~= encode_addr(b));
    }
    match a {
        PeerAddr::V4 { ip: a_ip, port: a_port } => {
            lemma_be_bytes_len(a_ip as nat, 4);
            lemma_be_bytes_len(a_port as nat, 2);
            match b {
                PeerAddr::V4 { ip, port } => {
                    lemma_be_bytes_len(ip as nat, 4);
                    lemma_be_bytes_len(port as nat, 2);
                    assert(be_bytes(ip as nat, 4) =~= encode_addr(b).subrange(1, 5));
                    assert(be_bytes(a_ip as nat, 4) =~= encode_addr(a).subrange(1, 5));
                    assert(be_bytes(port as nat, 2) =~= encode_addr(b).subrange(5, 7));
                    assert(be_bytes(a_port as nat, 2) =~= encode_addr(a).subrange(5, 7));
                    lemma_be_value_of_be_bytes(ip as nat, 4);
                    lemma_be_value_of_be_bytes(a_ip as nat, 4);
                    lemma_be_value_of_be_bytes(port as nat, 2);
                    lemma_be_value_of_be_bytes(a_port as nat, 2);
                },
                PeerAddr::V6 { .. } => {},
            }
        },
        PeerAddr::V6 { ip: a_ip, port: a_port } => {
            lemma_be_bytes_len(a_ip as nat, 16);
            lemma_be_bytes_len(a_port as nat, 2);
            match b {
                PeerAddr::V4 { .. } => {},
                PeerAddr::V6 { ip, port } => {
                    lemma_be_bytes_len(ip as nat, 16);
                    lemma_be_bytes_len(port as nat, 2);
                    assert(be_bytes(ip as nat, 16) =~= encode_addr(b).subrange(1, 17));
                    assert(be_bytes(a_ip as nat, 16) =~= encode_addr(a).subrange(1, 17));
                    assert(be_bytes(port as nat, 2) =~= encode_addr(b).subrange(17, 19));
                    assert(be_bytes(a_port as nat, 2) =~= encode_addr(a).subrange(17, 19));
                    lemma_be_value_of_be_bytes(ip as nat, 16);
                    lemma_be_value_of_be_bytes(a_ip as nat, 16);
                    lemma_be_value_of_be_bytes(port as nat, 2);
                    lemma_be_value_of_be_bytes(a_port as nat, 2);
                },
            }
        },
    }
}

/// The encoding of a list splits at any index into the encodings of the two
/// halves.
pub proof fn lemma_encode_addrs_split(s: Seq<PeerAddr>, i: int)
    requires
        0 <= i <= s.len(),
    ensures
        encode_addrs(s) == encode_addrs(s.take(i)) + encode_addrs(s.skip(i)),
    decreases i,
{
    if i == 0 {
        assert(s.take(0) =~= Seq::<PeerAddr>::empty());
        assert(s.skip(0) =~= s);
        assert(encode_addrs(s) =~= encode_addrs(s.take(0)) + encode_addrs(s.skip(0)));
    } else {
        lemma_encode_addrs_split(s, i - 1);
        lemma_encode_addrs_push(s.take(i - 1), s[i - 1]);
        assert(s.take(i) =~= s.take(i - 1).push(s[i - 1]));
        assert(s.skip(i - 1)[0] == s[i - 1]);
        assert(s.skip(i - 1).skip(1) =~= s.skip(i));
        assert(encode_addrs(s.skip(i - 1)) == encode_addr(s[i - 1]) + encode_addrs(s.skip(i)));
        assert(encode_addrs(s) =~= encode_addrs(s.take(i)) + encode_addrs(s.skip(i)));
    }
}

/// Two equally long lists whose encodings begin the same byte string are
/// the same list.
pub proof fn lemma_addrs_prefix_unique(x: Seq<u8>, s1: Seq<PeerAddr>, s2: Seq<PeerAddr>)
    requires
        s1.len() == s2.len(),
        is_prefix_of(encode_addrs(s1), x),
        is_prefix_of(encode_addrs(s2), x),
    ensures
        s1 == s2,
    decreases s1.len(),
{
    broadcast use lemma_encode_addr_len;

    if s1.len() == 0 {
        assert(s1 =~= s2);
    } else {
        let e1 = encode_addrs(s1);
        let e2 = encode_addrs(s2);
        lemma_encode_addrs_lower_bound(s1);
        lemma_encode_addrs_lower_bound(s2);
        assert(is_prefix_of(encode_addr(s1[0]), x)) by {
            assert(x.take(encode_addr(s1[0]).len() as int) =~= e1.take(encode_addr(
                s1[0],
            ).len() as int));
        }
        assert(is_prefix_of(encode_addr(s2[0]), x)) by {
            assert(x.take(encode_addr(s2[0]).len() as int) =~= e2.take(encode_addr(
                s2[0],
            ).len() as int));
        }
        lemma_addr_prefix_unique(x, s1[0], s2[0]);
        let k = encode_addr(s1[0]).len() as int;
        assert(is_prefix_of(encode_addrs(s1.skip(1)), x.skip(k))) by {
            assert(e1.skip(k) == encode_addrs(s1.skip(1)));
            assert(x.skip(k).take(e1.len() - k) =~= e1.skip(k));
        }
        assert(is_prefix_of(encode_addrs(s2.skip(1)), x.skip(k))) by {
            assert(e2.skip(k) == encode_addrs(s2.skip(1)));
            assert(x.skip(k).take(e2.len() - k) =~= e2.skip(k));
        }
        lemma_addrs_prefix_unique(x.skip(k), s1.skip(1), s2.skip(1));
        assert forall|j: int| 0 <= j < s1.len() implies s1[j] == s2[j] by {
            if j >= 1 {
                assert(s1[j] == s1.skip(1)[j - 1]);
                assert(s2[j] == s2.skip(1)[j - 1]);
            }
        }
        assert(s1 =~= s2);
    }
}

/// A non-empty list's encoding is at least as long as its head's.
pub proof fn lemma_encode_addrs_lower_bound(s: Seq<PeerAddr>)
    requires
        s.len() > 0,
    ensures
        encode_addrs(s).len() >= encode_addr(s[0]).len(),
        encode_addrs(s).take(encode_addr(s[0]).len() as int) == encode_addr(s[0]),
        encode_addrs(s).skip(encode_addr(s[0]).len() as int) == encode_addrs(s.skip(1)),
{
    assert(encode_addrs(s).take(encode_addr(s[0]).len() as int) =~= encode_addr(s[0]));
    assert(encode_addrs(s).skip(encode_addr(s[0]).len() as int) =~= encode_addrs(s.skip(1)));
}

/// Reads exactly `count` addresses in order.
pub fn read_addr_list(reader: &mut Reader, count: usize) -> (r: Result<Vec<PeerAddr>, ReaderError>)
    requires
        old(reader).wf(),
    ensures
        final(reader).wf(),
        final(reader).data() == old(reader).data(),
        old(reader).pos() <= final(reader).pos(),
        r matches Ok(v) ==> v@.len() == count && final(reader).pos() - old(reader).pos()
            == encode_addrs(v@).len() && is_prefix_of(encode_addrs(v@), old(reader).remaining()),
        forall|s: Seq<PeerAddr>|
            s.len() == count && is_prefix_of(encode_addrs(s), old(reader).remaining()) ==> (
            r matches Ok(v) && v@ == s) && final(reader).pos() == old(reader).pos() + encode_addrs(
                s,
            ).len(),
{
    let ghost rem = old(reader).remaining();
    let mut peers: Vec<PeerAddr> = Vec::new();
    let mut i: usize = 0;
    proof {
        assert(rem.take(0) =~= encode_addrs(peers@));
    }
    while i < count
        invariant
            old(reader).wf(),
            reader.wf(),
            reader.data() == old(reader).data(),
            rem == old(reader).remaining(),
            i <= count,
            peers@.len() == i,
            reader.pos() == old(reader).pos() + encode_addrs(peers@).len(),
            is_prefix_of(encode_addrs(peers@), rem),
        decreases count - i,
    {
        let ghost consumed = encode_addrs(peers@).len() as int;
        proof {
            assert(reader.remaining() =~= rem.skip(consumed));
        }
        let a = match PeerAddr::read(reader) {
            Ok(a) => a,
            Err(e) => {
                proof {
                    lemma_no_full_list_on_addr_failure(rem, peers@, i as int);
                }
                return Err(e);
            },
        };
        proof {
            lemma_encode_addrs_push(peers@, a);
            assert(rem.take(consumed + encode_addr(a).len()) =~= encode_addrs(peers@.push(a)));
        }
        peers.push(a);
        i = i + 1;
    }
    proof {
        assert forall|s: Seq<PeerAddr>|
            s.len() == count && is_prefix_of(encode_addrs(s), rem) implies peers@ == s
            && encode_addrs(s).len() == encode_addrs(peers@).len() by {
            lemma_addrs_prefix_unique(rem, peers@, s);
        }
    }
    Ok(peers)
}

/// When an address read fails, no list of the wanted length can have its
/// whole encoding at the start of the buffer: the failed element would have
/// decoded.
proof fn lemma_no_full_list_on_addr_failure(rem: Seq<u8>, done: Seq<PeerAddr>, i: int)
    requires
        is_prefix_of(encode_addrs(done), rem),
        done.len() == i,
        forall|a: PeerAddr|
            !(encode_addr(a).len() <= rem.skip(encode_addrs(done).len() as int).len() && rem.skip(
                encode_addrs(done).len() as int,
            ).take(encode_addr(a).len() as int) == encode_addr(a)),
    ensures
        forall|s: Seq<PeerAddr>| s.len() > i ==> !is_prefix_of(encode_addrs(s), rem),
{
    let c = encode_addrs(done).len() as int;
    assert forall|s: Seq<PeerAddr>| s.len() > i implies !is_prefix_of(encode_addrs(s), rem) by {
        if is_prefix_of(encode_addrs(s), rem) {
            let es = encode_addrs(s);
            lemma_encode_addrs_split(s, i);
            let front = encode_addrs(s.take(i));
            let tail = s.skip(i);
            assert(is_prefix_of(front, rem)) by {
                assert(rem.take(front.len() as int) =~= es.take(front.len() as int));
                assert(es.take(front.len() as int) =~= front);
            }
            lemma_addrs_prefix_unique(rem, done, s.take(i));
            assert(front == encode_addrs(done));
            assert(tail.len() > 0);
            lemma_encode_addrs_lower_bound(tail);
            let a = tail[0];
            assert(encode_addr(a).len() <= rem.skip(c).len() && rem.skip(c).take(encode_addr(
                a,
            ).len() as int) == encode_addr(a)) by {
                assert(front.len() == c);
                assert(es == front + encode_addrs(tail));
                assert(rem.take(es.len() as int) == es);
                assert forall|j: int| 0 <= j < encode_addrs(tail).len() implies rem.skip(c)[j]
                    == encode_addrs(tail)[j] by {
                    assert(rem.skip(c)[j] == rem[c + j]);
                    assert(rem[c + j] == rem.take(es.len() as int)[c + j]);
                    assert(es[c + j] == encode_addrs(tail)[j]);
                }
                assert(rem.skip(c).take(encode_addrs(tail).len() as int) =~= encode_addrs(tail));
                assert(encode_addrs(tail).take(encode_addr(a).len() as int) == encode_addr(a));
                assert(rem.skip(c).take(encode_addr(a).len() as int) =~= encode_addrs(tail).take(
                    encode_addr(a).len() as int,
                ));
            }
        }
    }
}

} // verus!
