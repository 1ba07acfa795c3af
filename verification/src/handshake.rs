//! The first packet on every connection.
//!
//! A handshake announces the daemon version, an optional node tag, the
//! 16-byte network id, the peer's random id, its inbound listen port, its
//! clock, its chain height and top digest, and up to sixteen gossiped peer
//! addresses. Its wire layout is fixed: string fields carry a one-byte
//! length prefix, integers are big-endian, and the peer list is a one-byte
//! count followed by that many encoded addresses.

use crate::address::{
    encode_addrs, is_prefix_of, lemma_addrs_prefix_unique, read_addr_list, PeerAddr,
};
use crate::endian::{be_bytes, lemma_be_bytes_len, lemma_be_value_of_be_bytes, lemma_pow256_vals};
use crate::reader::{Reader, ReaderError};
use crate::serializer::Serializer;
use crate::writer::{encode_opt_str, encode_str, Writer};
use vstd::prelude::*;
use vstd::utf8::{encode_utf8, encode_utf8_decode_utf8, encode_utf8_valid_utf8, valid_utf8};

verus! {

/// Longest allowed version string, node tag (in UTF-8 bytes) and peer list.
pub const HANDSHAKE_MAX_LEN: usize = 16;

/// The mathematical model of a handshake.
pub struct HandshakeView {
    pub version: Seq<char>,
    pub node_tag: Option<Seq<char>>,
    pub network_id: Seq<u8>,
    pub peer_id: u64,
    pub local_port: u16,
    pub utc_time: u64,
    pub block_height: u64,
    pub block_top_hash: Seq<u8>,
    pub peers: Seq<PeerAddr>,
}

/// The handshakes that may go on the wire.
pub open spec fn handshake_wf(m: HandshakeView) -> bool {
    &&& 1 <= encode_utf8(m.version).len() <= HANDSHAKE_MAX_LEN
    &&& (m.node_tag matches Some(t) ==> 1 <= encode_utf8(t).len() <= HANDSHAKE_MAX_LEN)
    &&& m.network_id.len() == 16
    &&& m.block_top_hash.len() == 32
    &&& m.peers.len() <= HANDSHAKE_MAX_LEN
}

/// The wire encoding of a handshake, field by field in declared order.
pub open spec fn encode_handshake(m: HandshakeView) -> Seq<u8> {
    encode_str(m.version) + encode_opt_str(m.node_tag) + m.network_id + be_bytes(
        m.peer_id as nat,
        8,
    ) + be_bytes(m.local_port as nat, 2) + be_bytes(m.utc_time as nat, 8) + be_bytes(
        m.block_height as nat,
        8,
    ) + m.block_top_hash + seq![m.peers.len() as u8] + encode_addrs(m.peers)
}

/// Byte length of the two leading string fields.
pub open spec fn hs_head_len(m: HandshakeView) -> int {
    encode_str(m.version).len() + encode_opt_str(m.node_tag).len() as int
}

/// Where each field of a well-formed handshake sits in its encoding.
proof fn lemma_handshake_shape(m: HandshakeView)
    requires
        handshake_wf(m),
    ensures
        ({
            let e = encode_handshake(m);
            let vn = encode_utf8(m.version).len() as int;
            let b = hs_head_len(m);
            &&& e.len() == b + 75 + encode_addrs(m.peers).len()
            &&& e[0] == vn as u8
            &&& e.subrange(1, 1 + vn) == encode_utf8(m.version)
            &&& valid_utf8(e.subrange(1, 1 + vn))
            &&& b == 2 + vn + (match m.node_tag {
                Option::None => 0int,
                Option::Some(t) => encode_utf8(t).len() as int,
            })
            &&& e[1 + vn] == (match m.node_tag {
                Option::None => 0u8,
                Option::Some(t) => encode_utf8(t).len() as u8,
            })
            &&& (m.node_tag matches Some(t) ==> e.subrange(2 + vn, b) == encode_utf8(t)
                && valid_utf8(e.subrange(2 + vn, b)))
            &&& e.subrange(b, b + 16) == m.network_id
            &&& e.subrange(b + 16, b + 24) == be_bytes(m.peer_id as nat, 8)
            &&& e.subrange(b + 24, b + 26) == be_bytes(m.local_port as nat, 2)
            &&& e.subrange(b + 26, b + 34) == be_bytes(m.utc_time as nat, 8)
            &&& e.subrange(b + 34, b + 42) == be_bytes(m.block_height as nat, 8)
            &&& e.subrange(b + 42, b + 74) == m.block_top_hash
            &&& e[b + 74] == m.peers.len() as u8
            &&& e.skip(b + 75) == encode_addrs(m.peers)
        }),
{
    broadcast use encode_utf8_valid_utf8;

    let e = encode_handshake(m);
    let vn = encode_utf8(m.version).len() as int;
    let b = hs_head_len(m);
    lemma_be_bytes_len(m.peer_id as nat, 8);
    lemma_be_bytes_len(m.local_port as nat, 2);
    lemma_be_bytes_len(m.utc_time as nat, 8);
    lemma_be_bytes_len(m.block_height as nat, 8);
    assert(e.subrange(1, 1 + vn) =~= encode_utf8(m.version));
    match m.node_tag {
        Option::None => {},
        Option::Some(t) => {
            assert(e.subrange(2 + vn, b) =~= encode_utf8(t));
        },
    }
    assert(e.subrange(b, b + 16) =~= m.network_id);
    assert(e.subrange(b + 16, b + 24) =~= be_bytes(m.peer_id as nat, 8));
    assert(e.subrange(b + 24, b + 26) =~= be_bytes(m.local_port as nat, 2));
    assert(e.subrange(b + 26, b + 34) =~= be_bytes(m.utc_time as nat, 8));
    assert(e.subrange(b + 34, b + 42) =~= be_bytes(m.block_height as nat, 8));
    assert(e.subrange(b + 42, b + 74) =~= m.block_top_hash);
    assert(e.skip(b + 75) =~= encode_addrs(m.peers));
}

/// Everything the byte-level reads can observe of a buffer that is exactly
/// the encoding of a well-formed handshake.
proof fn hs_full_walk(rem: Seq<u8>, m: HandshakeView)
    requires
        handshake_wf(m),
        rem == encode_handshake(m),
    ensures
        ({
            let vn = rem[0] as int;
            let tn = rem[1 + vn] as int;
            let b = 2 + vn + tn;
            &&& rem.len() == b + 75 + encode_addrs(m.peers).len()
            &&& vn == encode_utf8(m.version).len()
            &&& 1 <= vn <= 16
            &&& b == hs_head_len(m)
            &&& valid_utf8(rem.subrange(1, 1 + vn))
            &&& rem.subrange(1, 1 + vn) == encode_utf8(m.version)
            &&& tn <= 16
            &&& (tn > 0 ==> valid_utf8(rem.subrange(2 + vn, b)) && m.node_tag == Option::Some(
                vstd::utf8::decode_utf8(rem.subrange(2 + vn, b)),
            ) && rem.subrange(2 + vn, b) == encode_utf8(m.node_tag->Some_0))
            &&& (tn == 0 ==> m.node_tag is None)
            &&& rem[b + 74] as int == m.peers.len()
            &&& m.peers.len() <= 16
            &&& is_prefix_of(encode_addrs(m.peers), rem.skip(b + 75))
            &&& encode_addrs(m.peers).len() == rem.len() - b - 75
        }),
{
    lemma_handshake_shape(m);
    let vn = encode_utf8(m.version).len() as int;
    let b = hs_head_len(m);
    match m.node_tag {
        Option::None => {},
        Option::Some(t) => {
            encode_utf8_decode_utf8(t);
        },
    }
    let tail = rem.skip(b + 75);
    assert(is_prefix_of(encode_addrs(m.peers), tail)) by {
        assert(tail.take(tail.len() as int) =~= tail);
    }
}

/// The ground observations the byte-level reads make of any buffer that is
/// the exact encoding of some well-formed handshake.
spec fn hs_layout(rem: Seq<u8>) -> bool {
    let vn = rem[0] as int;
    let tn = rem[1 + vn] as int;
    let b = 2 + vn + tn;
    &&& rem.len() == b + 75 + (rem.len() - b - 75)
    &&& rem.len() >= b + 75
    &&& 1 <= vn <= 16
    &&& valid_utf8(rem.subrange(1, 1 + vn))
    &&& tn <= 16
    &&& (tn > 0 ==> valid_utf8(rem.subrange(2 + vn, b)))
    &&& rem[b + 74] as int <= 16
    &&& (exists|s: Seq<PeerAddr>|
        s.len() == rem[b + 74] as int && encode_addrs(s) == rem.skip(b + 75))
}

/// If any well-formed handshake has `rem` as its exact encoding, `rem` has
/// the layout above.
proof fn lemma_any_match_layout(rem: Seq<u8>)
    ensures
        (exists|m: HandshakeView| handshake_wf(m) && rem == encode_handshake(m)) ==> hs_layout(
            rem,
        ),
{
    if exists|m: HandshakeView| handshake_wf(m) && rem == encode_handshake(m) {
        let m = choose|m: HandshakeView| handshake_wf(m) && rem == encode_handshake(m);
        hs_full_walk(rem, m);
        let vn = rem[0] as int;
        let tn = rem[1 + vn] as int;
        let b = 2 + vn + tn;
        assert(encode_addrs(m.peers) == rem.skip(b + 75)) by {
            assert(rem.skip(b + 75).take(encode_addrs(m.peers).len() as int) =~= rem.skip(b + 75));
        }
        assert(m.peers.len() == rem[b + 74] as int && encode_addrs(m.peers) == rem.skip(b + 75));
    }
}

/// Two well-formed handshakes whose encodings begin the same byte string
/// are the same handshake: the wire format is prefix-free.
pub proof fn lemma_handshake_prefix_unique(x: Seq<u8>, m1: HandshakeView, m2: HandshakeView)
    requires
        handshake_wf(m1),
        handshake_wf(m2),
        is_prefix_of(encode_handshake(m1), x),
        is_prefix_of(encode_handshake(m2), x),
    ensures
        m1 == m2,
        encode_handshake(m1) == encode_handshake(m2),
{
    lemma_handshake_shape(m1);
    lemma_handshake_shape(m2);
    let e1 = encode_handshake(m1);
    let e2 = encode_handshake(m2);
    let vn = encode_utf8(m1.version).len() as int;
    assert(e1[0] == x[0] && e2[0] == x[0]);
    assert(encode_utf8(m2.version).len() as int == vn);
    let b1 = hs_head_len(m1);
    assert(encode_utf8(m1.version) == encode_utf8(m2.version)) by {
        assert(encode_utf8(m1.version) =~= x.subrange(1, 1 + vn));
        assert(encode_utf8(m2.version) =~= x.subrange(1, 1 + vn));
    }
    assert(m1.version == m2.version) by {
        encode_utf8_decode_utf8(m1.version);
        encode_utf8_decode_utf8(m2.version);
    }
    assert(e1[1 + vn] == x[1 + vn] && e2[1 + vn] == x[1 + vn]);
    assert(hs_head_len(m2) == b1);
    let b = b1;
    assert(m1.node_tag is Some <==> m2.node_tag is Some);
    if m1.node_tag is Some {
        let t1 = m1.node_tag->Some_0;
        let t2 = m2.node_tag->Some_0;
        assert(encode_utf8(t1) == encode_utf8(t2)) by {
            assert(encode_utf8(t1) =~= x.subrange(2 + vn, b));
            assert(encode_utf8(t2) =~= x.subrange(2 + vn, b));
        }
        assert(t1 == t2) by {
            encode_utf8_decode_utf8(t1);
            encode_utf8_decode_utf8(t2);
        }
    }
    assert(m1.network_id == m2.network_id) by {
        assert(m1.network_id =~= x.subrange(b, b + 16));
        assert(m2.network_id =~= x.subrange(b, b + 16));
    }
    lemma_pow256_vals();
    assert(be_bytes(m1.peer_id as nat, 8) == be_bytes(m2.peer_id as nat, 8)) by {
        assert(be_bytes(m1.peer_id as nat, 8) =~= x.subrange(b + 16, b + 24));
        assert(be_bytes(m2.peer_id as nat, 8) =~= x.subrange(b + 16, b + 24));
    }
    assert(m1.peer_id == m2.peer_id) by {
        lemma_be_value_of_be_bytes(m1.peer_id as nat, 8);
        lemma_be_value_of_be_bytes(m2.peer_id as nat, 8);
    }
    assert(be_bytes(m1.local_port as nat, 2) == be_bytes(m2.local_port as nat, 2)) by {
        assert(be_bytes(m1.local_port as nat, 2) =~= x.subrange(b + 24, b + 26));
        assert(be_bytes(m2.local_port as nat, 2) =~= x.subrange(b + 24, b + 26));
    }
    assert(m1.local_port == m2.local_port) by {
        lemma_be_value_of_be_bytes(m1.local_port as nat, 2);
        lemma_be_value_of_be_bytes(m2.local_port as nat, 2);
    }
    assert(be_bytes(m1.utc_time as nat, 8) == be_bytes(m2.utc_time as nat, 8)) by {
        assert(be_bytes(m1.utc_time as nat, 8) =~= x.subrange(b + 26, b + 34));
        assert(be_bytes(m2.utc_time as nat, 8) =~= x.subrange(b + 26, b + 34));
    }
    assert(m1.utc_time == m2.utc_time) by {
        lemma_be_value_of_be_bytes(m1.utc_time as nat, 8);
        lemma_be_value_of_be_bytes(m2.utc_time as nat, 8);
    }
    assert(be_bytes(m1.block_height as nat, 8) == be_bytes(m2.block_height as nat, 8)) by {
        assert(be_bytes(m1.block_height as nat, 8) =~= x.subrange(b + 34, b + 42));
        assert(be_bytes(m2.block_height as nat, 8) =~= x.subrange(b + 34, b + 42));
    }
    assert(m1.block_height == m2.block_height) by {
        lemma_be_value_of_be_bytes(m1.block_height as nat, 8);
        lemma_be_value_of_be_bytes(m2.block_height as nat, 8);
    }
    assert(m1.block_top_hash == m2.block_top_hash) by {
        assert(m1.block_top_hash =~= x.subrange(b + 42, b + 74));
        assert(m2.block_top_hash =~= x.subrange(b + 42, b + 74));
    }
    assert(m1.peers.len() == m2.peers.len()) by {
        assert(e1[b + 74] == x[b + 74] && e2[b + 74] == x[b + 74]);
    }
    assert(m1.peers == m2.peers) by {
        let y = x.skip(b + 75);
        assert(is_prefix_of(encode_addrs(m1.peers), y)) by {
            assert(y.take(encode_addrs(m1.peers).len() as int) =~= e1.skip(b + 75));
        }
        assert(is_prefix_of(encode_addrs(m2.peers), y)) by {
            assert(y.take(encode_addrs(m2.peers).len() as int) =~= e2.skip(b + 75));
        }
        lemma_addrs_prefix_unique(y, m1.peers, m2.peers);
    }
    assert(m1 == m2);
}

/// The first packet sent on a new connection.
#[derive(Clone, Debug, PartialEq, Eq)]
pub struct Handshake {
    version: String,
    node_tag: Option<String>,
    network_id: Vec<u8>,
    peer_id: u64,
    local_port: u16,
    utc_time: u64,
    block_height: u64,
    block_top_hash: crate::hash::Hash,
    peers: Vec<PeerAddr>,
}

impl View for Handshake {
    type V = HandshakeView;

    closed spec fn view(&self) -> HandshakeView {
        HandshakeView {
            version: self.version@,
            node_tag: match self.node_tag {
                Option::None => Option::None,
                Option::Some(ref t) => Option::Some(t@),
            },
            network_id: self.network_id@,
            peer_id: self.peer_id,
            local_port: self.local_port,
            utc_time: self.utc_time,
            block_height: self.block_height,
            block_top_hash: self.block_top_hash@,
            peers: self.peers@,
        }
    }
}

impl Handshake {
    /// Builds a handshake from its fields. The caller vouches for the
    /// length bounds; adversarial input never reaches this constructor,
    /// since decoding checks them first.
    pub fn new(
        version: String,
        node_tag: Option<String>,
        network_id: Vec<u8>,
        peer_id: u64,
        local_port: u16,
        utc_time: u64,
        block_height: u64,
        block_top_hash: crate::hash::Hash,
        peers: Vec<PeerAddr>,
    ) -> (r: Self)
        requires
            1 <= encode_utf8(version@).len() <= HANDSHAKE_MAX_LEN,
            node_tag matches Some(t) ==> 1 <= encode_utf8(t@).len() <= HANDSHAKE_MAX_LEN,
            network_id@.len() == 16,
            block_top_hash.wf(),
            peers@.len() <= HANDSHAKE_MAX_LEN,
        ensures
            handshake_wf(r@),
            r@ == (HandshakeView {
                version: version@,
                node_tag: match node_tag {
                    Option::None => Option::None,
                    Option::Some(ref t) => Option::Some(t@),
                },
                network_id: network_id@,
                peer_id: peer_id,
                local_port: local_port,
                utc_time: utc_time,
                block_height: block_height,
                block_top_hash: block_top_hash@,
                peers: peers@,
            }),
    {
        Handshake {
            version,
            node_tag,
            network_id,
            peer_id,
            local_port,
            utc_time,
            block_height,
            block_top_hash,
            peers,
        }
    }

    pub fn get_version(&self) -> (r: &String)
        ensures
            r@ == self@.version,
    {
        &self.version
    }

    pub fn get_node_tag(&self) -> (r: &Option<String>)
        ensures
            r matches Some(t) <==> self@.node_tag is Some,
            r matches Some(t) ==> self@.node_tag == Option::Some(t@),
    {
        &self.node_tag
    }

    pub fn get_network_id(&self) -> (r: &Vec<u8>)
        ensures
            r@ == self@.network_id,
    {
        &self.network_id
    }

    pub fn get_peer_id(&self) -> (r: u64)
        ensures
            r == self@.peer_id,
    {
        self.peer_id
    }

    pub fn get_local_port(&self) -> (r: u16)
        ensures
            r == self@.local_port,
    {
        self.local_port
    }

    pub fn get_utc_time(&self) -> (r: u64)
        ensures
            r == self@.utc_time,
    {
        self.utc_time
    }

    pub fn get_block_height(&self) -> (r: u64)
        ensures
            r == self@.block_height,
    {
        self.block_height
    }

    pub fn get_block_top_hash(&self) -> (r: &crate::hash::Hash)
        ensures
            r@ == self@.block_top_hash,
    {
        &self.block_top_hash
    }

    pub fn get_peers(&self) -> (r: &Vec<PeerAddr>)
        ensures
            r@ == self@.peers,
    {
        &self.peers
    }
}

impl Serializer for Handshake {
    open spec fn m_wf(m: HandshakeView) -> bool {
        handshake_wf(m)
    }

    open spec fn m_encode(m: HandshakeView) -> Seq<u8> {
        encode_handshake(m)
    }

    fn write(&self, writer: &mut Writer) {
        writer.write_string(self.version.as_str());
        writer.write_optional_string(&self.node_tag);
        writer.write_bytes(self.network_id.as_slice());
        writer.write_u64(self.peer_id);
        writer.write_u16(self.local_port);
        writer.write_u64(self.utc_time);
        writer.write_u64(self.block_height);
        writer.write_hash(&self.block_top_hash);
        let count = self.peers.len();
        writer.write_u8(count as u8);
        let ghost before_addrs = writer@;
        let mut i: usize = 0;
        proof {
            assert(writer@ =~= before_addrs + encode_addrs(self.peers@.take(0)));
        }
        while i < count
            invariant
                i <= count,
                count == self.peers@.len(),
                writer@ == before_addrs + encode_addrs(self.peers@.take(i as int)),
            decreases count - i,
        {
            let a = self.peers[i];
            a.write(writer);
            proof {
                crate::address::lemma_encode_addrs_push(self.peers@.take(i as int), a);
                assert(self.peers@.take(i + 1) =~= self.peers@.take(i as int).push(a));
                assert(writer@ =~= before_addrs + encode_addrs(self.peers@.take(i + 1)));
            }
            i = i + 1;
        }
        proof {
            assert(self.peers@.take(count as int) =~= self.peers@);
            assert(writer@ =~= old(writer)@ + encode_handshake(self@));
        }
    }

    fn read(reader: &mut Reader) -> (r: Result<Self, ReaderError>) {
        let ghost rem = old(reader).remaining();
        let ghost pos0 = old(reader).pos();
        match Handshake::read_fields(reader) {
            Ok(v) => {
                proof {
                    let consumed = reader.pos() - pos0;
                    assert forall|m: HandshakeView|
                        handshake_wf(m) && rem == encode_handshake(m) implies m == v@
                        && encode_handshake(m).len() == consumed by {
                        assert(is_prefix_of(encode_handshake(m), rem)) by {
                            assert(rem.take(rem.len() as int) =~= rem);
                        }
                        assert(is_prefix_of(encode_handshake(v@), rem));
                        lemma_handshake_prefix_unique(rem, m, v@);
                    }
                }
                Ok(v)
            },
            Err(e) => {
                proof {
                    lemma_any_match_layout(rem);
                    assert(forall|m: HandshakeView|
                        !(handshake_wf(m) && rem == encode_handshake(m)));
                }
                Err(e)
            },
        }
    }

}

impl Handshake {
    /// Reads the handshake's fields in wire order. On failure the buffer
    /// provably lacked the layout of any well-formed handshake encoding;
    /// on success the consumed prefix is exactly the result's encoding.
    #[verifier::rlimit(100)]
    #[verifier::spinoff_prover]
    fn read_fields(reader: &mut Reader) -> (r: Result<Handshake, ReaderError>)
        requires
            old(reader).wf(),
        ensures
            final(reader).wf(),
            final(reader).data() == old(reader).data(),
            old(reader).pos() <= final(reader).pos(),
            r is Err ==> !hs_layout(old(reader).remaining()),
            r matches Ok(v) ==> handshake_wf(v@) && encode_handshake(v@).len()
                == final(reader).pos() - old(reader).pos() && old(reader).remaining().take(
                final(reader).pos() - old(reader).pos(),
            ) == encode_handshake(v@) && is_prefix_of(
                encode_handshake(v@),
                old(reader).remaining(),
            ),
    {
        let ghost rem = old(reader).remaining();
        let ghost pos0 = old(reader).pos();

        let version = match reader.read_string() {
            Ok(v) => v,
            Err(e) => {
                return Err(e);
            },
        };
        if version.as_str().len() == 0 || version.as_str().len() > HANDSHAKE_MAX_LEN {
            return Err(ReaderError::InvalidSize);
        }
        let ghost p1 = reader.pos();
        proof {
            assert(reader.remaining() =~= rem.skip(p1 - pos0));
        }

        let node_tag = match reader.read_optional_string() {
            Ok(v) => v,
            Err(e) => {
                proof {
                    if hs_layout(rem) {
                        assert(rem.skip(p1 - pos0)[0] == rem[p1 - pos0]);
                        assert(rem.skip(p1 - pos0).subrange(1, 1 + rem[p1 - pos0] as int)
                            =~= rem.subrange(p1 - pos0 + 1, p1 - pos0 + 1 + rem[p1 - pos0] as int));
                        assert(false);
                    }
                }
                return Err(e);
            },
        };
        if let Some(tag) = &node_tag {
            if tag.as_str().len() > HANDSHAKE_MAX_LEN {
                proof {
                    if hs_layout(rem) {
                        assert(rem.skip(p1 - pos0)[0] == rem[p1 - pos0]);
                        assert(rem.skip(p1 - pos0).subrange(1, 1 + rem[p1 - pos0] as int)
                            =~= rem.subrange(p1 - pos0 + 1, p1 - pos0 + 1 + rem[p1 - pos0] as int));
                        assert(false);
                    }
                }
                return Err(ReaderError::InvalidSize);
            }
        }
        let ghost p2 = reader.pos();
        proof {
            assert(rem.skip(p1 - pos0)[0] == rem[p1 - pos0]);
            assert(reader.remaining() =~= rem.skip(p2 - pos0));
        }

        let network_id = match reader.read_bytes(16) {
            Ok(v) => v,
            Err(e) => {
                return Err(e);
            },
        };
        proof {
            assert(reader.remaining() =~= rem.skip(p2 - pos0 + 16));
        }
        let peer_id = match reader.read_u64() {
            Ok(v) => v,
            Err(e) => {
                return Err(e);
            },
        };
        proof {
            assert(reader.remaining() =~= rem.skip(p2 - pos0 + 24));
        }
        let local_port = match reader.read_u16() {
            Ok(v) => v,
            Err(e) => {
                return Err(e);
            },
        };
        proof {
            assert(reader.remaining() =~= rem.skip(p2 - pos0 + 26));
        }
        let utc_time = match reader.read_u64() {
            Ok(v) => v,
            Err(e) => {
                return Err(e);
            },
        };
        proof {
            assert(reader.remaining() =~= rem.skip(p2 - pos0 + 34));
        }
        let block_height = match reader.read_u64() {
            Ok(v) => v,
            Err(e) => {
                return Err(e);
            },
        };
        proof {
            assert(reader.remaining() =~= rem.skip(p2 - pos0 + 42));
        }
        let block_top_hash = match reader.read_hash() {
            Ok(v) => v,
            Err(e) => {
                return Err(e);
            },
        };
        proof {
            assert(reader.remaining() =~= rem.skip(p2 - pos0 + 74));
        }
        let peers_len = match reader.read_u8() {
            Ok(v) => v,
            Err(e) => {
                return Err(e);
            },
        };
        proof {
            assert(rem.skip(p2 - pos0 + 74)[0] == rem[p2 - pos0 + 74]);
        }
        if peers_len as usize > HANDSHAKE_MAX_LEN {
            return Err(ReaderError::InvalidSize);
        }
        let ghost p3 = reader.pos();
        proof {
            assert(reader.remaining() =~= rem.skip(p3 - pos0));
        }
        let peers = match read_addr_list(reader, peers_len as usize) {
            Ok(v) => v,
            Err(e) => {
                proof {
                    if hs_layout(rem) {
                        let vn = rem[0] as int;
                        let tn = rem[1 + vn] as int;
                        let b = 2 + vn + tn;
                        let s = choose|s: Seq<PeerAddr>|
                            s.len() == rem[b + 74] as int && encode_addrs(s) == rem.skip(b + 75);
                        assert(is_prefix_of(encode_addrs(s), rem.skip(p3 - pos0))) by {
                            assert(rem.skip(b + 75).take(encode_addrs(s).len() as int) =~= rem.skip(
                                b + 75,
                            ));
                        }
                        assert(false);
                    }
                }
                return Err(e);
            },
        };

        let v = Handshake {
            version,
            node_tag,
            network_id,
            peer_id,
            local_port,
            utc_time,
            block_height,
            block_top_hash,
            peers,
        };
        proof {
            let consumed = reader.pos() - pos0;
            let vn = encode_utf8(v@.version).len() as int;
            let b = hs_head_len(v@);
            assert(p1 - pos0 == 1 + vn);
            assert(p2 - pos0 == b) by {
                match v@.node_tag {
                    Option::None => {},
                    Option::Some(t) => {
                        assert(rem.skip(1 + vn).subrange(1, 1 + (p2 - p1 - 1)) =~= rem.subrange(
                            2 + vn,
                            p2 - pos0,
                        ));
                    },
                }
            }
            assert(rem.subrange(1, 1 + vn) == encode_utf8(v@.version));
            assert(rem[1 + vn] == (match v@.node_tag {
                Option::None => 0u8,
                Option::Some(t) => encode_utf8(t).len() as u8,
            })) by {
                assert(rem[1 + vn] == rem.skip(1 + vn)[0]);
            }
            if v@.node_tag is Some {
                assert(rem.subrange(2 + vn, b) == encode_utf8(v@.node_tag->Some_0)) by {
                    assert(rem.subrange(2 + vn, b) =~= rem.skip(1 + vn).subrange(1, b - vn - 1));
                }
            }
            assert(rem.subrange(b, b + 16) =~= rem.skip(b).take(16));
            assert(rem.subrange(b + 16, b + 24) =~= rem.skip(b + 16).take(8));
            assert(rem.subrange(b + 24, b + 26) =~= rem.skip(b + 24).take(2));
            assert(rem.subrange(b + 26, b + 34) =~= rem.skip(b + 26).take(8));
            assert(rem.subrange(b + 34, b + 42) =~= rem.skip(b + 34).take(8));
            assert(rem.subrange(b + 42, b + 74) =~= rem.skip(b + 42).take(32));
            assert(rem[b + 74] == rem.skip(b + 74)[0]);
            assert(rem.subrange(b + 75, consumed) == encode_addrs(v@.peers)) by {
                assert(rem.subrange(b + 75, consumed) =~= rem.skip(b + 75).take(
                    encode_addrs(v@.peers).len() as int,
                ));
            }
            lemma_handshake_assemble(rem, v@, consumed);
            assert(is_prefix_of(encode_handshake(v@), rem)) by {
                assert(rem.take(consumed) == encode_handshake(v@));
            }
        }
        Ok(v)
    }
}

/// When every field of `got` was cut from the right place in `rem`, the
/// prefix of `rem` up to `consumed` is `got`'s encoding.
proof fn lemma_handshake_assemble(rem: Seq<u8>, got: HandshakeView, consumed: int)
    requires
        handshake_wf(got),
        ({
            let vn = encode_utf8(got.version).len() as int;
            let b = hs_head_len(got);
            &&& consumed == b + 75 + encode_addrs(got.peers).len()
            &&& rem.len() >= consumed
            &&& rem[0] == vn as u8
            &&& rem.subrange(1, 1 + vn) == encode_utf8(got.version)
            &&& rem[1 + vn] == (match got.node_tag {
                Option::None => 0u8,
                Option::Some(t) => encode_utf8(t).len() as u8,
            })
            &&& (got.node_tag matches Some(t) ==> rem.subrange(2 + vn, b) == encode_utf8(t))
            &&& rem.subrange(b, b + 16) == got.network_id
            &&& rem.subrange(b + 16, b + 24) == be_bytes(got.peer_id as nat, 8)
            &&& rem.subrange(b + 24, b + 26) == be_bytes(got.local_port as nat, 2)
            &&& rem.subrange(b + 26, b + 34) == be_bytes(got.utc_time as nat, 8)
            &&& rem.subrange(b + 34, b + 42) == be_bytes(got.block_height as nat, 8)
            &&& rem.subrange(b + 42, b + 74) == got.block_top_hash
            &&& rem[b + 74] == got.peers.len() as u8
            &&& rem.subrange(b + 75, consumed) == encode_addrs(got.peers)
        }),
    ensures
        rem.take(consumed) == encode_handshake(got),
        encode_handshake(got).len() == consumed,
{
    lemma_handshake_shape(got);
    let e = encode_handshake(got);
    let vn = encode_utf8(got.version).len() as int;
    let b = hs_head_len(got);
    assert forall|j: int| 0 <= j < consumed implies rem[j] == e[j] by {
        if j == 0 {
        } else if j < 1 + vn {
            assert(rem[j] == rem.subrange(1, 1 + vn)[j - 1]);
            assert(e[j] == e.subrange(1, 1 + vn)[j - 1]);
        } else if j == 1 + vn {
        } else if j < b {
            assert(rem[j] == rem.subrange(2 + vn, b)[j - 2 - vn]);
            assert(e[j] == e.subrange(2 + vn, b)[j - 2 - vn]);
        } else if j < b + 16 {
            assert(rem[j] == rem.subrange(b, b + 16)[j - b]);
            assert(e[j] == e.subrange(b, b + 16)[j - b]);
        } else if j < b + 24 {
            assert(rem[j] == rem.subrange(b + 16, b + 24)[j - b - 16]);
            assert(e[j] == e.subrange(b + 16, b + 24)[j - b - 16]);
        } else if j < b + 26 {
            assert(rem[j] == rem.subrange(b + 24, b + 26)[j - b - 24]);
            assert(e[j] == e.subrange(b + 24, b + 26)[j - b - 24]);
        } else if j < b + 34 {
            assert(rem[j] == rem.subrange(b + 26, b + 34)[j - b - 26]);
            assert(e[j] == e.subrange(b + 26, b + 34)[j - b - 26]);
        } else if j < b + 42 {
            assert(rem[j] == rem.subrange(b + 34, b + 42)[j - b - 34]);
            assert(e[j] == e.subrange(b + 34, b + 42)[j - b - 34]);
        } else if j < b + 74 {
            assert(rem[j] == rem.subrange(b + 42, b + 74)[j - b - 42]);
            assert(e[j] == e.subrange(b + 42, b + 74)[j - b - 42]);
        } else if j == b + 74 {
        } else {
            assert(rem[j] == rem.subrange(b + 75, consumed)[j - b - 75]);
            assert(e[j] == e.skip(b + 75)[j - b - 75]);
        }
    }
    assert(rem.take(consumed) =~= e);
}

} // verus!
