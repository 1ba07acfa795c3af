//! Tagged wire packets and framing.
//!
//! A packet's payload starts with one tag byte; the rest is the tagged
//! variant's own encoding. On the socket every packet travels inside a
//! frame: a 4-byte big-endian length, counting tag and payload, then the
//! packet bytes. Frames with a zero length or one above `MAX_PACKET_SIZE`
//! are rejected before any payload is read.

use crate::endian::{be_bytes, lemma_be_bytes_len, lemma_pow256_vals};
use crate::error::P2pError;
use crate::handshake::{encode_handshake, handshake_wf, Handshake, HandshakeView};
use crate::object::{ObjectRequest, ObjectRequestView, ObjectResponse, ObjectResponseView};
use crate::reader::{Reader, ReaderError};
use crate::serializer::Serializer;
use crate::writer::Writer;
use vstd::prelude::*;

verus! {

/// One message of the protocol.
#[derive(Clone, Debug, PartialEq, Eq)]
pub enum Packet {
    Handshake(Handshake),
    ObjectRequest(ObjectRequest),
    ObjectResponse(ObjectResponse),
}

/// The mathematical model of a packet.
pub enum PacketView {
    Handshake(HandshakeView),
    ObjectRequest(ObjectRequestView),
    ObjectResponse(ObjectResponseView),
}

impl View for Packet {
    type V = PacketView;

    open spec fn view(&self) -> PacketView {
        match self {
            Packet::Handshake(h) => PacketView::Handshake(h@),
            Packet::ObjectRequest(q) => PacketView::ObjectRequest(q@),
            Packet::ObjectResponse(o) => PacketView::ObjectResponse(o@),
        }
    }
}

/// The packets that may go on the wire.
pub open spec fn packet_wf(m: PacketView) -> bool {
    match m {
        PacketView::Handshake(h) => handshake_wf(h),
        PacketView::ObjectRequest(q) => ObjectRequest::m_wf(q),
        PacketView::ObjectResponse(o) => ObjectResponse::m_wf(o),
    }
}

/// Tag byte, then the variant's own encoding.
pub open spec fn packet_encode(m: PacketView) -> Seq<u8> {
    match m {
        PacketView::Handshake(h) => seq![0u8] + encode_handshake(h),
        PacketView::ObjectRequest(q) => seq![1u8] + ObjectRequest::m_encode(q),
        PacketView::ObjectResponse(o) => seq![2u8] + ObjectResponse::m_encode(o),
    }
}

impl Packet {
    /// Appends the packet's wire encoding: tag byte, then payload.
    pub fn write(&self, writer: &mut Writer)
        requires
            packet_wf(self@),
        ensures
            final(writer)@ == old(writer)@ + packet_encode(self@),
    {
        match self {
            Packet::Handshake(h) => {
                writer.write_u8(0);
                h.write(writer);
                proof {
                    assert(writer@ =~= old(writer)@ + packet_encode(self@));
                }
            },
            Packet::ObjectRequest(q) => {
                writer.write_u8(1);
                q.write(writer);
                proof {
                    assert(writer@ =~= old(writer)@ + packet_encode(self@));
                }
            },
            Packet::ObjectResponse(o) => {
                writer.write_u8(2);
                o.write(writer);
                proof {
                    assert(writer@ =~= old(writer)@ + packet_encode(self@));
                }
            },
        }
    }

    /// The packet's wire bytes.
    pub fn to_bytes(&self) -> (r: Vec<u8>)
        requires
            packet_wf(self@),
        ensures
            r@ == packet_encode(self@),
    {
        let mut writer = Writer::new();
        self.write(&mut writer);
        writer.to_bytes()
    }

    /// Decodes one packet. A buffer that is exactly the encoding of a
    /// well-formed packet decodes to that packet consuming every byte; an
    /// unknown tag is `InvalidPacket`; codec failures of the variant keep
    /// their reader error.
    pub fn read(reader: &mut Reader) -> (r: Result<Packet, P2pError>)
        requires
            old(reader).wf(),
        ensures
            final(reader).wf(),
            final(reader).data() == old(reader).data(),
            old(reader).pos() <= final(reader).pos(),
            r matches Ok(p) ==> packet_wf(p@) && final(reader).pos() - old(reader).pos()
                == packet_encode(p@).len() && old(reader).remaining().take(
                packet_encode(p@).len() as int,
            ) == packet_encode(p@),
            forall|m: PacketView|
                packet_wf(m) && old(reader).remaining() == packet_encode(m) ==> (r matches Ok(p)
                    && p@ == m) && final(reader).pos() == old(reader).pos() + packet_encode(
                    m,
                ).len(),
            old(reader).remaining().len() == 0 ==> r == Err::<Packet, P2pError>(
                P2pError::ReaderError(ReaderError::InvalidSize),
            ),
            old(reader).remaining().len() > 0 && old(reader).remaining()[0] > 2 ==> r == Err::<
                Packet,
                P2pError,
            >(P2pError::InvalidPacket),
    {
        let ghost rem = old(reader).remaining();
        let tag = match reader.read_u8() {
            Ok(t) => t,
            Err(e) => {
                return Err(P2pError::ReaderError(e));
            },
        };
        proof {
            assert(reader.remaining() =~= rem.skip(1));
        }
        match tag {
            0 => {
                match Handshake::read(reader) {
                    Ok(h) => {
                        let p = Packet::Handshake(h);
                        proof {
                            assert(rem.take(packet_encode(p@).len() as int) =~= packet_encode(p@));
                            assert forall|m: PacketView|
                                packet_wf(m) && rem == packet_encode(m) implies m == p@
                                && packet_encode(m).len() == packet_encode(p@).len() by {
                                assert(packet_encode(m)[0] == rem[0]);
                                match m {
                                    PacketView::Handshake(h2) => {
                                        assert(Handshake::m_wf(h2));
                                        assert(Handshake::m_encode(h2) =~= rem.skip(1));
                                    },
                                    _ => {},
                                }
                            }
                        }
                        Ok(p)
                    },
                    Err(e) => {
                        proof {
                            assert forall|m: PacketView|
                                !(packet_wf(m) && rem == packet_encode(m)) by {
                                if packet_wf(m) && rem == packet_encode(m) {
                                    assert(packet_encode(m)[0] == rem[0]);
                                    match m {
                                        PacketView::Handshake(h2) => {
                                            assert(Handshake::m_wf(h2));
                                            assert(Handshake::m_encode(h2) =~= rem.skip(1));
                                        },
                                        _ => {},
                                    }
                                }
                            }
                        }
                        Err(P2pError::ReaderError(e))
                    },
                }
            },
            1 => {
                match ObjectRequest::read(reader) {
                    Ok(q) => {
                        let p = Packet::ObjectRequest(q);
                        proof {
                            assert(rem.take(packet_encode(p@).len() as int) =~= packet_encode(p@));
                            assert forall|m: PacketView|
                                packet_wf(m) && rem == packet_encode(m) implies m == p@
                                && packet_encode(m).len() == packet_encode(p@).len() by {
                                assert(packet_encode(m)[0] == rem[0]);
                                match m {
                                    PacketView::ObjectRequest(q2) => {
                                        assert(ObjectRequest::m_encode(q2) =~= rem.skip(1));
                                    },
                                    _ => {},
                                }
                            }
                        }
                        Ok(p)
                    },
                    Err(e) => {
                        proof {
                            assert forall|m: PacketView|
                                !(packet_wf(m) && rem == packet_encode(m)) by {
                                if packet_wf(m) && rem == packet_encode(m) {
                                    assert(packet_encode(m)[0] == rem[0]);
                                    match m {
                                        PacketView::ObjectRequest(q2) => {
                                            assert(ObjectRequest::m_encode(q2) =~= rem.skip(1));
                                        },
                                        _ => {},
                                    }
                                }
                            }
                        }
                        Err(P2pError::ReaderError(e))
                    },
                }
            },
            2 => {
                match ObjectResponse::read(reader) {
                    Ok(o) => {
                        let p = Packet::ObjectResponse(o);
                        proof {
                            assert(rem.take(packet_encode(p@).len() as int) =~= packet_encode(p@));
                            assert forall|m: PacketView|
                                packet_wf(m) && rem == packet_encode(m) implies m == p@
                                && packet_encode(m).len() == packet_encode(p@).len() by {
                                assert(packet_encode(m)[0] == rem[0]);
                                match m {
                                    PacketView::ObjectResponse(o2) => {
                                        assert(ObjectResponse::m_encode(o2) =~= rem.skip(1));
                                    },
                                    _ => {},
                                }
                            }
                        }
                        Ok(p)
                    },
                    Err(e) => {
                        proof {
                            assert forall|m: PacketView|
                                !(packet_wf(m) && rem == packet_encode(m)) by {
                                if packet_wf(m) && rem == packet_encode(m) {
                                    assert(packet_encode(m)[0] == rem[0]);
                                    match m {
                                        PacketView::ObjectResponse(o2) => {
                                            assert(ObjectResponse::m_encode(o2) =~= rem.skip(1));
                                        },
                                        _ => {},
                                    }
                                }
                            }
                        }
                        Err(P2pError::ReaderError(e))
                    },
                }
            },
            _ => {
                proof {
                    assert forall|m: PacketView| !(packet_wf(m) && rem == packet_encode(m)) by {
                        if packet_wf(m) && rem == packet_encode(m) {
                            assert(packet_encode(m)[0] == rem[0]);
                        }
                    }
                }
                Err(P2pError::InvalidPacket)
            },
        }
    }
}

/// Accepts a frame's announced payload length: it must be non-zero and at
/// most `max_size`.
pub fn check_packet_size(size: u32, max_size: u32) -> (r: Result<(), P2pError>)
    ensures
        r is Ok <==> 1 <= size <= max_size,
        r is Err ==> r == Err::<(), P2pError>(P2pError::InvalidPacketSize),
{
    if size == 0 || size > max_size {
        Err(P2pError::InvalidPacketSize)
    } else {
        Ok(())
    }
}

/// Decodes one whole frame payload: exactly one packet, nothing after it.
pub fn decode_packet(bytes: &[u8]) -> (r: Result<Packet, P2pError>)
    ensures
        forall|m: PacketView|
            packet_wf(m) && bytes@ == packet_encode(m) ==> (r matches Ok(p) && p@ == m),
        r matches Ok(p) ==> packet_wf(p@) && bytes@ == packet_encode(p@),
        bytes@.len() == 0 ==> r == Err::<Packet, P2pError>(
            P2pError::ReaderError(ReaderError::InvalidSize),
        ),
        bytes@.len() > 0 && bytes@[0] > 2 ==> r == Err::<Packet, P2pError>(P2pError::InvalidPacket),
    {
    let mut reader = Reader::new(bytes);
    proof {
        assert(reader.remaining() =~= bytes@);
    }
    let packet = match Packet::read(&mut reader) {
        Ok(p) => p,
        Err(e) => {
            proof {
                assert(forall|m: PacketView| !(packet_wf(m) && bytes@ == packet_encode(m)));
            }
            return Err(e);
        },
    };
    if reader.total_read() != bytes.len() {
        proof {
            assert(forall|m: PacketView| !(packet_wf(m) && bytes@ == packet_encode(m)));
        }
        return Err(P2pError::InvalidPacketNotFullRead);
    }
    proof {
        assert(bytes@.take(bytes@.len() as int) =~= bytes@);
    }
    Ok(packet)
}

/// The frame for one packet: 4-byte big-endian length of the bytes that
/// follow, then tag and payload. The length prefix always equals the byte
/// length of the rest of the frame.
pub fn to_frame_bytes(packet: &Packet) -> (r: Vec<u8>)
    requires
        packet_wf(packet@),
        packet_encode(packet@).len() <= crate::MAX_PACKET_SIZE,
    ensures
        r@ == be_bytes(packet_encode(packet@).len() as nat, 4) + packet_encode(packet@),
        crate::endian::be_value(r@.take(4)) == packet_encode(packet@).len(),
        r@.skip(4) == packet_encode(packet@),
    {
    let body = packet.to_bytes();
    let mut writer = Writer::new();
    writer.write_u32(body.len() as u32);
    writer.write_bytes(body.as_slice());
    let out = writer.to_bytes();
    proof {
        lemma_be_bytes_len(packet_encode(packet@).len() as nat, 4);
        assert(out@.take(4) =~= be_bytes(packet_encode(packet@).len() as nat, 4));
        assert(out@.skip(4) =~= packet_encode(packet@));
        lemma_pow256_vals();
        crate::endian::lemma_be_value_of_be_bytes(packet_encode(packet@).len() as nat, 4);
    }
    out
}

} // verus!
