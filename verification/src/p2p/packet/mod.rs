pub mod ping;

use crate::config::PEER_MAX_PACKET_SIZE;
use crate::crypto;
use crate::p2p::error::P2pError;
use crate::p2p::packet::ping::{Ping, PingView};
use crate::serializer::bytes::{
    be_bytes, be_value, lemma_be_bytes_len, lemma_be_value_of_bytes, lemma_pow256_values,
};
use crate::serializer::reader::Reader;
use crate::serializer::writer::Writer;
use crate::serializer::{ReaderError, Serializer};
use vstd::prelude::*;

verus! {

/// The tag of a handshake.
pub const HANDSHAKE_ID: u8 = 0;

/// The tag of a transaction propagation.
pub const TX_PROPAGATION_ID: u8 = 1;

/// The tag of a block propagation.
pub const BLOCK_PROPAGATION_ID: u8 = 2;

/// The tag of a chain request.
pub const CHAIN_REQUEST_ID: u8 = 3;

/// The tag of a chain response.
pub const CHAIN_RESPONSE_ID: u8 = 4;

/// The tag of a ping.
pub const PING_ID: u8 = 5;

/// The tag of an object request.
pub const OBJECT_REQUEST_ID: u8 = 6;

/// The tag of an object response.
pub const OBJECT_RESPONSE_ID: u8 = 7;

/// The tag of an inventory request.
pub const NOTIFY_INV_REQUEST_ID: u8 = 8;

/// The tag of an inventory response.
pub const NOTIFY_INV_RESPONSE_ID: u8 = 9;

/// The tag of a bootstrap chain request.
pub const BOOTSTRAP_CHAIN_REQUEST_ID: u8 = 10;

/// The tag of a bootstrap chain response.
pub const BOOTSTRAP_CHAIN_RESPONSE_ID: u8 = 11;

/// The tag of the notice that a peer disconnected.
pub const PEER_DISCONNECTED_ID: u8 = 12;

/// The payload types of the packets whose layout is the application's own.
pub trait Payloads {
    type Handshake: Serializer;

    type BlockHeader: Serializer;

    type ChainRequest: Serializer;

    type ChainResponse: Serializer;

    type ObjectRequest: Serializer;

    type ObjectResponse: Serializer;

    type NotifyInventoryRequest: Serializer;

    type NotifyInventoryResponse: Serializer;

    type BootstrapChainRequest: Serializer;

    type BootstrapChainResponse: Serializer;

    type PeerDisconnected: Serializer;
}

/// A wrapped packet as contracts see it.
pub struct WrapperView<V> {
    pub packet: V,
    pub ping: PingView,
}

/// A payload with the ping that travels behind it.
#[derive(Clone, Debug, PartialEq, Eq)]
pub struct PacketWrapper<T: Serializer> {
    packet: T,
    ping: Ping,
}

impl<T: Serializer> DeepView for PacketWrapper<T> {
    type V = WrapperView<T::V>;

    closed spec fn deep_view(&self) -> WrapperView<T::V> {
        WrapperView { packet: self.packet.deep_view(), ping: self.ping@ }
    }
}

impl<T: Serializer> PacketWrapper<T> {
    /// The payload with the ping behind it.
    pub fn new(packet: T, ping: Ping) -> (w: Self)
        ensures
            w.deep_view() == (WrapperView { packet: packet.deep_view(), ping: ping@ }),
    {
        PacketWrapper { packet, ping }
    }

    /// The payload and the ping.
    pub fn consume(self) -> (parts: (T, Ping))
        ensures
            self.deep_view() == (WrapperView { packet: parts.0.deep_view(), ping: parts.1@ }),
    {
        (self.packet, self.ping)
    }
}

/// A wrapped packet is the payload followed by the ping.
impl<T: Serializer> Serializer for PacketWrapper<T> {
    open spec fn canonical(v: WrapperView<T::V>) -> bool {
        T::canonical(v.packet) && Ping::canonical(v.ping)
    }

    open spec fn encode(v: WrapperView<T::V>) -> Seq<u8> {
        T::encode(v.packet) + Ping::encode(v.ping)
    }

    open spec fn decode(bytes: Seq<u8>) -> Result<(WrapperView<T::V>, int), ReaderError> {
        match T::decode(bytes) {
            Err(e) => Err(e),
            Ok((packet, n)) => match Ping::decode(bytes.skip(n)) {
                Err(e) => Err(e),
                Ok((ping, m)) => Ok((WrapperView { packet, ping }, n + m)),
            },
        }
    }

    proof fn lemma_decode_bounds(bytes: Seq<u8>) {
        T::lemma_decode_bounds(bytes);
        if let Ok((packet, n)) = T::decode(bytes) {
            Ping::lemma_decode_bounds(bytes.skip(n));
        }
    }

    proof fn lemma_round_trip(v: WrapperView<T::V>, rest: Seq<u8>) {
        let first = T::encode(v.packet);
        let second = Ping::encode(v.ping);
        T::lemma_round_trip(v.packet, second + rest);
        assert(Self::encode(v) + rest =~= first + (second + rest));
        assert((first + (second + rest)).skip(first.len() as int) =~= second + rest);
        Ping::lemma_round_trip(v.ping, rest);
    }

    fn write(&self, writer: &mut Writer) {
        self.packet.write(writer);
        self.ping.write(writer);
        assert(writer@ =~= old(writer)@ + Self::encode(self.deep_view()));
    }

    fn read(reader: &mut Reader) -> (r: Result<Self, ReaderError>) {
        proof {
            use_type_invariant(&*reader);
            reader.lemma_in_bounds();
            T::lemma_decode_bounds(reader.remaining());
        }
        let ghost bytes = reader.remaining();
        let packet = T::read(reader)?;
        assert(reader.remaining() =~= bytes.skip(T::decode(bytes)->Ok_0.1));
        let ping = Ping::read(reader)?;
        Ok(PacketWrapper { packet, ping })
    }
}

/// A packet as contracts see it.
pub enum PacketView<P: Payloads> {
    Handshake(<P::Handshake as DeepView>::V),
    TransactionPropagation(WrapperView<<crypto::Hash as DeepView>::V>),
    BlockPropagation(WrapperView<<P::BlockHeader as DeepView>::V>),
    ChainRequest(WrapperView<<P::ChainRequest as DeepView>::V>),
    ChainResponse(<P::ChainResponse as DeepView>::V),
    Ping(<Ping as DeepView>::V),
    ObjectRequest(<P::ObjectRequest as DeepView>::V),
    ObjectResponse(<P::ObjectResponse as DeepView>::V),
    NotifyInventoryRequest(WrapperView<<P::NotifyInventoryRequest as DeepView>::V>),
    NotifyInventoryResponse(<P::NotifyInventoryResponse as DeepView>::V),
    BootstrapChainRequest(<P::BootstrapChainRequest as DeepView>::V),
    BootstrapChainResponse(<P::BootstrapChainResponse as DeepView>::V),
    PeerDisconnected(<P::PeerDisconnected as DeepView>::V),
}

/// What peers send each other. The first byte on the wire says which it is.
#[derive(Clone, Debug, PartialEq, Eq)]
pub enum Packet<P: Payloads> {
    Handshake(P::Handshake),
    TransactionPropagation(PacketWrapper<crypto::Hash>),
    BlockPropagation(PacketWrapper<P::BlockHeader>),
    ChainRequest(PacketWrapper<P::ChainRequest>),
    ChainResponse(P::ChainResponse),
    Ping(Ping),
    ObjectRequest(P::ObjectRequest),
    ObjectResponse(P::ObjectResponse),
    NotifyInventoryRequest(PacketWrapper<P::NotifyInventoryRequest>),
    NotifyInventoryResponse(P::NotifyInventoryResponse),
    BootstrapChainRequest(P::BootstrapChainRequest),
    BootstrapChainResponse(P::BootstrapChainResponse),
    PeerDisconnected(P::PeerDisconnected),
}

impl<P: Payloads> DeepView for Packet<P> {
    type V = PacketView<P>;

    open spec fn deep_view(&self) -> PacketView<P> {
        match self {
            Packet::Handshake(x) => PacketView::Handshake(x.deep_view()),
            Packet::TransactionPropagation(x) => PacketView::TransactionPropagation(x.deep_view()),
            Packet::BlockPropagation(x) => PacketView::BlockPropagation(x.deep_view()),
            Packet::ChainRequest(x) => PacketView::ChainRequest(x.deep_view()),
            Packet::ChainResponse(x) => PacketView::ChainResponse(x.deep_view()),
            Packet::Ping(x) => PacketView::Ping(x.deep_view()),
            Packet::ObjectRequest(x) => PacketView::ObjectRequest(x.deep_view()),
            Packet::ObjectResponse(x) => PacketView::ObjectResponse(x.deep_view()),
            Packet::NotifyInventoryRequest(x) => PacketView::NotifyInventoryRequest(x.deep_view()),
            Packet::NotifyInventoryResponse(x) => PacketView::NotifyInventoryResponse(x.deep_view()),
            Packet::BootstrapChainRequest(x) => PacketView::BootstrapChainRequest(x.deep_view()),
            Packet::BootstrapChainResponse(x) => PacketView::BootstrapChainResponse(x.deep_view()),
            Packet::PeerDisconnected(x) => PacketView::PeerDisconnected(x.deep_view()),
        }
    }
}

/// The tag of the packet.
pub open spec fn tag_of<P: Payloads>(v: PacketView<P>) -> u8 {
    match v {
        PacketView::Handshake(_) => HANDSHAKE_ID,
        PacketView::TransactionPropagation(_) => TX_PROPAGATION_ID,
        PacketView::BlockPropagation(_) => BLOCK_PROPAGATION_ID,
        PacketView::ChainRequest(_) => CHAIN_REQUEST_ID,
        PacketView::ChainResponse(_) => CHAIN_RESPONSE_ID,
        PacketView::Ping(_) => PING_ID,
        PacketView::ObjectRequest(_) => OBJECT_REQUEST_ID,
        PacketView::ObjectResponse(_) => OBJECT_RESPONSE_ID,
        PacketView::NotifyInventoryRequest(_) => NOTIFY_INV_REQUEST_ID,
        PacketView::NotifyInventoryResponse(_) => NOTIFY_INV_RESPONSE_ID,
        PacketView::BootstrapChainRequest(_) => BOOTSTRAP_CHAIN_REQUEST_ID,
        PacketView::BootstrapChainResponse(_) => BOOTSTRAP_CHAIN_RESPONSE_ID,
        PacketView::PeerDisconnected(_) => PEER_DISCONNECTED_ID,
    }
}

/// The bytes of the payload of the packet.
pub open spec fn body_of<P: Payloads>(v: PacketView<P>) -> Seq<u8> {
    match v {
        PacketView::Handshake(x) => <P::Handshake>::encode(x),
        PacketView::TransactionPropagation(x) => <PacketWrapper<crypto::Hash>>::encode(x),
        PacketView::BlockPropagation(x) => <PacketWrapper<P::BlockHeader>>::encode(x),
        PacketView::ChainRequest(x) => <PacketWrapper<P::ChainRequest>>::encode(x),
        PacketView::ChainResponse(x) => <P::ChainResponse>::encode(x),
        PacketView::Ping(x) => <Ping>::encode(x),
        PacketView::ObjectRequest(x) => <P::ObjectRequest>::encode(x),
        PacketView::ObjectResponse(x) => <P::ObjectResponse>::encode(x),
        PacketView::NotifyInventoryRequest(x) => <PacketWrapper<P::NotifyInventoryRequest>>::encode(x),
        PacketView::NotifyInventoryResponse(x) => <P::NotifyInventoryResponse>::encode(x),
        PacketView::BootstrapChainRequest(x) => <P::BootstrapChainRequest>::encode(x),
        PacketView::BootstrapChainResponse(x) => <P::BootstrapChainResponse>::encode(x),
        PacketView::PeerDisconnected(x) => <P::PeerDisconnected>::encode(x),
    }
}

/// Whether the payload of the packet is one that a decoder accepts.
pub open spec fn canonical_packet<P: Payloads>(v: PacketView<P>) -> bool {
    match v {
        PacketView::Handshake(x) => <P::Handshake>::canonical(x),
        PacketView::TransactionPropagation(x) => <PacketWrapper<crypto::Hash>>::canonical(x),
        PacketView::BlockPropagation(x) => <PacketWrapper<P::BlockHeader>>::canonical(x),
        PacketView::ChainRequest(x) => <PacketWrapper<P::ChainRequest>>::canonical(x),
        PacketView::ChainResponse(x) => <P::ChainResponse>::canonical(x),
        PacketView::Ping(x) => <Ping>::canonical(x),
        PacketView::ObjectRequest(x) => <P::ObjectRequest>::canonical(x),
        PacketView::ObjectResponse(x) => <P::ObjectResponse>::canonical(x),
        PacketView::NotifyInventoryRequest(x) => <PacketWrapper<P::NotifyInventoryRequest>>::canonical(x),
        PacketView::NotifyInventoryResponse(x) => <P::NotifyInventoryResponse>::canonical(x),
        PacketView::BootstrapChainRequest(x) => <P::BootstrapChainRequest>::canonical(x),
        PacketView::BootstrapChainResponse(x) => <P::BootstrapChainResponse>::canonical(x),
        PacketView::PeerDisconnected(x) => <P::PeerDisconnected>::canonical(x),
    }
}

/// The packet with tag `tag` whose payload stands at the front of `bytes`, and
/// the number of bytes of the payload. An unknown tag is `InvalidValue`.
pub open spec fn decode_body<P: Payloads>(tag: u8, bytes: Seq<u8>) -> Result<
    (PacketView<P>, int),
    ReaderError,
> {
    if tag == HANDSHAKE_ID {
        match <P::Handshake>::decode(bytes) {
            Ok((x, n)) => Ok((PacketView::Handshake(x), n)),
            Err(e) => Err(e),
        }
    } else if tag == TX_PROPAGATION_ID {
        match <PacketWrapper<crypto::Hash>>::decode(bytes) {
            Ok((x, n)) => Ok((PacketView::TransactionPropagation(x), n)),
            Err(e) => Err(e),
        }
    } else if tag == BLOCK_PROPAGATION_ID {
        match <PacketWrapper<P::BlockHeader>>::decode(bytes) {
            Ok((x, n)) => Ok((PacketView::BlockPropagation(x), n)),
            Err(e) => Err(e),
        }
    } else if tag == CHAIN_REQUEST_ID {
        match <PacketWrapper<P::ChainRequest>>::decode(bytes) {
            Ok((x, n)) => Ok((PacketView::ChainRequest(x), n)),
            Err(e) => Err(e),
        }
    } else if tag == CHAIN_RESPONSE_ID {
        match <P::ChainResponse>::decode(bytes) {
            Ok((x, n)) => Ok((PacketView::ChainResponse(x), n)),
            Err(e) => Err(e),
        }
    } else if tag == PING_ID {
        match <Ping>::decode(bytes) {
            Ok((x, n)) => Ok((PacketView::Ping(x), n)),
            Err(e) => Err(e),
        }
    } else if tag == OBJECT_REQUEST_ID {
        match <P::ObjectRequest>::decode(bytes) {
            Ok((x, n)) => Ok((PacketView::ObjectRequest(x), n)),
            Err(e) => Err(e),
        }
    } else if tag == OBJECT_RESPONSE_ID {
        match <P::ObjectResponse>::decode(bytes) {
            Ok((x, n)) => Ok((PacketView::ObjectResponse(x), n)),
            Err(e) => Err(e),
        }
    } else if tag == NOTIFY_INV_REQUEST_ID {
        match <PacketWrapper<P::NotifyInventoryRequest>>::decode(bytes) {
            Ok((x, n)) => Ok((PacketView::NotifyInventoryRequest(x), n)),
            Err(e) => Err(e),
        }
    } else if tag == NOTIFY_INV_RESPONSE_ID {
        match <P::NotifyInventoryResponse>::decode(bytes) {
            Ok((x, n)) => Ok((PacketView::NotifyInventoryResponse(x), n)),
            Err(e) => Err(e),
        }
    } else if tag == BOOTSTRAP_CHAIN_REQUEST_ID {
        match <P::BootstrapChainRequest>::decode(bytes) {
            Ok((x, n)) => Ok((PacketView::BootstrapChainRequest(x), n)),
            Err(e) => Err(e),
        }
    } else if tag == BOOTSTRAP_CHAIN_RESPONSE_ID {
        match <P::BootstrapChainResponse>::decode(bytes) {
            Ok((x, n)) => Ok((PacketView::BootstrapChainResponse(x), n)),
            Err(e) => Err(e),
        }
    } else if tag == PEER_DISCONNECTED_ID {
        match <P::PeerDisconnected>::decode(bytes) {
            Ok((x, n)) => Ok((PacketView::PeerDisconnected(x), n)),
            Err(e) => Err(e),
        }
    } else {
        Err(ReaderError::InvalidValue)
    }
}

/// The packet at the front of `bytes`, tag first, and the number of bytes it occupies.
pub open spec fn decode_tagged<P: Payloads>(bytes: Seq<u8>) -> Result<
    (PacketView<P>, int),
    ReaderError,
> {
    if bytes.len() == 0 {
        Err(ReaderError::InvalidSize)
    } else {
        match decode_body::<P>(bytes[0], bytes.skip(1)) {
            Ok((v, n)) => Ok((v, n + 1)),
            Err(e) => Err(e),
        }
    }
}

/// The length that stands in front of a packet with a payload of `body_len`
/// bytes: the payload and the tag, in four bytes.
pub open spec fn frame_length(body_len: nat) -> Seq<u8> {
    be_bytes((body_len + 1) % 0x1_0000_0000, 4)
}

/// The packet on the wire: the length, the tag and the payload.
pub open spec fn encode_frame<P: Payloads>(v: PacketView<P>) -> Seq<u8> {
    frame_length(body_of(v).len()) + seq![tag_of(v)] + body_of(v)
}

/// The packet that `frame` holds. The frame is the length, then as many bytes
/// as the length says: the tag and the payload, which fill them exactly.
pub open spec fn decode_frame<P: Payloads>(frame: Seq<u8>) -> Result<PacketView<P>, P2pError> {
    if frame.len() < 4 {
        Err(P2pError::InvalidPacketSize)
    } else {
        let length = be_value(frame.take(4));
        if length == 0 || length > PEER_MAX_PACKET_SIZE || frame.len() - 4 < length {
            Err(P2pError::InvalidPacketSize)
        } else {
            match decode_tagged::<P>(frame.subrange(4, 4 + length as int)) {
                Err(_) => Err(P2pError::InvalidPacket),
                Ok((v, n)) => if n != length || frame.len() - 4 != length {
                    Err(P2pError::InvalidPacketNotFullRead)
                } else {
                    Ok(v)
                },
            }
        }
    }
}

/// A decoded payload is canonical and takes no more bytes than there are.
#[verifier::rlimit(50)]
pub proof fn lemma_decode_body_bounds<P: Payloads>(tag: u8, bytes: Seq<u8>)
    ensures
        decode_body::<P>(tag, bytes) matches Ok((v, n)) ==> 0 <= n <= bytes.len()
            && canonical_packet(v) && tag_of(v) == tag,
{
    <P::Handshake>::lemma_decode_bounds(bytes);
    <PacketWrapper<crypto::Hash>>::lemma_decode_bounds(bytes);
    <PacketWrapper<P::BlockHeader>>::lemma_decode_bounds(bytes);
    <PacketWrapper<P::ChainRequest>>::lemma_decode_bounds(bytes);
    <P::ChainResponse>::lemma_decode_bounds(bytes);
    <Ping>::lemma_decode_bounds(bytes);
    <P::ObjectRequest>::lemma_decode_bounds(bytes);
    <P::ObjectResponse>::lemma_decode_bounds(bytes);
    <PacketWrapper<P::NotifyInventoryRequest>>::lemma_decode_bounds(bytes);
    <P::NotifyInventoryResponse>::lemma_decode_bounds(bytes);
    <P::BootstrapChainRequest>::lemma_decode_bounds(bytes);
    <P::BootstrapChainResponse>::lemma_decode_bounds(bytes);
    <P::PeerDisconnected>::lemma_decode_bounds(bytes);
}

/// The payload of a canonical packet, followed by anything, decodes under the
/// tag of the packet to the packet.
pub proof fn lemma_body_round_trip<P: Payloads>(v: PacketView<P>, rest: Seq<u8>)
    requires
        canonical_packet(v),
    ensures
        decode_body::<P>(tag_of(v), body_of(v) + rest) == Ok::<(PacketView<P>, int), ReaderError>(
            (v, body_of(v).len() as int),
        ),
{
    match v {
        PacketView::Handshake(x) => {
            <P::Handshake>::lemma_round_trip(x, rest);
            assert(tag_of(v) == HANDSHAKE_ID);
            assert(body_of(v) == <P::Handshake>::encode(x));
        },
        PacketView::TransactionPropagation(x) => {
            <PacketWrapper<crypto::Hash>>::lemma_round_trip(x, rest);
            assert(tag_of(v) == TX_PROPAGATION_ID);
            assert(body_of(v) == <PacketWrapper<crypto::Hash>>::encode(x));
        },
        PacketView::BlockPropagation(x) => {
            <PacketWrapper<P::BlockHeader>>::lemma_round_trip(x, rest);
            assert(tag_of(v) == BLOCK_PROPAGATION_ID);
            assert(body_of(v) == <PacketWrapper<P::BlockHeader>>::encode(x));
        },
        PacketView::ChainRequest(x) => {
            <PacketWrapper<P::ChainRequest>>::lemma_round_trip(x, rest);
            assert(tag_of(v) == CHAIN_REQUEST_ID);
            assert(body_of(v) == <PacketWrapper<P::ChainRequest>>::encode(x));
        },
        PacketView::ChainResponse(x) => {
            <P::ChainResponse>::lemma_round_trip(x, rest);
            assert(tag_of(v) == CHAIN_RESPONSE_ID);
            assert(body_of(v) == <P::ChainResponse>::encode(x));
        },
        PacketView::Ping(x) => {
            <Ping>::lemma_round_trip(x, rest);
            assert(tag_of(v) == PING_ID);
            assert(body_of(v) == <Ping>::encode(x));
        },
        PacketView::ObjectRequest(x) => {
            <P::ObjectRequest>::lemma_round_trip(x, rest);
            assert(tag_of(v) == OBJECT_REQUEST_ID);
            assert(body_of(v) == <P::ObjectRequest>::encode(x));
        },
        PacketView::ObjectResponse(x) => {
            <P::ObjectResponse>::lemma_round_trip(x, rest);
            assert(tag_of(v) == OBJECT_RESPONSE_ID);
            assert(body_of(v) == <P::ObjectResponse>::encode(x));
        },
        PacketView::NotifyInventoryRequest(x) => {
            <PacketWrapper<P::NotifyInventoryRequest>>::lemma_round_trip(x, rest);
            assert(tag_of(v) == NOTIFY_INV_REQUEST_ID);
            assert(body_of(v) == <PacketWrapper<P::NotifyInventoryRequest>>::encode(x));
        },
        PacketView::NotifyInventoryResponse(x) => {
            <P::NotifyInventoryResponse>::lemma_round_trip(x, rest);
            assert(tag_of(v) == NOTIFY_INV_RESPONSE_ID);
            assert(body_of(v) == <P::NotifyInventoryResponse>::encode(x));
        },
        PacketView::BootstrapChainRequest(x) => {
            <P::BootstrapChainRequest>::lemma_round_trip(x, rest);
            assert(tag_of(v) == BOOTSTRAP_CHAIN_REQUEST_ID);
            assert(body_of(v) == <P::BootstrapChainRequest>::encode(x));
        },
        PacketView::BootstrapChainResponse(x) => {
            <P::BootstrapChainResponse>::lemma_round_trip(x, rest);
            assert(tag_of(v) == BOOTSTRAP_CHAIN_RESPONSE_ID);
            assert(body_of(v) == <P::BootstrapChainResponse>::encode(x));
        },
        PacketView::PeerDisconnected(x) => {
            <P::PeerDisconnected>::lemma_round_trip(x, rest);
            assert(tag_of(v) == PEER_DISCONNECTED_ID);
            assert(body_of(v) == <P::PeerDisconnected>::encode(x));
        },
    }
}

/// The tag and the payload of a canonical packet, followed by anything, decode to the packet.
pub proof fn lemma_tagged_round_trip<P: Payloads>(v: PacketView<P>, rest: Seq<u8>)
    requires
        canonical_packet(v),
    ensures
        decode_tagged::<P>(seq![tag_of(v)] + body_of(v) + rest) == Ok::<
            (PacketView<P>, int),
            ReaderError,
        >((v, 1 + body_of(v).len() as int)),
{
    let bytes = seq![tag_of(v)] + body_of(v) + rest;
    assert(bytes.skip(1) =~= body_of(v) + rest);
    assert(bytes[0] == tag_of(v));
    lemma_body_round_trip(v, rest);
}

impl<P: Payloads> Packet<P> {
    /// The tag of this packet.
    pub fn get_id(&self) -> (id: u8)
        ensures
            id == tag_of(self.deep_view()),
    {
        match self {
            Packet::Handshake(_) => HANDSHAKE_ID,
            Packet::TransactionPropagation(_) => TX_PROPAGATION_ID,
            Packet::BlockPropagation(_) => BLOCK_PROPAGATION_ID,
            Packet::ChainRequest(_) => CHAIN_REQUEST_ID,
            Packet::ChainResponse(_) => CHAIN_RESPONSE_ID,
            Packet::Ping(_) => PING_ID,
            Packet::ObjectRequest(_) => OBJECT_REQUEST_ID,
            Packet::ObjectResponse(_) => OBJECT_RESPONSE_ID,
            Packet::NotifyInventoryRequest(_) => NOTIFY_INV_REQUEST_ID,
            Packet::NotifyInventoryResponse(_) => NOTIFY_INV_RESPONSE_ID,
            Packet::BootstrapChainRequest(_) => BOOTSTRAP_CHAIN_REQUEST_ID,
            Packet::BootstrapChainResponse(_) => BOOTSTRAP_CHAIN_RESPONSE_ID,
            Packet::PeerDisconnected(_) => PEER_DISCONNECTED_ID,
        }
    }

    /// Appends the payload of this packet.
    fn write_body(&self, writer: &mut Writer)
        ensures
            final(writer)@ == old(writer)@ + body_of(self.deep_view()),
    {
        match self {
            Packet::Handshake(x) => x.write(writer),
            Packet::TransactionPropagation(x) => x.write(writer),
            Packet::BlockPropagation(x) => x.write(writer),
            Packet::ChainRequest(x) => x.write(writer),
            Packet::ChainResponse(x) => x.write(writer),
            Packet::Ping(x) => x.write(writer),
            Packet::ObjectRequest(x) => x.write(writer),
            Packet::ObjectResponse(x) => x.write(writer),
            Packet::NotifyInventoryRequest(x) => x.write(writer),
            Packet::NotifyInventoryResponse(x) => x.write(writer),
            Packet::BootstrapChainRequest(x) => x.write(writer),
            Packet::BootstrapChainResponse(x) => x.write(writer),
            Packet::PeerDisconnected(x) => x.write(writer),
        }
    }

    /// Appends this packet as it goes on the wire: the length of what follows
    /// in four bytes, the tag, and the payload.
    pub fn write(&self, writer: &mut Writer)
        ensures
            final(writer)@ == old(writer)@ + encode_frame(self.deep_view()),
    {
        let mut body = Writer::new();
        self.write_body(&mut body);
        let body_len: u64 = (body.total_write() as u64) % 0x1_0000_0000;
        let packet_len: u32 = ((body_len + 1) % 0x1_0000_0000) as u32;
        writer.write_u32(&packet_len);
        writer.write_u8(self.get_id());
        writer.write_bytes(body.as_bytes());
        proof {
            let len = body_of(self.deep_view()).len();
            assert(body@ =~= body_of(self.deep_view()));
            assert(packet_len == (len + 1) % 0x1_0000_0000);
            assert(writer@ =~= old(writer)@ + encode_frame(self.deep_view()));
        }
    }

    /// Reads a packet, tag first, from the front of what `reader` has left.
    #[verifier::rlimit(50)]
    pub fn read(reader: &mut Reader) -> (r: Result<Self, ReaderError>)
        ensures
            final(reader).buffer() == old(reader).buffer(),
            match decode_tagged::<P>(old(reader).remaining()) {
                Ok((v, n)) => r matches Ok(x) && x.deep_view() == v && final(reader).position()
                    == old(reader).position() + n,
                Err(e) => r matches Err(f) && f == e,
            },
    {
        proof {
            use_type_invariant(&*reader);
            reader.lemma_in_bounds();
        }
        let ghost bytes = reader.remaining();
        let id = reader.read_u8()?;
        assert(reader.remaining() =~= bytes.skip(1));
        if id == HANDSHAKE_ID {
            Ok(Packet::Handshake(<P::Handshake>::read(reader)?))
        } else if id == TX_PROPAGATION_ID {
            Ok(Packet::TransactionPropagation(<PacketWrapper<crypto::Hash>>::read(reader)?))
        } else if id == BLOCK_PROPAGATION_ID {
            Ok(Packet::BlockPropagation(<PacketWrapper<P::BlockHeader>>::read(reader)?))
        } else if id == CHAIN_REQUEST_ID {
            Ok(Packet::ChainRequest(<PacketWrapper<P::ChainRequest>>::read(reader)?))
        } else if id == CHAIN_RESPONSE_ID {
            Ok(Packet::ChainResponse(<P::ChainResponse>::read(reader)?))
        } else if id == PING_ID {
            Ok(Packet::Ping(<Ping>::read(reader)?))
        } else if id == OBJECT_REQUEST_ID {
            Ok(Packet::ObjectRequest(<P::ObjectRequest>::read(reader)?))
        } else if id == OBJECT_RESPONSE_ID {
            Ok(Packet::ObjectResponse(<P::ObjectResponse>::read(reader)?))
        } else if id == NOTIFY_INV_REQUEST_ID {
            Ok(Packet::NotifyInventoryRequest(<PacketWrapper<P::NotifyInventoryRequest>>::read(reader)?))
        } else if id == NOTIFY_INV_RESPONSE_ID {
            Ok(Packet::NotifyInventoryResponse(<P::NotifyInventoryResponse>::read(reader)?))
        } else if id == BOOTSTRAP_CHAIN_REQUEST_ID {
            Ok(Packet::BootstrapChainRequest(<P::BootstrapChainRequest>::read(reader)?))
        } else if id == BOOTSTRAP_CHAIN_RESPONSE_ID {
            Ok(Packet::BootstrapChainResponse(<P::BootstrapChainResponse>::read(reader)?))
        } else if id == PEER_DISCONNECTED_ID {
            Ok(Packet::PeerDisconnected(<P::PeerDisconnected>::read(reader)?))
        } else {
            Err(ReaderError::InvalidValue)
        }
    }

    /// This packet as it goes on the wire.
    pub fn to_frame(&self) -> (frame: Vec<u8>)
        ensures
            frame@ == encode_frame(self.deep_view()),
    {
        let mut writer = Writer::new();
        self.write(&mut writer);
        assert(writer@ =~= encode_frame(self.deep_view()));
        writer.bytes()
    }

    /// The packet that `frame` holds.
    ///
    /// The frame is refused with `InvalidPacketSize` where the length is
    /// missing, zero, above the limit or more than the bytes that follow it;
    /// with `InvalidPacket` where the tag or the payload cannot be read; and with
    /// `InvalidPacketNotFullRead` where bytes are left behind the payload.
    pub fn from_frame(frame: &[u8]) -> (r: Result<Self, P2pError>)
        ensures
            match decode_frame::<P>(frame@) {
                Ok(v) => r matches Ok(x) && x.deep_view() == v,
                Err(e) => r matches Err(f) && f == e,
            },
    {
        let mut reader = Reader::new(frame);
        assert(reader.remaining() =~= frame@);
        let length = match reader.read_u32() {
            Ok(length) => length,
            Err(_) => {
                return Err(P2pError::InvalidPacketSize);
            },
        };
        if length == 0 || length > PEER_MAX_PACKET_SIZE || reader.size() < length as usize {
            return Err(P2pError::InvalidPacketSize);
        }
        let body = match reader.read_bytes_ref(length as usize) {
            Ok(body) => body,
            Err(_) => {
                return Err(P2pError::InvalidPacketSize);
            },
        };
        assert(body@ =~= frame@.subrange(4, 4 + length));
        let mut inner = Reader::new(body);
        assert(inner.remaining() =~= body@);
        let packet = match Packet::<P>::read(&mut inner) {
            Ok(packet) => packet,
            Err(_) => {
                return Err(P2pError::InvalidPacket);
            },
        };
        if inner.total_read() != body.len() || reader.size() != 0 {
            return Err(P2pError::InvalidPacketNotFullRead);
        }
        Ok(packet)
    }
}

/// Whether the packet fits in a frame that a peer accepts.
pub open spec fn fits_in_frame<P: Payloads>(v: PacketView<P>) -> bool {
    body_of(v).len() + 1 <= PEER_MAX_PACKET_SIZE
}

/// A frame is four bytes, one byte and the payload long.
pub proof fn lemma_frame_len<P: Payloads>(v: PacketView<P>)
    ensures
        encode_frame(v).len() == 4 + 1 + body_of(v).len(),
{
    lemma_be_bytes_len(((body_of(v).len() + 1) % 0x1_0000_0000) as nat, 4);
}

/// The first four bytes of the frame of a packet that fits say how long the
/// tag and the payload are.
proof fn lemma_frame_prefix<P: Payloads>(v: PacketView<P>, rest: Seq<u8>, k: int)
    requires
        fits_in_frame(v),
        4 <= k <= (encode_frame(v) + rest).len(),
    ensures
        be_value((encode_frame(v) + rest).take(k).take(4)) == body_of(v).len() + 1,
{
    let length = (body_of(v).len() + 1) as nat;
    lemma_pow256_values();
    lemma_be_bytes_len(length, 4);
    lemma_be_value_of_bytes(length, 4);
    assert((encode_frame(v) + rest).take(k).take(4) =~= be_bytes(length, 4));
}

/// Decoding the frame of a canonical packet that fits gives the packet back.
#[verifier::rlimit(50)]
pub proof fn lemma_frame_round_trip<P: Payloads>(v: PacketView<P>)
    requires
        canonical_packet(v),
        fits_in_frame(v),
    ensures
        decode_frame::<P>(encode_frame(v)) == Ok::<PacketView<P>, P2pError>(v),
{
    let frame = encode_frame(v);
    let length = (body_of(v).len() + 1) as nat;
    lemma_frame_len(v);
    lemma_frame_prefix(v, Seq::empty(), frame.len() as int);
    assert((frame + Seq::<u8>::empty()).take(frame.len() as int) =~= frame);
    lemma_tagged_round_trip(v, Seq::empty());
    assert(frame.subrange(4, 4 + length as int) =~= seq![tag_of(v)] + body_of(v) + Seq::<u8>::empty());
}

/// A frame that was cut short is refused.
pub proof fn lemma_frame_truncated<P: Payloads>(v: PacketView<P>, k: int)
    requires
        fits_in_frame(v),
        0 <= k < encode_frame(v).len(),
    ensures
        decode_frame::<P>(encode_frame(v).take(k)) == Err::<PacketView<P>, P2pError>(
            P2pError::InvalidPacketSize,
        ),
{
    let frame = encode_frame(v);
    lemma_frame_len(v);
    if k >= 4 {
        lemma_frame_prefix(v, Seq::empty(), k);
        assert((frame + Seq::<u8>::empty()).take(k) =~= frame.take(k));
    }
}

/// A frame with bytes behind it is refused with `InvalidPacketNotFullRead`.
#[verifier::rlimit(50)]
pub proof fn lemma_frame_extended<P: Payloads>(v: PacketView<P>, extra: Seq<u8>)
    requires
        canonical_packet(v),
        fits_in_frame(v),
        extra.len() > 0,
    ensures
        decode_frame::<P>(encode_frame(v) + extra) == Err::<PacketView<P>, P2pError>(
            P2pError::InvalidPacketNotFullRead,
        ),
{
    let frame = encode_frame(v) + extra;
    let length = (body_of(v).len() + 1) as nat;
    lemma_frame_len(v);
    lemma_frame_prefix(v, extra, frame.len() as int);
    assert(frame.take(frame.len() as int) =~= frame);
    lemma_tagged_round_trip(v, Seq::empty());
    assert(frame.subrange(4, 4 + length as int) =~= seq![tag_of(v)] + body_of(v) + Seq::<u8>::empty());
}

} // verus!
