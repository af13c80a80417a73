use crate::blockdag::Difficulty;
use crate::config::P2P_PING_PEER_LIST_LIMIT;
use crate::crypto;
use crate::p2p::error::P2pError;
use crate::p2p::peer::{Direction, Peer, PeerAddress, PeerView};
use crate::serializer::defaults::{
    decode_items, encode_items, lemma_decode_items_bounds, lemma_items_round_trip, read_items,
    write_items,
};
use crate::serializer::reader::Reader;
use crate::serializer::writer::Writer;
use crate::serializer::{ReaderError, Serializer};
use vstd::prelude::*;

verus! {

/// A ping as contracts see it.
pub struct PingView {
    pub top_hash: Seq<u8>,
    pub topoheight: u64,
    pub height: u64,
    pub pruned_topoheight: Option<u64>,
    pub cumulative_difficulty: Difficulty,
    pub peer_list: Seq<PeerAddress>,
}

/// The chain state that a peer announces, with some of the peers that it knows.
#[derive(Clone, Debug, PartialEq, Eq)]
pub struct Ping {
    top_hash: crypto::Hash,
    topoheight: u64,
    height: u64,
    pruned_topoheight: Option<u64>,
    cumulative_difficulty: Difficulty,
    peer_list: Vec<PeerAddress>,
}

impl View for Ping {
    type V = PingView;

    closed spec fn view(&self) -> PingView {
        PingView {
            top_hash: self.top_hash@,
            topoheight: self.topoheight,
            height: self.height,
            pruned_topoheight: self.pruned_topoheight,
            cumulative_difficulty: self.cumulative_difficulty,
            peer_list: self.peer_list@,
        }
    }
}

impl DeepView for Ping {
    type V = PingView;

    open spec fn deep_view(&self) -> PingView {
        self@
    }
}

/// The event that tells subscribers of the peers that a peer reported.
#[derive(Clone, Debug, PartialEq, Eq)]
pub struct PeerPeerListUpdatedEvent {
    pub peer_id: u64,
    pub peerlist: Vec<PeerAddress>,
}

/// The events that an accepted ping gives rise to. `PeerStateUpdated` is due
/// for each accepted ping; `PeerPeerListUpdated` for one that carried peers.
#[derive(Clone, Debug, PartialEq, Eq)]
pub struct PingEvents {
    pub peer_list_updated: Option<PeerPeerListUpdatedEvent>,
}

/// The shared peers after `address` was reported by the peer: a new address
/// is recorded as `In`, one that we had reported becomes `Both`, and one that
/// the peer had reported before is refused.
pub open spec fn merge_address(
    peers: Map<PeerAddress, Direction>,
    address: PeerAddress,
) -> Option<Map<PeerAddress, Direction>> {
    if peers.contains_key(address) {
        match peers[address].merged(Direction::In) {
            Some(direction) => Some(peers.insert(address, direction)),
            None => None,
        }
    } else {
        Some(peers.insert(address, Direction::In))
    }
}

/// The shared peers after `list[..n]` were reported by the peer, in order, or
/// `None` where one of them is an address of the peer itself or is refused.
pub open spec fn merge_list(
    peer: PeerView,
    list: Seq<PeerAddress>,
    n: int,
) -> Option<Map<PeerAddress, Direction>>
    decreases n,
{
    if n <= 0 {
        Some(peer.peers)
    } else {
        match merge_list(peer, list, n - 1) {
            None => None,
            Some(peers) => if list[n - 1] == peer.connection_address || list[n - 1]
                == peer.outgoing_address {
                None
            } else {
                merge_address(peers, list[n - 1])
            },
        }
    }
}

/// Whether the pruned state that `ping` announces may follow the one that `peer` has:
/// a pruned peer stays pruned, the pruned topoheight is not above the
/// topoheight and does not go down.
pub open spec fn pruned_state_allowed(ping: PingView, peer: PeerView) -> bool {
    match ping.pruned_topoheight {
        None => peer.pruned_topoheight is None,
        Some(pruned) => pruned <= ping.topoheight && (peer.pruned_topoheight matches Some(before)
            ==> pruned >= before),
    }
}

/// The state of `peer` after it sent `ping`, or `None` where the ping breaks a rule.
pub open spec fn peer_after_ping(ping: PingView, peer: PeerView) -> Option<PeerView> {
    if !pruned_state_allowed(ping, peer) {
        None
    } else {
        match merge_list(peer, ping.peer_list, ping.peer_list.len() as int) {
            None => None,
            Some(peers) => Some(
                PeerView {
                    top_hash: hash_of(ping.top_hash),
                    topoheight: ping.topoheight,
                    height: ping.height,
                    pruned_topoheight: ping.pruned_topoheight,
                    cumulative_difficulty: ping.cumulative_difficulty,
                    peers,
                    ..peer
                },
            ),
        }
    }
}

/// The hash whose bytes are `bytes`.
pub closed spec fn hash_of(bytes: Seq<u8>) -> crypto::Hash {
    choose|h: crypto::Hash| h@ == bytes
}

/// A hash is the hash of its bytes.
pub proof fn lemma_hash_of(hash: crypto::Hash)
    ensures
        hash_of(hash@) == hash,
{
    hash.lemma_view_injective(hash_of(hash@));
}

impl Ping {
    /// A ping with the given fields.
    pub fn new(
        top_hash: crypto::Hash,
        topoheight: u64,
        height: u64,
        pruned_topoheight: Option<u64>,
        cumulative_difficulty: Difficulty,
        peer_list: Vec<PeerAddress>,
    ) -> (ping: Ping)
        ensures
            ping@ == (PingView {
                top_hash: top_hash@,
                topoheight,
                height,
                pruned_topoheight,
                cumulative_difficulty,
                peer_list: peer_list@,
            }),
    {
        Ping { top_hash, topoheight, height, pruned_topoheight, cumulative_difficulty, peer_list }
    }

    /// Applies this ping to the state of the peer that sent it.
    ///
    /// A ping that breaks a rule is refused with `InvalidProtocolRules` and
    /// leaves the peer as it was. An accepted ping sets the announced chain state
    /// and merges the reported peers into the shared peers; the result holds
    /// the events to emit.
    pub fn update_peer(self, peer: &mut Peer) -> (r: Result<PingEvents, P2pError>)
        ensures
            match peer_after_ping(self@, old(peer)@) {
                Some(after) => r is Ok && final(peer)@ == after && r->Ok_0.peer_list_updated is Some
                    == (self@.peer_list.len() > 0) && (self@.peer_list.len() > 0
                    ==> r->Ok_0.peer_list_updated->Some_0.peer_id == old(peer)@.id
                    && r->Ok_0.peer_list_updated->Some_0.peerlist@ == self@.peer_list),
                None => r == Err::<PingEvents, P2pError>(P2pError::InvalidProtocolRules)
                    && final(peer)@ == old(peer)@,
            },
    {
        if peer.is_pruned() && self.pruned_topoheight.is_none() {
            return Err(P2pError::InvalidProtocolRules);
        }
        if let Some(pruned_topoheight) = self.pruned_topoheight {
            if pruned_topoheight > self.topoheight {
                return Err(P2pError::InvalidProtocolRules);
            }
            if let Some(old_pruned_topoheight) = peer.get_pruned_topoheight() {
                if pruned_topoheight < old_pruned_topoheight {
                    return Err(P2pError::InvalidProtocolRules);
                }
            }
        }
        let mut peers = peer.get_peers().duplicate();
        let mut i: usize = 0;
        while i < self.peer_list.len()
            invariant
                0 <= i <= self.peer_list@.len(),
                peer@ == old(peer)@,
                merge_list(peer@, self@.peer_list, i as int) == Some(peers@),
                self@.peer_list == self.peer_list@,
            decreases self.peer_list.len() - i,
        {
            let address = self.peer_list[i];
            if peer.get_connection_address().equals(&address) || peer.get_outgoing_address().equals(
                &address,
            ) {
                proof {
                    lemma_merge_list_refused(peer@, self@.peer_list, i + 1);
                }
                return Err(P2pError::InvalidProtocolRules);
            }
            match peers.index_of(&address) {
                Some(at) => {
                    let direction = peers.value_at_mut(at);
                    if !direction.update_allow_in(Direction::In) {
                        proof {
                            lemma_merge_list_refused(peer@, self@.peer_list, i + 1);
                        }
                        return Err(P2pError::InvalidProtocolRules);
                    }
                },
                None => {
                    peers.push(address, Direction::In);
                },
            }
            i += 1;
        }
        peer.set_block_top_hash(self.top_hash);
        peer.set_topoheight(self.topoheight);
        peer.set_height(self.height);
        peer.set_pruned_topoheight(self.pruned_topoheight);
        peer.set_cumulative_difficulty(self.cumulative_difficulty);
        peer.set_peers(peers);
        proof {
            lemma_hash_of(self.top_hash);
        }
        let peer_list_updated = if self.peer_list.len() > 0 {
            Some(PeerPeerListUpdatedEvent { peer_id: peer.get_id(), peerlist: self.peer_list })
        } else {
            None
        };
        Ok(PingEvents { peer_list_updated })
    }

    /// The height that the peer announces.
    pub fn get_height(&self) -> (h: u64)
        ensures
            h == self@.height,
    {
        self.height
    }

    /// The topoheight that the peer announces.
    pub fn get_topoheight(&self) -> (t: u64)
        ensures
            t == self@.topoheight,
    {
        self.topoheight
    }

    /// The peers that the ping reports.
    pub fn get_peers(&self) -> (peers: &Vec<PeerAddress>)
        ensures
            peers@ == self@.peer_list,
    {
        &self.peer_list
    }

    /// The peers that the ping reports, to be changed in place.
    pub fn get_mut_peers(&mut self) -> (peers: &mut Vec<PeerAddress>)
        ensures
            peers@ == old(self)@.peer_list,
            final(self)@ == (PingView { peer_list: final(peers)@, ..old(self)@ }),
    {
        &mut self.peer_list
    }
}

/// Once a prefix of the list is refused, the whole list is.
pub proof fn lemma_merge_list_refused(peer: PeerView, list: Seq<PeerAddress>, n: int)
    requires
        0 <= n <= list.len(),
        merge_list(peer, list, n) is None,
    ensures
        merge_list(peer, list, list.len() as int) is None,
    decreases list.len() - n,
{
    if n < list.len() {
        lemma_merge_list_refused(peer, list, n + 1);
    }
}

/// The byte that stands in front of `len` peer addresses.
pub open spec fn encode_peer_count(len: nat) -> Seq<u8> {
    seq![(len % 256) as u8]
}

/// The fields of a ping that stand before the peer list, once decoded: the
/// hash, the topoheight, the height, the pruned topoheight, the cumulative
/// difficulty, the number of peers, and the number of bytes that these took.
pub struct PingHeader {
    pub top_hash: Seq<u8>,
    pub topoheight: u64,
    pub height: u64,
    pub pruned_topoheight: Option<u64>,
    pub cumulative_difficulty: Difficulty,
    pub peers_len: u8,
    pub used: int,
}

/// The fields at the front of `bytes`, before the peer list. A pruned
/// topoheight of zero and a count above the limit are refused with `InvalidValue`.
pub open spec fn decode_ping_header(bytes: Seq<u8>) -> Result<PingHeader, ReaderError> {
    match crypto::Hash::decode(bytes) {
        Err(e) => Err(e),
        Ok((top_hash, a)) => match u64::decode(bytes.skip(a)) {
            Err(e) => Err(e),
            Ok((topoheight, b)) => match u64::decode(bytes.skip(a + b)) {
                Err(e) => Err(e),
                Ok((height, c)) => match Option::<u64>::decode(bytes.skip(a + b + c)) {
                    Err(e) => Err(e),
                    Ok((pruned_topoheight, d)) => if pruned_topoheight == Some(0u64) {
                        Err(ReaderError::InvalidValue)
                    } else {
                        match u64::decode(bytes.skip(a + b + c + d)) {
                            Err(e) => Err(e),
                            Ok((cumulative_difficulty, e)) => match u8::decode(
                                bytes.skip(a + b + c + d + e),
                            ) {
                                Err(e) => Err(e),
                                Ok((peers_len, f)) => if peers_len > P2P_PING_PEER_LIST_LIMIT {
                                    Err(ReaderError::InvalidValue)
                                } else {
                                    Ok(
                                        PingHeader {
                                            top_hash,
                                            topoheight,
                                            height,
                                            pruned_topoheight,
                                            cumulative_difficulty,
                                            peers_len,
                                            used: a + b + c + d + e + f,
                                        },
                                    )
                                },
                            },
                        }
                    },
                },
            },
        },
    }
}

/// The bytes of the fields of a ping that stand before the peer list.
pub open spec fn encode_ping_header(v: PingView) -> Seq<u8> {
    crypto::Hash::encode(v.top_hash) + u64::encode(v.topoheight) + u64::encode(v.height)
        + Option::<u64>::encode(v.pruned_topoheight) + u64::encode(v.cumulative_difficulty)
        + encode_peer_count(v.peer_list.len())
}

/// What decoding gives for the header of a ping, followed by anything: the
/// fields, unless the pruned topoheight is zero or there are more peers than
/// the limit, which are `InvalidValue`.
#[verifier::rlimit(50)]
pub proof fn lemma_ping_header_decoding(v: PingView, rest: Seq<u8>)
    requires
        v.top_hash.len() == 32,
        v.peer_list.len() < 256,
    ensures
        decode_ping_header(encode_ping_header(v) + rest) == (if v.pruned_topoheight == Some(0u64)
            || v.peer_list.len() > P2P_PING_PEER_LIST_LIMIT {
            Err::<PingHeader, ReaderError>(ReaderError::InvalidValue)
        } else {
            Ok::<PingHeader, ReaderError>(
                PingHeader {
                    top_hash: v.top_hash,
                    topoheight: v.topoheight,
                    height: v.height,
                    pruned_topoheight: v.pruned_topoheight,
                    cumulative_difficulty: v.cumulative_difficulty,
                    peers_len: v.peer_list.len() as u8,
                    used: encode_ping_header(v).len() as int,
                },
            )
        }),
{
    let h = crypto::Hash::encode(v.top_hash);
    let t = u64::encode(v.topoheight);
    let g = u64::encode(v.height);
    let p = Option::<u64>::encode(v.pruned_topoheight);
    let c = u64::encode(v.cumulative_difficulty);
    let n = encode_peer_count(v.peer_list.len());
    let bytes = encode_ping_header(v) + rest;
    crypto::Hash::lemma_round_trip(v.top_hash, t + g + p + c + n + rest);
    assert(bytes =~= h + (t + g + p + c + n + rest));
    let a = h.len() as int;
    u64::lemma_round_trip(v.topoheight, g + p + c + n + rest);
    assert(bytes.skip(a) =~= t + (g + p + c + n + rest));
    let b = t.len() as int;
    u64::lemma_round_trip(v.height, p + c + n + rest);
    assert(bytes.skip(a + b) =~= g + (p + c + n + rest));
    let cc = g.len() as int;
    Option::<u64>::lemma_round_trip(v.pruned_topoheight, c + n + rest);
    assert(bytes.skip(a + b + cc) =~= p + (c + n + rest));
    let d = p.len() as int;
    u64::lemma_round_trip(v.cumulative_difficulty, n + rest);
    assert(bytes.skip(a + b + cc + d) =~= c + (n + rest));
    let e = c.len() as int;
    assert(bytes.skip(a + b + cc + d + e) =~= n + rest);
    assert((n + rest)[0] == v.peer_list.len() as u8);
    assert(encode_ping_header(v).len() == a + b + cc + d + e + 1);
}

/// A ping with a pruned topoheight of zero is refused with `InvalidValue`,
/// whatever else it holds.
pub proof fn lemma_ping_rejects_zero_pruned(v: PingView, rest: Seq<u8>)
    requires
        v.top_hash.len() == 32,
        v.peer_list.len() < 256,
        v.pruned_topoheight == Some(0u64),
    ensures
        Ping::decode(Ping::encode(v) + rest) == Err::<(PingView, int), ReaderError>(
            ReaderError::InvalidValue,
        ),
{
    let peers = encode_items::<PeerAddress>(v.peer_list);
    lemma_ping_header_decoding(v, peers + rest);
    assert(Ping::encode(v) + rest =~= encode_ping_header(v) + (peers + rest));
}

/// A ping with more peers than the limit is refused with `InvalidValue`.
pub proof fn lemma_ping_rejects_long_peer_list(v: PingView, rest: Seq<u8>)
    requires
        v.top_hash.len() == 32,
        P2P_PING_PEER_LIST_LIMIT < v.peer_list.len() < 256,
    ensures
        Ping::decode(Ping::encode(v) + rest) == Err::<(PingView, int), ReaderError>(
            ReaderError::InvalidValue,
        ),
{
    let peers = encode_items::<PeerAddress>(v.peer_list);
    lemma_ping_header_decoding(v, peers + rest);
    assert(Ping::encode(v) + rest =~= encode_ping_header(v) + (peers + rest));
}

/// A ping is the top hash, the topoheight, the height, the optional pruned
/// topoheight, the cumulative difficulty, one byte for the number of peers,
/// and the peers.
impl Serializer for Ping {
    open spec fn canonical(v: PingView) -> bool {
        &&& v.top_hash.len() == 32
        &&& v.pruned_topoheight != Some(0u64)
        &&& v.peer_list.len() <= P2P_PING_PEER_LIST_LIMIT
    }

    open spec fn encode(v: PingView) -> Seq<u8> {
        encode_ping_header(v) + encode_items::<PeerAddress>(v.peer_list)
    }

    open spec fn decode(bytes: Seq<u8>) -> Result<(PingView, int), ReaderError> {
        match decode_ping_header(bytes) {
            Err(e) => Err(e),
            Ok(header) => match decode_items::<PeerAddress>(
                bytes.skip(header.used),
                header.peers_len as nat,
            ) {
                Err(e) => Err(e),
                Ok((peer_list, n)) => Ok(
                    (
                        PingView {
                            top_hash: header.top_hash,
                            topoheight: header.topoheight,
                            height: header.height,
                            pruned_topoheight: header.pruned_topoheight,
                            cumulative_difficulty: header.cumulative_difficulty,
                            peer_list,
                        },
                        header.used + n,
                    ),
                ),
            },
        }
    }

    proof fn lemma_decode_bounds(bytes: Seq<u8>) {
        if let Ok(header) = decode_ping_header(bytes) {
            crypto::Hash::lemma_decode_bounds(bytes);
            Option::<u64>::lemma_decode_bounds(bytes.skip(48));
            lemma_decode_items_bounds::<PeerAddress>(
                bytes.skip(header.used),
                header.peers_len as nat,
            );
        }
    }

    proof fn lemma_round_trip(v: PingView, rest: Seq<u8>) {
        let header = encode_ping_header(v);
        let peers = encode_items::<PeerAddress>(v.peer_list);
        lemma_ping_header_decoding(v, peers + rest);
        assert(Self::encode(v) + rest =~= header + (peers + rest));
        assert((header + (peers + rest)).skip(header.len() as int) =~= peers + rest);
        lemma_items_round_trip::<PeerAddress>(v.peer_list, rest);
    }

    fn write(&self, writer: &mut Writer) {
        self.top_hash.write(writer);
        self.topoheight.write(writer);
        self.height.write(writer);
        self.pruned_topoheight.write(writer);
        self.cumulative_difficulty.write(writer);
        writer.write_u8((self.peer_list.len() % 256) as u8);
        assert(writer@ =~= old(writer)@ + encode_ping_header(self@));
        write_items(&self.peer_list, writer);
        proof {
            assert(self.peer_list.deep_view() =~= self.peer_list@);
            assert(writer@ =~= old(writer)@ + Self::encode(self@));
        }
    }

    fn read(reader: &mut Reader) -> (r: Result<Self, ReaderError>) {
        proof {
            use_type_invariant(&*reader);
            reader.lemma_in_bounds();
        }
        let ghost bytes = reader.remaining();
        let top_hash = crypto::Hash::read(reader)?;
        assert(reader.remaining() =~= bytes.skip(32));
        let topoheight = u64::read(reader)?;
        assert(reader.remaining() =~= bytes.skip(40));
        let height = u64::read(reader)?;
        assert(reader.remaining() =~= bytes.skip(48));
        proof {
            Option::<u64>::lemma_decode_bounds(bytes.skip(48));
        }
        let pruned_topoheight = Option::<u64>::read(reader)?;
        let ghost d = Option::<u64>::decode(bytes.skip(48))->Ok_0.1;
        assert(reader.remaining() =~= bytes.skip(48 + d));
        if let Some(pruned) = &pruned_topoheight {
            if *pruned == 0 {
                return Err(ReaderError::InvalidValue);
            }
        }
        let cumulative_difficulty = u64::read(reader)?;
        assert(reader.remaining() =~= bytes.skip(48 + d + 8));
        let peers_len = u8::read(reader)?;
        if peers_len as usize > P2P_PING_PEER_LIST_LIMIT {
            return Err(ReaderError::InvalidValue);
        }
        assert(reader.remaining() =~= bytes.skip(48 + d + 8 + 1));
        let peer_list = read_items::<PeerAddress>(reader, peers_len as usize)?;
        proof {
            assert(peer_list.deep_view() =~= peer_list@);
        }
        Ok(
            Ping {
                top_hash,
                topoheight,
                height,
                pruned_topoheight,
                cumulative_difficulty,
                peer_list,
            },
        )
    }
}

} // verus!
