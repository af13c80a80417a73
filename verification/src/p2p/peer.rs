use crate::blockdag::Difficulty;
use crate::crypto;
use crate::serializer::bytes::{
    be_bytes, decode_uint, lemma_be_bytes_len, lemma_decode_uint_round_trip, lemma_pow256_values,
};
use crate::serializer::reader::Reader;
use crate::serializer::writer::Writer;
use crate::serializer::{ReaderError, Serializer};
use crate::vec_map::{Key, VecMap};
use vstd::prelude::*;

verus! {

/// An IP address: four bytes for version 4, sixteen for version 6.
#[derive(Clone, Copy, Debug, PartialEq, Eq, Hash, PartialOrd, Ord)]
pub enum IpAddress {
    V4([u8; 4]),
    V6([u8; 16]),
}

/// The socket address of a peer.
#[derive(Clone, Copy, Debug, PartialEq, Eq, Hash, PartialOrd, Ord)]
pub struct PeerAddress {
    pub ip: IpAddress,
    pub port: u16,
}

/// Whether the first `n` bytes of the two arrays are the same.
fn same_bytes<const N: usize>(a: &[u8; N], b: &[u8; N]) -> (r: bool)
    ensures
        r == (*a == *b),
{
    let mut i: usize = 0;
    while i < N
        invariant
            0 <= i <= N,
            forall|j: int| 0 <= j < i ==> a@[j] == b@[j],
        decreases N - i,
    {
        if a[i] != b[i] {
            return false;
        }
        i += 1;
    }
    assert(*a =~= *b);
    true
}

impl PeerAddress {
    /// The address with the given IP address and port.
    pub fn new(ip: IpAddress, port: u16) -> (a: PeerAddress)
        ensures
            a == (PeerAddress { ip, port }),
    {
        PeerAddress { ip, port }
    }

    /// Whether the two addresses are the same.
    pub fn equals(&self, other: &PeerAddress) -> (r: bool)
        ensures
            r == (*self == *other),
    {
        if self.port != other.port {
            return false;
        }
        match (&self.ip, &other.ip) {
            (IpAddress::V4(a), IpAddress::V4(b)) => same_bytes(a, b),
            (IpAddress::V6(a), IpAddress::V6(b)) => same_bytes(a, b),
            _ => false,
        }
    }
}

impl Key for PeerAddress {
    fn same(&self, other: &PeerAddress) -> (r: bool) {
        self.equals(other)
    }
}

impl DeepView for PeerAddress {
    type V = PeerAddress;

    open spec fn deep_view(&self) -> PeerAddress {
        *self
    }
}

/// An address is one byte for the version (0 for version 4, 1 for version 6),
/// the bytes of the IP address, and the port as two bytes.
impl Serializer for PeerAddress {
    open spec fn canonical(v: PeerAddress) -> bool {
        true
    }

    open spec fn encode(v: PeerAddress) -> Seq<u8> {
        match v.ip {
            IpAddress::V4(ip) => seq![0u8] + ip@ + be_bytes(v.port as nat, 2),
            IpAddress::V6(ip) => seq![1u8] + ip@ + be_bytes(v.port as nat, 2),
        }
    }

    open spec fn decode(bytes: Seq<u8>) -> Result<(PeerAddress, int), ReaderError> {
        if bytes.len() == 0 {
            Err(ReaderError::InvalidSize)
        } else if bytes[0] == 0 {
            if bytes.len() < 7 {
                Err(ReaderError::InvalidSize)
            } else {
                Ok(
                    (
                        PeerAddress {
                            ip: IpAddress::V4(array_of::<4>(bytes.subrange(1, 5))),
                            port: decode_uint(bytes.skip(5), 2)->Ok_0.0 as u16,
                        },
                        7,
                    ),
                )
            }
        } else if bytes[0] == 1 {
            if bytes.len() < 19 {
                Err(ReaderError::InvalidSize)
            } else {
                Ok(
                    (
                        PeerAddress {
                            ip: IpAddress::V6(array_of::<16>(bytes.subrange(1, 17))),
                            port: decode_uint(bytes.skip(17), 2)->Ok_0.0 as u16,
                        },
                        19,
                    ),
                )
            }
        } else {
            Err(ReaderError::InvalidValue)
        }
    }

    proof fn lemma_decode_bounds(bytes: Seq<u8>) {
    }

    proof fn lemma_round_trip(v: PeerAddress, rest: Seq<u8>) {
        lemma_pow256_values();
        lemma_be_bytes_len(v.port as nat, 2);
        lemma_decode_uint_round_trip(v.port as nat, 2, rest);
        let bytes = Self::encode(v) + rest;
        match v.ip {
            IpAddress::V4(ip) => {
                assert(bytes.subrange(1, 5) =~= ip@);
                assert(bytes.skip(5) =~= be_bytes(v.port as nat, 2) + rest);
                lemma_array_of::<4>(ip);
            },
            IpAddress::V6(ip) => {
                assert(bytes.subrange(1, 17) =~= ip@);
                assert(bytes.skip(17) =~= be_bytes(v.port as nat, 2) + rest);
                lemma_array_of::<16>(ip);
            },
        }
    }

    fn write(&self, writer: &mut Writer) {
        match &self.ip {
            IpAddress::V4(ip) => {
                writer.write_u8(0);
                writer.write_bytes(ip.as_slice());
            },
            IpAddress::V6(ip) => {
                writer.write_u8(1);
                writer.write_bytes(ip.as_slice());
            },
        }
        writer.write_u16(self.port);
        assert(writer@ =~= old(writer)@ + Self::encode(*self));
    }

    fn read(reader: &mut Reader) -> (r: Result<Self, ReaderError>) {
        proof {
            use_type_invariant(&*reader);
            reader.lemma_in_bounds();
        }
        let ghost bytes = reader.remaining();
        let version = reader.read_u8()?;
        if version == 0 {
            let ip = reader.read_bytes::<4>()?;
            assert(reader.remaining() =~= bytes.skip(5));
            let port = reader.read_u16()?;
            proof {
                assert(ip@ =~= bytes.subrange(1, 5));
                lemma_array_of::<4>(ip);
            }
            Ok(PeerAddress { ip: IpAddress::V4(ip), port })
        } else if version == 1 {
            let ip = reader.read_bytes::<16>()?;
            assert(reader.remaining() =~= bytes.skip(17));
            let port = reader.read_u16()?;
            proof {
                assert(ip@ =~= bytes.subrange(1, 17));
                lemma_array_of::<16>(ip);
            }
            Ok(PeerAddress { ip: IpAddress::V6(ip), port })
        } else {
            Err(ReaderError::InvalidValue)
        }
    }
}

/// The array whose elements are `bytes`.
pub closed spec fn array_of<const N: usize>(bytes: Seq<u8>) -> [u8; N] {
    choose|a: [u8; N]| a@ == bytes
}

/// An array is the array of its elements.
pub proof fn lemma_array_of<const N: usize>(a: [u8; N])
    ensures
        array_of::<N>(a@) == a,
{
    let b = array_of::<N>(a@);
    assert(b@ == a@);
    assert(a =~= b);
}

/// How a peer's address became known: it was reported to us, we reported it, or both.
#[derive(Clone, Copy, Debug, PartialEq, Eq, Structural)]
pub enum Direction {
    In,
    Out,
    Both,
}

impl Direction {
    /// The direction after `incoming` was added, where that is allowed: the
    /// opposite direction makes `Both`, the same direction is a repetition.
    pub open spec fn merged(self, incoming: Direction) -> Option<Direction> {
        match (self, incoming) {
            (Direction::Out, Direction::In) => Some(Direction::Both),
            (Direction::In, Direction::Out) => Some(Direction::Both),
            _ => None,
        }
    }

    /// Adds `direction`, and says whether that was allowed. Where it was not,
    /// nothing changes.
    pub fn update_allow_in(&mut self, direction: Direction) -> (allowed: bool)
        ensures
            allowed == old(self).merged(direction) is Some,
            allowed ==> *final(self) == old(self).merged(direction)->Some_0,
            !allowed ==> *final(self) == *old(self),
    {
        match (*self, direction) {
            (Direction::Out, Direction::In) => {
                *self = Direction::Both;
                true
            },
            (Direction::In, Direction::Out) => {
                *self = Direction::Both;
                true
            },
            _ => false,
        }
    }
}

/// The state of a peer as contracts see it.
pub struct PeerView {
    pub id: u64,
    pub connection_address: PeerAddress,
    pub outgoing_address: PeerAddress,
    pub top_hash: crypto::Hash,
    pub topoheight: u64,
    pub height: u64,
    pub pruned_topoheight: Option<u64>,
    pub cumulative_difficulty: Difficulty,
    pub peers: Map<PeerAddress, Direction>,
}

/// What is known of a remote node: its identity, its addresses, the chain state
/// that it last announced, and the peers that it shares with us.
#[derive(Clone, Debug)]
pub struct Peer {
    id: u64,
    connection_address: PeerAddress,
    outgoing_address: PeerAddress,
    top_hash: crypto::Hash,
    topoheight: u64,
    height: u64,
    pruned_topoheight: Option<u64>,
    cumulative_difficulty: Difficulty,
    peers: VecMap<PeerAddress, Direction>,
}

impl View for Peer {
    type V = PeerView;

    closed spec fn view(&self) -> PeerView {
        PeerView {
            id: self.id,
            connection_address: self.connection_address,
            outgoing_address: self.outgoing_address,
            top_hash: self.top_hash,
            topoheight: self.topoheight,
            height: self.height,
            pruned_topoheight: self.pruned_topoheight,
            cumulative_difficulty: self.cumulative_difficulty,
            peers: self.peers@,
        }
    }
}

impl Peer {
    /// A peer that shares no peers with us yet.
    pub fn new(
        id: u64,
        connection_address: PeerAddress,
        outgoing_address: PeerAddress,
        top_hash: crypto::Hash,
        topoheight: u64,
        height: u64,
        pruned_topoheight: Option<u64>,
        cumulative_difficulty: Difficulty,
    ) -> (peer: Peer)
        ensures
            peer@ == (PeerView {
                id,
                connection_address,
                outgoing_address,
                top_hash,
                topoheight,
                height,
                pruned_topoheight,
                cumulative_difficulty,
                peers: Map::empty(),
            }),
    {
        let peer = Peer {
            id,
            connection_address,
            outgoing_address,
            top_hash,
            topoheight,
            height,
            pruned_topoheight,
            cumulative_difficulty,
            peers: VecMap::new(),
        };
        assert(peer@.peers =~= Map::empty());
        peer
    }

    /// The id of the peer.
    pub fn get_id(&self) -> (id: u64)
        ensures
            id == self@.id,
    {
        self.id
    }

    /// The address that the connection comes from.
    pub fn get_connection_address(&self) -> (a: &PeerAddress)
        ensures
            *a == self@.connection_address,
    {
        &self.connection_address
    }

    /// The address at which the peer accepts connections.
    pub fn get_outgoing_address(&self) -> (a: &PeerAddress)
        ensures
            *a == self@.outgoing_address,
    {
        &self.outgoing_address
    }

    /// The hash of the top block that the peer announced.
    pub fn get_top_block_hash(&self) -> (h: &crypto::Hash)
        ensures
            *h == self@.top_hash,
    {
        &self.top_hash
    }

    /// Sets the hash of the top block.
    pub fn set_block_top_hash(&mut self, hash: crypto::Hash)
        ensures
            final(self)@ == (PeerView { top_hash: hash, ..old(self)@ }),
    {
        self.top_hash = hash;
    }

    /// The topoheight that the peer announced.
    pub fn get_topoheight(&self) -> (t: u64)
        ensures
            t == self@.topoheight,
    {
        self.topoheight
    }

    /// Sets the topoheight.
    pub fn set_topoheight(&mut self, topoheight: u64)
        ensures
            final(self)@ == (PeerView { topoheight, ..old(self)@ }),
    {
        self.topoheight = topoheight;
    }

    /// The height that the peer announced.
    pub fn get_height(&self) -> (h: u64)
        ensures
            h == self@.height,
    {
        self.height
    }

    /// Sets the height.
    pub fn set_height(&mut self, height: u64)
        ensures
            final(self)@ == (PeerView { height, ..old(self)@ }),
    {
        self.height = height;
    }

    /// Whether the peer has pruned its chain.
    pub fn is_pruned(&self) -> (b: bool)
        ensures
            b == self@.pruned_topoheight is Some,
    {
        self.pruned_topoheight.is_some()
    }

    /// The topoheight below which the peer has pruned its chain, if it has.
    pub fn get_pruned_topoheight(&self) -> (t: Option<u64>)
        ensures
            t == self@.pruned_topoheight,
    {
        self.pruned_topoheight
    }

    /// Sets the pruned topoheight.
    pub fn set_pruned_topoheight(&mut self, pruned_topoheight: Option<u64>)
        ensures
            final(self)@ == (PeerView { pruned_topoheight, ..old(self)@ }),
    {
        self.pruned_topoheight = pruned_topoheight;
    }

    /// The cumulative difficulty that the peer announced.
    pub fn get_cumulative_difficulty(&self) -> (d: Difficulty)
        ensures
            d == self@.cumulative_difficulty,
    {
        self.cumulative_difficulty
    }

    /// Sets the cumulative difficulty.
    pub fn set_cumulative_difficulty(&mut self, cumulative_difficulty: Difficulty)
        ensures
            final(self)@ == (PeerView { cumulative_difficulty, ..old(self)@ }),
    {
        self.cumulative_difficulty = cumulative_difficulty;
    }

    /// The peers shared with this peer, each with its direction.
    pub fn get_peers(&self) -> (peers: &VecMap<PeerAddress, Direction>)
        ensures
            peers@ == self@.peers,
    {
        &self.peers
    }

    /// Replaces the peers shared with this peer.
    pub fn set_peers(&mut self, peers: VecMap<PeerAddress, Direction>)
        ensures
            final(self)@ == (PeerView { peers: peers@, ..old(self)@ }),
    {
        self.peers = peers;
    }

    /// Records that we reported `address` to this peer. Says whether that was
    /// new: an address already reported by us is left as it is.
    pub fn add_outgoing_peer(&mut self, address: PeerAddress) -> (added: bool)
        ensures
            added == (old(self)@.peers.contains_key(address) ==> old(self)@.peers[address]
                == Direction::In),
            added ==> final(self)@ == (PeerView {
                peers: old(self)@.peers.insert(
                    address,
                    if old(self)@.peers.contains_key(address) {
                        Direction::Both
                    } else {
                        Direction::Out
                    },
                ),
                ..old(self)@
            }),
            !added ==> final(self)@ == old(self)@,
    {
        match self.peers.index_of(&address) {
            Some(i) => {
                let ghost before = self.peers@;
                let direction = self.peers.value_at_mut(i);
                let added = direction.update_allow_in(Direction::Out);
                proof {
                    if !added {
                        assert(self.peers@ =~= before);
                    }
                }
                added
            },
            None => {
                self.peers.push(address, Direction::Out);
                true
            },
        }
    }
}

} // verus!
