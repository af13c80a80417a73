use xelis_core::config::P2P_PING_PEER_LIST_LIMIT;
use xelis_core::crypto;
use xelis_core::p2p::error::P2pError;
use xelis_core::p2p::packet::ping::{PeerPeerListUpdatedEvent, Ping, PingEvents};
use xelis_core::p2p::peer::{Direction, IpAddress, Peer, PeerAddress};
use xelis_core::serializer::{from_bytes, to_bytes, ReaderError};

fn hash(byte: u8) -> crypto::Hash {
    crypto::Hash::new([byte; 32])
}

fn v4(a: u8, b: u8, c: u8, d: u8, port: u16) -> PeerAddress {
    PeerAddress::new(IpAddress::V4([a, b, c, d]), port)
}

fn peer(pruned: Option<u64>) -> Peer {
    Peer::new(99, v4(1, 2, 3, 4, 41000), v4(1, 2, 3, 4, 5000), hash(1), 20, 15, pruned, 1000)
}

fn ping(pruned: Option<u64>, peers: Vec<PeerAddress>) -> Ping {
    Ping::new(hash(2), 30, 25, pruned, 2000, peers)
}

fn directions(peer: &Peer) -> Vec<(PeerAddress, Direction)> {
    let peers = peer.get_peers();
    let mut all: Vec<(PeerAddress, Direction)> = Vec::new();
    for i in 0..peers.len() {
        all.push((*peers.key_at(i), *peers.value_at(i)));
    }
    all
}

#[test]
fn ping_sets_the_announced_state() {
    let mut target = peer(None);
    let events = ping(None, Vec::new()).update_peer(&mut target).unwrap();
    assert_eq!(events, PingEvents { peer_list_updated: None });
    assert_eq!(*target.get_top_block_hash(), hash(2));
    assert_eq!(target.get_topoheight(), 30);
    assert_eq!(target.get_height(), 25);
    assert_eq!(target.get_pruned_topoheight(), None);
    assert_eq!(target.get_cumulative_difficulty(), 2000);
    assert_eq!(target.get_id(), 99);
    assert!(directions(&target).is_empty());
}

#[test]
fn ping_rejects_un_pruning() {
    let mut target = peer(Some(10));
    let result = ping(None, Vec::new()).update_peer(&mut target);
    assert_eq!(result, Err(P2pError::InvalidProtocolRules));
    assert_eq!(*target.get_top_block_hash(), hash(1));
    assert_eq!(target.get_topoheight(), 20);
    assert_eq!(target.get_height(), 15);
    assert_eq!(target.get_pruned_topoheight(), Some(10));
    assert_eq!(target.get_cumulative_difficulty(), 1000);
    assert!(target.is_pruned());
}

#[test]
fn ping_rejects_pruned_above_topoheight() {
    let mut target = peer(None);
    let result = ping(Some(31), Vec::new()).update_peer(&mut target);
    assert_eq!(result, Err(P2pError::InvalidProtocolRules));
    assert_eq!(target.get_topoheight(), 20);
    let mut target = peer(None);
    assert!(ping(Some(30), Vec::new()).update_peer(&mut target).is_ok());
    assert_eq!(target.get_pruned_topoheight(), Some(30));
}

#[test]
fn ping_rejects_pruned_going_down() {
    let mut target = peer(Some(10));
    let result = ping(Some(9), Vec::new()).update_peer(&mut target);
    assert_eq!(result, Err(P2pError::InvalidProtocolRules));
    assert_eq!(target.get_pruned_topoheight(), Some(10));
    let mut target = peer(Some(10));
    assert!(ping(Some(10), Vec::new()).update_peer(&mut target).is_ok());
    let mut target = peer(Some(10));
    assert!(ping(Some(11), Vec::new()).update_peer(&mut target).is_ok());
    assert_eq!(target.get_pruned_topoheight(), Some(11));
}

#[test]
fn ping_rejects_own_address_echo() {
    let mut target = peer(None);
    let result = ping(None, vec![v4(1, 2, 3, 4, 5000)]).update_peer(&mut target);
    assert_eq!(result, Err(P2pError::InvalidProtocolRules));
    assert!(directions(&target).is_empty());
    assert_eq!(target.get_topoheight(), 20);
}

#[test]
fn ping_rejects_own_connection_address() {
    let mut target = peer(None);
    let list = vec![v4(8, 8, 8, 8, 1), v4(1, 2, 3, 4, 41000)];
    let result = ping(None, list).update_peer(&mut target);
    assert_eq!(result, Err(P2pError::InvalidProtocolRules));
    assert!(directions(&target).is_empty());
}

#[test]
fn ping_merges_new_peers_as_in() {
    let mut target = peer(None);
    let list = vec![v4(8, 8, 8, 8, 1), v4(9, 9, 9, 9, 2)];
    let events = ping(None, list.clone()).update_peer(&mut target).unwrap();
    assert_eq!(
        events,
        PingEvents {
            peer_list_updated: Some(PeerPeerListUpdatedEvent { peer_id: 99, peerlist: list })
        }
    );
    assert_eq!(
        directions(&target),
        vec![(v4(8, 8, 8, 8, 1), Direction::In), (v4(9, 9, 9, 9, 2), Direction::In)]
    );
}

#[test]
fn ping_turns_out_into_both() {
    let mut target = peer(None);
    assert!(target.add_outgoing_peer(v4(8, 8, 8, 8, 1)));
    assert!(!target.add_outgoing_peer(v4(8, 8, 8, 8, 1)));
    assert!(ping(None, vec![v4(8, 8, 8, 8, 1)]).update_peer(&mut target).is_ok());
    assert_eq!(directions(&target), vec![(v4(8, 8, 8, 8, 1), Direction::Both)]);
}

#[test]
fn ping_rejects_a_peer_reported_twice() {
    let mut target = peer(None);
    assert!(ping(None, vec![v4(8, 8, 8, 8, 1)]).update_peer(&mut target).is_ok());
    let result = ping(None, vec![v4(7, 7, 7, 7, 1), v4(8, 8, 8, 8, 1)]).update_peer(&mut target);
    assert_eq!(result, Err(P2pError::InvalidProtocolRules));
    assert_eq!(directions(&target), vec![(v4(8, 8, 8, 8, 1), Direction::In)]);
    assert_eq!(target.get_topoheight(), 30);
}

#[test]
fn ping_rejects_a_peer_repeated_in_one_list() {
    let mut target = peer(None);
    let result = ping(None, vec![v4(8, 8, 8, 8, 1), v4(8, 8, 8, 8, 1)]).update_peer(&mut target);
    assert_eq!(result, Err(P2pError::InvalidProtocolRules));
    assert!(directions(&target).is_empty());
}

#[test]
fn ping_rejects_both_reported_again() {
    let mut target = peer(None);
    target.add_outgoing_peer(v4(8, 8, 8, 8, 1));
    assert!(ping(None, vec![v4(8, 8, 8, 8, 1)]).update_peer(&mut target).is_ok());
    let result = ping(None, vec![v4(8, 8, 8, 8, 1)]).update_peer(&mut target);
    assert_eq!(result, Err(P2pError::InvalidProtocolRules));
    assert_eq!(directions(&target), vec![(v4(8, 8, 8, 8, 1), Direction::Both)]);
}

#[test]
fn direction_update_allow_in() {
    let mut direction = Direction::Out;
    assert!(direction.update_allow_in(Direction::In));
    assert_eq!(direction, Direction::Both);
    assert!(!direction.update_allow_in(Direction::In));
    assert!(!direction.update_allow_in(Direction::Out));
    assert_eq!(direction, Direction::Both);
    let mut direction = Direction::In;
    assert!(!direction.update_allow_in(Direction::In));
    assert_eq!(direction, Direction::In);
    assert!(direction.update_allow_in(Direction::Out));
    assert_eq!(direction, Direction::Both);
    let mut direction = Direction::Out;
    assert!(!direction.update_allow_in(Direction::Out));
    assert!(!direction.update_allow_in(Direction::Both));
    assert_eq!(direction, Direction::Out);
}

#[test]
fn ping_getters() {
    let mut value = ping(Some(3), vec![v4(8, 8, 8, 8, 1)]);
    assert_eq!(value.get_height(), 25);
    assert_eq!(value.get_topoheight(), 30);
    assert_eq!(value.get_peers(), &vec![v4(8, 8, 8, 8, 1)]);
    value.get_mut_peers().push(v4(9, 9, 9, 9, 2));
    assert_eq!(value.get_peers().len(), 2);
    value.get_mut_peers().clear();
    assert_eq!(value, ping(Some(3), Vec::new()));
}

#[test]
fn peer_address_bytes() {
    assert_eq!(to_bytes(&v4(1, 2, 3, 4, 0x1388)), vec![0, 1, 2, 3, 4, 0x13, 0x88]);
    let v6 = PeerAddress::new(IpAddress::V6([0xfe; 16]), 2);
    let mut expected: Vec<u8> = vec![1];
    expected.extend_from_slice(&[0xfe; 16]);
    expected.extend_from_slice(&[0, 2]);
    assert_eq!(to_bytes(&v6), expected);
    assert_eq!(from_bytes::<PeerAddress>(&expected), Ok(v6));
    assert_eq!(from_bytes::<PeerAddress>(&[0, 1, 2, 3, 4, 0x13, 0x88]), Ok(v4(1, 2, 3, 4, 5000)));
    assert_eq!(from_bytes::<PeerAddress>(&[2, 1, 2, 3, 4, 0, 0]), Err(ReaderError::InvalidValue));
    assert_eq!(from_bytes::<PeerAddress>(&[0, 1, 2, 3, 4, 0]), Err(ReaderError::InvalidSize));
    assert_eq!(from_bytes::<PeerAddress>(&expected[..18]), Err(ReaderError::InvalidSize));
    assert!(v4(1, 2, 3, 4, 5).equals(&v4(1, 2, 3, 4, 5)));
    assert!(!v4(1, 2, 3, 4, 5).equals(&v4(1, 2, 3, 4, 6)));
    assert!(!v4(1, 2, 3, 4, 5).equals(&v4(1, 2, 3, 5, 5)));
    assert!(!v6.equals(&v4(1, 2, 3, 4, 2)));
}

#[test]
fn ping_bytes_are_exact() {
    let value = Ping::new(hash(0xab), 0x0102, 3, Some(4), 5, vec![v4(1, 2, 3, 4, 6)]);
    let mut expected: Vec<u8> = vec![0xab; 32];
    expected.extend_from_slice(&[0, 0, 0, 0, 0, 0, 1, 2]);
    expected.extend_from_slice(&[0, 0, 0, 0, 0, 0, 0, 3]);
    expected.extend_from_slice(&[1, 0, 0, 0, 0, 0, 0, 0, 4]);
    expected.extend_from_slice(&[0, 0, 0, 0, 0, 0, 0, 5]);
    expected.push(1);
    expected.extend_from_slice(&[0, 1, 2, 3, 4, 0, 6]);
    assert_eq!(to_bytes(&value), expected);
    assert_eq!(from_bytes::<Ping>(&expected), Ok(value));
}

#[test]
fn ping_with_zero_pruned_topoheight_is_rejected() {
    let value = Ping::new(hash(0), 9, 9, Some(0), 1, Vec::new());
    let bytes = to_bytes(&value);
    assert_eq!(from_bytes::<Ping>(&bytes), Err(ReaderError::InvalidValue));
}

#[test]
fn ping_with_too_many_peers_is_rejected() {
    let mut list: Vec<PeerAddress> = Vec::new();
    for i in 0..(P2P_PING_PEER_LIST_LIMIT + 1) {
        list.push(v4(10, 0, 0, i as u8, 1));
    }
    let over = Ping::new(hash(0), 9, 9, None, 1, list.clone());
    assert_eq!(from_bytes::<Ping>(&to_bytes(&over)), Err(ReaderError::InvalidValue));
    list.pop();
    let full = Ping::new(hash(0), 9, 9, None, 1, list);
    assert_eq!(from_bytes::<Ping>(&to_bytes(&full)), Ok(full));
}

#[test]
fn ping_cut_short_is_rejected() {
    let value = Ping::new(hash(0xab), 1, 2, Some(1), 5, vec![v4(1, 2, 3, 4, 6)]);
    let bytes = to_bytes(&value);
    for cut in 0..bytes.len() {
        assert_eq!(from_bytes::<Ping>(&bytes[..cut]), Err(ReaderError::InvalidSize));
    }
}

#[test]
fn ping_with_bad_option_byte_is_rejected() {
    let value = Ping::new(hash(0xab), 1, 2, None, 5, Vec::new());
    let mut bytes = to_bytes(&value);
    bytes[48] = 2;
    assert_eq!(from_bytes::<Ping>(&bytes), Err(ReaderError::InvalidValue));
}
