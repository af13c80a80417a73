use xelis_core::crypto;
use xelis_core::p2p::error::{ObjectRequest, P2pError};
use xelis_core::p2p::peer::{IpAddress, PeerAddress};
use xelis_core::p2p::rules::{
    check_block_propagation, check_chain_response, check_handshake_order, check_network_id,
    check_object_request, check_object_response, check_peer_id, check_peer_list_interval,
    check_peer_not_connected, check_ping_interval, check_tx_propagation, is_requested, is_tracked,
    same_request,
};

fn hash(byte: u8) -> crypto::Hash {
    crypto::Hash::new([byte; 32])
}

#[test]
fn chain_response_rules() {
    assert_eq!(check_chain_response(false, 0, 16), Err(P2pError::UnrequestedChainResponse));
    assert_eq!(check_chain_response(false, 99, 16), Err(P2pError::UnrequestedChainResponse));
    assert_eq!(check_chain_response(true, 17, 16), Err(P2pError::InvaliChainResponseSize(17, 16)));
    assert_eq!(check_chain_response(true, 16, 16), Ok(()));
    assert_eq!(check_chain_response(true, 0, 16), Ok(()));
}

#[test]
fn object_may_be_requested_once() {
    let mut outstanding: Vec<ObjectRequest> = Vec::new();
    assert_eq!(check_object_request(&mut outstanding, ObjectRequest::Block(hash(1))), Ok(()));
    assert_eq!(check_object_request(&mut outstanding, ObjectRequest::Transaction(hash(1))), Ok(()));
    assert_eq!(
        check_object_request(&mut outstanding, ObjectRequest::Block(hash(1))),
        Err(P2pError::ObjectAlreadyRequested(ObjectRequest::Block(hash(1))))
    );
    assert_eq!(
        outstanding,
        vec![ObjectRequest::Block(hash(1)), ObjectRequest::Transaction(hash(1))]
    );
    assert!(is_requested(&outstanding, &ObjectRequest::Transaction(hash(1))));
    assert!(!is_requested(&outstanding, &ObjectRequest::Transaction(hash(2))));
}

#[test]
fn object_response_must_match_a_request() {
    let mut outstanding = vec![ObjectRequest::Block(hash(1)), ObjectRequest::Transaction(hash(2))];
    assert_eq!(
        check_object_response(&mut outstanding, &ObjectRequest::Block(hash(3)), &hash(3)),
        Err(P2pError::ObjectNotRequested(ObjectRequest::Block(hash(3))))
    );
    assert_eq!(
        check_object_response(&mut outstanding, &ObjectRequest::Transaction(hash(2)), &hash(9)),
        Err(P2pError::InvalidObjectResponse(hash(9)))
    );
    assert_eq!(outstanding.len(), 2);
    assert_eq!(
        check_object_response(&mut outstanding, &ObjectRequest::Transaction(hash(2)), &hash(2)),
        Ok(())
    );
    assert_eq!(outstanding, vec![ObjectRequest::Block(hash(1))]);
    assert_eq!(
        check_object_response(&mut outstanding, &ObjectRequest::Transaction(hash(2)), &hash(2)),
        Err(P2pError::ObjectNotRequested(ObjectRequest::Transaction(hash(2))))
    );
}

#[test]
fn same_request_looks_at_kind_and_hash() {
    assert!(same_request(&ObjectRequest::Block(hash(1)), &ObjectRequest::Block(hash(1))));
    assert!(!same_request(&ObjectRequest::Block(hash(1)), &ObjectRequest::Block(hash(2))));
    assert!(!same_request(&ObjectRequest::Block(hash(1)), &ObjectRequest::Transaction(hash(1))));
}

#[test]
fn ping_and_peer_list_intervals() {
    assert_eq!(check_ping_interval(100, 105, 10), Err(P2pError::PeerInvalidPingCoutdown));
    assert_eq!(check_ping_interval(100, 110, 10), Ok(()));
    assert_eq!(check_ping_interval(100, 99, 10), Err(P2pError::PeerInvalidPingCoutdown));
    assert_eq!(check_ping_interval(0, u64::MAX, u64::MAX), Ok(()));
    assert_eq!(check_peer_list_interval(100, 114, 15), Err(P2pError::PeerInvalidPeerListCountdown));
    assert_eq!(check_peer_list_interval(100, 115, 15), Ok(()));
    assert_eq!(check_peer_list_interval(100, 100, 0), Ok(()));
}

#[test]
fn handshake_comes_first_and_once() {
    assert_eq!(check_handshake_order(false, false), Err(P2pError::ExpectedHandshake));
    assert_eq!(check_handshake_order(false, true), Ok(()));
    assert_eq!(check_handshake_order(true, false), Ok(()));
    assert_eq!(check_handshake_order(true, true), Err(P2pError::InvalidHandshake));
}

#[test]
fn network_id_must_match() {
    let ours = [7u8; 16];
    let mut theirs = [7u8; 16];
    assert_eq!(check_network_id(&ours, &theirs), Ok(()));
    theirs[15] = 8;
    assert_eq!(check_network_id(&ours, &theirs), Err(P2pError::InvalidNetworkID));
}

#[test]
fn peer_id_and_address_are_used_once() {
    assert_eq!(check_peer_id(&vec![1, 2, 3], 4), Ok(()));
    assert_eq!(check_peer_id(&vec![1, 2, 3], 2), Err(P2pError::PeerIdAlreadyUsed(2)));
    assert_eq!(check_peer_id(&Vec::new(), 0), Ok(()));
    let a = PeerAddress::new(IpAddress::V4([1, 2, 3, 4]), 5);
    let b = PeerAddress::new(IpAddress::V4([1, 2, 3, 4]), 6);
    assert_eq!(check_peer_not_connected(&vec![a], &b, String::from("1.2.3.4:6")), Ok(()));
    assert_eq!(
        check_peer_not_connected(&vec![a, b], &b, String::from("1.2.3.4:6")),
        Err(P2pError::PeerAlreadyConnected(String::from("1.2.3.4:6")))
    );
}

#[test]
fn propagation_is_not_repeated() {
    let seen = vec![hash(1), hash(2)];
    assert!(is_tracked(&seen, &hash(2)));
    assert!(!is_tracked(&seen, &hash(3)));
    assert_eq!(check_tx_propagation(&seen, &hash(3)), Ok(()));
    assert_eq!(check_tx_propagation(&seen, &hash(1)), Err(P2pError::AlreadyTrackedTx(hash(1))));
    assert_eq!(check_block_propagation(&seen, &hash(3), 10, 10), Ok(()));
    assert_eq!(
        check_block_propagation(&seen, &hash(2), 10, 10),
        Err(P2pError::AlreadyTrackedBlock(hash(2)))
    );
    assert_eq!(
        check_block_propagation(&seen, &hash(3), 9, 10),
        Err(P2pError::BlockPropagatedUnderStableHeight(hash(3), 9))
    );
    assert_eq!(
        check_block_propagation(&seen, &hash(2), 9, 10),
        Err(P2pError::AlreadyTrackedBlock(hash(2)))
    );
}
