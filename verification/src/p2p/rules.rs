use crate::crypto;
use crate::p2p::error::{ObjectRequest, P2pError};
use crate::p2p::peer::PeerAddress;
use vstd::prelude::*;

verus! {

/// Whether the two requests ask for the same object.
pub fn same_request(a: &ObjectRequest, b: &ObjectRequest) -> (r: bool)
    ensures
        r == (*a == *b),
{
    match (a, b) {
        (ObjectRequest::Block(x), ObjectRequest::Block(y)) => {
            proof {
                x.lemma_view_injective(*y);
            }
            x.equals(y)
        },
        (ObjectRequest::Transaction(x), ObjectRequest::Transaction(y)) => {
            proof {
                x.lemma_view_injective(*y);
            }
            x.equals(y)
        },
        _ => false,
    }
}

/// Whether `hashes` holds `hash`.
pub fn is_tracked(hashes: &Vec<crypto::Hash>, hash: &crypto::Hash) -> (r: bool)
    ensures
        r == hashes@.contains(*hash),
{
    let mut i: usize = 0;
    while i < hashes.len()
        invariant
            0 <= i <= hashes.len(),
            forall|j: int| 0 <= j < i ==> hashes@[j] != *hash,
        decreases hashes.len() - i,
    {
        proof {
            hashes@[i as int].lemma_view_injective(*hash);
        }
        if hashes[i].equals(hash) {
            return true;
        }
        i += 1;
    }
    false
}

/// Whether `requests` holds `request`.
pub fn is_requested(requests: &Vec<ObjectRequest>, request: &ObjectRequest) -> (r: bool)
    ensures
        r == requests@.contains(*request),
{
    let mut i: usize = 0;
    while i < requests.len()
        invariant
            0 <= i <= requests.len(),
            forall|j: int| 0 <= j < i ==> requests@[j] != *request,
        decreases requests.len() - i,
    {
        if same_request(&requests[i], request) {
            return true;
        }
        i += 1;
    }
    false
}

/// A chain response must answer a request and hold at most `max_blocks` blocks.
pub fn check_chain_response(requested: bool, blocks: usize, max_blocks: usize) -> (r: Result<
    (),
    P2pError,
>)
    ensures
        r == (if !requested {
            Err::<(), P2pError>(P2pError::UnrequestedChainResponse)
        } else if blocks > max_blocks {
            Err::<(), P2pError>(P2pError::InvaliChainResponseSize(blocks, max_blocks))
        } else {
            Ok::<(), P2pError>(())
        }),
{
    if !requested {
        Err(P2pError::UnrequestedChainResponse)
    } else if blocks > max_blocks {
        Err(P2pError::InvaliChainResponseSize(blocks, max_blocks))
    } else {
        Ok(())
    }
}

/// An object may be asked of a peer once at a time: a request that is
/// outstanding is refused, any other is added behind the outstanding ones.
pub fn check_object_request(outstanding: &mut Vec<ObjectRequest>, request: ObjectRequest) -> (r:
    Result<(), P2pError>)
    ensures
        old(outstanding)@.contains(request) ==> r == Err::<(), P2pError>(
            P2pError::ObjectAlreadyRequested(request),
        ) && final(outstanding)@ == old(outstanding)@,
        !old(outstanding)@.contains(request) ==> r == Ok::<(), P2pError>(()) && final(outstanding)@ == old(outstanding)@.push(request),
{
    if is_requested(outstanding, &request) {
        Err(P2pError::ObjectAlreadyRequested(request))
    } else {
        outstanding.push(request);
        Ok(())
    }
}

/// An object response must answer an outstanding request, and the object that
/// it carries must have the hash that was asked for. An accepted response takes
/// the first such request off the outstanding ones.
pub fn check_object_response(
    outstanding: &mut Vec<ObjectRequest>,
    request: &ObjectRequest,
    received: &crypto::Hash,
) -> (r: Result<(), P2pError>)
    ensures
        !old(outstanding)@.contains(*request) ==> r == Err::<(), P2pError>(
            P2pError::ObjectNotRequested(*request),
        ) && final(outstanding)@ == old(outstanding)@,
        old(outstanding)@.contains(*request) && *received != request.hash() ==> r == Err::<
            (),
            P2pError,
        >(P2pError::InvalidObjectResponse(*received)) && final(outstanding)@ == old(outstanding)@,
        old(outstanding)@.contains(*request) && *received == request.hash() ==> r == Ok::<
            (),
            P2pError,
        >(()) && exists|at: int| #[trigger]
            is_first(old(outstanding)@, *request, at) && final(outstanding)@ == old(outstanding)@.remove(at),
{
    let mut i: usize = 0;
    while i < outstanding.len()
        invariant
            0 <= i <= outstanding.len(),
            outstanding@ == old(outstanding)@,
            forall|j: int| 0 <= j < i ==> outstanding@[j] != *request,
        decreases outstanding.len() - i,
    {
        if same_request(&outstanding[i], request) {
            proof {
                received.lemma_view_injective(request.hash());
                assert(is_first(outstanding@, *request, i as int));
            }
            if !received.equals(request.get_hash()) {
                return Err(P2pError::InvalidObjectResponse(*received));
            }
            outstanding.remove(i);
            return Ok(());
        }
        i += 1;
    }
    Err(P2pError::ObjectNotRequested(*request))
}

/// Whether `at` is the first position of `item` in `s`.
pub open spec fn is_first(s: Seq<ObjectRequest>, item: ObjectRequest, at: int) -> bool {
    0 <= at < s.len() && s[at] == item && forall|j: int| 0 <= j < at ==> s[j] != item
}

/// A ping must come no sooner than `delay` seconds after the one before it.
pub fn check_ping_interval(last: u64, now: u64, delay: u64) -> (r: Result<(), P2pError>)
    ensures
        r == (if now - last < delay {
            Err::<(), P2pError>(P2pError::PeerInvalidPingCoutdown)
        } else {
            Ok::<(), P2pError>(())
        }),
{
    if now < last || now - last < delay {
        Err(P2pError::PeerInvalidPingCoutdown)
    } else {
        Ok(())
    }
}

/// A peer list must come no sooner than `delay` seconds after the one before it.
pub fn check_peer_list_interval(last: u64, now: u64, delay: u64) -> (r: Result<(), P2pError>)
    ensures
        r == (if now - last < delay {
            Err::<(), P2pError>(P2pError::PeerInvalidPeerListCountdown)
        } else {
            Ok::<(), P2pError>(())
        }),
{
    if now < last || now - last < delay {
        Err(P2pError::PeerInvalidPeerListCountdown)
    } else {
        Ok(())
    }
}

/// The first packet of a connection must be a handshake, and no later one may be.
pub fn check_handshake_order(handshake_done: bool, is_handshake: bool) -> (r: Result<(), P2pError>)
    ensures
        r == (if !handshake_done && !is_handshake {
            Err::<(), P2pError>(P2pError::ExpectedHandshake)
        } else if handshake_done && is_handshake {
            Err::<(), P2pError>(P2pError::InvalidHandshake)
        } else {
            Ok::<(), P2pError>(())
        }),
{
    if !handshake_done && !is_handshake {
        Err(P2pError::ExpectedHandshake)
    } else if handshake_done && is_handshake {
        Err(P2pError::InvalidHandshake)
    } else {
        Ok(())
    }
}

/// A peer must be on our network.
pub fn check_network_id(ours: &[u8; 16], theirs: &[u8; 16]) -> (r: Result<(), P2pError>)
    ensures
        r == (if *ours == *theirs {
            Ok::<(), P2pError>(())
        } else {
            Err::<(), P2pError>(P2pError::InvalidNetworkID)
        }),
{
    let mut i: usize = 0;
    while i < 16
        invariant
            0 <= i <= 16,
            forall|j: int| 0 <= j < i ==> ours@[j] == theirs@[j],
        decreases 16 - i,
    {
        if ours[i] != theirs[i] {
            return Err(P2pError::InvalidNetworkID);
        }
        i += 1;
    }
    assert(*ours =~= *theirs);
    Ok(())
}

/// No two peers may have the same id.
pub fn check_peer_id(used: &Vec<u64>, id: u64) -> (r: Result<(), P2pError>)
    ensures
        r == (if used@.contains(id) {
            Err::<(), P2pError>(P2pError::PeerIdAlreadyUsed(id))
        } else {
            Ok::<(), P2pError>(())
        }),
{
    let mut i: usize = 0;
    while i < used.len()
        invariant
            0 <= i <= used.len(),
            forall|j: int| 0 <= j < i ==> used@[j] != id,
        decreases used.len() - i,
    {
        if used[i] == id {
            return Err(P2pError::PeerIdAlreadyUsed(id));
        }
        i += 1;
    }
    Ok(())
}

/// No address may be connected twice. `text` is the address as the error shows it.
pub fn check_peer_not_connected(
    connected: &Vec<PeerAddress>,
    address: &PeerAddress,
    text: String,
) -> (r: Result<(), P2pError>)
    ensures
        r == (if connected@.contains(*address) {
            Err::<(), P2pError>(P2pError::PeerAlreadyConnected(text))
        } else {
            Ok::<(), P2pError>(())
        }),
{
    let mut i: usize = 0;
    while i < connected.len()
        invariant
            0 <= i <= connected.len(),
            forall|j: int| 0 <= j < i ==> connected@[j] != *address,
        decreases connected.len() - i,
    {
        if connected[i].equals(address) {
            return Err(P2pError::PeerAlreadyConnected(text));
        }
        i += 1;
    }
    Ok(())
}

/// A transaction may be propagated to us once by a peer.
pub fn check_tx_propagation(seen: &Vec<crypto::Hash>, hash: &crypto::Hash) -> (r: Result<
    (),
    P2pError,
>)
    ensures
        r == (if seen@.contains(*hash) {
            Err::<(), P2pError>(P2pError::AlreadyTrackedTx(*hash))
        } else {
            Ok::<(), P2pError>(())
        }),
{
    if is_tracked(seen, hash) {
        Err(P2pError::AlreadyTrackedTx(*hash))
    } else {
        Ok(())
    }
}

/// A block may be propagated to us once by a peer, and not below our stable height.
pub fn check_block_propagation(
    seen: &Vec<crypto::Hash>,
    hash: &crypto::Hash,
    height: u64,
    stable_height: u64,
) -> (r: Result<(), P2pError>)
    ensures
        r == (if seen@.contains(*hash) {
            Err::<(), P2pError>(P2pError::AlreadyTrackedBlock(*hash))
        } else if height < stable_height {
            Err::<(), P2pError>(P2pError::BlockPropagatedUnderStableHeight(*hash, height))
        } else {
            Ok::<(), P2pError>(())
        }),
{
    if is_tracked(seen, hash) {
        Err(P2pError::AlreadyTrackedBlock(*hash))
    } else if height < stable_height {
        Err(P2pError::BlockPropagatedUnderStableHeight(*hash, height))
    } else {
        Ok(())
    }
}

} // verus!
