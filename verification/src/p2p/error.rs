use crate::crypto;
use crate::error::BlockchainError;
use crate::p2p::peer::PeerAddress;
use crate::serializer::ReaderError;
use vstd::prelude::*;

verus! {

/// An object that one peer asks of another, by hash.
#[derive(Clone, Copy, Debug, PartialEq, Eq)]
pub enum ObjectRequest {
    Block(crypto::Hash),
    Transaction(crypto::Hash),
}

impl ObjectRequest {
    /// The hash of the object asked for.
    pub open spec fn hash(&self) -> crypto::Hash {
        match *self {
            ObjectRequest::Block(hash) => hash,
            ObjectRequest::Transaction(hash) => hash,
        }
    }

    /// The hash of the object asked for.
    pub fn get_hash(&self) -> (h: &crypto::Hash)
        ensures
            *h == self.hash(),
    {
        match self {
            ObjectRequest::Block(hash) => hash,
            ObjectRequest::Transaction(hash) => hash,
        }
    }
}

/// The steps of a bootstrap of the chain state.
#[derive(Clone, Copy, Debug, PartialEq, Eq, Structural)]
pub enum StepKind {
    ChainInfo,
    Assets,
    Keys,
    Balances,
    Nonces,
    BlocksMetadata,
}

/// What can go wrong with a peer.
///
/// Failures of the transport and of the runtime carry the text of their report.
#[derive(Clone, Debug, PartialEq, Eq)]
pub enum P2pError {
    InvalidDirection,
    InvalidProtocolRules,
    InvalidInventoryPagination,
    UnknownPeerReceived(PeerAddress),
    BlockPropagatedUnderStableHeight(crypto::Hash, u64),
    AlreadyTrackedBlock(crypto::Hash),
    AlreadyTrackedTx(crypto::Hash),
    MalformedChainRequest(usize),
    UnrequestedChainResponse,
    InvaliChainResponseSize(usize, usize),
    UnrequestedBootstrapChainResponse,
    InvalidCommonPoint(u64),
    Disconnected,
    InvalidHandshake,
    ExpectedHandshake,
    InvalidPeerAddress(String),
    InvalidNetwork,
    InvalidNetworkID,
    PeerIdAlreadyUsed(u64),
    PeerAlreadyConnected(String),
    ErrorStd(String),
    PoisonError(String),
    SendError(String),
    TryInto(String),
    ReaderError(ReaderError),
    ParseAddressError(String),
    InvalidPacket,
    InvalidRequestedTopoheight,
    InvalidPacketSize,
    InvalidPacketNotFullRead,
    RequestSyncChainTooFast,
    AsyncTimeOut(String),
    NoResponse,
    InvalidObjectHash(crypto::Hash, crypto::Hash),
    ObjectNotFound(ObjectRequest),
    ObjectNotRequested(ObjectRequest),
    ObjectHashNotPresentInQueue(crypto::Hash),
    ObjectAlreadyRequested(ObjectRequest),
    InvalidObjectResponse(crypto::Hash),
    InvalidObjectResponseType,
    ObjectRequestError(String),
    ExpectedBlock,
    ExpectedTransaction,
    PeerInvalidPeerListCountdown,
    PeerInvalidPingCoutdown,
    BlockchainError(Box<BlockchainError>),
    InvalidPeerlist,
    InvalidBootstrapStep(StepKind, StepKind),
    JsonError(String),
    SemaphoreAcquireError(String),
}

impl From<BlockchainError> for P2pError {
    fn from(err: BlockchainError) -> (e: P2pError) {
        P2pError::BlockchainError(Box::new(err))
    }
}

impl vstd::std_specs::convert::FromSpecImpl<BlockchainError> for P2pError {
    open spec fn obeys_from_spec() -> bool {
        true
    }

    open spec fn from_spec(err: BlockchainError) -> P2pError {
        P2pError::BlockchainError(Box::new(err))
    }
}

impl From<ReaderError> for P2pError {
    fn from(err: ReaderError) -> (e: P2pError) {
        P2pError::ReaderError(err)
    }
}

impl vstd::std_specs::convert::FromSpecImpl<ReaderError> for P2pError {
    open spec fn obeys_from_spec() -> bool {
        true
    }

    open spec fn from_spec(err: ReaderError) -> P2pError {
        P2pError::ReaderError(err)
    }
}

} // verus!
