use vstd::prelude::*;

verus! {

/// Most parents a block may cite.
pub const TIPS_LIMIT: usize = 3;

/// Target time between two blocks, in milliseconds.
pub const BLOCK_TIME_MILLIS: u64 = 15000;

/// Most peer addresses a ping may carry. The count travels in one byte.
pub const P2P_PING_PEER_LIST_LIMIT: usize = 16;

/// Largest packet accepted from a peer, in bytes, the tag included.
pub const PEER_MAX_PACKET_SIZE: u32 = 5242880;

/// Most block hashes a chain response may carry.
pub const CHAIN_SYNC_RESPONSE_MAX_BLOCKS: usize = 4096;

/// Least delay between two pings from one peer, in seconds.
pub const P2P_PING_DELAY: u64 = 10;

/// Least delay between two peer lists from one peer, in seconds.
pub const P2P_PING_PEER_LIST_DELAY: u64 = 15;

} // verus!
