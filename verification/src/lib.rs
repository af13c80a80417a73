pub mod account;
pub mod blockdag;
pub mod cached_state;
pub mod config;
pub mod crypto;
pub mod error;
pub mod immutable;
pub mod p2p;
pub mod prompt;
pub mod serializer;
pub mod simulator;
pub mod storage;
pub mod text;
pub mod transaction;
pub mod vec_map;
