pub mod error;

pub mod packet;
pub mod peer;
pub mod rules;
