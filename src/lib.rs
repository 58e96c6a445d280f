//! placer: verified core of a file placement service that installs files
//! from encrypted, signed packs.

pub mod bech32k;
pub mod config;
pub mod consumer;
pub mod crypto;
pub mod delivery;
pub mod error;
pub mod keyuri;
pub mod lookup;
pub mod pack;
pub mod placement;
pub mod producer;
pub mod source;
pub mod strings;
pub mod wire;
