//! iMule-compatible Kademlia (KAD) building blocks: identifiers, wire formats,
//! hashes, packet obfuscation and the bookkeeping around shared files.

pub mod cli;
pub mod config_check;
pub mod i2p;
pub mod kad;
pub mod logging;
pub mod nodes;
pub mod publish;
pub mod share;
pub mod shared_ops;
pub mod table;
pub mod text;
pub mod transfer_rate;
pub mod upload;
