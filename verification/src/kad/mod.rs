pub mod bootstrap;
pub mod codec;
pub mod id;
pub mod keyword;
pub mod md4;
pub mod md5;
pub mod packed;
pub mod routing;
pub mod service;
pub mod udp_crypto;
pub mod udp_key;
pub mod wire;

pub use id::KadId;
