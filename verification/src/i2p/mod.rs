//! I2P encodings.

pub mod b64;
