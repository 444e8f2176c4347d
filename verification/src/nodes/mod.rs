//! `nodes.dat` contact files.

pub mod detect;
pub mod imule;
pub mod parse;
