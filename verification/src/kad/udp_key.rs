//! The node's Kad UDP key secret (what iMule keeps as its Kad UDP key): read
//! from a four-byte file, or drawn at random when absent or zero. Reading and
//! writing the file happen outside.

use vstd::prelude::*;
use crate::kad::codec::{get_u32_le, le32};
use crate::kad::udp_crypto::{fill_random, random_error_text};
use crate::text::{decimal, decimal_string, str_chars, chars_to_string};

verus! {

#[derive(Debug)]
pub enum UdpKeyError {
    WrongSize { path: String, len: usize },
    Random(String),
    CreateDir { path: String, source: std::io::Error },
    Write { path: String, source: std::io::Error },
    Rename { from: String, to: String, source: std::io::Error },
}

impl UdpKeyError {
    pub open spec fn message_spec(&self) -> Seq<char> {
        match self {
            UdpKeyError::WrongSize { path, len } =>
                "kad udp key secret file has wrong size: "@ + decimal(*len as nat) + " bytes (expected 4): "@ + path@,
            UdpKeyError::Random(msg) => msg@,
            UdpKeyError::CreateDir { path, .. } => "failed creating directory "@ + path@,
            UdpKeyError::Write { path, .. } => "failed to write "@ + path@,
            UdpKeyError::Rename { from, to, .. } => "failed to rename "@ + from@ + " -> "@ + to@,
        }
    }

    /// The error as it is reported.
    pub fn to_string(&self) -> (s: String)
        ensures
            s@ == self.message_spec(),
    {
        match self {
            UdpKeyError::WrongSize { path, len } => {
                let mut v = str_chars("kad udp key secret file has wrong size: ");
                let d = decimal_string(*len as u64);
                let mut dv = str_chars(d.as_str());
                v.append(&mut dv);
                let mut m = str_chars(" bytes (expected 4): ");
                v.append(&mut m);
                let mut p = str_chars(path.as_str());
                v.append(&mut p);
                chars_to_string(&v)
            },
            UdpKeyError::Random(msg) => String::from_str(msg.as_str()),
            UdpKeyError::CreateDir { path, .. } => {
                let mut v = str_chars("failed creating directory ");
                let mut p = str_chars(path.as_str());
                v.append(&mut p);
                chars_to_string(&v)
            },
            UdpKeyError::Write { path, .. } => {
                let mut v = str_chars("failed to write ");
                let mut p = str_chars(path.as_str());
                v.append(&mut p);
                chars_to_string(&v)
            },
            UdpKeyError::Rename { from, to, .. } => {
                let mut v = str_chars("failed to rename ");
                let mut a = str_chars(from.as_str());
                v.append(&mut a);
                let mut m = str_chars(" -> ");
                v.append(&mut m);
                let mut b = str_chars(to.as_str());
                v.append(&mut b);
                chars_to_string(&v)
            },
        }
    }
}

/// The secret stored in a key file's contents: the file must hold four
/// bytes; a stored zero means "unset" and gives none.
pub fn stored_udp_key_secret(bytes: &[u8], path: &str) -> (r: Result<Option<u32>, UdpKeyError>)
    ensures
        bytes@.len() != 4 ==> (r matches Err(UdpKeyError::WrongSize { path: p, len }) && p@ == path@
            && len == bytes@.len()),
        bytes@.len() == 4 ==> (r matches Ok(v) && v == (if le32(bytes@, 0) != 0 { Some(le32(bytes@, 0) as u32) } else { None })),
{
    if bytes.len() != 4 {
        return Err(UdpKeyError::WrongSize { path: String::from_str(path), len: bytes.len() });
    }
    let v = get_u32_le(bytes, 0);
    if v != 0 {
        Ok(Some(v))
    } else {
        Ok(None)
    }
}

/// A fresh secret from the operating system's random source, drawn again
/// while it comes out zero.
pub fn new_udp_key_secret() -> (r: Result<u32, UdpKeyError>)
    ensures
        r matches Ok(v) ==> v != 0,
        r matches Err(e) ==> e is Random,
{
    let mut tries: u64 = u64::MAX;
    while tries > 0
        decreases tries,
    {
        let mut b: Vec<u8> = vec![0u8, 0u8, 0u8, 0u8];
        match fill_random(&mut b) {
            Ok(()) => {},
            Err(e) => {
                let mut m = String::from_str("failed to generate kad udp key secret: ");
                let t = random_error_text(&e);
                m.append(t.as_str());
                return Err(UdpKeyError::Random(m));
            },
        }
        let v = get_u32_le(b.as_slice(), 0);
        if v != 0 {
            return Ok(v);
        }
        tries -= 1;
    }
    Err(UdpKeyError::Random(String::from_str("failed to generate kad udp key secret: the random source gave only zeros")))
}

} // verus!
