//! Telling the `nodes.dat` flavours apart from their header.

use vstd::prelude::*;
use crate::kad::codec::{le32, get_u32_le};
use crate::text::{decimal, decimal_string};

verus! {

#[derive(Debug, Clone, Copy, PartialEq, Eq, Structural)]
pub enum NodesDatVersion {
    V0,
    V2,
}

#[derive(Debug, Clone, PartialEq, Eq, Structural)]
pub enum DetectError {
    FileTooSmall,
    V2HeaderTooSmall,
    UnsupportedVersion { version: u32 },
}

impl DetectError {
    pub open spec fn message_spec(&self) -> Seq<char> {
        match *self {
            DetectError::FileTooSmall => "file too small"@,
            DetectError::V2HeaderTooSmall => "v2 header too small"@,
            DetectError::UnsupportedVersion { version } => "unsupported nodes.dat version: "@ + decimal(version as nat),
        }
    }

    pub fn to_string(&self) -> (s: String)
        ensures
            s@ == self.message_spec(),
    {
        match self {
            DetectError::FileTooSmall => String::from_str("file too small"),
            DetectError::V2HeaderTooSmall => String::from_str("v2 header too small"),
            DetectError::UnsupportedVersion { version } => {
                let mut s = String::from_str("unsupported nodes.dat version: ");
                s.append(decimal_string(*version as u64).as_str());
                s
            },
        }
    }
}

/// Version, contact count, expected file length and header length.
pub open spec fn detect_spec(b: Seq<u8>) -> Result<(NodesDatVersion, u32, u64, usize), DetectError> {
    if b.len() < 4 {
        Err(DetectError::FileTooSmall)
    } else if le32(b, 0) == 0 {
        if b.len() < 12 {
            Err(DetectError::V2HeaderTooSmall)
        } else if le32(b, 4) != 2 {
            Err(DetectError::UnsupportedVersion { version: le32(b, 4) as u32 })
        } else {
            let count = le32(b, 8);
            Ok((NodesDatVersion::V2, count as u32, (12 + count * 34) as u64, 12usize))
        }
    } else {
        let count = le32(b, 0);
        Ok((NodesDatVersion::V0, count as u32, (4 + count * 25) as u64, 4usize))
    }
}

/// Reads the header of a `nodes.dat` image: version 2 files start with a
/// zero word, older ones with the contact count.
pub fn nodes_dat_version(bytes: &[u8]) -> (r: Result<(NodesDatVersion, u32, u64, usize), DetectError>)
    ensures
        r == detect_spec(bytes@),
{
    if bytes.len() < 4 {
        return Err(DetectError::FileTooSmall);
    }
    let first = get_u32_le(bytes, 0);
    if first == 0 {
        if bytes.len() < 12 {
            return Err(DetectError::V2HeaderTooSmall);
        }
        let version = get_u32_le(bytes, 4);
        if version != 2 {
            return Err(DetectError::UnsupportedVersion { version });
        }
        let count = get_u32_le(bytes, 8);
        let header: usize = 12;
        let expected: u64 = 12 + (count as u64) * 34;
        Ok((NodesDatVersion::V2, count, expected, header))
    } else {
        let count = first;
        let header: usize = 4;
        let expected: u64 = 4 + (count as u64) * 25;
        Ok((NodesDatVersion::V0, count, expected, header))
    }
}

} // verus!
