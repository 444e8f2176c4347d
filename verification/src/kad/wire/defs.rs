use vstd::prelude::*;
use crate::kad::KadId;
use crate::kad::packed::InflateError;
use std::collections::BTreeMap;

verus! {

pub const OP_KADEMLIAHEADER: u8 = 0x05;
pub const OP_KADEMLIAPACKEDPROT: u8 = 0x06;

pub const KADEMLIA2_BOOTSTRAP_REQ: u8 = 0x0D;
pub const KADEMLIA2_BOOTSTRAP_RES: u8 = 0x0E;
pub const KADEMLIA2_HELLO_REQ: u8 = 0x0F;
pub const KADEMLIA2_HELLO_RES: u8 = 0x10;
pub const KADEMLIA2_REQ: u8 = 0x11;
pub const KADEMLIA2_HELLO_RES_ACK: u8 = 0x12;
pub const KADEMLIA2_RES: u8 = 0x13;
pub const KADEMLIA2_SEARCH_KEY_REQ: u8 = 0x14;
pub const KADEMLIA2_SEARCH_SOURCE_REQ: u8 = 0x15;
pub const KADEMLIA2_SEARCH_NOTES_REQ: u8 = 0x16;
pub const KADEMLIA2_SEARCH_RES: u8 = 0x17;
pub const KADEMLIA2_PUBLISH_KEY_REQ: u8 = 0x18;
pub const KADEMLIA2_PUBLISH_SOURCE_REQ: u8 = 0x19;
pub const KADEMLIA2_PUBLISH_NOTES_REQ: u8 = 0x1A;
pub const KADEMLIA2_PUBLISH_RES: u8 = 0x1B;
pub const KADEMLIA2_PUBLISH_RES_ACK: u8 = 0x1C;
pub const KADEMLIA2_PING: u8 = 0x1E;
pub const KADEMLIA2_PONG: u8 = 0x1F;

pub const KADEMLIA_HELLO_REQ_DEPRECATED: u8 = 0x03;
pub const KADEMLIA_HELLO_RES_DEPRECATED: u8 = 0x04;
pub const KADEMLIA_REQ_DEPRECATED: u8 = 0x05;
pub const KADEMLIA_RES_DEPRECATED: u8 = 0x06;
pub const KADEMLIA_SEARCH_REQ_DEPRECATED: u8 = 0x07;
pub const KADEMLIA_SEARCH_RES_DEPRECATED: u8 = 0x08;
pub const KADEMLIA_SEARCH_NOTES_REQ_DEPRECATED: u8 = 0x09;
pub const KADEMLIA_PUBLISH_REQ_DEPRECATED: u8 = 0x0A;
pub const KADEMLIA_PUBLISH_RES_DEPRECATED: u8 = 0x0B;
pub const KADEMLIA_PUBLISH_NOTES_REQ_DEPRECATED: u8 = 0x0C;

/// Length of a raw I2P destination.
pub const I2P_DEST_LEN: usize = 387;

pub const TAG_FILENAME: u8 = 35;
pub const TAG_KADMISCOPTIONS: u8 = 88;
pub const TAG_FILESIZE: u8 = 36;
pub const TAG_FILETYPE: u8 = 37;
pub const TAG_SOURCES: u8 = 53;
pub const TAG_COMPLETE_SOURCES: u8 = 66;
pub const TAG_SERVERDEST: u8 = 81;
pub const TAG_SOURCEUDEST: u8 = 82;
pub const TAG_SOURCEDEST: u8 = 83;
pub const TAG_SOURCETYPE: u8 = 84;
pub const TAG_PUBLISHINFO: u8 = 85;

/// Private agent tag carried in the Kad2 HELLO taglist.
pub const TAG_RUST_MULE_AGENT: u8 = 0xFE;

pub const TAGTYPE_HASH16: u8 = 0x01;
pub const TAGTYPE_UINT8: u8 = 0x09;
pub const TAGTYPE_UINT16: u8 = 0x08;
pub const TAGTYPE_UINT32: u8 = 0x03;
pub const TAGTYPE_UINT64: u8 = 0x29;
pub const TAGTYPE_STRING: u8 = 0x02;
pub const TAGTYPE_FLOAT32: u8 = 0x04;
pub const TAGTYPE_BOOL: u8 = 0x05;
pub const TAGTYPE_BOOLARRAY: u8 = 0x06;
pub const TAGTYPE_BLOB: u8 = 0x07;
pub const TAGTYPE_BSOB: u8 = 0x0A;
pub const TAGTYPE_ADDRESS: u8 = 0x27;
pub const TAGTYPE_STR1: u8 = 0x11;
pub const TAGTYPE_STR16: u8 = 0x20;

/// Longest tag string that is kept (longer ones are skipped).
pub const MAX_TAG_STRING_LEN: usize = 4096;

/// Why a KAD payload could not be decoded.
#[derive(Debug)]
pub enum WireError {
    Inflate(InflateError),
    UnexpectedEof { offset: usize },
    InvalidFormat(String),
}

/// A decoded KAD datagram: protocol byte, opcode and (inflated) payload.
#[derive(Debug, Clone)]
pub struct KadPacket {
    pub protocol: u8,
    pub opcode: u8,
    pub payload: Vec<u8>,
}

#[derive(Debug, Clone)]
pub struct Kad2BootstrapRes {
    pub sender_id: KadId,
    pub sender_kad_version: u8,
    pub sender_tcp_dest: [u8; I2P_DEST_LEN],
    pub contacts: Vec<Kad2Contact>,
}

#[derive(Debug, Clone)]
pub struct Kad2Contact {
    pub kad_version: u8,
    pub node_id: KadId,
    pub udp_dest: [u8; I2P_DEST_LEN],
}

#[derive(Debug, Clone, Copy)]
pub struct Kad2SearchSourceReq {
    pub target: KadId,
    pub start_position: u16,
    pub file_size: u64,
}

#[derive(Debug, Clone, Copy)]
pub struct Kad2SearchKeyReq {
    pub target: KadId,
    pub start_position: u16,
    pub restrictive: bool,
}

#[derive(Debug, Clone, Copy)]
pub struct Kad2PublishSourceReq {
    pub file: KadId,
    pub source: KadId,
}

#[derive(Debug, Clone)]
pub struct Kad2PublishKeyReq {
    pub keyword: KadId,
    pub entries: Vec<Kad2PublishKeyEntry>,
}

#[derive(Debug, Clone)]
pub struct Kad2PublishKeyEntry {
    pub file: KadId,
    pub filename: Option<String>,
    pub file_size: Option<u64>,
    pub file_type: Option<String>,
}

#[derive(Debug, Clone)]
pub struct Kad2SearchResSources {
    pub sender_id: KadId,
    pub key: KadId,
    pub results: Vec<Kad2SearchResSourceResult>,
}

#[derive(Debug, Clone)]
pub struct Kad2SearchResSourceResult {
    pub source_id: KadId,
    /// Best available destination: SOURCEUDEST, else SOURCEDEST, else any address tag.
    pub udp_dest: Option<[u8; I2P_DEST_LEN]>,
    pub source_type: Option<u8>,
}

#[derive(Debug, Clone, Copy)]
pub struct Kad2PublishRes {
    pub file: KadId,
    pub source_count: u32,
    pub complete_count: u32,
    pub load: u8,
}

#[derive(Debug, Clone, Copy)]
pub struct Kad2PublishResKey {
    pub key: KadId,
    pub load: u8,
}

#[derive(Debug, Clone)]
pub struct Kad2Hello {
    pub kad_version: u8,
    pub node_id: KadId,
    pub udp_dest: [u8; I2P_DEST_LEN],
    /// Integer tags of the taglist, by tag id.
    pub tags: BTreeMap<u8, u64>,
    /// Optional peer agent string.
    pub agent: Option<String>,
}

#[derive(Debug, Clone, Copy)]
pub struct Kad2Req {
    /// Requested number of contacts (low 5 bits, 1..=31).
    pub requested_contacts: u8,
    pub target: KadId,
    pub check: KadId,
    pub sender_id: Option<KadId>,
}

#[derive(Debug, Clone)]
pub struct Kad2Res {
    pub target: KadId,
    pub contacts: Vec<Kad2Contact>,
}

#[derive(Debug, Clone, Copy)]
pub struct Kad1Req {
    pub kind: u8,
    pub target: KadId,
    pub check: KadId,
    pub sender_id: KadId,
}

/// Result of the lenient `KADEMLIA2_PUBLISH_KEY_REQ` decoder: the keyword is
/// always present; entries are the well-formed prefix of the declared ones.
#[derive(Debug, Clone)]
pub struct Kad2PublishKeyReqLenient {
    pub keyword: KadId,
    pub declared_count: u16,
    pub complete: bool,
    pub entries: Vec<Kad2PublishKeyEntry>,
}

#[derive(Debug, Clone)]
pub struct Kad2SearchRes {
    pub sender_id: KadId,
    /// The key searched: a file id (sources) or a keyword hash.
    pub key: KadId,
    pub results: Vec<Kad2SearchResEntry>,
}

#[derive(Debug, Clone)]
pub struct Kad2SearchResEntry {
    pub answer: KadId,
    pub tags: TaglistSearchInfo,
}

/// The tags of a search/publish taglist that this node understands.
#[derive(Debug, Clone)]
pub struct TaglistSearchInfo {
    pub source_type: Option<u8>,
    pub source_dest: Option<[u8; I2P_DEST_LEN]>,
    pub source_udest: Option<[u8; I2P_DEST_LEN]>,
    pub file_size: Option<u64>,
    pub filename: Option<String>,
    pub file_type: Option<String>,
    pub publish_info: Option<u32>,
    /// An address tag with neither the SOURCEDEST nor the SOURCEUDEST id.
    pub fallback_udpdest: Option<[u8; I2P_DEST_LEN]>,
}

/// Mathematical view of [`TaglistSearchInfo`].
pub struct SearchInfoModel {
    pub source_type: Option<u8>,
    pub source_dest: Option<Seq<u8>>,
    pub source_udest: Option<Seq<u8>>,
    pub file_size: Option<u64>,
    pub filename: Option<Seq<char>>,
    pub file_type: Option<Seq<char>>,
    pub publish_info: Option<u32>,
    pub fallback_udpdest: Option<Seq<u8>>,
}

pub open spec fn opt_arr_view(o: Option<[u8; I2P_DEST_LEN]>) -> Option<Seq<u8>> {
    match o {
        Some(a) => Some(a@),
        None => None,
    }
}

pub open spec fn opt_str_view(o: Option<String>) -> Option<Seq<char>> {
    match o {
        Some(s) => Some(s@),
        None => None,
    }
}

pub open spec fn empty_search_info() -> SearchInfoModel {
    SearchInfoModel {
        source_type: None,
        source_dest: None,
        source_udest: None,
        file_size: None,
        filename: None,
        file_type: None,
        publish_info: None,
        fallback_udpdest: None,
    }
}

impl View for TaglistSearchInfo {
    type V = SearchInfoModel;

    open spec fn view(&self) -> SearchInfoModel {
        SearchInfoModel {
            source_type: self.source_type,
            source_dest: opt_arr_view(self.source_dest),
            source_udest: opt_arr_view(self.source_udest),
            file_size: self.file_size,
            filename: opt_str_view(self.filename),
            file_type: opt_str_view(self.file_type),
            publish_info: self.publish_info,
            fallback_udpdest: opt_arr_view(self.fallback_udpdest),
        }
    }
}

pub open spec fn best_udp_dest_model(m: SearchInfoModel) -> Option<Seq<u8>> {
    if m.source_udest is Some {
        m.source_udest
    } else if m.source_dest is Some {
        m.source_dest
    } else {
        m.fallback_udpdest
    }
}

impl TaglistSearchInfo {
    pub fn new_empty() -> (t: TaglistSearchInfo)
        ensures
            t@ == empty_search_info(),
    {
        TaglistSearchInfo {
            source_type: None,
            source_dest: None,
            source_udest: None,
            file_size: None,
            filename: None,
            file_type: None,
            publish_info: None,
            fallback_udpdest: None,
        }
    }

    /// SOURCEUDEST if present, else SOURCEDEST, else the last untyped address tag.
    pub fn best_udp_dest(&self) -> (d: Option<[u8; I2P_DEST_LEN]>)
        ensures
            opt_arr_view(d) == best_udp_dest_model(self@),
    {
        if self.source_udest.is_some() {
            self.source_udest
        } else if self.source_dest.is_some() {
            self.source_dest
        } else {
            self.fallback_udpdest
        }
    }
}

} // verus!
