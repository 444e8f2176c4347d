pub mod decode;
pub mod defs;
pub mod encode;
pub mod laws;
pub mod reader;
pub mod taglist;

pub use decode::{
    decode_kad1_req, decode_kad2_bootstrap_res, decode_kad2_hello, decode_kad2_publish_key_keyword_prefix,
    decode_kad2_publish_key_req, decode_kad2_publish_key_req_lenient, decode_kad2_publish_res,
    decode_kad2_publish_res_key, decode_kad2_publish_source_req_min, decode_kad2_req,
    decode_kad2_res, decode_kad2_search_key_req, decode_kad2_search_res,
    decode_kad2_search_res_sources, decode_kad2_search_source_req,
};
pub use defs::{
    Kad1Req, Kad2BootstrapRes, Kad2Contact, Kad2Hello, Kad2PublishKeyEntry, Kad2PublishKeyReq,
    Kad2PublishKeyReqLenient, Kad2PublishRes, Kad2PublishResKey, Kad2PublishSourceReq, Kad2Req,
    Kad2Res, Kad2SearchKeyReq, Kad2SearchRes, Kad2SearchResEntry, Kad2SearchResSourceResult,
    Kad2SearchResSources, Kad2SearchSourceReq, KadPacket, TaglistSearchInfo, WireError,
    I2P_DEST_LEN, KADEMLIA2_BOOTSTRAP_REQ, KADEMLIA2_BOOTSTRAP_RES, KADEMLIA2_HELLO_REQ,
    KADEMLIA2_HELLO_RES, KADEMLIA2_HELLO_RES_ACK, KADEMLIA2_PING, KADEMLIA2_PONG,
    KADEMLIA2_PUBLISH_KEY_REQ, KADEMLIA2_PUBLISH_NOTES_REQ, KADEMLIA2_PUBLISH_RES,
    KADEMLIA2_PUBLISH_RES_ACK, KADEMLIA2_PUBLISH_SOURCE_REQ, KADEMLIA2_REQ, KADEMLIA2_RES,
    KADEMLIA2_SEARCH_KEY_REQ, KADEMLIA2_SEARCH_NOTES_REQ, KADEMLIA2_SEARCH_RES,
    KADEMLIA2_SEARCH_SOURCE_REQ, KADEMLIA_HELLO_REQ_DEPRECATED, KADEMLIA_HELLO_RES_DEPRECATED,
    KADEMLIA_PUBLISH_NOTES_REQ_DEPRECATED, KADEMLIA_PUBLISH_REQ_DEPRECATED,
    KADEMLIA_PUBLISH_RES_DEPRECATED, KADEMLIA_REQ_DEPRECATED, KADEMLIA_RES_DEPRECATED,
    KADEMLIA_SEARCH_NOTES_REQ_DEPRECATED, KADEMLIA_SEARCH_REQ_DEPRECATED,
    KADEMLIA_SEARCH_RES_DEPRECATED, OP_KADEMLIAHEADER, OP_KADEMLIAPACKEDPROT, TAG_COMPLETE_SOURCES,
    TAG_FILENAME, TAG_FILESIZE, TAG_FILETYPE, TAG_KADMISCOPTIONS, TAG_PUBLISHINFO,
    TAG_RUST_MULE_AGENT, TAG_SERVERDEST, TAG_SOURCEDEST, TAG_SOURCES, TAG_SOURCETYPE,
    TAG_SOURCEUDEST, TAGTYPE_UINT8,
};
pub use encode::{
    encode_kad1_res, encode_kad2_bootstrap_res, encode_kad2_hello, encode_kad2_hello_req,
    encode_kad2_publish_key_req, encode_kad2_publish_res_for_key,
    encode_kad2_publish_res_for_source, encode_kad2_publish_source_req, encode_kad2_req,
    encode_kad2_res, encode_kad2_search_key_req, encode_kad2_search_res_keyword,
    encode_kad2_search_res_sources, encode_kad2_search_source_req,
};
