//! Byte layouts of the outgoing KAD2 messages.

use vstd::prelude::*;
use crate::kad::KadId;
use vstd::utf8::encode_utf8;
use crate::kad::codec::{
    id_wire, u16_le, u32_le, u64_le, push_u8, push_u16_le, push_u32_le, push_u64_le, push_bytes,
    push_kad_id,
};
use crate::kad::wire::defs::{
    KadPacket, Kad2Contact, I2P_DEST_LEN, OP_KADEMLIAHEADER, TAG_COMPLETE_SOURCES, TAG_FILENAME,
    TAG_FILESIZE, TAG_FILETYPE, TAG_RUST_MULE_AGENT, TAG_SOURCES, TAG_SOURCEDEST, TAG_SOURCETYPE,
    TAG_SOURCEUDEST, TAGTYPE_ADDRESS, TAGTYPE_STRING, TAGTYPE_UINT32, TAGTYPE_UINT64,
    TAGTYPE_UINT8,
};

verus! {

pub open spec fn min_int(a: int, b: int) -> int {
    if a < b {
        a
    } else {
        b
    }
}

// ---- tags ----

pub open spec fn tag_uint8(id: u8, v: u8) -> Seq<u8> {
    seq![(TAGTYPE_UINT8 + 128) as u8, id, v]
}

pub open spec fn tag_uint32(id: u8, v: u32) -> Seq<u8> {
    seq![(TAGTYPE_UINT32 + 128) as u8, id] + u32_le(v)
}

pub open spec fn tag_uint64(id: u8, v: u64) -> Seq<u8> {
    seq![(TAGTYPE_UINT64 + 128) as u8, id] + u64_le(v)
}

/// A string tag; strings longer than 65535 bytes are cut there.
pub open spec fn tag_string(id: u8, s: Seq<u8>) -> Seq<u8> {
    let len = min_int(s.len() as int, 65535);
    seq![(TAGTYPE_STRING + 128) as u8, id] + u16_le(len as u16) + s.subrange(0, len)
}

pub open spec fn tag_address(id: u8, d: Seq<u8>) -> Seq<u8> {
    seq![(TAGTYPE_ADDRESS + 128) as u8, id] + d
}

fn write_tag_uint8(out: &mut Vec<u8>, id: u8, v: u8)
    ensures
        final(out)@ == old(out)@ + tag_uint8(id, v),
{
    out.push(TAGTYPE_UINT8 + 128);
    out.push(id);
    out.push(v);
    assert(out@ =~= old(out)@ + tag_uint8(id, v));
}

fn write_tag_uint32(out: &mut Vec<u8>, id: u8, v: u32)
    ensures
        final(out)@ == old(out)@ + tag_uint32(id, v),
{
    out.push(TAGTYPE_UINT32 + 128);
    out.push(id);
    push_u32_le(out, v);
    assert(out@ =~= old(out)@ + tag_uint32(id, v));
}

fn write_tag_uint64(out: &mut Vec<u8>, id: u8, v: u64)
    ensures
        final(out)@ == old(out)@ + tag_uint64(id, v),
{
    out.push(TAGTYPE_UINT64 + 128);
    out.push(id);
    push_u64_le(out, v);
    assert(out@ =~= old(out)@ + tag_uint64(id, v));
}

fn write_tag_string(out: &mut Vec<u8>, id: u8, s: &str)
    ensures
        final(out)@ == old(out)@ + tag_string(id, encode_utf8(s@)),
{
    out.push(TAGTYPE_STRING + 128);
    out.push(id);
    let b = s.as_bytes();
    let len: usize = if b.len() < 65535 {
        b.len()
    } else {
        65535
    };
    push_u16_le(out, len as u16);
    push_bytes(out, vstd::slice::slice_subrange(b, 0, len));
    assert(out@ =~= old(out)@ + tag_string(id, encode_utf8(s@)));
}

fn write_tag_address(out: &mut Vec<u8>, id: u8, d: &[u8; I2P_DEST_LEN])
    ensures
        final(out)@ == old(out)@ + tag_address(id, d@),
{
    out.push(TAGTYPE_ADDRESS + 128);
    out.push(id);
    push_bytes(out, d.as_slice());
    assert(out@ =~= old(out)@ + tag_address(id, d@));
}

/// Tags iMule needs to accept a source search result.
pub open spec fn source_taglist(d: Seq<u8>) -> Seq<u8> {
    seq![3u8] + tag_uint8(TAG_SOURCETYPE, 1) + tag_address(TAG_SOURCEDEST, d) + tag_address(
        TAG_SOURCEUDEST,
        d,
    )
}

/// Tags of a publish-source request; the file size tag only when known.
pub open spec fn publish_source_taglist(d: Seq<u8>, file_size: Option<u64>) -> Seq<u8> {
    let count: u8 = if file_size is Some {
        4
    } else {
        3
    };
    let base = seq![count] + tag_uint8(TAG_SOURCETYPE, 1) + tag_address(TAG_SOURCEDEST, d)
        + tag_address(TAG_SOURCEUDEST, d);
    match file_size {
        Some(sz) => base + tag_uint64(TAG_FILESIZE, sz),
        None => base,
    }
}

/// Tags of a keyword entry: name, size, and the two source counters iMule
/// requires; the file type only when known.
pub open spec fn keyword_taglist(name: Seq<u8>, size: u64, file_type: Option<Seq<u8>>) -> Seq<u8> {
    let count: u8 = if file_type is Some {
        5
    } else {
        4
    };
    let base = seq![count] + tag_string(TAG_FILENAME, name) + tag_uint64(TAG_FILESIZE, size)
        + tag_uint32(TAG_COMPLETE_SOURCES, 1) + tag_uint32(TAG_SOURCES, 1);
    match file_type {
        Some(t) => base + tag_string(TAG_FILETYPE, t),
        None => base,
    }
}

fn write_source_taglist(out: &mut Vec<u8>, d: &[u8; I2P_DEST_LEN])
    ensures
        final(out)@ == old(out)@ + source_taglist(d@),
{
    out.push(3);
    write_tag_uint8(out, TAG_SOURCETYPE, 1);
    write_tag_address(out, TAG_SOURCEDEST, d);
    write_tag_address(out, TAG_SOURCEUDEST, d);
    assert(out@ =~= old(out)@ + source_taglist(d@));
}

fn write_publish_source_taglist(out: &mut Vec<u8>, d: &[u8; I2P_DEST_LEN], file_size: Option<u64>)
    ensures
        final(out)@ == old(out)@ + publish_source_taglist(d@, file_size),
{
    let mut count: u8 = 3;
    if file_size.is_some() {
        count += 1;
    }
    out.push(count);
    write_tag_uint8(out, TAG_SOURCETYPE, 1);
    write_tag_address(out, TAG_SOURCEDEST, d);
    write_tag_address(out, TAG_SOURCEUDEST, d);
    if let Some(sz) = file_size {
        write_tag_uint64(out, TAG_FILESIZE, sz);
    }
    assert(out@ =~= old(out)@ + publish_source_taglist(d@, file_size));
}

pub open spec fn opt_str_bytes(o: Option<&str>) -> Option<Seq<u8>> {
    match o {
        Some(s) => Some(encode_utf8(s@)),
        None => None,
    }
}

fn write_keyword_taglist(out: &mut Vec<u8>, name: &str, size: u64, file_type: Option<&str>)
    ensures
        final(out)@ == old(out)@ + keyword_taglist(encode_utf8(name@), size, opt_str_bytes(file_type)),
{
    let mut count: u8 = 4;
    if file_type.is_some() {
        count += 1;
    }
    out.push(count);
    write_tag_string(out, TAG_FILENAME, name);
    write_tag_uint64(out, TAG_FILESIZE, size);
    write_tag_uint32(out, TAG_COMPLETE_SOURCES, 1);
    write_tag_uint32(out, TAG_SOURCES, 1);
    if let Some(t) = file_type {
        write_tag_string(out, TAG_FILETYPE, t);
    }
    assert(out@ =~= old(out)@ + keyword_taglist(
        encode_utf8(name@),
        size,
        opt_str_bytes(file_type),
    ));
}

// ---- messages ----

pub open spec fn packet_bytes(opcode: u8, payload: Seq<u8>) -> Seq<u8> {
    seq![OP_KADEMLIAHEADER, opcode] + payload
}

impl KadPacket {
    /// `<0x05><opcode><payload>`.
    pub fn encode(opcode: u8, payload: &[u8]) -> (out: Vec<u8>)
        ensures
            out@ == packet_bytes(opcode, payload@),
    {
        let mut out: Vec<u8> = Vec::new();
        out.push(OP_KADEMLIAHEADER);
        out.push(opcode);
        push_bytes(&mut out, payload);
        assert(out@ =~= packet_bytes(opcode, payload@));
        out
    }
}

pub open spec fn contact_wire(c: Kad2Contact) -> Seq<u8> {
    seq![c.kad_version] + id_wire(c.node_id) + c.udp_dest@
}

pub open spec fn contacts_wire(cs: Seq<Kad2Contact>) -> Seq<u8>
    decreases cs.len(),
{
    if cs.len() == 0 {
        Seq::empty()
    } else {
        contacts_wire(cs.drop_last()) + contact_wire(cs.last())
    }
}

fn write_contacts(out: &mut Vec<u8>, contacts: &[Kad2Contact], count: usize)
    requires
        count <= contacts@.len(),
    ensures
        final(out)@ == old(out)@ + contacts_wire(contacts@.subrange(0, count as int)),
{
    let mut k: usize = 0;
    while k < count
        invariant
            k <= count,
            count <= contacts@.len(),
            out@ == old(out)@ + contacts_wire(contacts@.subrange(0, k as int)),
        decreases count - k,
    {
        let c = &contacts[k];
        out.push(c.kad_version);
        push_kad_id(out, &c.node_id);
        push_bytes(out, c.udp_dest.as_slice());
        assert(contacts@.subrange(0, k + 1).drop_last() =~= contacts@.subrange(0, k as int));
        k += 1;
        assert(out@ =~= old(out)@ + contacts_wire(contacts@.subrange(0, k as int)));
    }
}

/// `<senderId><senderKadVersion u8><senderTcpDest 387><count u16><contacts>`,
/// with at most 65535 contacts.
pub open spec fn bootstrap_res_bytes(
    sender_id: KadId,
    ver: u8,
    dest: Seq<u8>,
    contacts: Seq<Kad2Contact>,
) -> Seq<u8> {
    let count = min_int(contacts.len() as int, 65535);
    id_wire(sender_id) + seq![ver] + dest + u16_le(count as u16) + contacts_wire(
        contacts.subrange(0, count),
    )
}

pub fn encode_kad2_bootstrap_res(
    sender_id: KadId,
    sender_kad_version: u8,
    sender_tcp_dest: &[u8; I2P_DEST_LEN],
    contacts: &[Kad2Contact],
) -> (out: Vec<u8>)
    ensures
        out@ == bootstrap_res_bytes(sender_id, sender_kad_version, sender_tcp_dest@, contacts@),
{
    let mut out: Vec<u8> = Vec::new();
    push_kad_id(&mut out, &sender_id);
    out.push(sender_kad_version);
    push_bytes(&mut out, sender_tcp_dest.as_slice());
    let count: usize = if contacts.len() < 65535 {
        contacts.len()
    } else {
        65535
    };
    push_u16_le(&mut out, count as u16);
    write_contacts(&mut out, contacts, count);
    assert(out@ =~= bootstrap_res_bytes(
        sender_id,
        sender_kad_version,
        sender_tcp_dest@,
        contacts@,
    ));
    out
}

/// The agent string this node announces in its HELLO taglist.
pub open spec fn agent_string() -> Seq<char> {
    "rust-mule/0.1.0"@
}

/// `<kadVersion><nodeId><udpDest><1><agent string tag>`.
pub open spec fn hello_bytes(ver: u8, id: KadId, dest: Seq<u8>, agent: Seq<u8>) -> Seq<u8> {
    seq![ver] + id_wire(id) + dest + seq![1u8] + tag_string(TAG_RUST_MULE_AGENT, agent)
}

/// The HELLO payload; the bytes of the agent tag are those of `agent_string()`.
pub fn encode_kad2_hello(my_kad_version: u8, my_id: KadId, my_udp_dest: &[u8; I2P_DEST_LEN]) -> (out:
    Vec<u8>)
    ensures
        exists|agent: &str|
            agent@ == agent_string() && #[trigger] out@ == hello_bytes(
                my_kad_version,
                my_id,
                my_udp_dest@,
                encode_utf8(agent@),
            ),
{
    let agent = "rust-mule/0.1.0";
    let mut out: Vec<u8> = Vec::new();
    out.push(my_kad_version);
    push_kad_id(&mut out, &my_id);
    push_bytes(&mut out, my_udp_dest.as_slice());
    out.push(1);
    write_tag_string(&mut out, TAG_RUST_MULE_AGENT, agent);
    assert(out@ =~= hello_bytes(my_kad_version, my_id, my_udp_dest@, encode_utf8(agent@)));
    out
}

/// `<kadVersion><nodeId><udpDest><0>` (empty taglist).
pub open spec fn hello_req_bytes(ver: u8, id: KadId, dest: Seq<u8>) -> Seq<u8> {
    seq![ver] + id_wire(id) + dest + seq![0u8]
}

pub fn encode_kad2_hello_req(my_kad_version: u8, my_id: KadId, my_udp_dest: &[u8; I2P_DEST_LEN]) -> (out:
    Vec<u8>)
    ensures
        out@ == hello_req_bytes(my_kad_version, my_id, my_udp_dest@),
{
    let mut out: Vec<u8> = Vec::new();
    out.push(my_kad_version);
    push_kad_id(&mut out, &my_id);
    push_bytes(&mut out, my_udp_dest.as_slice());
    out.push(0);
    assert(out@ =~= hello_req_bytes(my_kad_version, my_id, my_udp_dest@));
    out
}

/// The requested-contacts byte clamped to the representable 1..=31.
pub open spec fn clamp_contacts(c: u8) -> u8 {
    if c < 1 {
        1
    } else if c > 31 {
        31
    } else {
        c
    }
}

pub open spec fn req_bytes(c: u8, target: KadId, check: KadId, sender: KadId) -> Seq<u8> {
    seq![clamp_contacts(c)] + id_wire(target) + id_wire(check) + id_wire(sender)
}

/// `<contactCount u8><target><check><sender>`.
pub fn encode_kad2_req(requested_contacts: u8, target: KadId, check: KadId, sender_id: KadId) -> (out:
    Vec<u8>)
    ensures
        out@ == req_bytes(requested_contacts, target, check, sender_id),
{
    let c: u8 = if requested_contacts < 1 {
        1
    } else if requested_contacts > 31 {
        31
    } else {
        requested_contacts
    };
    let mut out: Vec<u8> = Vec::new();
    out.push(c);
    push_kad_id(&mut out, &target);
    push_kad_id(&mut out, &check);
    push_kad_id(&mut out, &sender_id);
    assert(out@ =~= req_bytes(requested_contacts, target, check, sender_id));
    out
}

/// `<target><count u8><contacts>`, with at most 255 contacts.
pub open spec fn res_bytes(target: KadId, contacts: Seq<Kad2Contact>) -> Seq<u8> {
    let count = min_int(contacts.len() as int, 255);
    id_wire(target) + seq![count as u8] + contacts_wire(contacts.subrange(0, count))
}

pub fn encode_kad2_res(target: KadId, contacts: &[Kad2Contact]) -> (out: Vec<u8>)
    ensures
        out@ == res_bytes(target, contacts@),
{
    let mut out: Vec<u8> = Vec::new();
    push_kad_id(&mut out, &target);
    let count: usize = if contacts.len() < 255 {
        contacts.len()
    } else {
        255
    };
    out.push(count as u8);
    write_contacts(&mut out, contacts, count);
    assert(out@ =~= res_bytes(target, contacts@));
    out
}

/// `<fileID><startPos u16 without its top bit><fileSize u64>`.
pub open spec fn search_source_req_bytes(target: KadId, start: u16, size: u64) -> Seq<u8> {
    id_wire(target) + u16_le(start % 32768) + u64_le(size)
}

pub fn encode_kad2_search_source_req(target: KadId, start_position: u16, file_size: u64) -> (out: Vec<
    u8,
>)
    ensures
        out@ == search_source_req_bytes(target, start_position, file_size),
{
    let mut out: Vec<u8> = Vec::new();
    push_kad_id(&mut out, &target);
    push_u16_le(&mut out, start_position % 32768);
    push_u64_le(&mut out, file_size);
    assert(out@ =~= search_source_req_bytes(target, start_position, file_size));
    out
}

/// `<keyword><startPos u16 without its top bit>`: never a restrictive search.
pub open spec fn search_key_req_bytes(target: KadId, start: u16) -> Seq<u8> {
    id_wire(target) + u16_le(start % 32768)
}

pub fn encode_kad2_search_key_req(target: KadId, start_position: u16) -> (out: Vec<u8>)
    ensures
        out@ == search_key_req_bytes(target, start_position),
{
    let mut out: Vec<u8> = Vec::new();
    push_kad_id(&mut out, &target);
    push_u16_le(&mut out, start_position % 32768);
    assert(out@ =~= search_key_req_bytes(target, start_position));
    out
}

/// `<fileID><sourceID><taglist>`.
pub open spec fn publish_source_req_bytes(
    file: KadId,
    source: KadId,
    dest: Seq<u8>,
    file_size: Option<u64>,
) -> Seq<u8> {
    id_wire(file) + id_wire(source) + publish_source_taglist(dest, file_size)
}

pub fn encode_kad2_publish_source_req(
    file: KadId,
    source: KadId,
    source_udp_dest: &[u8; I2P_DEST_LEN],
    file_size: Option<u64>,
) -> (out: Vec<u8>)
    ensures
        out@ == publish_source_req_bytes(file, source, source_udp_dest@, file_size),
{
    let mut out: Vec<u8> = Vec::new();
    push_kad_id(&mut out, &file);
    push_kad_id(&mut out, &source);
    write_publish_source_taglist(&mut out, source_udp_dest, file_size);
    assert(out@ =~= publish_source_req_bytes(file, source, source_udp_dest@, file_size));
    out
}

pub open spec fn keyword_entry_wire(e: (KadId, &str, u64, Option<&str>)) -> Seq<u8> {
    id_wire(e.0) + keyword_taglist(encode_utf8(e.1@), e.2, opt_str_bytes(e.3))
}

pub open spec fn keyword_entries_wire(es: Seq<(KadId, &str, u64, Option<&str>)>) -> Seq<u8>
    decreases es.len(),
{
    if es.len() == 0 {
        Seq::empty()
    } else {
        keyword_entries_wire(es.drop_last()) + keyword_entry_wire(es.last())
    }
}

/// `<keyword><count u16><file><taglist>...`, with at most 65535 entries.
pub open spec fn publish_key_req_bytes(keyword: KadId, es: Seq<(KadId, &str, u64, Option<&str>)>) -> Seq<
    u8,
> {
    let count = min_int(es.len() as int, 65535);
    id_wire(keyword) + u16_le(count as u16) + keyword_entries_wire(es.subrange(0, count))
}

pub fn encode_kad2_publish_key_req(keyword: KadId, entries: &[(KadId, &str, u64, Option<&str>)]) -> (out:
    Vec<u8>)
    ensures
        out@ == publish_key_req_bytes(keyword, entries@),
{
    let mut out: Vec<u8> = Vec::new();
    push_kad_id(&mut out, &keyword);
    let count: usize = if entries.len() < 65535 {
        entries.len()
    } else {
        65535
    };
    push_u16_le(&mut out, count as u16);
    let ghost prefix = out@;
    let mut k: usize = 0;
    while k < count
        invariant
            k <= count,
            count <= entries@.len(),
            out@ == prefix + keyword_entries_wire(entries@.subrange(0, k as int)),
        decreases count - k,
    {
        let e = &entries[k];
        push_kad_id(&mut out, &e.0);
        write_keyword_taglist(&mut out, e.1, e.2, e.3);
        assert(entries@.subrange(0, k + 1).drop_last() =~= entries@.subrange(0, k as int));
        k += 1;
        assert(out@ =~= prefix + keyword_entries_wire(entries@.subrange(0, k as int)));
    }
    assert(out@ =~= publish_key_req_bytes(keyword, entries@));
    out
}

pub open spec fn publish_res_source_bytes(file: KadId, sources: u32, complete: u32, load: u8) -> Seq<u8> {
    id_wire(file) + u32_le(sources) + u32_le(complete) + seq![load]
}

/// `<file><sourceCount u32><completeCount u32><load u8>`.
pub fn encode_kad2_publish_res_for_source(
    file: KadId,
    source_count: u32,
    complete_count: u32,
    load: u8,
) -> (out: Vec<u8>)
    ensures
        out@ == publish_res_source_bytes(file, source_count, complete_count, load),
{
    let mut out: Vec<u8> = Vec::new();
    push_kad_id(&mut out, &file);
    push_u32_le(&mut out, source_count);
    push_u32_le(&mut out, complete_count);
    out.push(load);
    assert(out@ =~= publish_res_source_bytes(file, source_count, complete_count, load));
    out
}

pub open spec fn publish_res_key_bytes(key: KadId, load: u8) -> Seq<u8> {
    id_wire(key) + seq![load]
}

/// `<key><load u8>`.
pub fn encode_kad2_publish_res_for_key(key: KadId, load: u8) -> (out: Vec<u8>)
    ensures
        out@ == publish_res_key_bytes(key, load),
{
    let mut out: Vec<u8> = Vec::new();
    push_kad_id(&mut out, &key);
    out.push(load);
    assert(out@ =~= publish_res_key_bytes(key, load));
    out
}

pub open spec fn source_result_wire(r: (KadId, [u8; I2P_DEST_LEN])) -> Seq<u8> {
    id_wire(r.0) + source_taglist(r.1@)
}

pub open spec fn source_results_wire(rs: Seq<(KadId, [u8; I2P_DEST_LEN])>) -> Seq<u8>
    decreases rs.len(),
{
    if rs.len() == 0 {
        Seq::empty()
    } else {
        source_results_wire(rs.drop_last()) + source_result_wire(rs.last())
    }
}

/// `<sender><key><count u16><answer><taglist>...`, at most 65535 results.
pub open spec fn search_res_sources_bytes(
    my_id: KadId,
    key: KadId,
    rs: Seq<(KadId, [u8; I2P_DEST_LEN])>,
) -> Seq<u8> {
    let count = min_int(rs.len() as int, 65535);
    id_wire(my_id) + id_wire(key) + u16_le(count as u16) + source_results_wire(rs.subrange(0, count))
}

pub fn encode_kad2_search_res_sources(
    my_id: KadId,
    key: KadId,
    results: &[(KadId, [u8; I2P_DEST_LEN])],
) -> (out: Vec<u8>)
    ensures
        out@ == search_res_sources_bytes(my_id, key, results@),
{
    let mut out: Vec<u8> = Vec::new();
    push_kad_id(&mut out, &my_id);
    push_kad_id(&mut out, &key);
    let count: usize = if results.len() < 65535 {
        results.len()
    } else {
        65535
    };
    push_u16_le(&mut out, count as u16);
    let ghost prefix = out@;
    let mut k: usize = 0;
    while k < count
        invariant
            k <= count,
            count <= results@.len(),
            out@ == prefix + source_results_wire(results@.subrange(0, k as int)),
        decreases count - k,
    {
        let r = &results[k];
        push_kad_id(&mut out, &r.0);
        write_source_taglist(&mut out, &r.1);
        assert(results@.subrange(0, k + 1).drop_last() =~= results@.subrange(0, k as int));
        k += 1;
        assert(out@ =~= prefix + source_results_wire(results@.subrange(0, k as int)));
    }
    assert(out@ =~= search_res_sources_bytes(my_id, key, results@));
    out
}

pub open spec fn opt_string_bytes(o: Option<String>) -> Option<Seq<u8>> {
    match o {
        Some(s) => Some(encode_utf8(s@)),
        None => None,
    }
}

pub open spec fn keyword_result_wire(r: (KadId, String, u64, Option<String>)) -> Seq<u8> {
    id_wire(r.0) + keyword_taglist(encode_utf8(r.1@), r.2, opt_string_bytes(r.3))
}

pub open spec fn keyword_results_wire(rs: Seq<(KadId, String, u64, Option<String>)>) -> Seq<u8>
    decreases rs.len(),
{
    if rs.len() == 0 {
        Seq::empty()
    } else {
        keyword_results_wire(rs.drop_last()) + keyword_result_wire(rs.last())
    }
}

pub open spec fn search_res_keyword_bytes(
    my_id: KadId,
    keyword: KadId,
    rs: Seq<(KadId, String, u64, Option<String>)>,
) -> Seq<u8> {
    let count = min_int(rs.len() as int, 65535);
    id_wire(my_id) + id_wire(keyword) + u16_le(count as u16) + keyword_results_wire(
        rs.subrange(0, count),
    )
}

/// Keyword search results: same container as source results, keyword taglists.
pub fn encode_kad2_search_res_keyword(
    my_id: KadId,
    keyword: KadId,
    results: &[(KadId, String, u64, Option<String>)],
) -> (out: Vec<u8>)
    ensures
        out@ == search_res_keyword_bytes(my_id, keyword, results@),
{
    let mut out: Vec<u8> = Vec::new();
    push_kad_id(&mut out, &my_id);
    push_kad_id(&mut out, &keyword);
    let count: usize = if results.len() < 65535 {
        results.len()
    } else {
        65535
    };
    push_u16_le(&mut out, count as u16);
    let ghost prefix = out@;
    let mut k: usize = 0;
    while k < count
        invariant
            k <= count,
            count <= results@.len(),
            out@ == prefix + keyword_results_wire(results@.subrange(0, k as int)),
        decreases count - k,
    {
        let r = &results[k];
        push_kad_id(&mut out, &r.0);
        let ft: Option<&str> = match &r.3 {
            Some(t) => Some(t.as_str()),
            None => None,
        };
        assert(opt_str_bytes(ft) == opt_string_bytes(r.3));
        write_keyword_taglist(&mut out, r.1.as_str(), r.2, ft);
        assert(results@.subrange(0, k + 1).drop_last() =~= results@.subrange(0, k as int));
        k += 1;
        assert(out@ =~= prefix + keyword_results_wire(results@.subrange(0, k as int)));
    }
    assert(out@ =~= search_res_keyword_bytes(my_id, keyword, results@));
    out
}

pub open spec fn kad1_contact_wire(c: (KadId, [u8; I2P_DEST_LEN])) -> Seq<u8> {
    id_wire(c.0) + c.1@ + c.1@ + seq![3u8]
}

pub open spec fn kad1_contacts_wire(cs: Seq<(KadId, [u8; I2P_DEST_LEN])>) -> Seq<u8>
    decreases cs.len(),
{
    if cs.len() == 0 {
        Seq::empty()
    } else {
        kad1_contacts_wire(cs.drop_last()) + kad1_contact_wire(cs.last())
    }
}

/// `<target><count u8><clientId><udpDest><tcpDest = udpDest><type 3>...`,
/// at most 255 contacts.
pub open spec fn kad1_res_bytes(target: KadId, cs: Seq<(KadId, [u8; I2P_DEST_LEN])>) -> Seq<u8> {
    let count = min_int(cs.len() as int, 255);
    id_wire(target) + seq![count as u8] + kad1_contacts_wire(cs.subrange(0, count))
}

pub fn encode_kad1_res(target: KadId, contacts: &[(KadId, [u8; I2P_DEST_LEN])]) -> (out: Vec<u8>)
    ensures
        out@ == kad1_res_bytes(target, contacts@),
{
    let mut out: Vec<u8> = Vec::new();
    push_kad_id(&mut out, &target);
    let count: usize = if contacts.len() < 255 {
        contacts.len()
    } else {
        255
    };
    out.push(count as u8);
    let ghost prefix = out@;
    let mut k: usize = 0;
    while k < count
        invariant
            k <= count,
            count <= contacts@.len(),
            out@ == prefix + kad1_contacts_wire(contacts@.subrange(0, k as int)),
        decreases count - k,
    {
        let c = &contacts[k];
        push_kad_id(&mut out, &c.0);
        push_bytes(&mut out, c.1.as_slice());
        push_bytes(&mut out, c.1.as_slice());
        out.push(3);
        assert(contacts@.subrange(0, k + 1).drop_last() =~= contacts@.subrange(0, k as int));
        k += 1;
        assert(out@ =~= prefix + kad1_contacts_wire(contacts@.subrange(0, k as int)));
    }
    assert(out@ =~= kad1_res_bytes(target, contacts@));
    out
}

} // verus!
