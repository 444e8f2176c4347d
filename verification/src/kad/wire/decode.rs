//! Decoders for incoming KAD2/KAD1 payloads. Each decoder states, over the
//! payload bytes, exactly when it succeeds, what it returns, and at which
//! offset it runs out of input otherwise.

use vstd::prelude::*;
use crate::kad::KadId;
use crate::kad::codec::{le16, le32, le64, id_at};
use crate::kad::wire::defs::{
    WireError, Kad2BootstrapRes, Kad2Contact, Kad2Hello, Kad2Req, Kad2Res, Kad1Req,
    Kad2SearchSourceReq, Kad2SearchKeyReq, Kad2PublishSourceReq, Kad2PublishKeyReq,
    Kad2PublishKeyEntry, Kad2PublishRes, Kad2PublishResKey, Kad2SearchRes, Kad2SearchResEntry,
    Kad2SearchResSources, Kad2SearchResSourceResult, Kad2PublishKeyReqLenient, SearchInfoModel,
    TaglistSearchInfo, opt_str_view, opt_arr_view, best_udp_dest_model,
};
use crate::kad::wire::reader::{Reader, is_eof_at, id_eof};
use crate::kad::wire::taglist::{
    TagFail, HelloModel, matches_fail, hello_taglist, search_taglist, read_hello_taglist,
    read_search_taglist,
};
use crate::text::{decimal, decimal_string, hex_lower, to_hex_lower};
use crate::kad::packed::{inflate_spec, inflate_zlib};
use crate::kad::wire::defs::{KadPacket, OP_KADEMLIAHEADER, OP_KADEMLIAPACKEDPROT};

verus! {

/// The allocation hint for `declared_count` entries of at least
/// `min_entry_wire_bytes` each when only `remaining_bytes` are left.
pub fn clamp_allocation_count_by_remaining(
    declared_count: usize,
    remaining_bytes: usize,
    min_entry_wire_bytes: usize,
) -> (n: usize)
    ensures
        min_entry_wire_bytes == 0 ==> n == declared_count,
        min_entry_wire_bytes > 0 ==> n == (if declared_count < remaining_bytes / min_entry_wire_bytes {
            declared_count
        } else {
            remaining_bytes / min_entry_wire_bytes
        }),
{
    if min_entry_wire_bytes == 0 {
        return declared_count;
    }
    let cap = remaining_bytes / min_entry_wire_bytes;
    if declared_count < cap {
        declared_count
    } else {
        cap
    }
}

pub open spec fn invalid_format(e: WireError, msg: Seq<char>) -> bool {
    e matches WireError::InvalidFormat(m) && m@ == msg
}

// ---- contacts ----

pub open spec fn contact_at(c: Kad2Contact, b: Seq<u8>, p: int) -> bool {
    &&& c.kad_version == b[p]
    &&& c.node_id.0@ == id_at(b, p + 1)
    &&& c.udp_dest@ == b.subrange(p + 17, p + 404)
}

/// Where reading a contact at `p` runs out of input.
pub open spec fn contact_eof(p: int, n: int) -> int {
    if n < p + 1 {
        p
    } else if n < p + 17 {
        id_eof(p + 1, n)
    } else {
        p + 17
    }
}

fn read_contact(r: &mut Reader) -> (res: Result<Kad2Contact, WireError>)
    requires
        old(r).wf(),
    ensures
        final(r).wf(),
        final(r).data() == old(r).data(),
        old(r).pos() + 404 <= old(r).data().len() ==> res is Ok && contact_at(
            res->Ok_0,
            old(r).data(),
            old(r).pos(),
        ) && final(r).pos() == old(r).pos() + 404,
        old(r).pos() + 404 > old(r).data().len() ==> res is Err && is_eof_at(
            res->Err_0,
            contact_eof(old(r).pos(), old(r).data().len() as int),
        ),
{
    let kad_version = r.read_u8()?;
    let node_id = r.read_uint128_emule()?;
    let udp_dest = r.read_i2p_dest()?;
    Ok(Kad2Contact { kad_version, node_id, udp_dest })
}

/// Reads `count` contacts of 404 bytes each starting at the reader position.
fn read_contacts(r: &mut Reader, count: usize) -> (res: Result<Vec<Kad2Contact>, WireError>)
    requires
        old(r).wf(),
    ensures
        final(r).wf(),
        final(r).data() == old(r).data(),
        old(r).pos() + 404 * count <= old(r).data().len() ==> res is Ok && res->Ok_0@.len()
            == count && (forall|k: int|
            0 <= k < count ==> contact_at(
                #[trigger] res->Ok_0@[k],
                old(r).data(),
                old(r).pos() + 404 * k,
            )) && final(r).pos() == old(r).pos() + 404 * count,
        old(r).pos() + 404 * count > old(r).data().len() ==> res is Err && is_eof_at(
            res->Err_0,
            contact_eof(
                old(r).pos() + 404 * ((old(r).data().len() - old(r).pos()) / 404),
                old(r).data().len() as int,
            ),
        ),
{
    let ghost b = r.data();
    let ghost p0 = r.pos();
    let n = r.b.len();
    let alloc = clamp_allocation_count_by_remaining(count, r.remaining(), 404);
    let mut out: Vec<Kad2Contact> = Vec::with_capacity(alloc);
    let mut k: usize = 0;
    while k < count
        invariant
            r.wf(),
            r.data() == b,
            b == old(r).data(),
            p0 == old(r).pos(),
            n == b.len(),
            k <= count,
            r.pos() == p0 + 404 * k,
            r.pos() <= n,
            out@.len() == k,
            forall|j: int| 0 <= j < k ==> contact_at(#[trigger] out@[j], b, p0 + 404 * j),
        decreases count - k,
    {
        let ghost pk = r.pos();
        match read_contact(r) {
            Ok(c) => {
                out.push(c);
            },
            Err(e) => {
                proof {
                    assert(pk + 404 > n);
                    assert((n - p0) / 404 == k) by (nonlinear_arith)
                        requires
                            p0 + 404 * k <= n,
                            n < p0 + 404 * k + 404,
                    ;
                    assert(p0 + 404 * count > n) by (nonlinear_arith)
                        requires
                            k < count,
                            n < p0 + 404 * k + 404,
                    ;
                }
                return Err(e);
            },
        }
        k += 1;
    }
    Ok(out)
}

// ---- bootstrap response ----

pub open spec fn bootstrap_fits(b: Seq<u8>) -> bool {
    b.len() >= 406 && b.len() >= 406 + 404 * le16(b, 404)
}

pub open spec fn bootstrap_eof(b: Seq<u8>) -> int {
    let n = b.len() as int;
    if n < 16 {
        id_eof(0, n)
    } else if n < 17 {
        16
    } else if n < 404 {
        17
    } else if n < 406 {
        404
    } else {
        contact_eof(406 + 404 * ((n - 406) / 404), n)
    }
}

pub open spec fn bootstrap_res_at(v: Kad2BootstrapRes, b: Seq<u8>) -> bool {
    &&& v.sender_id.0@ == id_at(b, 0)
    &&& v.sender_kad_version == b[16]
    &&& v.sender_tcp_dest@ == b.subrange(17, 404)
    &&& v.contacts@.len() == le16(b, 404)
    &&& forall|k: int|
        0 <= k < v.contacts@.len() ==> contact_at(#[trigger] v.contacts@[k], b, 406 + 404 * k)
}

/// `<senderId><senderKadVersion u8><senderTcpDest 387><count u16><contact>*count`.
pub fn decode_kad2_bootstrap_res(payload: &[u8]) -> (res: Result<Kad2BootstrapRes, WireError>)
    ensures
        bootstrap_fits(payload@) ==> res is Ok && bootstrap_res_at(res->Ok_0, payload@),
        !bootstrap_fits(payload@) ==> res is Err && is_eof_at(res->Err_0, bootstrap_eof(payload@)),
{
    let mut r = Reader::new(payload);
    let sender_id = r.read_uint128_emule()?;
    let sender_kad_version = r.read_u8()?;
    let sender_tcp_dest = r.read_i2p_dest()?;
    let count = r.read_u16_le()? as usize;
    let contacts = read_contacts(&mut r, count)?;
    Ok(Kad2BootstrapRes { sender_id, sender_kad_version, sender_tcp_dest, contacts })
}

// ---- hello ----

pub open spec fn hello_decode(b: Seq<u8>) -> Result<(u8, Seq<u8>, Seq<u8>, HelloModel), TagFail> {
    let n = b.len() as int;
    if n < 1 {
        Err(TagFail::Eof(0))
    } else if n < 17 {
        Err(TagFail::Eof(id_eof(1, n)))
    } else if n < 404 {
        Err(TagFail::Eof(17))
    } else {
        match hello_taglist(b, 404) {
            Ok((m, _)) => Ok((b[0], id_at(b, 1), b.subrange(17, 404), m)),
            Err(f) => Err(f),
        }
    }
}

/// `<kadVersion u8><nodeId><udpDest 387><taglist>`.
pub fn decode_kad2_hello(payload: &[u8]) -> (res: Result<Kad2Hello, WireError>)
    ensures
        match hello_decode(payload@) {
            Ok((ver, id, dest, m)) => res is Ok && res->Ok_0.kad_version == ver
                && res->Ok_0.node_id.0@ == id && res->Ok_0.udp_dest@ == dest && res->Ok_0.tags@
                == m.ints && opt_str_view(res->Ok_0.agent) == m.agent,
            Err(f) => res is Err && matches_fail(res->Err_0, f),
        },
{
    let mut r = Reader::new(payload);
    let kad_version = r.read_u8()?;
    let node_id = r.read_uint128_emule()?;
    let udp_dest = r.read_i2p_dest()?;
    let (tags, agent) = read_hello_taglist(&mut r)?;
    Ok(Kad2Hello { kad_version, node_id, udp_dest, tags, agent })
}

// ---- lookups ----

pub open spec fn req_count_byte(b: Seq<u8>) -> int {
    b[0] as int % 32
}

/// `<contactCount u8 (low 5 bits, non-zero)><target><check>[<sender>]`.
pub fn decode_kad2_req(payload: &[u8]) -> (res: Result<Kad2Req, WireError>)
    ensures
        ({
            let b = payload@;
            let n = b.len() as int;
            &&& n < 1 ==> res is Err && is_eof_at(res->Err_0, 0)
            &&& n >= 1 && req_count_byte(b) == 0 ==> res is Err && invalid_format(
                res->Err_0,
                "kademlia2 req requested_contacts=0"@,
            )
            &&& n >= 1 && req_count_byte(b) != 0 && n < 17 ==> res is Err && is_eof_at(
                res->Err_0,
                id_eof(1, n),
            )
            &&& n >= 17 && req_count_byte(b) != 0 && n < 33 ==> res is Err && is_eof_at(
                res->Err_0,
                id_eof(17, n),
            )
            &&& n >= 33 && req_count_byte(b) != 0 ==> res is Ok && res->Ok_0.requested_contacts
                == req_count_byte(b) && res->Ok_0.target.0@ == id_at(b, 1) && res->Ok_0.check.0@
                == id_at(b, 17) && (n >= 49 ==> res->Ok_0.sender_id is Some
                && res->Ok_0.sender_id->Some_0.0@ == id_at(b, 33)) && (n < 49
                ==> res->Ok_0.sender_id is None)
        }),
{
    let mut r = Reader::new(payload);
    let requested_contacts = r.read_u8()? % 32;
    if requested_contacts == 0 {
        return Err(WireError::InvalidFormat(String::from_str("kademlia2 req requested_contacts=0")));
    }
    let target = r.read_uint128_emule()?;
    let check = r.read_uint128_emule()?;
    let sender_id = if r.remaining() >= 16 {
        Some(r.read_uint128_emule()?)
    } else {
        None
    };
    Ok(Kad2Req { requested_contacts, target, check, sender_id })
}

pub open spec fn res_fits(b: Seq<u8>) -> bool {
    b.len() >= 17 && b.len() >= 17 + 404 * (b[16] as int)
}

pub open spec fn res_eof(b: Seq<u8>) -> int {
    let n = b.len() as int;
    if n < 16 {
        id_eof(0, n)
    } else if n < 17 {
        16
    } else {
        contact_eof(17 + 404 * ((n - 17) / 404), n)
    }
}

/// `<target><count u8><contact>*count`.
pub fn decode_kad2_res(payload: &[u8]) -> (res: Result<Kad2Res, WireError>)
    ensures
        res_fits(payload@) ==> res is Ok && res->Ok_0.target.0@ == id_at(payload@, 0)
            && res->Ok_0.contacts@.len() == payload@[16] && (forall|k: int|
            0 <= k < res->Ok_0.contacts@.len() ==> contact_at(
                #[trigger] res->Ok_0.contacts@[k],
                payload@,
                17 + 404 * k,
            )),
        !res_fits(payload@) ==> res is Err && is_eof_at(res->Err_0, res_eof(payload@)),
{
    let mut r = Reader::new(payload);
    let target = r.read_uint128_emule()?;
    let count = r.read_u8()? as usize;
    let contacts = read_contacts(&mut r, count)?;
    Ok(Kad2Res { target, contacts })
}

/// `<kind u8 (low 5 bits, non-zero)><target><check><sender>`.
pub fn decode_kad1_req(payload: &[u8]) -> (res: Result<Kad1Req, WireError>)
    ensures
        ({
            let b = payload@;
            let n = b.len() as int;
            &&& n < 1 ==> res is Err && is_eof_at(res->Err_0, 0)
            &&& n >= 1 && req_count_byte(b) == 0 ==> res is Err && invalid_format(
                res->Err_0,
                "kademlia req kind=0"@,
            )
            &&& n >= 1 && req_count_byte(b) != 0 && n < 17 ==> res is Err && is_eof_at(
                res->Err_0,
                id_eof(1, n),
            )
            &&& n >= 17 && req_count_byte(b) != 0 && n < 33 ==> res is Err && is_eof_at(
                res->Err_0,
                id_eof(17, n),
            )
            &&& n >= 33 && req_count_byte(b) != 0 && n < 49 ==> res is Err && is_eof_at(
                res->Err_0,
                id_eof(33, n),
            )
            &&& n >= 49 && req_count_byte(b) != 0 ==> res is Ok && res->Ok_0.kind == req_count_byte(b)
                && res->Ok_0.target.0@ == id_at(b, 1) && res->Ok_0.check.0@ == id_at(b, 17)
                && res->Ok_0.sender_id.0@ == id_at(b, 33)
        }),
{
    let mut r = Reader::new(payload);
    let kind = r.read_u8()? % 32;
    if kind == 0 {
        return Err(WireError::InvalidFormat(String::from_str("kademlia req kind=0")));
    }
    let target = r.read_uint128_emule()?;
    let check = r.read_uint128_emule()?;
    let sender_id = r.read_uint128_emule()?;
    Ok(Kad1Req { kind, target, check, sender_id })
}

// ---- search and publish requests ----

/// `<fileID><startPos u16 (top bit masked)><fileSize u64>`.
pub fn decode_kad2_search_source_req(payload: &[u8]) -> (res: Result<Kad2SearchSourceReq, WireError>)
    ensures
        ({
            let b = payload@;
            let n = b.len() as int;
            &&& n < 16 ==> res is Err && is_eof_at(res->Err_0, id_eof(0, n))
            &&& 16 <= n < 18 ==> res is Err && is_eof_at(res->Err_0, 16)
            &&& 18 <= n < 22 ==> res is Err && is_eof_at(res->Err_0, 18)
            &&& 22 <= n < 26 ==> res is Err && is_eof_at(res->Err_0, 22)
            &&& n >= 26 ==> res is Ok && res->Ok_0.target.0@ == id_at(b, 0)
                && res->Ok_0.start_position == le16(b, 16) % 32768 && res->Ok_0.file_size == le64(
                b,
                18,
            )
        }),
{
    let mut r = Reader::new(payload);
    let target = r.read_uint128_emule()?;
    let start_position = r.read_u16_le()? % 32768;
    let file_size = r.read_u64_le()?;
    Ok(Kad2SearchSourceReq { target, start_position, file_size })
}

/// `<keyword><startPos u16>`; the top bit of startPos marks a restrictive search.
pub fn decode_kad2_search_key_req(payload: &[u8]) -> (res: Result<Kad2SearchKeyReq, WireError>)
    ensures
        ({
            let b = payload@;
            let n = b.len() as int;
            &&& n < 16 ==> res is Err && is_eof_at(res->Err_0, id_eof(0, n))
            &&& 16 <= n < 18 ==> res is Err && is_eof_at(res->Err_0, 16)
            &&& n >= 18 ==> res is Ok && res->Ok_0.target.0@ == id_at(b, 0)
                && res->Ok_0.start_position == le16(b, 16) % 32768 && res->Ok_0.restrictive == (
            le16(b, 16) >= 32768)
        }),
{
    let mut r = Reader::new(payload);
    let target = r.read_uint128_emule()?;
    let start_raw = r.read_u16_le()?;
    let restrictive = start_raw >= 32768;
    let start_position = start_raw % 32768;
    Ok(Kad2SearchKeyReq { target, start_position, restrictive })
}

/// The `<fileID><sourceID>` prefix of a publish-source request.
pub fn decode_kad2_publish_source_req_min(payload: &[u8]) -> (res: Result<Kad2PublishSourceReq, WireError>)
    ensures
        ({
            let b = payload@;
            let n = b.len() as int;
            &&& n < 16 ==> res is Err && is_eof_at(res->Err_0, id_eof(0, n))
            &&& 16 <= n < 32 ==> res is Err && is_eof_at(res->Err_0, id_eof(16, n))
            &&& n >= 32 ==> res is Ok && res->Ok_0.file.0@ == id_at(b, 0) && res->Ok_0.source.0@
                == id_at(b, 16)
        }),
{
    let mut r = Reader::new(payload);
    let file = r.read_uint128_emule()?;
    let source = r.read_uint128_emule()?;
    Ok(Kad2PublishSourceReq { file, source })
}

/// `<file><sourceCount u32><completeCount u32><load u8>`.
pub fn decode_kad2_publish_res(payload: &[u8]) -> (res: Result<Kad2PublishRes, WireError>)
    ensures
        ({
            let b = payload@;
            let n = b.len() as int;
            &&& n < 16 ==> res is Err && is_eof_at(res->Err_0, id_eof(0, n))
            &&& 16 <= n < 20 ==> res is Err && is_eof_at(res->Err_0, 16)
            &&& 20 <= n < 24 ==> res is Err && is_eof_at(res->Err_0, 20)
            &&& n == 24 ==> res is Err && is_eof_at(res->Err_0, 24)
            &&& n >= 25 ==> res is Ok && res->Ok_0.file.0@ == id_at(b, 0)
                && res->Ok_0.source_count == le32(b, 16) && res->Ok_0.complete_count == le32(b, 20)
                && res->Ok_0.load == b[24]
        }),
{
    let mut r = Reader::new(payload);
    let file = r.read_uint128_emule()?;
    let source_count = r.read_u32_le()?;
    let complete_count = r.read_u32_le()?;
    let load = r.read_u8()?;
    Ok(Kad2PublishRes { file, source_count, complete_count, load })
}

/// `<key><load u8>`.
pub fn decode_kad2_publish_res_key(payload: &[u8]) -> (res: Result<Kad2PublishResKey, WireError>)
    ensures
        ({
            let b = payload@;
            let n = b.len() as int;
            &&& n < 16 ==> res is Err && is_eof_at(res->Err_0, id_eof(0, n))
            &&& n == 16 ==> res is Err && is_eof_at(res->Err_0, 16)
            &&& n >= 17 ==> res is Ok && res->Ok_0.key.0@ == id_at(b, 0) && res->Ok_0.load == b[16]
        }),
{
    let mut r = Reader::new(payload);
    let key = r.read_uint128_emule()?;
    let load = r.read_u8()?;
    Ok(Kad2PublishResKey { key, load })
}

// ---- result lists ----

/// `count` entries `<id><taglist>` from `p`, appended to `acc`.
pub open spec fn search_entries(
    b: Seq<u8>,
    p: int,
    count: nat,
    acc: Seq<(Seq<u8>, SearchInfoModel)>,
    lenient: bool,
) -> Result<Seq<(Seq<u8>, SearchInfoModel)>, TagFail>
    decreases count,
{
    if count == 0 {
        Ok(acc)
    } else if p + 16 > b.len() {
        Err(TagFail::Eof(id_eof(p, b.len() as int)))
    } else {
        match search_taglist(b, p + 16, lenient) {
            Err(f) => Err(f),
            Ok((m, q)) => search_entries(
                b,
                q,
                (count - 1) as nat,
                acc.push((id_at(b, p), m)),
                lenient,
            ),
        }
    }
}

pub open spec fn entry_model(e: Kad2SearchResEntry) -> (Seq<u8>, SearchInfoModel) {
    (e.answer.0@, e.tags@)
}

fn read_search_entries(r: &mut Reader, count: usize) -> (res: Result<Vec<Kad2SearchResEntry>, WireError>)
    requires
        old(r).wf(),
    ensures
        match search_entries(old(r).data(), old(r).pos(), count as nat, seq![], false) {
            Ok(s) => res is Ok && res->Ok_0@.map_values(|e: Kad2SearchResEntry| entry_model(e)) == s,
            Err(f) => res is Err && matches_fail(res->Err_0, f),
        },
{
    let ghost b = r.data();
    let ghost p0 = r.pos();
    let alloc = clamp_allocation_count_by_remaining(count, r.remaining(), 17);
    let mut out: Vec<Kad2SearchResEntry> = Vec::with_capacity(alloc);
    assert(out@.map_values(|e: Kad2SearchResEntry| entry_model(e)) =~= seq![]);
    let mut k: usize = 0;
    while k < count
        invariant
            r.wf(),
            r.data() == b,
            b == old(r).data(),
            p0 == old(r).pos(),
            k <= count,
            search_entries(b, p0, count as nat, seq![], false) == search_entries(
                b,
                r.pos(),
                (count - k) as nat,
                out@.map_values(|e: Kad2SearchResEntry| entry_model(e)),
                false,
            ),
        decreases count - k,
    {
        let ghost before = out@;
        let answer = r.read_uint128_emule()?;
        let tags = read_search_taglist(r, false)?;
        let entry = Kad2SearchResEntry { answer, tags };
        out.push(entry);
        assert(out@.map_values(|e: Kad2SearchResEntry| entry_model(e)) =~= before.map_values(
            |e: Kad2SearchResEntry| entry_model(e),
        ).push(entry_model(entry)));
        k += 1;
    }
    Ok(out)
}

pub open spec fn search_res_decode(b: Seq<u8>) -> Result<
    (Seq<u8>, Seq<u8>, Seq<(Seq<u8>, SearchInfoModel)>),
    TagFail,
> {
    let n = b.len() as int;
    if n < 16 {
        Err(TagFail::Eof(id_eof(0, n)))
    } else if n < 32 {
        Err(TagFail::Eof(id_eof(16, n)))
    } else if n < 34 {
        Err(TagFail::Eof(32))
    } else {
        match search_entries(b, 34, le16(b, 32) as nat, seq![], false) {
            Ok(s) => Ok((id_at(b, 0), id_at(b, 16), s)),
            Err(f) => Err(f),
        }
    }
}

/// `<sender><key><count u16><answer><taglist>*count`.
pub fn decode_kad2_search_res(payload: &[u8]) -> (res: Result<Kad2SearchRes, WireError>)
    ensures
        match search_res_decode(payload@) {
            Ok((sender, key, s)) => res is Ok && res->Ok_0.sender_id.0@ == sender
                && res->Ok_0.key.0@ == key && res->Ok_0.results@.map_values(
                |e: Kad2SearchResEntry| entry_model(e),
            ) == s,
            Err(f) => res is Err && matches_fail(res->Err_0, f),
        },
{
    let mut r = Reader::new(payload);
    let sender_id = r.read_uint128_emule()?;
    let key = r.read_uint128_emule()?;
    let count = r.read_u16_le()? as usize;
    let results = read_search_entries(&mut r, count)?;
    Ok(Kad2SearchRes { sender_id, key, results })
}

pub open spec fn source_result_model(x: (Seq<u8>, SearchInfoModel)) -> (Seq<u8>, Option<Seq<u8>>, Option<u8>) {
    (x.0, best_udp_dest_model(x.1), x.1.source_type)
}

pub open spec fn source_result_view(r: Kad2SearchResSourceResult) -> (Seq<u8>, Option<Seq<u8>>, Option<u8>) {
    (r.source_id.0@, opt_arr_view(r.udp_dest), r.source_type)
}

/// A search result read as source results: each answer with its best
/// destination and source type.
pub fn decode_kad2_search_res_sources(payload: &[u8]) -> (res: Result<Kad2SearchResSources, WireError>)
    ensures
        match search_res_decode(payload@) {
            Ok((sender, key, s)) => res is Ok && res->Ok_0.sender_id.0@ == sender
                && res->Ok_0.key.0@ == key && res->Ok_0.results@.map_values(
                |r: Kad2SearchResSourceResult| source_result_view(r),
            ) == s.map_values(|x: (Seq<u8>, SearchInfoModel)| source_result_model(x)),
            Err(f) => res is Err && matches_fail(res->Err_0, f),
        },
{
    let res = decode_kad2_search_res(payload)?;
    let ghost s = res.results@.map_values(|e: Kad2SearchResEntry| entry_model(e));
    let mut results: Vec<Kad2SearchResSourceResult> = Vec::with_capacity(res.results.len());
    let mut k: usize = 0;
    while k < res.results.len()
        invariant
            k <= res.results@.len(),
            s == res.results@.map_values(|e: Kad2SearchResEntry| entry_model(e)),
            results@.len() == k,
            forall|j: int|
                0 <= j < k ==> source_result_view(#[trigger] results@[j]) == source_result_model(
                    s[j],
                ),
        decreases res.results@.len() - k,
    {
        let e = &res.results[k];
        results.push(
            Kad2SearchResSourceResult {
                source_id: e.answer,
                udp_dest: e.tags.best_udp_dest(),
                source_type: e.tags.source_type,
            },
        );
        k += 1;
    }
    assert(results@.map_values(|r: Kad2SearchResSourceResult| source_result_view(r)) =~= s.map_values(
        |x: (Seq<u8>, SearchInfoModel)| source_result_model(x),
    ));
    Ok(Kad2SearchResSources { sender_id: res.sender_id, key: res.key, results })
}

pub open spec fn key_entry_view(e: Kad2PublishKeyEntry) -> (Seq<u8>, Option<Seq<char>>, Option<u64>, Option<Seq<char>>) {
    (e.file.0@, opt_str_view(e.filename), e.file_size, opt_str_view(e.file_type))
}

pub open spec fn key_entry_model(x: (Seq<u8>, SearchInfoModel)) -> (Seq<u8>, Option<Seq<char>>, Option<u64>, Option<Seq<char>>) {
    (x.0, x.1.filename, x.1.file_size, x.1.file_type)
}

fn entry_from_tags(file: KadId, tags: TaglistSearchInfo) -> (e: Kad2PublishKeyEntry)
    ensures
        key_entry_view(e) == key_entry_model((file.0@, tags@)),
{
    Kad2PublishKeyEntry {
        file,
        filename: tags.filename,
        file_size: tags.file_size,
        file_type: tags.file_type,
    }
}

pub open spec fn publish_key_req_decode(b: Seq<u8>) -> Result<(Seq<u8>, Seq<(Seq<u8>, SearchInfoModel)>), TagFail> {
    let n = b.len() as int;
    if n < 16 {
        Err(TagFail::Eof(id_eof(0, n)))
    } else if n < 18 {
        Err(TagFail::Eof(16))
    } else {
        match search_entries(b, 18, le16(b, 16) as nat, seq![], false) {
            Ok(s) => Ok((id_at(b, 0), s)),
            Err(f) => Err(f),
        }
    }
}

/// `<keyword><count u16><file><taglist>*count`.
pub fn decode_kad2_publish_key_req(payload: &[u8]) -> (res: Result<Kad2PublishKeyReq, WireError>)
    ensures
        match publish_key_req_decode(payload@) {
            Ok((kw, s)) => res is Ok && res->Ok_0.keyword.0@ == kw && res->Ok_0.entries@.map_values(
                |e: Kad2PublishKeyEntry| key_entry_view(e),
            ) == s.map_values(|x: (Seq<u8>, SearchInfoModel)| key_entry_model(x)),
            Err(f) => res is Err && matches_fail(res->Err_0, f),
        },
{
    let mut r = Reader::new(payload);
    let keyword = r.read_uint128_emule()?;
    let count = r.read_u16_le()? as usize;
    let ghost b = r.data();
    let ghost p0 = r.pos();
    let alloc = clamp_allocation_count_by_remaining(count, r.remaining(), 17);
    let mut entries: Vec<Kad2PublishKeyEntry> = Vec::with_capacity(alloc);
    let ghost mut acc: Seq<(Seq<u8>, SearchInfoModel)> = seq![];
    assert(entries@.map_values(|e: Kad2PublishKeyEntry| key_entry_view(e)) =~= seq![]);
    assert(acc.map_values(|x: (Seq<u8>, SearchInfoModel)| key_entry_model(x)) =~= seq![]);
    let mut k: usize = 0;
    while k < count
        invariant
            r.wf(),
            r.data() == b,
            b == payload@,
            p0 == 18,
            count == le16(b, 16),
            b.len() >= 18,
            keyword.0@ == id_at(b, 0),
            k <= count,
            search_entries(b, p0, count as nat, seq![], false) == search_entries(
                b,
                r.pos(),
                (count - k) as nat,
                acc,
                false,
            ),
            entries@.map_values(|e: Kad2PublishKeyEntry| key_entry_view(e)) == acc.map_values(
                |x: (Seq<u8>, SearchInfoModel)| key_entry_model(x),
            ),
        decreases count - k,
    {
        let ghost before = entries@;
        let ghost pk = r.pos();
        let file = r.read_uint128_emule()?;
        let tags = read_search_taglist(&mut r, false)?;
        let ghost item = (file.0@, tags@);
        let entry = entry_from_tags(file, tags);
        entries.push(entry);
        proof {
            let old_acc = acc;
            acc = acc.push(item);
            assert(entries@.map_values(|e: Kad2PublishKeyEntry| key_entry_view(e)) =~= before.map_values(
                |e: Kad2PublishKeyEntry| key_entry_view(e),
            ).push(key_entry_view(entry)));
            assert(acc.map_values(|x: (Seq<u8>, SearchInfoModel)| key_entry_model(x)) =~= old_acc.map_values(
                |x: (Seq<u8>, SearchInfoModel)| key_entry_model(x),
            ).push(key_entry_model(item)));
        }
        k += 1;
    }
    Ok(Kad2PublishKeyReq { keyword, entries })
}

/// `count` lenient entries from `p`: the longest prefix of well-formed
/// entries, and whether all `count` were well-formed.
pub open spec fn lenient_entries(
    b: Seq<u8>,
    p: int,
    count: nat,
    acc: Seq<(Seq<u8>, SearchInfoModel)>,
) -> (Seq<(Seq<u8>, SearchInfoModel)>, bool)
    decreases count,
{
    if count == 0 {
        (acc, true)
    } else if p + 16 > b.len() {
        (acc, false)
    } else {
        match search_taglist(b, p + 16, true) {
            Err(_) => (acc, false),
            Ok((m, q)) => lenient_entries(b, q, (count - 1) as nat, acc.push((id_at(b, p), m))),
        }
    }
}

pub open spec fn keyword_prefix_msg(n: nat) -> Seq<char> {
    "publish-key payload too short for keyword prefix: "@ + decimal(n) + " bytes"@
}

/// Only the `<keyword>` prefix of a publish-key request.
pub fn decode_kad2_publish_key_keyword_prefix(payload: &[u8]) -> (res: Result<KadId, WireError>)
    ensures
        payload@.len() < 16 ==> res is Err && invalid_format(
            res->Err_0,
            keyword_prefix_msg(payload@.len()),
        ),
        payload@.len() >= 16 ==> res is Ok && res->Ok_0.0@ == id_at(payload@, 0),
{
    if payload.len() < 16 {
        let mut m = String::from_str("publish-key payload too short for keyword prefix: ");
        let d = decimal_string(payload.len() as u64);
        m.append(d.as_str());
        m.append(" bytes");
        return Err(WireError::InvalidFormat(m));
    }
    let mut r = Reader::new(payload);
    r.read_uint128_emule()
}

/// A publish-key request read leniently: the keyword and declared count must be
/// present; entries are kept up to the first malformed one, and `complete`
/// tells whether all declared entries were read.
pub fn decode_kad2_publish_key_req_lenient(payload: &[u8]) -> (res: Result<
    Kad2PublishKeyReqLenient,
    WireError,
>)
    ensures
        payload@.len() < 16 ==> res is Err && invalid_format(
            res->Err_0,
            "publish-key payload too short for keyword"@,
        ),
        16 <= payload@.len() < 18 ==> res is Err && invalid_format(
            res->Err_0,
            "publish-key payload too short for count"@,
        ),
        payload@.len() >= 18 ==> res is Ok && res->Ok_0.keyword.0@ == id_at(payload@, 0)
            && res->Ok_0.declared_count == le16(payload@, 16) && ({
            let (s, complete) = lenient_entries(payload@, 18, le16(payload@, 16) as nat, seq![]);
            &&& res->Ok_0.complete == complete
            &&& res->Ok_0.entries@.map_values(|e: Kad2PublishKeyEntry| key_entry_view(e))
                == s.map_values(|x: (Seq<u8>, SearchInfoModel)| key_entry_model(x))
        }),
{
    if payload.len() < 16 {
        return Err(WireError::InvalidFormat(String::from_str("publish-key payload too short for keyword")));
    }
    if payload.len() < 18 {
        return Err(WireError::InvalidFormat(String::from_str("publish-key payload too short for count")));
    }
    let mut r = Reader::new(payload);
    let keyword = match r.read_uint128_emule() {
        Ok(k) => k,
        Err(e) => return Err(e),
    };
    let declared_count = match r.read_u16_le() {
        Ok(c) => c,
        Err(e) => return Err(e),
    };
    let ghost b = r.data();
    let mut entries: Vec<Kad2PublishKeyEntry> = Vec::new();
    let mut complete = true;
    let ghost mut acc: Seq<(Seq<u8>, SearchInfoModel)> = seq![];
    assert(entries@.map_values(|e: Kad2PublishKeyEntry| key_entry_view(e)) =~= seq![]);
    assert(acc.map_values(|x: (Seq<u8>, SearchInfoModel)| key_entry_model(x)) =~= seq![]);
    let mut k: u16 = 0;
    while k < declared_count
        invariant_except_break
            complete,
            lenient_entries(b, 18, declared_count as nat, seq![]) == lenient_entries(
                b,
                r.pos(),
                (declared_count - k) as nat,
                acc,
            ),
        invariant
            r.wf(),
            r.data() == b,
            b == payload@,
            b.len() >= 18,
            declared_count == le16(b, 16),
            keyword.0@ == id_at(b, 0),
            k <= declared_count,
            entries@.map_values(|e: Kad2PublishKeyEntry| key_entry_view(e)) == acc.map_values(
                |x: (Seq<u8>, SearchInfoModel)| key_entry_model(x),
            ),
        ensures
            lenient_entries(b, 18, declared_count as nat, seq![]) == (acc, complete),
            entries@.map_values(|e: Kad2PublishKeyEntry| key_entry_view(e)) == acc.map_values(
                |x: (Seq<u8>, SearchInfoModel)| key_entry_model(x),
            ),
        decreases declared_count - k,
    {
        let ghost before = entries@;
        let ghost pk = r.pos();
        let file = match r.read_uint128_emule() {
            Ok(f) => f,
            Err(_) => {
                complete = false;
                break;
            },
        };
        let tags = match read_search_taglist(&mut r, true) {
            Ok(t) => t,
            Err(_) => {
                complete = false;
                break;
            },
        };
        let ghost item = (file.0@, tags@);
        let entry = entry_from_tags(file, tags);
        entries.push(entry);
        proof {
            let old_acc = acc;
            acc = acc.push(item);
            assert(entries@.map_values(|e: Kad2PublishKeyEntry| key_entry_view(e)) =~= before.map_values(
                |e: Kad2PublishKeyEntry| key_entry_view(e),
            ).push(key_entry_view(entry)));
            assert(acc.map_values(|x: (Seq<u8>, SearchInfoModel)| key_entry_model(x)) =~= old_acc.map_values(
                |x: (Seq<u8>, SearchInfoModel)| key_entry_model(x),
            ).push(key_entry_model(item)));
        }
        k += 1;
    }
    Ok(Kad2PublishKeyReqLenient { keyword, declared_count, complete, entries })
}

pub open spec fn short_packet_msg(n: nat) -> Seq<char> {
    "kademlia packet too short: "@ + decimal(n) + " bytes"@
}

pub open spec fn unknown_protocol_msg(p: u8) -> Seq<char> {
    "unknown kademlia protocol byte: 0x"@ + hex_lower(seq![p])
}

/// Largest inflated payload accepted from a packed packet.
pub const MAX_INFLATED_PAYLOAD: usize = 524288;

impl KadPacket {
    /// `<protocol><opcode><payload>`: plain (0x05) packets keep their payload,
    /// packed (0x06) packets have it zlib-inflated and are reported as plain.
    pub fn decode(bytes: &[u8]) -> (res: Result<KadPacket, WireError>)
        ensures
            bytes@.len() < 2 ==> res is Err && invalid_format(res->Err_0, short_packet_msg(bytes@.len())),
            bytes@.len() >= 2 && bytes@[0] == OP_KADEMLIAHEADER ==> res is Ok && res->Ok_0.protocol
                == OP_KADEMLIAHEADER && res->Ok_0.opcode == bytes@[1] && res->Ok_0.payload@
                == bytes@.subrange(2, bytes@.len() as int),
            bytes@.len() >= 2 && bytes@[0] == OP_KADEMLIAPACKEDPROT ==> match inflate_spec(
                bytes@.subrange(2, bytes@.len() as int),
                MAX_INFLATED_PAYLOAD as int,
            ) {
                Ok(o) => res is Ok && res->Ok_0.protocol == OP_KADEMLIAHEADER && res->Ok_0.opcode == bytes@[1]
                    && res->Ok_0.payload@ == o,
                Err(e) => res matches Err(WireError::Inflate(x)) && x == e,
            },
            bytes@.len() >= 2 && bytes@[0] == OP_KADEMLIAPACKEDPROT ==> (res is Ok ==> res->Ok_0.protocol
                == OP_KADEMLIAHEADER && res->Ok_0.opcode == bytes@[1] && res->Ok_0.payload@.len()
                <= MAX_INFLATED_PAYLOAD) && (res is Err ==> res->Err_0 is Inflate),
            bytes@.len() >= 2 && bytes@[0] != OP_KADEMLIAHEADER && bytes@[0] != OP_KADEMLIAPACKEDPROT
                ==> res is Err && invalid_format(res->Err_0, unknown_protocol_msg(bytes@[0])),
    {
        if bytes.len() < 2 {
            let mut m = String::from_str("kademlia packet too short: ");
            let d = decimal_string(bytes.len() as u64);
            m.append(d.as_str());
            m.append(" bytes");
            return Err(WireError::InvalidFormat(m));
        }
        let protocol = bytes[0];
        let opcode = bytes[1];
        let rest = vstd::slice::slice_subrange(bytes, 2, bytes.len());
        if protocol == OP_KADEMLIAHEADER {
            Ok(KadPacket { protocol, opcode, payload: vstd::slice::slice_to_vec(rest) })
        } else if protocol == OP_KADEMLIAPACKEDPROT {
            match inflate_zlib(rest, MAX_INFLATED_PAYLOAD) {
                Ok(decompressed) => Ok(KadPacket { protocol: OP_KADEMLIAHEADER, opcode, payload: decompressed }),
                Err(e) => Err(WireError::Inflate(e)),
            }
        } else {
            let mut m = String::from_str("unknown kademlia protocol byte: 0x");
            let one: [u8; 1] = [protocol];
            assert(one@ =~= seq![protocol]);
            let h = to_hex_lower(one.as_slice());
            m.append(h.as_str());
            Err(WireError::InvalidFormat(m))
        }
    }
}

} // verus!
