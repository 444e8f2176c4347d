//! eMule/iMule tag lists: `<count u8><tag>*count`, each tag being a header
//! (new short form `<type|0x80><id>` or old form `<type><nameLen u16><name>`),
//! optionally a 32-bit debug serial, then a value whose layout the type fixes.

use vstd::prelude::*;
use crate::kad::codec::{le16, le32, le64};
use crate::kad::wire::defs::{
    I2P_DEST_LEN, MAX_TAG_STRING_LEN, SearchInfoModel, TAGTYPE_ADDRESS, TAGTYPE_BLOB, TAGTYPE_BOOL, TAGTYPE_BOOLARRAY, TAGTYPE_BSOB, TAGTYPE_FLOAT32, TAGTYPE_HASH16, TAGTYPE_STR1, TAGTYPE_STR16, TAGTYPE_STRING, TAGTYPE_UINT16, TAGTYPE_UINT32, TAGTYPE_UINT64, TAGTYPE_UINT8, TAG_FILENAME, TAG_FILESIZE, TAG_FILETYPE, TAG_PUBLISHINFO, TAG_RUST_MULE_AGENT, TAG_SOURCEDEST, TAG_SOURCETYPE, TAG_SOURCEUDEST, TaglistSearchInfo, WireError, empty_search_info, opt_str_view,
};
use crate::kad::wire::reader::{Reader, is_eof_at};
use crate::text::{utf8_lossy, lossy_string, hex_lower, to_hex_lower};
use std::collections::BTreeMap;

verus! {

broadcast use vstd::laws_cmp::group_laws_cmp;

/// Why a tag list could not be read.
pub enum TagFail {
    Eof(int),
    UnknownType(u8),
}

pub open spec fn unknown_tag_msg(t: u8) -> Seq<char> {
    "unknown tag type 0x"@ + hex_lower(seq![t])
}

pub open spec fn matches_fail(e: WireError, f: TagFail) -> bool {
    match f {
        TagFail::Eof(o) => is_eof_at(e, o),
        TagFail::UnknownType(t) => e matches WireError::InvalidFormat(m) && m@ == unknown_tag_msg(t),
    }
}

pub open spec fn header_serial(b: Seq<u8>, t: u8, id: Option<u8>, q: int, debug: bool) -> Result<
    (u8, Option<u8>, int),
    int,
> {
    if debug {
        if q + 4 > b.len() {
            Err(q)
        } else {
            Ok((t, id, q + 4))
        }
    } else {
        Ok((t, id, q))
    }
}

/// Tag header at `p`: (type, id, position of the value), or the offset of the
/// read that ran out of input.
#[verifier::opaque]
pub open spec fn tag_header(b: Seq<u8>, p: int, debug: bool) -> Result<(u8, Option<u8>, int), int> {
    let n = b.len() as int;
    if p + 1 > n {
        Err(p)
    } else if b[p] >= 128 {
        if p + 2 > n {
            Err(p + 1)
        } else {
            header_serial(b, (b[p] - 128) as u8, Some(b[p + 1]), p + 2, debug)
        }
    } else if p + 3 > n {
        Err(p + 1)
    } else if le16(b, p + 1) == 1 {
        if p + 4 > n {
            Err(p + 3)
        } else {
            header_serial(b, b[p], Some(b[p + 3]), p + 4, debug)
        }
    } else if p + 3 + le16(b, p + 1) > n {
        Err(p + 3)
    } else {
        header_serial(b, b[p], None, p + 3 + le16(b, p + 1), debug)
    }
}

/// Value of length `len` at `q` read as a lossy UTF-8 string; kept as filename
/// or file type according to the tag id.
pub open spec fn search_string_tag(
    b: Seq<u8>,
    q: int,
    len: int,
    id: Option<u8>,
    acc: SearchInfoModel,
) -> Result<(SearchInfoModel, int), TagFail> {
    if q + len > b.len() {
        Err(TagFail::Eof(q))
    } else {
        let s = utf8_lossy(b.subrange(q, q + len));
        if id == Some(TAG_FILENAME) {
            Ok((SearchInfoModel { filename: Some(s), ..acc }, q + len))
        } else if id == Some(TAG_FILETYPE) {
            Ok((SearchInfoModel { file_type: Some(s), ..acc }, q + len))
        } else {
            Ok((acc, q + len))
        }
    }
}

pub open spec fn skip_value(b: Seq<u8>, q: int, len: int) -> Result<int, int> {
    if q + len > b.len() {
        Err(q)
    } else {
        Ok(q + len)
    }
}

pub open spec fn skip_to_result<A>(r: Result<int, int>, acc: A) -> Result<(A, int), TagFail> {
    match r {
        Ok(q) => Ok((acc, q)),
        Err(o) => Err(TagFail::Eof(o)),
    }
}

/// Tag value of type `t` at `q` in a search/publish taglist. In lenient mode a
/// one-byte integer also counts as file size or publish info.
#[verifier::opaque]
pub open spec fn search_tag_value(
    b: Seq<u8>,
    q: int,
    t: u8,
    id: Option<u8>,
    acc: SearchInfoModel,
    lenient: bool,
) -> Result<(SearchInfoModel, int), TagFail> {
    let n = b.len() as int;
    if t == TAGTYPE_UINT8 {
        if q + 1 > n {
            Err(TagFail::Eof(q))
        } else {
            let v = b[q];
            if id == Some(TAG_SOURCETYPE) {
                Ok((SearchInfoModel { source_type: Some(v), ..acc }, q + 1))
            } else if lenient && id == Some(TAG_FILESIZE) {
                Ok((SearchInfoModel { file_size: Some(v as u64), ..acc }, q + 1))
            } else if lenient && id == Some(TAG_PUBLISHINFO) {
                Ok((SearchInfoModel { publish_info: Some(v as u32), ..acc }, q + 1))
            } else {
                Ok((acc, q + 1))
            }
        }
    } else if t == TAGTYPE_UINT16 {
        if q + 2 > n {
            Err(TagFail::Eof(q))
        } else if id == Some(TAG_FILESIZE) {
            Ok((SearchInfoModel { file_size: Some(le16(b, q) as u64), ..acc }, q + 2))
        } else {
            Ok((acc, q + 2))
        }
    } else if t == TAGTYPE_UINT32 {
        if q + 4 > n {
            Err(TagFail::Eof(q))
        } else if id == Some(TAG_FILESIZE) {
            Ok((SearchInfoModel { file_size: Some(le32(b, q) as u64), ..acc }, q + 4))
        } else if id == Some(TAG_PUBLISHINFO) {
            Ok((SearchInfoModel { publish_info: Some(le32(b, q) as u32), ..acc }, q + 4))
        } else {
            Ok((acc, q + 4))
        }
    } else if t == TAGTYPE_UINT64 {
        if q + 4 > n {
            Err(TagFail::Eof(q))
        } else if q + 8 > n {
            Err(TagFail::Eof(q + 4))
        } else if id == Some(TAG_FILESIZE) {
            Ok((SearchInfoModel { file_size: Some(le64(b, q) as u64), ..acc }, q + 8))
        } else if id == Some(TAG_PUBLISHINFO) {
            Ok((SearchInfoModel { publish_info: Some((le64(b, q) % 4294967296) as u32), ..acc }, q + 8))
        } else {
            Ok((acc, q + 8))
        }
    } else if t == TAGTYPE_ADDRESS {
        if q + 387 > n {
            Err(TagFail::Eof(q))
        } else {
            let d = b.subrange(q, q + 387);
            if id == Some(TAG_SOURCEDEST) {
                Ok((SearchInfoModel { source_dest: Some(d), ..acc }, q + 387))
            } else if id == Some(TAG_SOURCEUDEST) {
                Ok((SearchInfoModel { source_udest: Some(d), ..acc }, q + 387))
            } else {
                Ok((SearchInfoModel { fallback_udpdest: Some(d), ..acc }, q + 387))
            }
        }
    } else if t == TAGTYPE_STRING {
        if q + 2 > n {
            Err(TagFail::Eof(q))
        } else if le16(b, q) > MAX_TAG_STRING_LEN {
            skip_to_result(skip_value(b, q + 2, le16(b, q)), acc)
        } else {
            search_string_tag(b, q + 2, le16(b, q), id, acc)
        }
    } else if t == TAGTYPE_HASH16 {
        skip_to_result(skip_value(b, q, 16), acc)
    } else if t == TAGTYPE_FLOAT32 {
        skip_to_result(skip_value(b, q, 4), acc)
    } else if t == TAGTYPE_BOOL {
        skip_to_result(skip_value(b, q, 1), acc)
    } else if t == TAGTYPE_BOOLARRAY {
        if q + 2 > n {
            Err(TagFail::Eof(q))
        } else {
            skip_to_result(skip_value(b, q + 2, (le16(b, q) + 7) / 8), acc)
        }
    } else if t == TAGTYPE_BLOB {
        if q + 4 > n {
            Err(TagFail::Eof(q))
        } else {
            skip_to_result(skip_value(b, q + 4, le32(b, q)), acc)
        }
    } else if t == TAGTYPE_BSOB {
        if q + 1 > n {
            Err(TagFail::Eof(q))
        } else {
            skip_to_result(skip_value(b, q + 1, b[q] as int), acc)
        }
    } else if TAGTYPE_STR1 <= t <= TAGTYPE_STR16 {
        search_string_tag(b, q, t - 16, id, acc)
    } else {
        Err(TagFail::UnknownType(t))
    }
}

/// One tag (header and value) at `p`, folded into `acc`.
pub open spec fn search_tag_step(b: Seq<u8>, p: int, acc: SearchInfoModel, debug: bool, lenient: bool) -> Result<
    (SearchInfoModel, int),
    TagFail,
> {
    match tag_header(b, p, debug) {
        Err(o) => Err(TagFail::Eof(o)),
        Ok((t, id, q)) => search_tag_value(b, q, t, id, acc, lenient),
    }
}

/// `count` consecutive tags starting at `p`, folded into `acc`.
pub open spec fn search_tags(
    b: Seq<u8>,
    p: int,
    count: nat,
    acc: SearchInfoModel,
    debug: bool,
    lenient: bool,
) -> Result<(SearchInfoModel, int), TagFail>
    decreases count,
{
    if count == 0 {
        Ok((acc, p))
    } else {
        match search_tag_step(b, p, acc, debug, lenient) {
            Err(f) => Err(f),
            Ok((acc2, q2)) => search_tags(b, q2, (count - 1) as nat, acc2, debug, lenient),
        }
    }
}

pub open spec fn search_taglist_once(b: Seq<u8>, p: int, debug: bool, lenient: bool) -> Result<
    (SearchInfoModel, int),
    TagFail,
> {
    if p + 1 > b.len() {
        Err(TagFail::Eof(p))
    } else {
        search_tags(b, p + 1, b[p] as nat, empty_search_info(), debug, lenient)
    }
}

/// A search/publish taglist at `p`: the plain layout, or failing that the
/// layout with a 32-bit serial after each header; the first error is reported.
pub open spec fn search_taglist(b: Seq<u8>, p: int, lenient: bool) -> Result<
    (SearchInfoModel, int),
    TagFail,
> {
    match search_taglist_once(b, p, false, lenient) {
        Ok(x) => Ok(x),
        Err(e1) => match search_taglist_once(b, p, true, lenient) {
            Ok(x) => Ok(x),
            Err(_) => Err(e1),
        },
    }
}

/// The integer tags and agent string collected from a HELLO taglist.
pub struct HelloModel {
    pub ints: Map<u8, u64>,
    pub agent: Option<Seq<char>>,
}

pub open spec fn hello_int(acc: HelloModel, id: Option<u8>, v: u64) -> HelloModel {
    match id {
        Some(k) => HelloModel { ints: acc.ints.insert(k, v), ..acc },
        None => acc,
    }
}

pub open spec fn hello_string_tag(b: Seq<u8>, q: int, len: int, id: Option<u8>, acc: HelloModel) -> Result<
    (HelloModel, int),
    TagFail,
> {
    if q + len > b.len() {
        Err(TagFail::Eof(q))
    } else if id == Some(TAG_RUST_MULE_AGENT) {
        Ok((HelloModel { agent: Some(utf8_lossy(b.subrange(q, q + len))), ..acc }, q + len))
    } else {
        Ok((acc, q + len))
    }
}

/// Tag value of type `t` at `q` in a HELLO taglist.
#[verifier::opaque]
pub open spec fn hello_tag_value(b: Seq<u8>, q: int, t: u8, id: Option<u8>, acc: HelloModel) -> Result<
    (HelloModel, int),
    TagFail,
> {
    let n = b.len() as int;
    if t == TAGTYPE_UINT8 {
        if q + 1 > n {
            Err(TagFail::Eof(q))
        } else {
            Ok((hello_int(acc, id, b[q] as u64), q + 1))
        }
    } else if t == TAGTYPE_UINT16 {
        if q + 2 > n {
            Err(TagFail::Eof(q))
        } else {
            Ok((hello_int(acc, id, le16(b, q) as u64), q + 2))
        }
    } else if t == TAGTYPE_UINT32 {
        if q + 4 > n {
            Err(TagFail::Eof(q))
        } else {
            Ok((hello_int(acc, id, le32(b, q) as u64), q + 4))
        }
    } else if t == TAGTYPE_UINT64 {
        if q + 4 > n {
            Err(TagFail::Eof(q))
        } else if q + 8 > n {
            Err(TagFail::Eof(q + 4))
        } else {
            Ok((hello_int(acc, id, le64(b, q) as u64), q + 8))
        }
    } else if t == TAGTYPE_STRING {
        if q + 2 > n {
            Err(TagFail::Eof(q))
        } else if le16(b, q) > MAX_TAG_STRING_LEN {
            skip_to_result(skip_value(b, q + 2, le16(b, q)), acc)
        } else {
            hello_string_tag(b, q + 2, le16(b, q), id, acc)
        }
    } else if t == TAGTYPE_HASH16 {
        skip_to_result(skip_value(b, q, 16), acc)
    } else if t == TAGTYPE_ADDRESS {
        skip_to_result(skip_value(b, q, 387), acc)
    } else if t == TAGTYPE_FLOAT32 {
        skip_to_result(skip_value(b, q, 4), acc)
    } else if t == TAGTYPE_BOOL {
        skip_to_result(skip_value(b, q, 1), acc)
    } else if t == TAGTYPE_BOOLARRAY {
        if q + 2 > n {
            Err(TagFail::Eof(q))
        } else {
            skip_to_result(skip_value(b, q + 2, (le16(b, q) + 7) / 8), acc)
        }
    } else if t == TAGTYPE_BLOB {
        if q + 4 > n {
            Err(TagFail::Eof(q))
        } else {
            skip_to_result(skip_value(b, q + 4, le32(b, q)), acc)
        }
    } else if t == TAGTYPE_BSOB {
        if q + 1 > n {
            Err(TagFail::Eof(q))
        } else {
            skip_to_result(skip_value(b, q + 1, b[q] as int), acc)
        }
    } else if TAGTYPE_STR1 <= t <= TAGTYPE_STR16 {
        hello_string_tag(b, q, t - 16, id, acc)
    } else {
        Err(TagFail::UnknownType(t))
    }
}

/// One HELLO tag (header and value) at `p`, folded into `acc`.
pub open spec fn hello_tag_step(b: Seq<u8>, p: int, acc: HelloModel, debug: bool) -> Result<(HelloModel, int), TagFail> {
    match tag_header(b, p, debug) {
        Err(o) => Err(TagFail::Eof(o)),
        Ok((t, id, q)) => hello_tag_value(b, q, t, id, acc),
    }
}

pub open spec fn hello_tags(b: Seq<u8>, p: int, count: nat, acc: HelloModel, debug: bool) -> Result<
    (HelloModel, int),
    TagFail,
>
    decreases count,
{
    if count == 0 {
        Ok((acc, p))
    } else {
        match hello_tag_step(b, p, acc, debug) {
            Err(f) => Err(f),
            Ok((acc2, q2)) => hello_tags(b, q2, (count - 1) as nat, acc2, debug),
        }
    }
}

pub open spec fn empty_hello() -> HelloModel {
    HelloModel { ints: Map::empty(), agent: None }
}

pub open spec fn hello_taglist_once(b: Seq<u8>, p: int, debug: bool) -> Result<(HelloModel, int), TagFail> {
    if p + 1 > b.len() {
        Err(TagFail::Eof(p))
    } else {
        hello_tags(b, p + 1, b[p] as nat, empty_hello(), debug)
    }
}

/// A HELLO taglist at `p`, plain layout first, then the debug-serial layout.
pub open spec fn hello_taglist(b: Seq<u8>, p: int) -> Result<(HelloModel, int), TagFail> {
    match hello_taglist_once(b, p, false) {
        Ok(x) => Ok(x),
        Err(e1) => match hello_taglist_once(b, p, true) {
            Ok(x) => Ok(x),
            Err(_) => Err(e1),
        },
    }
}

fn unknown_tag_error(t: u8) -> (e: WireError)
    ensures
        matches_fail(e, TagFail::UnknownType(t)),
{
    let mut m = String::from_str("unknown tag type 0x");
    let one: [u8; 1] = [t];
    assert(one@ =~= seq![t]);
    let h = to_hex_lower(one.as_slice());
    m.append(h.as_str());
    WireError::InvalidFormat(m)
}

pub fn read_tag_header(r: &mut Reader, debug: bool) -> (res: Result<(u8, Option<u8>), WireError>)
    requires
        old(r).wf(),
    ensures
        final(r).wf(),
        final(r).data() == old(r).data(),
        match tag_header(old(r).data(), old(r).pos(), debug) {
            Ok((t, id, q)) => res == Ok::<(u8, Option<u8>), WireError>((t, id)) && final(r).pos() == q,
            Err(o) => res is Err && is_eof_at(res->Err_0, o),
        },
{
    reveal(tag_header);
    let type_raw = r.read_u8()?;
    let mut tag_type: u8 = type_raw;
    let mut id: Option<u8> = None;
    if type_raw >= 128 {
        tag_type = type_raw - 128;
        id = Some(r.read_u8()?);
    } else {
        let name_len = r.read_u16_le()?;
        if name_len == 1 {
            id = Some(r.read_u8()?);
        } else {
            r.skip(name_len as usize)?;
        }
    }
    if debug {
        let _serial = r.read_u32_le()?;
    }
    Ok((tag_type, id))
}

fn read_string_value(r: &mut Reader, len: usize) -> (res: Result<String, WireError>)
    requires
        old(r).wf(),
    ensures
        final(r).wf(),
        final(r).data() == old(r).data(),
        old(r).pos() + len <= old(r).data().len() ==> res is Ok && res->Ok_0@ == utf8_lossy(
            old(r).data().subrange(old(r).pos(), old(r).pos() + len),
        ) && final(r).pos() == old(r).pos() + len,
        old(r).pos() + len > old(r).data().len() ==> res is Err && is_eof_at(
            res->Err_0,
            old(r).pos(),
        ),
{
    let s = r.read_slice(len)?;
    Ok(lossy_string(s))
}

/// Read one tag value of a search/publish taglist into `acc`.
pub fn read_search_tag_value(
    r: &mut Reader,
    t: u8,
    id: Option<u8>,
    acc: &mut TaglistSearchInfo,
    lenient: bool,
) -> (res: Result<(), WireError>)
    requires
        old(r).wf(),
    ensures
        final(r).wf(),
        final(r).data() == old(r).data(),
        match search_tag_value(old(r).data(), old(r).pos(), t, id, old(acc)@, lenient) {
            Ok((m, q)) => res is Ok && final(acc)@ == m && final(r).pos() == q,
            Err(f) => res is Err && matches_fail(res->Err_0, f),
        },
{
    reveal(search_tag_value);
    if t == TAGTYPE_UINT8 {
        let v = r.read_u8()?;
        if id == Some(TAG_SOURCETYPE) {
            acc.source_type = Some(v);
        } else if lenient && id == Some(TAG_FILESIZE) {
            acc.file_size = Some(v as u64);
        } else if lenient && id == Some(TAG_PUBLISHINFO) {
            acc.publish_info = Some(v as u32);
        }
        Ok(())
    } else if t == TAGTYPE_UINT16 {
        let v = r.read_u16_le()?;
        if id == Some(TAG_FILESIZE) {
            acc.file_size = Some(v as u64);
        }
        Ok(())
    } else if t == TAGTYPE_UINT32 {
        let v = r.read_u32_le()?;
        if id == Some(TAG_FILESIZE) {
            acc.file_size = Some(v as u64);
        } else if id == Some(TAG_PUBLISHINFO) {
            acc.publish_info = Some(v);
        }
        Ok(())
    } else if t == TAGTYPE_UINT64 {
        let v = r.read_u64_le()?;
        if id == Some(TAG_FILESIZE) {
            acc.file_size = Some(v);
        } else if id == Some(TAG_PUBLISHINFO) {
            acc.publish_info = Some((v % 4294967296) as u32);
        }
        Ok(())
    } else if t == TAGTYPE_ADDRESS {
        let d = r.read_i2p_dest()?;
        if id == Some(TAG_SOURCEDEST) {
            acc.source_dest = Some(d);
        } else if id == Some(TAG_SOURCEUDEST) {
            acc.source_udest = Some(d);
        } else {
            acc.fallback_udpdest = Some(d);
        }
        Ok(())
    } else if t == TAGTYPE_STRING {
        let len = r.read_u16_le()? as usize;
        if len > MAX_TAG_STRING_LEN {
            r.skip(len)
        } else {
            let s = read_string_value(r, len)?;
            if id == Some(TAG_FILENAME) {
                acc.filename = Some(s);
            } else if id == Some(TAG_FILETYPE) {
                acc.file_type = Some(s);
            }
            Ok(())
        }
    } else if t == TAGTYPE_HASH16 {
        r.skip(16)
    } else if t == TAGTYPE_FLOAT32 {
        r.skip(4)
    } else if t == TAGTYPE_BOOL {
        r.skip(1)
    } else if t == TAGTYPE_BOOLARRAY {
        let bits = r.read_u16_le()? as usize;
        r.skip((bits + 7) / 8)
    } else if t == TAGTYPE_BLOB {
        let len = r.read_u32_le()? as usize;
        r.skip(len)
    } else if t == TAGTYPE_BSOB {
        let len = r.read_u8()? as usize;
        r.skip(len)
    } else if TAGTYPE_STR1 <= t && t <= TAGTYPE_STR16 {
        let len = (t - 16) as usize;
        let s = read_string_value(r, len)?;
        if id == Some(TAG_FILENAME) {
            acc.filename = Some(s);
        } else if id == Some(TAG_FILETYPE) {
            acc.file_type = Some(s);
        }
        Ok(())
    } else {
        Err(unknown_tag_error(t))
    }
}

fn read_search_taglist_once(r: &mut Reader, debug: bool, lenient: bool) -> (res: Result<
    TaglistSearchInfo,
    WireError,
>)
    requires
        old(r).wf(),
    ensures
        final(r).wf(),
        final(r).data() == old(r).data(),
        match search_taglist_once(old(r).data(), old(r).pos(), debug, lenient) {
            Ok((m, q)) => res is Ok && res->Ok_0@ == m && final(r).pos() == q,
            Err(f) => res is Err && matches_fail(res->Err_0, f),
        },
{
    let count = r.read_u8()?;
    let ghost b = r.data();
    let ghost p0 = r.pos();
    let mut out = TaglistSearchInfo::new_empty();
    let mut k: u8 = 0;
    while k < count
        invariant
            r.wf(),
            r.data() == b,
            b == old(r).data(),
            p0 == old(r).pos() + 1,
            old(r).pos() + 1 <= b.len(),
            count == b[old(r).pos()],
            k <= count,
            search_tags(b, p0, count as nat, empty_search_info(), debug, lenient) == search_tags(
                b,
                r.pos(),
                (count - k) as nat,
                out@,
                debug,
                lenient,
            ),
        decreases count - k,
    {
        let (t, id) = read_tag_header(r, debug)?;
        read_search_tag_value(r, t, id, &mut out, lenient)?;
        k += 1;
    }
    Ok(out)
}

/// Read a search/publish taglist, retrying with the debug-serial layout.
pub fn read_search_taglist(r: &mut Reader, lenient: bool) -> (res: Result<TaglistSearchInfo, WireError>)
    requires
        old(r).wf(),
    ensures
        final(r).wf(),
        final(r).data() == old(r).data(),
        match search_taglist(old(r).data(), old(r).pos(), lenient) {
            Ok((m, q)) => res is Ok && res->Ok_0@ == m && final(r).pos() == q,
            Err(f) => res is Err && matches_fail(res->Err_0, f),
        },
{
    let start = r.i;
    match read_search_taglist_once(r, false, lenient) {
        Ok(v) => Ok(v),
        Err(e1) => {
            r.i = start;
            match read_search_taglist_once(r, true, lenient) {
                Ok(v) => Ok(v),
                Err(_) => Err(e1),
            }
        },
    }
}

pub fn read_hello_tag_value(
    r: &mut Reader,
    t: u8,
    id: Option<u8>,
    ints: &mut BTreeMap<u8, u64>,
    agent: &mut Option<String>,
) -> (res: Result<(), WireError>)
    requires
        old(r).wf(),
    ensures
        final(r).wf(),
        final(r).data() == old(r).data(),
        match hello_tag_value(
            old(r).data(),
            old(r).pos(),
            t,
            id,
            HelloModel { ints: old(ints)@, agent: opt_str_view(*old(agent)) },
        ) {
            Ok((m, q)) => res is Ok && final(ints)@ == m.ints && opt_str_view(*final(agent))
                == m.agent && final(r).pos() == q,
            Err(f) => res is Err && matches_fail(res->Err_0, f),
        },
{
    reveal(hello_tag_value);
    if t == TAGTYPE_UINT8 {
        let v = r.read_u8()?;
        if let Some(k) = id {
            ints.insert(k, v as u64);
        }
        Ok(())
    } else if t == TAGTYPE_UINT16 {
        let v = r.read_u16_le()?;
        if let Some(k) = id {
            ints.insert(k, v as u64);
        }
        Ok(())
    } else if t == TAGTYPE_UINT32 {
        let v = r.read_u32_le()?;
        if let Some(k) = id {
            ints.insert(k, v as u64);
        }
        Ok(())
    } else if t == TAGTYPE_UINT64 {
        let v = r.read_u64_le()?;
        if let Some(k) = id {
            ints.insert(k, v);
        }
        Ok(())
    } else if t == TAGTYPE_STRING {
        let len = r.read_u16_le()? as usize;
        if len > MAX_TAG_STRING_LEN {
            r.skip(len)
        } else {
            let s = read_string_value(r, len)?;
            if id == Some(TAG_RUST_MULE_AGENT) {
                *agent = Some(s);
            }
            Ok(())
        }
    } else if t == TAGTYPE_HASH16 {
        r.skip(16)
    } else if t == TAGTYPE_ADDRESS {
        r.skip(I2P_DEST_LEN)
    } else if t == TAGTYPE_FLOAT32 {
        r.skip(4)
    } else if t == TAGTYPE_BOOL {
        r.skip(1)
    } else if t == TAGTYPE_BOOLARRAY {
        let bits = r.read_u16_le()? as usize;
        r.skip((bits + 7) / 8)
    } else if t == TAGTYPE_BLOB {
        let len = r.read_u32_le()? as usize;
        r.skip(len)
    } else if t == TAGTYPE_BSOB {
        let len = r.read_u8()? as usize;
        r.skip(len)
    } else if TAGTYPE_STR1 <= t && t <= TAGTYPE_STR16 {
        let len = (t - 16) as usize;
        let s = read_string_value(r, len)?;
        if id == Some(TAG_RUST_MULE_AGENT) {
            *agent = Some(s);
        }
        Ok(())
    } else {
        Err(unknown_tag_error(t))
    }
}

fn read_hello_taglist_once(r: &mut Reader, debug: bool) -> (res: Result<
    (BTreeMap<u8, u64>, Option<String>),
    WireError,
>)
    requires
        old(r).wf(),
    ensures
        final(r).wf(),
        final(r).data() == old(r).data(),
        match hello_taglist_once(old(r).data(), old(r).pos(), debug) {
            Ok((m, q)) => res is Ok && res->Ok_0.0@ == m.ints && opt_str_view(res->Ok_0.1)
                == m.agent && final(r).pos() == q,
            Err(f) => res is Err && matches_fail(res->Err_0, f),
        },
{
    let count = r.read_u8()?;
    let ghost b = r.data();
    let ghost p0 = r.pos();
    let mut ints: BTreeMap<u8, u64> = BTreeMap::new();
    let mut agent: Option<String> = None;
    let mut k: u8 = 0;
    while k < count
        invariant
            r.wf(),
            r.data() == b,
            b == old(r).data(),
            p0 == old(r).pos() + 1,
            old(r).pos() + 1 <= b.len(),
            count == b[old(r).pos()],
            k <= count,
            hello_tags(b, p0, count as nat, empty_hello(), debug) == hello_tags(
                b,
                r.pos(),
                (count - k) as nat,
                HelloModel { ints: ints@, agent: opt_str_view(agent) },
                debug,
            ),
        decreases count - k,
    {
        let (t, id) = read_tag_header(r, debug)?;
        read_hello_tag_value(r, t, id, &mut ints, &mut agent)?;
        k += 1;
    }
    Ok((ints, agent))
}

/// Read a HELLO taglist, retrying with the debug-serial layout.
pub fn read_hello_taglist(r: &mut Reader) -> (res: Result<(BTreeMap<u8, u64>, Option<String>), WireError>)
    requires
        old(r).wf(),
    ensures
        final(r).wf(),
        final(r).data() == old(r).data(),
        match hello_taglist(old(r).data(), old(r).pos()) {
            Ok((m, q)) => res is Ok && res->Ok_0.0@ == m.ints && opt_str_view(res->Ok_0.1)
                == m.agent && final(r).pos() == q,
            Err(f) => res is Err && matches_fail(res->Err_0, f),
        },
{
    let start = r.i;
    match read_hello_taglist_once(r, false) {
        Ok(v) => Ok(v),
        Err(e1) => {
            r.i = start;
            match read_hello_taglist_once(r, true) {
                Ok(v) => Ok(v),
                Err(_) => Err(e1),
            }
        },
    }
}

} // verus!
