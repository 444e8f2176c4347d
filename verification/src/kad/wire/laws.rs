//! What the decoders read back from the encoders' bytes.

use vstd::prelude::*;
use crate::kad::KadId;
use crate::kad::codec::{
    id_wire, id_at, le16, le32, le64, u16_le, u32_le, u64_le, lemma_id_at_concat,
    lemma_le16_concat, lemma_le32_concat, lemma_le64_concat,
};
use crate::kad::wire::defs::{Kad2Contact, SearchInfoModel, I2P_DEST_LEN};
use crate::kad::wire::encode::{
    search_source_req_bytes, search_key_req_bytes, req_bytes, clamp_contacts,
    publish_res_source_bytes, publish_res_key_bytes, publish_source_req_bytes,
    publish_source_taglist, res_bytes, bootstrap_res_bytes, contacts_wire, contact_wire,
    hello_req_bytes, min_int,
};
use crate::kad::wire::decode::{
    contact_at, res_fits, bootstrap_fits, req_count_byte, hello_decode, lenient_entries,
};
use crate::kad::wire::taglist::{
    TagFail, HelloModel, empty_hello, hello_taglist, hello_taglist_once, hello_tags, search_taglist,
};

verus! {

/// A source search request decodes to its target, its start position without
/// the top bit, and its file size.
pub proof fn law_search_source_req_roundtrip(target: KadId, start: u16, size: u64)
    ensures
        ({
            let b = search_source_req_bytes(target, start, size);
            &&& b.len() == 26
            &&& id_at(b, 0) == target.0@
            &&& le16(b, 16) % 32768 == start % 32768
            &&& le64(b, 18) == size
        }),
{
    let s16 = (start % 32768) as u16;
    let b = search_source_req_bytes(target, start, size);
    lemma_id_at_concat(seq![], target, u16_le(s16) + u64_le(size));
    assert(b =~= Seq::<u8>::empty() + id_wire(target) + (u16_le(s16) + u64_le(size)));
    lemma_le16_concat(id_wire(target), s16, u64_le(size));
    lemma_le64_concat(id_wire(target) + u16_le(s16), size, seq![]);
    assert(b =~= id_wire(target) + u16_le(s16) + u64_le(size) + Seq::<u8>::empty());
}

/// A keyword search request decodes to its target and start position, and is
/// never restrictive.
pub proof fn law_search_key_req_roundtrip(target: KadId, start: u16)
    ensures
        ({
            let b = search_key_req_bytes(target, start);
            &&& b.len() == 18
            &&& id_at(b, 0) == target.0@
            &&& le16(b, 16) % 32768 == start % 32768
            &&& le16(b, 16) < 32768
        }),
{
    let s16 = (start % 32768) as u16;
    let b = search_key_req_bytes(target, start);
    lemma_id_at_concat(seq![], target, u16_le(s16));
    assert(b =~= Seq::<u8>::empty() + id_wire(target) + u16_le(s16));
    lemma_le16_concat(id_wire(target), s16, seq![]);
    assert(b =~= id_wire(target) + u16_le(s16) + Seq::<u8>::empty());
}

/// A Kad2 lookup request decodes to the clamped contact count, its three ids,
/// and carries the sender id.
pub proof fn law_req_roundtrip(c: u8, target: KadId, check: KadId, sender: KadId)
    ensures
        ({
            let b = req_bytes(c, target, check, sender);
            &&& b.len() == 49
            &&& req_count_byte(b) == clamp_contacts(c)
            &&& req_count_byte(b) != 0
            &&& id_at(b, 1) == target.0@
            &&& id_at(b, 17) == check.0@
            &&& id_at(b, 33) == sender.0@
        }),
{
    let b = req_bytes(c, target, check, sender);
    let h = seq![clamp_contacts(c)];
    lemma_id_at_concat(h, target, id_wire(check) + id_wire(sender));
    assert(b =~= h + id_wire(target) + (id_wire(check) + id_wire(sender)));
    lemma_id_at_concat(h + id_wire(target), check, id_wire(sender));
    assert(b =~= h + id_wire(target) + id_wire(check) + id_wire(sender));
    lemma_id_at_concat(h + id_wire(target) + id_wire(check), sender, seq![]);
    assert(b =~= h + id_wire(target) + id_wire(check) + id_wire(sender) + Seq::<u8>::empty());
}

/// A publish-source response decodes to its file and counters.
pub proof fn law_publish_res_source_roundtrip(file: KadId, sources: u32, complete: u32, load: u8)
    ensures
        ({
            let b = publish_res_source_bytes(file, sources, complete, load);
            &&& b.len() == 25
            &&& id_at(b, 0) == file.0@
            &&& le32(b, 16) == sources
            &&& le32(b, 20) == complete
            &&& b[24] == load
        }),
{
    let b = publish_res_source_bytes(file, sources, complete, load);
    lemma_id_at_concat(seq![], file, u32_le(sources) + u32_le(complete) + seq![load]);
    assert(b =~= Seq::<u8>::empty() + id_wire(file) + (u32_le(sources) + u32_le(complete) + seq![
        load,
    ]));
    lemma_le32_concat(id_wire(file), sources, u32_le(complete) + seq![load]);
    assert(b =~= id_wire(file) + u32_le(sources) + (u32_le(complete) + seq![load]));
    lemma_le32_concat(id_wire(file) + u32_le(sources), complete, seq![load]);
}

/// A publish-key response decodes to its key and load.
pub proof fn law_publish_res_key_roundtrip(key: KadId, load: u8)
    ensures
        ({
            let b = publish_res_key_bytes(key, load);
            &&& b.len() == 17
            &&& id_at(b, 0) == key.0@
            &&& b[16] == load
        }),
{
    let b = publish_res_key_bytes(key, load);
    lemma_id_at_concat(seq![], key, seq![load]);
    assert(b =~= Seq::<u8>::empty() + id_wire(key) + seq![load]);
}

/// A publish-source request starts with the file and source ids.
pub proof fn law_publish_source_req_prefix(
    file: KadId,
    source: KadId,
    dest: Seq<u8>,
    file_size: Option<u64>,
)
    ensures
        ({
            let b = publish_source_req_bytes(file, source, dest, file_size);
            &&& b.len() >= 32
            &&& id_at(b, 0) == file.0@
            &&& id_at(b, 16) == source.0@
        }),
{
    let b = publish_source_req_bytes(file, source, dest, file_size);
    let t = publish_source_taglist(dest, file_size);
    lemma_id_at_concat(seq![], file, id_wire(source) + t);
    assert(b =~= Seq::<u8>::empty() + id_wire(file) + (id_wire(source) + t));
    lemma_id_at_concat(id_wire(file), source, t);
}

proof fn lemma_contacts_wire_layout(cs: Seq<Kad2Contact>)
    ensures
        contacts_wire(cs).len() == 404 * cs.len(),
        forall|k: int|
            0 <= k < cs.len() ==> contacts_wire(cs).subrange(404 * k, 404 * k + 404) == contact_wire(
                #[trigger] cs[k],
            ),
    decreases cs.len(),
{
    if cs.len() > 0 {
        let init = cs.drop_last();
        lemma_contacts_wire_layout(init);
        let w = contacts_wire(cs);
        assert(w == contacts_wire(init) + contact_wire(cs.last()));
        assert forall|k: int| 0 <= k < cs.len() implies w.subrange(404 * k, 404 * k + 404)
            == contact_wire(#[trigger] cs[k]) by {
            if k < cs.len() - 1 {
                assert(init[k] == cs[k]);
                assert(w.subrange(404 * k, 404 * k + 404) =~= contacts_wire(init).subrange(
                    404 * k,
                    404 * k + 404,
                ));
            } else {
                assert(w.subrange(404 * k, 404 * k + 404) =~= contact_wire(cs.last()));
            }
        }
    }
}

proof fn lemma_contact_at_from_wire(c: Kad2Contact, b: Seq<u8>, p: int)
    requires
        0 <= p,
        p + 404 <= b.len(),
        b.subrange(p, p + 404) == contact_wire(c),
    ensures
        contact_at(c, b, p),
{
    let w = contact_wire(c);
    assert(b[p] == w[0]);
    assert(b.subrange(p + 1, p + 17) =~= w.subrange(1, 17));
    assert(w.subrange(1, 17) =~= id_wire(c.node_id));
    crate::kad::id::lemma_crypt_order_involutive(c.node_id.0@);
    assert(c.udp_dest@.len() == 387);
    assert(w.subrange(17, 404) =~= c.udp_dest@);
    assert(b.subrange(p + 17, p + 404) =~= w.subrange(17, 404));
}

/// A Kad2 lookup response with at most 255 contacts decodes to its target and
/// exactly those contacts.
pub proof fn law_res_roundtrip(target: KadId, contacts: Seq<Kad2Contact>)
    requires
        contacts.len() <= 255,
    ensures
        ({
            let b = res_bytes(target, contacts);
            &&& res_fits(b)
            &&& id_at(b, 0) == target.0@
            &&& b[16] == contacts.len()
            &&& forall|k: int| 0 <= k < contacts.len() ==> contact_at(#[trigger] contacts[k], b, 17 + 404 * k)
        }),
{
    let b = res_bytes(target, contacts);
    assert(contacts.subrange(0, contacts.len() as int) =~= contacts);
    let w = contacts_wire(contacts);
    lemma_contacts_wire_layout(contacts);
    let h = id_wire(target) + seq![contacts.len() as u8];
    assert(b =~= h + w);
    lemma_id_at_concat(seq![], target, seq![contacts.len() as u8] + w);
    assert(b =~= Seq::<u8>::empty() + id_wire(target) + (seq![contacts.len() as u8] + w));
    assert forall|k: int| 0 <= k < contacts.len() implies contact_at(#[trigger] contacts[k], b, 17 + 404 * k) by {
        assert(b.subrange(17 + 404 * k, 17 + 404 * k + 404) =~= w.subrange(404 * k, 404 * k + 404));
        lemma_contact_at_from_wire(contacts[k], b, 17 + 404 * k);
    }
}

/// A bootstrap response with at most 65535 contacts decodes to its sender,
/// version, destination and exactly those contacts.
pub proof fn law_bootstrap_res_roundtrip(
    sender: KadId,
    ver: u8,
    dest: [u8; I2P_DEST_LEN],
    contacts: Seq<Kad2Contact>,
)
    requires
        contacts.len() <= 65535,
    ensures
        ({
            let b = bootstrap_res_bytes(sender, ver, dest@, contacts);
            &&& bootstrap_fits(b)
            &&& id_at(b, 0) == sender.0@
            &&& b[16] == ver
            &&& b.subrange(17, 404) == dest@
            &&& le16(b, 404) == contacts.len()
            &&& forall|k: int| 0 <= k < contacts.len() ==> contact_at(#[trigger] contacts[k], b, 406 + 404 * k)
        }),
{
    let b = bootstrap_res_bytes(sender, ver, dest@, contacts);
    assert(contacts.subrange(0, contacts.len() as int) =~= contacts);
    let w = contacts_wire(contacts);
    lemma_contacts_wire_layout(contacts);
    let cnt = contacts.len() as u16;
    assert(b =~= id_wire(sender) + seq![ver] + dest@ + u16_le(cnt) + w);
    lemma_id_at_concat(seq![], sender, seq![ver] + dest@ + u16_le(cnt) + w);
    assert(b =~= Seq::<u8>::empty() + id_wire(sender) + (seq![ver] + dest@ + u16_le(cnt) + w));
    lemma_le16_concat(id_wire(sender) + seq![ver] + dest@, cnt, w);
    assert(b.subrange(17, 404) =~= dest@);
    assert forall|k: int| 0 <= k < contacts.len() implies contact_at(#[trigger] contacts[k], b, 406 + 404 * k) by {
        assert(b.subrange(406 + 404 * k, 406 + 404 * k + 404) =~= w.subrange(404 * k, 404 * k + 404));
        lemma_contact_at_from_wire(contacts[k], b, 406 + 404 * k);
    }
}

/// A HELLO request decodes to its version, id and destination, with no
/// integer tags and no agent.
pub proof fn law_hello_req_roundtrip(ver: u8, id: KadId, dest: [u8; I2P_DEST_LEN])
    ensures
        hello_decode(hello_req_bytes(ver, id, dest@)) == Ok::<_, TagFail>((ver, id.0@, dest@, empty_hello())),
{
    let b = hello_req_bytes(ver, id, dest@);
    lemma_id_at_concat(seq![ver], id, dest@ + seq![0u8]);
    assert(b =~= seq![ver] + id_wire(id) + (dest@ + seq![0u8]));
    assert(b.subrange(17, 404) =~= dest@);
    assert(b[404] == 0);
    assert(hello_taglist_once(b, 404, false) == Ok::<_, TagFail>((empty_hello(), 405int)));
}


proof fn lemma_lenient_entries_complete(b: Seq<u8>, p: int, count: nat, acc: Seq<(Seq<u8>, SearchInfoModel)>)
    ensures
        lenient_entries(b, p, count, acc).1 <==> lenient_entries(b, p, count, acc).0.len() == acc.len() + count,
        lenient_entries(b, p, count, acc).0.len() <= acc.len() + count,
    decreases count,
{
    if count > 0 && p + 16 <= b.len() {
        match search_taglist(b, p + 16, true) {
            Err(_) => {},
            Ok((m, q)) => {
                lemma_lenient_entries_complete(b, q, (count - 1) as nat, acc.push((id_at(b, p), m)));
            },
        }
    }
}

/// The lenient publish-key decoder reports the request complete exactly
/// when it read as many entries as the request declared.
pub proof fn law_lenient_complete_iff_all_entries(payload: Seq<u8>)
    requires
        payload.len() >= 18,
    ensures
        ({
            let (s, complete) = lenient_entries(payload, 18, le16(payload, 16) as nat, seq![]);
            complete <==> s.len() == le16(payload, 16)
        }),
{
    lemma_lenient_entries_complete(payload, 18, le16(payload, 16) as nat, seq![]);
}

} // verus!
