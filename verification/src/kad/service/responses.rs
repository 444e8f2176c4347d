//! What the answers to our BOOTSTRAP_REQ and KADEMLIA2_REQ teach the
//! routing table: the sender is refreshed and every contact it lists is
//! upserted. Times are nanoseconds.

use vstd::prelude::*;
use crate::i2p::b64::{b64_spec, decode, law_b64_roundtrip};
use crate::kad::id::KadId;
use crate::kad::routing::{seen_marked, upsert_effect, RoutingTable, UpsertOutcome};
use crate::kad::service::hello::hello_node;
use crate::kad::service::inbound::InboundPacket;
use crate::kad::service::keyword::{copy_opt_string, is_interested, size_limited, upserted, KeywordCache, KeywordEntry};
use crate::kad::service::sources::{has_source, stored_source, SourceEntry, SourceStore};
use crate::kad::service::types::{KadKeywordHit, KadKeywordHitOrigin, KadServiceConfig, KadServiceCrypto};
use crate::kad::wire::decode::{entry_model, search_res_decode};
use crate::kad::wire::taglist::TagFail;
use crate::kad::wire::decode::{bootstrap_fits, bootstrap_res_at, contact_at, res_fits};
use crate::kad::codec::id_at;
use crate::kad::wire::{decode_kad2_bootstrap_res, decode_kad2_publish_res, decode_kad2_publish_res_key, decode_kad2_res,
    decode_kad2_search_res, Kad2BootstrapRes, Kad2Contact,
    Kad2SearchRes, Kad2SearchResEntry, TaglistSearchInfo};
use crate::nodes::imule::{copy_dest, ImuleNode, ImuleNodeView};

verus! {

/// The node a listed contact stands for: its version, identifier and
/// destination, no keys, not verified.
pub open spec fn contact_node(c: Kad2Contact) -> ImuleNodeView {
    ImuleNodeView {
        kad_version: c.kad_version,
        client_id: c.node_id.0@,
        udp_dest: c.udp_dest@,
        udp_key: 0,
        udp_key_ip: 0,
        verified: false,
    }
}

/// How many of the outcomes are insertions.
pub open spec fn count_inserted(rs: Seq<UpsertOutcome>) -> int
    decreases rs.len(),
{
    if rs.len() == 0 {
        0
    } else {
        count_inserted(rs.drop_last()) + if rs.last() is Inserted { 1int } else { 0int }
    }
}

/// `ms` are the tables from `a` on, each one after upserting the next
/// contact of `cs`, with the outcomes `rs`.
pub open spec fn upsert_chain(ms: Seq<RoutingTable>, rs: Seq<UpsertOutcome>, cs: Seq<Kad2Contact>, now: u64) -> bool {
    &&& ms.len() == cs.len() + 1
    &&& rs.len() == cs.len()
    &&& forall|i: int| 0 <= i < cs.len() ==> upsert_effect(#[trigger] ms[i], ms[i + 1], contact_node(cs[i]), now, rs[i])
}

/// The table after upserting the contacts of `cs` in order, `inserted` of
/// them as new nodes.
pub open spec fn harvested(a: RoutingTable, b: RoutingTable, cs: Seq<Kad2Contact>, now: u64, inserted: int) -> bool {
    exists|ms: Seq<RoutingTable>, rs: Seq<UpsertOutcome>| #[trigger] upsert_chain(ms, rs, cs, now)
        && ms[0] == a && ms.last() == b && inserted == count_inserted(rs)
}

/// Upserts every contact; tells how many were new.
#[verifier::spinoff_prover]
pub fn harvest_contacts(routing: &mut RoutingTable, contacts: &Vec<Kad2Contact>, now: u64) -> (inserted: usize)
    requires
        old(routing).wf(),
    ensures
        final(routing).wf(),
        harvested(*old(routing), *final(routing), contacts@, now, inserted as int),
        inserted <= contacts@.len(),
{
    let ghost r0 = *routing;
    let ghost mut ms: Seq<RoutingTable> = seq![r0];
    let ghost mut rs: Seq<UpsertOutcome> = Seq::empty();
    let mut inserted: usize = 0;
    let mut i: usize = 0;
    while i < contacts.len()
        invariant
            i <= contacts@.len(),
            inserted <= i,
            routing.wf(),
            upsert_chain(ms, rs, contacts@.take(i as int), now),
            ms[0] == r0,
            ms.last() == *routing,
            inserted as int == count_inserted(rs),
        decreases contacts@.len() - i,
    {
        let ghost before = *routing;
        let c = &contacts[i];
        let node = ImuleNode {
            kad_version: c.kad_version,
            client_id: c.node_id.0,
            udp_dest: c.udp_dest,
            udp_key: 0,
            udp_key_ip: 0,
            verified: false,
        };
        assert(node@ == contact_node(*c));
        let r = routing.upsert(node, now);
        match r {
            UpsertOutcome::Inserted => {
                inserted += 1;
            },
            _ => {},
        }
        proof {
            let ghost ms0 = ms;
            let ghost rs0 = rs;
            ms = ms.push(*routing);
            rs = rs.push(r);
            assert(rs.drop_last() =~= rs0);
            let t = contacts@.take(i + 1);
            assert forall|j: int| 0 <= j < t.len() implies upsert_effect(#[trigger] ms[j], ms[j + 1], contact_node(t[j]), now, rs[j]) by {
                if j < i {
                    assert(ms[j] == ms0[j] && ms[j + 1] == ms0[j + 1] && rs[j] == rs0[j]);
                    assert(t[j] == contacts@.take(i as int)[j]);
                } else {
                    assert(ms[j] == before);
                }
            }
        }
        i += 1;
    }
    assert(contacts@.take(contacts@.len() as int) =~= contacts@);
    assert(upsert_chain(ms, rs, contacts@, now));
    inserted
}

/// The table after learning the sender of a BOOTSTRAP_RES: upserted with
/// the version and identifier it sent when its destination decodes to a
/// full destination; otherwise unchanged.
pub open spec fn learned_bootstrap_sender(a: RoutingTable, m: RoutingTable, from: Seq<char>, ver: u8, id: Seq<u8>,
    pkt: InboundPacket, my_dest_hash: u32, now: u64) -> bool
{
    if exists|raw: Seq<u8>| b64_spec(raw) == from && raw.len() == 387 {
        let raw = choose|raw: Seq<u8>| b64_spec(raw) == from && raw.len() == 387;
        exists|r: UpsertOutcome| upsert_effect(a, m, hello_node(ver, id, raw, pkt, my_dest_hash), now, r)
    } else {
        m == a
    }
}

/// BOOTSTRAP_RES: nothing when it does not decode (the table is left
/// alone). Otherwise the sender is learned and marked seen, its contacts
/// are upserted, and the result is the number of contacts listed and the
/// number of nodes the table grew by.
#[verifier::spinoff_prover]
pub fn take_bootstrap_res(routing: &mut RoutingTable, from_dest_b64: &str, pkt: &InboundPacket,
    crypto: &KadServiceCrypto, now: u64) -> (r: Option<(usize, usize)>)
    requires
        old(routing).wf(),
    ensures
        final(routing).wf(),
        !bootstrap_fits(pkt.payload@) ==> r is None && *final(routing) == *old(routing),
        bootstrap_fits(pkt.payload@) ==> r is Some && exists|res: Kad2BootstrapRes, m1: RoutingTable, m2: RoutingTable, k: int|
            #![trigger bootstrap_res_at(res, pkt.payload@), learned_bootstrap_sender(*old(routing), m1, from_dest_b64@, res.sender_kad_version, res.sender_id.0@, *pkt, crypto.my_dest_hash, now), seen_marked(m1, m2, from_dest_b64@, now), harvested(m2, *final(routing), res.contacts@, now, k)]
            bootstrap_res_at(res, pkt.payload@)
            && learned_bootstrap_sender(*old(routing), m1, from_dest_b64@, res.sender_kad_version, res.sender_id.0@, *pkt,
                crypto.my_dest_hash, now)
            && seen_marked(m1, m2, from_dest_b64@, now)
            && harvested(m2, *final(routing), res.contacts@, now, k)
            && r->Some_0.0 == res.contacts@.len()
            && r->Some_0.1 == (if final(routing).nodes().len() >= old(routing).nodes().len() {
                final(routing).nodes().len() - old(routing).nodes().len() } else { 0 }),
{
    let res = match decode_kad2_bootstrap_res(pkt.payload.as_slice()) {
        Ok(res) => res,
        Err(_) => {
            return None;
        },
    };
    let ghost r0 = *routing;
    let before = routing.len();
    match decode(from_dest_b64) {
        Some(raw) => {
            if raw.len() == 387 {
                let udp_dest = copy_dest(raw.as_slice(), 0);
                assert(udp_dest@ =~= raw@);
                let node = ImuleNode {
                    kad_version: res.sender_kad_version,
                    client_id: res.sender_id.0,
                    udp_dest,
                    udp_key: if pkt.was_obfuscated { pkt.sender_verify_key } else { 0 },
                    udp_key_ip: if pkt.was_obfuscated { crypto.my_dest_hash } else { 0 },
                    verified: pkt.valid_receiver_key,
                };
                let _ = routing.upsert(node, now);
                proof {
                    let c = choose|x: Seq<u8>| b64_spec(x) == from_dest_b64@ && x.len() == 387;
                    law_b64_roundtrip(c);
                    law_b64_roundtrip(raw@);
                    assert(node@ == hello_node(res.sender_kad_version, res.sender_id.0@, c, *pkt, crypto.my_dest_hash));
                }
            } else {
                proof {
                    assert forall|x: Seq<u8>| b64_spec(x) == from_dest_b64@ implies x.len() != 387 by {
                        law_b64_roundtrip(x);
                        law_b64_roundtrip(raw@);
                    }
                }
            }
        },
        None => {
            proof {
                assert forall|x: Seq<u8>| b64_spec(x) == from_dest_b64@ implies x.len() != 387 by {
                    law_b64_roundtrip(x);
                }
            }
        },
    }
    let ghost m1 = *routing;
    assert(learned_bootstrap_sender(r0, m1, from_dest_b64@, res.sender_kad_version, res.sender_id.0@, *pkt,
        crypto.my_dest_hash, now));
    routing.mark_seen_by_dest(from_dest_b64, now);
    let ghost m2 = *routing;
    harvest_contacts(routing, &res.contacts, now);
    let after = routing.len();
    let grown = after.saturating_sub(before);
    Some((res.contacts.len(), grown))
}

/// The identifiers of the contacts, in order.
pub open spec fn contact_ids(cs: Seq<Kad2Contact>) -> Seq<Seq<u8>> {
    cs.map_values(|c: Kad2Contact| c.node_id.0@)
}

/// What a KADEMLIA2_RES brought: its target, the identifiers it listed and
/// how many of its contacts were new to the table.
#[derive(Debug)]
pub struct Kad2ResIntake {
    pub target: KadId,
    pub contact_ids: Vec<KadId>,
    pub inserted: usize,
}

/// KADEMLIA2_RES: nothing when it does not decode (the table is left
/// alone). Otherwise the sender is marked seen and every contact upserted.
#[verifier::spinoff_prover]
pub fn take_kad2_res(routing: &mut RoutingTable, from_dest_b64: &str, pkt: &InboundPacket, now: u64)
    -> (r: Option<Kad2ResIntake>)
    requires
        old(routing).wf(),
    ensures
        final(routing).wf(),
        !res_fits(pkt.payload@) ==> r is None && *final(routing) == *old(routing),
        res_fits(pkt.payload@) ==> r is Some && ({
            let b = pkt.payload@;
            let v = r->Some_0;
            &&& v.target.0@ == id_at(b, 0)
            &&& v.contact_ids@.len() == b[16]
            &&& exists|cs: Seq<Kad2Contact>, m: RoutingTable|
                #![trigger seen_marked(*old(routing), m, from_dest_b64@, now), harvested(m, *final(routing), cs, now, v.inserted as int)]
                cs.len() == b[16]
                && (forall|k: int| 0 <= k < cs.len() ==> contact_at(#[trigger] cs[k], b, 17 + 404 * k))
                && (forall|k: int| 0 <= k < cs.len() ==> #[trigger] v.contact_ids@[k].0@ == cs[k].node_id.0@)
                && seen_marked(*old(routing), m, from_dest_b64@, now)
                && harvested(m, *final(routing), cs, now, v.inserted as int)
        }),
{
    let res = match decode_kad2_res(pkt.payload.as_slice()) {
        Ok(res) => res,
        Err(_) => {
            return None;
        },
    };
    let mut ids: Vec<KadId> = Vec::new();
    let mut i: usize = 0;
    while i < res.contacts.len()
        invariant
            i <= res.contacts@.len(),
            ids@.len() == i,
            forall|k: int| 0 <= k < i ==> #[trigger] ids@[k].0@ == res.contacts@[k].node_id.0@,
        decreases res.contacts@.len() - i,
    {
        ids.push(res.contacts[i].node_id);
        i += 1;
    }
    let ghost r0 = *routing;
    routing.mark_seen_by_dest(from_dest_b64, now);
    let ghost m = *routing;
    let inserted = harvest_contacts(routing, &res.contacts, now);
    let out = Kad2ResIntake { target: res.target, contact_ids: ids, inserted };
    proof {
        let b = pkt.payload@;
        let cs = res.contacts@;
        assert(seen_marked(r0, m, from_dest_b64@, now));
        assert(harvested(m, *routing, cs, now, out.inserted as int));
        assert(forall|k: int| 0 <= k < cs.len() ==> #[trigger] out.contact_ids@[k].0@ == cs[k].node_id.0@);
        assert(forall|k: int| 0 <= k < cs.len() ==> contact_at(#[trigger] cs[k], b, 17 + 404 * k));
    }
    Some(out)
}

/// The destination a search result carries, by preference: SOURCEUDEST,
/// SOURCEDEST, then an untyped address tag.
pub open spec fn result_dest(t: TaglistSearchInfo) -> Option<[u8; 387]> {
    if t.source_udest is Some { t.source_udest } else if t.source_dest is Some { t.source_dest } else { t.fallback_udpdest }
}

/// The hit a keyword-style result stands for.
pub open spec fn result_hit(e: Kad2SearchResEntry) -> KadKeywordHit {
    KadKeywordHit {
        file_id: e.answer,
        filename: e.tags.filename->Some_0,
        file_size: e.tags.file_size->Some_0,
        file_type: e.tags.file_type,
        publish_info: e.tags.publish_info,
        origin: KadKeywordHitOrigin::Network,
    }
}

/// Taking the results of a SEARCH_RES for `key` in order: a result with a
/// destination is a source of the file `key`; one with a name and a size is
/// a keyword hit, kept when `accept`; others are skipped. The result: the
/// sources, the hits, how many sources were new and how many keyword hits
/// were taken.
pub open spec fn search_results_taken(src: Seq<SourceEntry>, hits: Seq<KeywordEntry>, key: KadId,
    rs: Seq<Kad2SearchResEntry>, accept: bool, now: u64) -> (Seq<SourceEntry>, Seq<KeywordEntry>, int, int)
    decreases rs.len(),
{
    if rs.len() == 0 {
        (src, hits, 0, 0)
    } else {
        let p = search_results_taken(src, hits, key, rs.drop_last(), accept, now);
        let e = rs.last();
        match result_dest(e.tags) {
            Some(d) => (stored_source(p.0, SourceEntry { file: key, source: e.answer, dest: d }), p.1,
                p.2 + if has_source(p.0, (key.0@, e.answer.0@)) { 0int } else { 1int }, p.3),
            None => if accept && e.tags.filename is Some && e.tags.file_size is Some {
                (p.0, upserted(p.1, KeywordEntry { keyword: key, last_seen: now, hit: result_hit(e) }), p.2, p.3 + 1)
            } else {
                p
            },
        }
    }
}

/// What a SEARCH_RES brought.
#[derive(Debug)]
pub struct SearchResIntake {
    pub key: KadId,
    pub results: usize,
    pub inserted_sources: usize,
    pub keyword_entries: usize,
}

/// SEARCH_RES: the sender is marked seen; when the payload decodes, its
/// results go to the source store and the keyword cache (hits only when the
/// keyword is of interest or interest is not required), and the cache's
/// size limits are applied when hits were taken.
#[verifier::spinoff_prover]
pub fn take_search_res(routing: &mut RoutingTable, cache: &mut KeywordCache, sources: &mut SourceStore,
    cfg: &KadServiceConfig, from_dest_b64: &str, pkt: &InboundPacket, now: u64) -> (r: Option<SearchResIntake>)
    requires
        old(routing).wf(),
        old(cache).wf(),
        old(sources).wf(),
    ensures
        final(routing).wf(),
        final(cache).wf(),
        final(sources).wf(),
        seen_marked(*old(routing), *final(routing), from_dest_b64@, now),
        search_res_decode(pkt.payload@) is Err ==> r is None && *final(cache) == *old(cache)
            && *final(sources) == *old(sources),
        search_res_decode(pkt.payload@) is Ok ==> r is Some && exists|res: Kad2SearchRes| {
            &&& #[trigger] search_res_decode(pkt.payload@) == Ok::<_, TagFail>((res.sender_id.0@, res.key.0@,
                res.results@.map_values(|e: Kad2SearchResEntry| entry_model(e))))
            &&& ({
                let accept = !cfg.keyword_require_interest || is_interested(old(cache).interest@, res.key.0@);
                let t = search_results_taken(old(sources).entries@, old(cache).hits.entries@, res.key, res.results@,
                    accept, now);
                &&& r->Some_0.key == res.key
                &&& r->Some_0.results == res.results@.len()
                &&& final(sources).entries@ == t.0
                &&& r->Some_0.inserted_sources == t.2
                &&& r->Some_0.keyword_entries == t.3
                &&& if t.3 > 0 {
                    (final(cache).interest@, final(cache).hits.entries@) == size_limited(old(cache).interest@, t.1,
                        cfg.keyword_max_hits_per_keyword, cfg.keyword_max_total_hits)
                } else {
                    final(cache).interest@ == old(cache).interest@ && final(cache).hits.entries@ == t.1
                }
            })
        },
{
    routing.mark_seen_by_dest(from_dest_b64, now);
    let res = match decode_kad2_search_res(pkt.payload.as_slice()) {
        Ok(res) => res,
        Err(_) => {
            return None;
        },
    };
    let accept = !cfg.keyword_require_interest || cache.is_interested(&res.key);
    let ghost src0 = sources.entries@;
    let ghost hits0 = cache.hits.entries@;
    let ghost interest0 = cache.interest@;
    let mut inserted_sources: usize = 0;
    let mut keyword_entries: usize = 0;
    let mut i: usize = 0;
    while i < res.results.len()
        invariant
            i <= res.results@.len(),
            sources.wf(),
            cache.wf(),
            cache.interest@ == interest0,
            inserted_sources <= i,
            keyword_entries <= i,
            ({
                let t = search_results_taken(src0, hits0, res.key, res.results@.take(i as int), accept, now);
                &&& sources.entries@ == t.0
                &&& cache.hits.entries@ == t.1
                &&& inserted_sources as int == t.2
                &&& keyword_entries as int == t.3
            }),
        decreases res.results@.len() - i,
    {
        let e = &res.results[i];
        let ghost rs = res.results@.take(i + 1);
        assert(rs.drop_last() =~= res.results@.take(i as int));
        assert(rs.last() == *e);
        let dest: Option<[u8; 387]> = if e.tags.source_udest.is_some() {
            e.tags.source_udest
        } else if e.tags.source_dest.is_some() {
            e.tags.source_dest
        } else {
            e.tags.fallback_udpdest
        };
        assert(dest == result_dest(e.tags));
        match dest {
            Some(d) => {
                if sources.insert(res.key, e.answer, d) {
                    inserted_sources += 1;
                }
            },
            None => {
                if accept && e.tags.filename.is_some() && e.tags.file_size.is_some() {
                    let hit = KadKeywordHit {
                        file_id: e.answer,
                        filename: match &e.tags.filename {
                            Some(n) => n.clone(),
                            None => String::new(),
                        },
                        file_size: match e.tags.file_size {
                            Some(z) => z,
                            None => 0,
                        },
                        file_type: copy_opt_string(&e.tags.file_type),
                        publish_info: e.tags.publish_info,
                        origin: KadKeywordHitOrigin::Network,
                    };
                    assert(hit == result_hit(*e));
                    let _ = cache.hits.upsert(KeywordEntry { keyword: res.key, last_seen: now, hit });
                    keyword_entries += 1;
                }
            },
        }
        i += 1;
    }
    assert(res.results@.take(res.results@.len() as int) =~= res.results@);
    if keyword_entries > 0 {
        cache.enforce_size_limits(cfg.keyword_max_hits_per_keyword, cfg.keyword_max_total_hits);
    }
    Some(SearchResIntake { key: res.key, results: res.results.len(), inserted_sources, keyword_entries })
}

/// The shapes of a PUBLISH_RES.
#[derive(Debug, Clone, Copy)]
pub enum PublishResKind {
    /// A keyword publish was stored (`<key><load>`, 17 bytes).
    Key(KadId),
    /// A source publish was stored (`<file><sources><complete><load>`, 25
    /// bytes or more).
    Source(KadId),
    /// Any other length.
    Other,
}

/// Tells a PUBLISH_RES payload's shape by its length, with the key or file
/// it answers.
pub fn classify_publish_res(payload: &[u8]) -> (k: PublishResKind)
    ensures
        payload@.len() == 17 ==> k is Key && k->Key_0.0@ == id_at(payload@, 0),
        payload@.len() >= 25 ==> k is Source && k->Source_0.0@ == id_at(payload@, 0),
        payload@.len() != 17 && payload@.len() < 25 ==> k is Other,
{
    if payload.len() == 17 {
        match decode_kad2_publish_res_key(payload) {
            Ok(r) => PublishResKind::Key(r.key),
            Err(_) => PublishResKind::Other,
        }
    } else if payload.len() >= 25 {
        match decode_kad2_publish_res(payload) {
            Ok(r) => PublishResKind::Source(r.file),
            Err(_) => PublishResKind::Other,
        }
    } else {
        PublishResKind::Other
    }
}

} // verus!
