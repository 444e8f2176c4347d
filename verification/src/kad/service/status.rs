//! The service's status snapshot and its peer listing.

use vstd::prelude::*;
use crate::kad::routing::{count_live, count_recent, flag, lemma_stable_sort_len, newest_first, opt_str_view, stable_sort,
    NodeModel, NodeState, RoutingTable};
use crate::kad::service::jobs::{lemma_sorted_from_input, pairs_view, secs_since, sort_by_keys};
use crate::kad::service::keyword::{keyword_count, KeywordCache, KeywordHits};
use crate::kad::service::lookup::NANOS_PER_SEC;
use crate::kad::service::policy::age_secs;
use crate::kad::service::sources::{file_count, SourceStore};
use crate::kad::service::types::{KadPeerInfo, KadServiceStatus};
use crate::kad::id::KadId;
use crate::text::hex_lower;

verus! {

/// How far back a node counts as recently live: ten minutes.
pub const LIVE_RECENT_WINDOW_NANOS: u64 = 600_000_000_000;

/// Event counters of one status window.
#[derive(Debug, Clone, Copy)]
pub struct KadServiceStats {
    pub sent_reqs: u64,
    pub recv_ress: u64,
    pub res_contacts: u64,
    pub dropped_undecipherable: u64,
    pub dropped_unparsable: u64,
    pub recv_hello_reqs: u64,
    pub sent_bootstrap_reqs: u64,
    pub recv_bootstrap_ress: u64,
    pub bootstrap_contacts: u64,
    pub sent_hellos: u64,
    pub recv_hello_ress: u64,
    pub sent_hello_acks: u64,
    pub recv_hello_acks: u64,
    pub hello_ack_skipped_no_sender_key: u64,
    pub timeouts: u64,
    pub new_nodes: u64,
    pub evicted: u64,
    pub sent_search_source_reqs: u64,
    pub recv_search_source_reqs: u64,
    pub recv_search_source_decode_failures: u64,
    pub source_search_hits: u64,
    pub source_search_misses: u64,
    pub source_search_results_served: u64,
    pub recv_search_ress: u64,
    pub search_results: u64,
    pub new_sources: u64,
    pub sent_search_key_reqs: u64,
    pub recv_search_key_reqs: u64,
    pub keyword_results: u64,
    pub new_keyword_results: u64,
    pub evicted_keyword_hits: u64,
    pub evicted_keyword_keywords: u64,
    pub recv_publish_key_reqs: u64,
    pub recv_publish_key_decode_failures: u64,
    pub sent_publish_key_ress: u64,
    pub sent_publish_key_reqs: u64,
    pub recv_publish_key_ress: u64,
    pub new_store_keyword_hits: u64,
    pub evicted_store_keyword_hits: u64,
    pub evicted_store_keyword_keywords: u64,
    pub sent_publish_source_reqs: u64,
    pub recv_publish_source_reqs: u64,
    pub recv_publish_source_decode_failures: u64,
    pub sent_publish_source_ress: u64,
    pub new_store_source_entries: u64,
    pub recv_publish_ress: u64,
    pub source_search_batch_candidates: u64,
    pub source_search_batch_skipped_version: u64,
    pub source_search_batch_sent: u64,
    pub source_search_batch_send_fail: u64,
    pub source_publish_batch_candidates: u64,
    pub source_publish_batch_skipped_version: u64,
    pub source_publish_batch_sent: u64,
    pub source_publish_batch_send_fail: u64,
    pub source_probe_first_publish_responses: u64,
    pub source_probe_first_search_responses: u64,
    pub source_probe_search_results_total: u64,
    pub source_probe_publish_latency_ms_total: u64,
    pub source_probe_search_latency_ms_total: u64,
}

impl KadServiceStats {
    /// Every counter at zero.
    pub open spec fn is_zero(self) -> bool {
        self.sent_reqs == 0
        && self.recv_ress == 0
        && self.res_contacts == 0
        && self.dropped_undecipherable == 0
        && self.dropped_unparsable == 0
        && self.recv_hello_reqs == 0
        && self.sent_bootstrap_reqs == 0
        && self.recv_bootstrap_ress == 0
        && self.bootstrap_contacts == 0
        && self.sent_hellos == 0
        && self.recv_hello_ress == 0
        && self.sent_hello_acks == 0
        && self.recv_hello_acks == 0
        && self.hello_ack_skipped_no_sender_key == 0
        && self.timeouts == 0
        && self.new_nodes == 0
        && self.evicted == 0
        && self.sent_search_source_reqs == 0
        && self.recv_search_source_reqs == 0
        && self.recv_search_source_decode_failures == 0
        && self.source_search_hits == 0
        && self.source_search_misses == 0
        && self.source_search_results_served == 0
        && self.recv_search_ress == 0
        && self.search_results == 0
        && self.new_sources == 0
        && self.sent_search_key_reqs == 0
        && self.recv_search_key_reqs == 0
        && self.keyword_results == 0
        && self.new_keyword_results == 0
        && self.evicted_keyword_hits == 0
        && self.evicted_keyword_keywords == 0
        && self.recv_publish_key_reqs == 0
        && self.recv_publish_key_decode_failures == 0
        && self.sent_publish_key_ress == 0
        && self.sent_publish_key_reqs == 0
        && self.recv_publish_key_ress == 0
        && self.new_store_keyword_hits == 0
        && self.evicted_store_keyword_hits == 0
        && self.evicted_store_keyword_keywords == 0
        && self.sent_publish_source_reqs == 0
        && self.recv_publish_source_reqs == 0
        && self.recv_publish_source_decode_failures == 0
        && self.sent_publish_source_ress == 0
        && self.new_store_source_entries == 0
        && self.recv_publish_ress == 0
        && self.source_search_batch_candidates == 0
        && self.source_search_batch_skipped_version == 0
        && self.source_search_batch_sent == 0
        && self.source_search_batch_send_fail == 0
        && self.source_publish_batch_candidates == 0
        && self.source_publish_batch_skipped_version == 0
        && self.source_publish_batch_sent == 0
        && self.source_publish_batch_send_fail == 0
        && self.source_probe_first_publish_responses == 0
        && self.source_probe_first_search_responses == 0
        && self.source_probe_search_results_total == 0
        && self.source_probe_publish_latency_ms_total == 0
        && self.source_probe_search_latency_ms_total == 0
    }

    /// A window with every counter at zero.
    pub fn new() -> (s: KadServiceStats)
        ensures
            s.is_zero(),
    {
        KadServiceStats {
            sent_reqs: 0,
            recv_ress: 0,
            res_contacts: 0,
            dropped_undecipherable: 0,
            dropped_unparsable: 0,
            recv_hello_reqs: 0,
            sent_bootstrap_reqs: 0,
            recv_bootstrap_ress: 0,
            bootstrap_contacts: 0,
            sent_hellos: 0,
            recv_hello_ress: 0,
            sent_hello_acks: 0,
            recv_hello_acks: 0,
            hello_ack_skipped_no_sender_key: 0,
            timeouts: 0,
            new_nodes: 0,
            evicted: 0,
            sent_search_source_reqs: 0,
            recv_search_source_reqs: 0,
            recv_search_source_decode_failures: 0,
            source_search_hits: 0,
            source_search_misses: 0,
            source_search_results_served: 0,
            recv_search_ress: 0,
            search_results: 0,
            new_sources: 0,
            sent_search_key_reqs: 0,
            recv_search_key_reqs: 0,
            keyword_results: 0,
            new_keyword_results: 0,
            evicted_keyword_hits: 0,
            evicted_keyword_keywords: 0,
            recv_publish_key_reqs: 0,
            recv_publish_key_decode_failures: 0,
            sent_publish_key_ress: 0,
            sent_publish_key_reqs: 0,
            recv_publish_key_ress: 0,
            new_store_keyword_hits: 0,
            evicted_store_keyword_hits: 0,
            evicted_store_keyword_keywords: 0,
            sent_publish_source_reqs: 0,
            recv_publish_source_reqs: 0,
            recv_publish_source_decode_failures: 0,
            sent_publish_source_ress: 0,
            new_store_source_entries: 0,
            recv_publish_ress: 0,
            source_search_batch_candidates: 0,
            source_search_batch_skipped_version: 0,
            source_search_batch_sent: 0,
            source_search_batch_send_fail: 0,
            source_publish_batch_candidates: 0,
            source_publish_batch_skipped_version: 0,
            source_publish_batch_sent: 0,
            source_publish_batch_send_fail: 0,
            source_probe_first_publish_responses: 0,
            source_probe_first_search_responses: 0,
            source_probe_search_results_total: 0,
            source_probe_publish_latency_ms_total: 0,
            source_probe_search_latency_ms_total: 0,
        }
    }
}

/// `s` reports the window `w` (and its request and response counts again
/// under their older names), the routing table, `pending` requests,
/// the keyword hits and store, the source store and `uptime_secs`, at `now`.
pub open spec fn status_of(s: KadServiceStatus, w: KadServiceStats, routing: RoutingTable, pending: usize,
    hits: Seq<crate::kad::service::keyword::KeywordEntry>, store: Seq<crate::kad::service::keyword::KeywordEntry>,
    sources: Seq<crate::kad::service::sources::SourceEntry>, uptime_secs: u64, now: u64) -> bool
{
    &&& s.uptime_secs == uptime_secs
    &&& s.routing == routing.nodes().len()
    &&& s.live == count_live(routing.nodes())
    &&& s.live_10m == count_recent(routing.nodes(), now, LIVE_RECENT_WINDOW_NANOS)
    &&& s.pending == pending
    &&& s.recv_req == w.sent_reqs
    &&& s.recv_res == w.recv_ress
    &&& s.keyword_keywords_tracked == keyword_count(hits)
    &&& s.keyword_hits_total == hits.len()
    &&& s.store_keyword_keywords == keyword_count(store)
    &&& s.store_keyword_hits_total == store.len()
    &&& s.source_store_files == file_count(sources)
    &&& s.source_store_entries_total == sources.len()
    &&& s.sent_reqs == w.sent_reqs
    &&& s.recv_ress == w.recv_ress
    &&& s.res_contacts == w.res_contacts
    &&& s.dropped_undecipherable == w.dropped_undecipherable
    &&& s.dropped_unparsable == w.dropped_unparsable
    &&& s.recv_hello_reqs == w.recv_hello_reqs
    &&& s.sent_bootstrap_reqs == w.sent_bootstrap_reqs
    &&& s.recv_bootstrap_ress == w.recv_bootstrap_ress
    &&& s.bootstrap_contacts == w.bootstrap_contacts
    &&& s.sent_hellos == w.sent_hellos
    &&& s.recv_hello_ress == w.recv_hello_ress
    &&& s.sent_hello_acks == w.sent_hello_acks
    &&& s.recv_hello_acks == w.recv_hello_acks
    &&& s.hello_ack_skipped_no_sender_key == w.hello_ack_skipped_no_sender_key
    &&& s.timeouts == w.timeouts
    &&& s.new_nodes == w.new_nodes
    &&& s.evicted == w.evicted
    &&& s.sent_search_source_reqs == w.sent_search_source_reqs
    &&& s.recv_search_source_reqs == w.recv_search_source_reqs
    &&& s.recv_search_source_decode_failures == w.recv_search_source_decode_failures
    &&& s.source_search_hits == w.source_search_hits
    &&& s.source_search_misses == w.source_search_misses
    &&& s.source_search_results_served == w.source_search_results_served
    &&& s.recv_search_ress == w.recv_search_ress
    &&& s.search_results == w.search_results
    &&& s.new_sources == w.new_sources
    &&& s.sent_search_key_reqs == w.sent_search_key_reqs
    &&& s.recv_search_key_reqs == w.recv_search_key_reqs
    &&& s.keyword_results == w.keyword_results
    &&& s.new_keyword_results == w.new_keyword_results
    &&& s.evicted_keyword_hits == w.evicted_keyword_hits
    &&& s.evicted_keyword_keywords == w.evicted_keyword_keywords
    &&& s.recv_publish_key_reqs == w.recv_publish_key_reqs
    &&& s.recv_publish_key_decode_failures == w.recv_publish_key_decode_failures
    &&& s.sent_publish_key_ress == w.sent_publish_key_ress
    &&& s.sent_publish_key_reqs == w.sent_publish_key_reqs
    &&& s.recv_publish_key_ress == w.recv_publish_key_ress
    &&& s.new_store_keyword_hits == w.new_store_keyword_hits
    &&& s.evicted_store_keyword_hits == w.evicted_store_keyword_hits
    &&& s.evicted_store_keyword_keywords == w.evicted_store_keyword_keywords
    &&& s.sent_publish_source_reqs == w.sent_publish_source_reqs
    &&& s.recv_publish_source_reqs == w.recv_publish_source_reqs
    &&& s.recv_publish_source_decode_failures == w.recv_publish_source_decode_failures
    &&& s.sent_publish_source_ress == w.sent_publish_source_ress
    &&& s.new_store_source_entries == w.new_store_source_entries
    &&& s.recv_publish_ress == w.recv_publish_ress
    &&& s.source_search_batch_candidates == w.source_search_batch_candidates
    &&& s.source_search_batch_skipped_version == w.source_search_batch_skipped_version
    &&& s.source_search_batch_sent == w.source_search_batch_sent
    &&& s.source_search_batch_send_fail == w.source_search_batch_send_fail
    &&& s.source_publish_batch_candidates == w.source_publish_batch_candidates
    &&& s.source_publish_batch_skipped_version == w.source_publish_batch_skipped_version
    &&& s.source_publish_batch_sent == w.source_publish_batch_sent
    &&& s.source_publish_batch_send_fail == w.source_publish_batch_send_fail
    &&& s.source_probe_first_publish_responses == w.source_probe_first_publish_responses
    &&& s.source_probe_first_search_responses == w.source_probe_first_search_responses
    &&& s.source_probe_search_results_total == w.source_probe_search_results_total
    &&& s.source_probe_publish_latency_ms_total == w.source_probe_publish_latency_ms_total
    &&& s.source_probe_search_latency_ms_total == w.source_probe_search_latency_ms_total
}

proof fn lemma_file_count_le(s: Seq<crate::kad::service::sources::SourceEntry>)
    ensures
        file_count(s) <= s.len(),
    decreases s.len(),
{
    if s.len() > 0 {
        lemma_file_count_le(s.drop_last());
    }
}

proof fn lemma_keyword_count_le(s: Seq<crate::kad::service::keyword::KeywordEntry>)
    ensures
        keyword_count(s) <= s.len(),
    decreases s.len(),
{
    if s.len() > 0 {
        lemma_keyword_count_le(s.drop_last());
    }
}

/// The status at `now`: the window's counters, which start again from zero,
/// beside the sizes of the routing table, the caches and the stores.
#[verifier::spinoff_prover]
pub fn build_status(routing: &RoutingTable, pending: usize, window: &mut KadServiceStats, cache: &KeywordCache,
    store: &KeywordHits, sources: &SourceStore, uptime_secs: u64, now: u64) -> (s: KadServiceStatus)
    ensures
        status_of(s, *old(window), *routing, pending, cache.hits.entries@, store.entries@, sources.entries@,
            uptime_secs, now),
        final(window).is_zero(),
{
    let w = *window;
    proof {
        lemma_file_count_le(sources.entries@);
        lemma_keyword_count_le(cache.hits.entries@);
        lemma_keyword_count_le(store.entries@);
    }
    let totals = sources.totals();
    let source_store_files = totals.0;
    let source_store_entries_total = totals.1;
    // The entry count fits a usize, and so does the file count below it.
    let _entries: usize = sources.entries.len();
    assert(source_store_files == file_count(sources.entries@));
    assert(source_store_entries_total == sources.entries@.len());
    let s = KadServiceStatus {
        uptime_secs,
        routing: routing.len(),
        live: routing.live_count(),
        live_10m: routing.live_count_recent(now, LIVE_RECENT_WINDOW_NANOS),
        pending,
        recv_req: w.sent_reqs,
        recv_res: w.recv_ress,
        keyword_keywords_tracked: cache.hits.keyword_count(),
        keyword_hits_total: cache.hits.len(),
        store_keyword_keywords: store.keyword_count(),
        store_keyword_hits_total: store.len(),
        source_store_files,
        source_store_entries_total,
        sent_reqs: w.sent_reqs,
        recv_ress: w.recv_ress,
        res_contacts: w.res_contacts,
        dropped_undecipherable: w.dropped_undecipherable,
        dropped_unparsable: w.dropped_unparsable,
        recv_hello_reqs: w.recv_hello_reqs,
        sent_bootstrap_reqs: w.sent_bootstrap_reqs,
        recv_bootstrap_ress: w.recv_bootstrap_ress,
        bootstrap_contacts: w.bootstrap_contacts,
        sent_hellos: w.sent_hellos,
        recv_hello_ress: w.recv_hello_ress,
        sent_hello_acks: w.sent_hello_acks,
        recv_hello_acks: w.recv_hello_acks,
        hello_ack_skipped_no_sender_key: w.hello_ack_skipped_no_sender_key,
        timeouts: w.timeouts,
        new_nodes: w.new_nodes,
        evicted: w.evicted,
        sent_search_source_reqs: w.sent_search_source_reqs,
        recv_search_source_reqs: w.recv_search_source_reqs,
        recv_search_source_decode_failures: w.recv_search_source_decode_failures,
        source_search_hits: w.source_search_hits,
        source_search_misses: w.source_search_misses,
        source_search_results_served: w.source_search_results_served,
        recv_search_ress: w.recv_search_ress,
        search_results: w.search_results,
        new_sources: w.new_sources,
        sent_search_key_reqs: w.sent_search_key_reqs,
        recv_search_key_reqs: w.recv_search_key_reqs,
        keyword_results: w.keyword_results,
        new_keyword_results: w.new_keyword_results,
        evicted_keyword_hits: w.evicted_keyword_hits,
        evicted_keyword_keywords: w.evicted_keyword_keywords,
        recv_publish_key_reqs: w.recv_publish_key_reqs,
        recv_publish_key_decode_failures: w.recv_publish_key_decode_failures,
        sent_publish_key_ress: w.sent_publish_key_ress,
        sent_publish_key_reqs: w.sent_publish_key_reqs,
        recv_publish_key_ress: w.recv_publish_key_ress,
        new_store_keyword_hits: w.new_store_keyword_hits,
        evicted_store_keyword_hits: w.evicted_store_keyword_hits,
        evicted_store_keyword_keywords: w.evicted_store_keyword_keywords,
        sent_publish_source_reqs: w.sent_publish_source_reqs,
        recv_publish_source_reqs: w.recv_publish_source_reqs,
        recv_publish_source_decode_failures: w.recv_publish_source_decode_failures,
        sent_publish_source_ress: w.sent_publish_source_ress,
        new_store_source_entries: w.new_store_source_entries,
        recv_publish_ress: w.recv_publish_ress,
        source_search_batch_candidates: w.source_search_batch_candidates,
        source_search_batch_skipped_version: w.source_search_batch_skipped_version,
        source_search_batch_sent: w.source_search_batch_sent,
        source_search_batch_send_fail: w.source_search_batch_send_fail,
        source_publish_batch_candidates: w.source_publish_batch_candidates,
        source_publish_batch_skipped_version: w.source_publish_batch_skipped_version,
        source_publish_batch_sent: w.source_publish_batch_sent,
        source_publish_batch_send_fail: w.source_publish_batch_send_fail,
        source_probe_first_publish_responses: w.source_probe_first_publish_responses,
        source_probe_first_search_responses: w.source_probe_first_search_responses,
        source_probe_search_results_total: w.source_probe_search_results_total,
        source_probe_publish_latency_ms_total: w.source_probe_publish_latency_ms_total,
        source_probe_search_latency_ms_total: w.source_probe_search_latency_ms_total,
    };
    *window = KadServiceStats::new();
    s
}

/// Order key of the peer listing: nodes heard from before the others; then
/// the latest inbound time (for nodes never heard from, the last time
/// seen), latest first.
pub open spec fn peer_key(st: NodeModel) -> Seq<u128> {
    seq![flag(st.last_inbound is None), newest_first(match st.last_inbound { Some(t) => t, None => st.last_seen })]
}

/// The positions of `s` in listing order, each with its key.
pub open spec fn peer_order(s: Seq<NodeModel>) -> Seq<(Seq<u128>, usize)> {
    stable_sort(Seq::new(s.len(), |k: int| (peer_key(s[k]), k as usize)))
}

/// Whole seconds since an optional time.
pub open spec fn age_opt(now: u64, t: Option<u64>) -> Option<u64> {
    match t {
        Some(ts) => Some(secs_since(now, ts)),
        None => None,
    }
}

/// `info` lists node `st` at `now`. The short form of the destination is
/// left empty.
pub open spec fn peer_info_ok(info: KadPeerInfo, st: NodeModel, now: u64) -> bool {
    &&& info.kad_id_hex@ == hex_lower(st.node.client_id)
    &&& info.udp_dest_b64@ == st.dest
    &&& info.udp_dest_short@ == Seq::<char>::empty()
    &&& info.kad_version == st.node.kad_version
    &&& info.verified == st.node.verified
    &&& info.udp_key == st.node.udp_key
    &&& info.udp_key_ip == st.node.udp_key_ip
    &&& info.failures == st.failures
    &&& opt_str_view(info.peer_agent) == st.peer_agent
    &&& info.last_seen_secs_ago == secs_since(now, st.last_seen)
    &&& info.last_inbound_secs_ago == age_opt(now, st.last_inbound)
    &&& info.last_queried_secs_ago == age_opt(now, st.last_queried)
    &&& info.last_bootstrap_secs_ago == age_opt(now, st.last_bootstrap)
    &&& info.last_hello_secs_ago == age_opt(now, st.last_hello)
}

fn peer_info_of(st: &NodeState, now: u64) -> (info: KadPeerInfo)
    ensures
        peer_info_ok(info, st@, now),
{
    let agent = match &st.peer_agent {
        Some(a) => Some(a.clone()),
        None => None,
    };
    KadPeerInfo {
        kad_id_hex: KadId(st.node.client_id).to_hex_lower(),
        udp_dest_b64: st.dest_b64.clone(),
        udp_dest_short: String::new(),
        kad_version: st.node.kad_version,
        verified: st.node.verified,
        udp_key: st.node.udp_key,
        udp_key_ip: st.node.udp_key_ip,
        failures: st.failures,
        peer_agent: agent,
        last_seen_secs_ago: now.saturating_sub(st.last_seen) / NANOS_PER_SEC,
        last_inbound_secs_ago: age_secs(now, st.last_inbound),
        last_queried_secs_ago: age_secs(now, st.last_queried),
        last_bootstrap_secs_ago: age_secs(now, st.last_bootstrap),
        last_hello_secs_ago: age_secs(now, st.last_hello),
    }
}

/// Every node of the table, listed in the order of `peer_order`.
#[verifier::spinoff_prover]
pub fn peer_infos(routing: &RoutingTable, now: u64) -> (v: Vec<KadPeerInfo>)
    ensures
        v@.len() == routing.nodes().len(),
        forall|i: int| 0 <= i < v@.len() ==> (#[trigger] peer_order(routing.nodes())[i]).1 < routing.nodes().len(),
        forall|i: int| 0 <= i < v@.len()
            ==> #[trigger] peer_info_ok(v@[i], routing.nodes()[peer_order(routing.nodes())[i].1 as int], now),
{
    let states = routing.snapshot_states();
    let ghost ns = routing.nodes();
    let ghost base = Seq::new(ns.len(), |k: int| (peer_key(ns[k]), k as usize));
    let mut keyed: Vec<(Vec<u128>, usize)> = Vec::new();
    let mut i: usize = 0;
    while i < states.len()
        invariant
            i <= states@.len(),
            states@.len() == ns.len(),
            forall|k: int| 0 <= k < ns.len() ==> #[trigger] states@[k]@ == ns[k],
            base == Seq::new(ns.len(), |k: int| (peer_key(ns[k]), k as usize)),
            pairs_view(keyed@) == base.take(i as int),
        decreases states@.len() - i,
    {
        let st = &states[i];
        let mut key: Vec<u128> = Vec::new();
        key.push(if st.last_inbound.is_none() { 1 } else { 0 });
        let t = match st.last_inbound {
            Some(t) => t,
            None => st.last_seen,
        };
        key.push((u64::MAX - t) as u128);
        assert(st@ == ns[i as int]);
        assert(key@ =~= peer_key(ns[i as int]));
        let ghost before = pairs_view(keyed@);
        keyed.push((key, i));
        assert(pairs_view(keyed@) =~= before.push((key@, i)));
        assert(base.take(i + 1) =~= base.take(i as int).push(base[i as int]));
        i += 1;
    }
    assert(base.take(ns.len() as int) =~= base);
    let sorted = sort_by_keys(keyed);
    let ghost order = peer_order(ns);
    assert(order == stable_sort(base));
    proof {
        lemma_stable_sort_len(base);
    }
    let mut v: Vec<KadPeerInfo> = Vec::new();
    let mut j: usize = 0;
    while j < sorted.len()
        invariant
            j <= sorted@.len(),
            sorted@.len() == ns.len(),
            pairs_view(sorted@) == order,
            order == stable_sort(base),
            base == Seq::new(ns.len(), |k: int| (peer_key(ns[k]), k as usize)),
            states@.len() == ns.len(),
            forall|k: int| 0 <= k < ns.len() ==> #[trigger] states@[k]@ == ns[k],
            v@.len() == j,
            forall|k: int| 0 <= k < j ==> (#[trigger] order[k]).1 < ns.len(),
            forall|k: int| 0 <= k < j ==> #[trigger] peer_info_ok(v@[k], ns[order[k].1 as int], now),
        decreases sorted@.len() - j,
    {
        proof {
            lemma_sorted_from_input(base, j as int);
            let k = choose|k: int| 0 <= k < base.len() && base[k] == order[j as int];
            assert(base[k].1 == k as usize);
        }
        assert(sorted@[j as int].1 == order[j as int].1);
        let idx = sorted[j].1;
        let info = peer_info_of(&states[idx], now);
        v.push(info);
        j += 1;
    }
    v
}

/// The share of verified nodes in percent, rounded down (0 for an empty
/// table).
pub fn verified_pct(verified: usize, total: usize) -> (p: usize)
    requires
        verified * 100 <= usize::MAX,
    ensures
        p == (if total > 0 { (verified * 100) / (total as int) } else { 0 }),
{
    if total > 0 {
        (verified * 100) / total
    } else {
        0
    }
}

/// Whether the window's evictions warrant the "contacts decayed fast"
/// warning: some were evicted, at least a fifth of the table's size.
pub fn contacts_decayed_fast(routing: usize, evicted: u64) -> (r: bool)
    ensures
        r == (routing > 0 && (evicted as usize) >= routing / 5 && evicted > 0),
{
    routing > 0 && evicted as usize >= routing / 5 && evicted > 0
}

} // verus!
