//! Keyword jobs: a search for a keyword, a publish of a file under it, or
//! both, driven on timers toward the nodes closest to the keyword.
//!
//! The decisions live here; sending the planned packets happens outside.
//! Times are nanoseconds on one clock.

use vstd::prelude::*;
use crate::i2p::b64::b64_spec;
use crate::kad::id::KadId;
use crate::kad::routing::{copy_node, first_by_key, keyed, lemma_insert_stable_at, lemma_stable_sort_props, lex_lt,
    lex_lt_exec, query_key, stable_sort, NodeModel, RoutingTable};
use crate::kad::service::lookup::{closest_peers_with_fallback, contains_text, fallback_peers, nodes_of, texts_of,
    NANOS_PER_SEC};
use crate::kad::service::keyword::{count_kw, KeywordCache, KeywordEntry};
use crate::kad::service::types::{KadKeywordSearchInfo, KadServiceConfig};
use crate::text::hex_lower;
use crate::nodes::imule::{ImuleNode, ImuleNodeView};

verus! {

/// A job is dropped this long after it was (re)started.
pub const KEYWORD_JOB_TTL_NANOS: u64 = 7_200_000_000_000;
/// Pause between two lookups toward the keyword.
pub const KEYWORD_JOB_LOOKUP_EVERY_NANOS: u64 = 45_000_000_000;
/// Pause between two search (or two publish) batches.
pub const KEYWORD_JOB_ACTION_EVERY_NANOS: u64 = 45_000_000_000;
/// Requests per batch that must go out before a batch stops.
pub const KEYWORD_JOB_ACTION_BATCH: usize = 5;

/// The file a job publishes under its keyword.
#[derive(Debug)]
pub struct KeywordPublishSpec {
    pub file: KadId,
    pub filename: String,
    pub file_size: u64,
    pub file_type: Option<String>,
}

/// One keyword's job. `sent_to_search` and `sent_to_publish` hold the
/// destinations (base64) already asked in the current round.
#[derive(Debug)]
pub struct KeywordJob {
    pub created_at: u64,
    pub next_lookup_at: u64,
    pub next_search_at: u64,
    pub next_publish_at: u64,
    pub sent_to_search: Vec<String>,
    pub sent_to_publish: Vec<String>,
    pub want_search: bool,
    pub publish: Option<KeywordPublishSpec>,
    pub got_publish_ack: bool,
}

/// What one step of a job asks to send: a `KADEMLIA2_REQ` toward the keyword
/// to each of `lookup`; `SEARCH_KEY_REQ` and `PUBLISH_KEY_REQ` to the nodes
/// of `search` and `publish`, in order, each batch (see `KeywordBatch`)
/// stopping once `KEYWORD_JOB_ACTION_BATCH` requests of its kind went out.
#[derive(Debug)]
pub struct KeywordJobPlan {
    pub lookup: Vec<ImuleNode>,
    pub search: Vec<ImuleNode>,
    pub publish: Vec<ImuleNode>,
}

/// `a + b`, held at `u64::MAX`.
pub open spec fn sat_add(a: u64, b: u64) -> u64 {
    if a + b > u64::MAX { u64::MAX } else { (a + b) as u64 }
}

/// `a - b`, held at zero.
pub open spec fn sat_sub(a: u64, b: u64) -> u64 {
    if a >= b { (a - b) as u64 } else { 0 }
}

/// The nodes of `s`, in order, with at least `min_version` whose
/// destination is not among `excluded`.
pub open spec fn fresh_peers(s: Seq<ImuleNodeView>, excluded: Seq<Seq<char>>, min_version: u8) -> Seq<ImuleNodeView>
    decreases s.len(),
{
    if s.len() == 0 {
        s
    } else {
        let r = fresh_peers(s.drop_last(), excluded, min_version);
        let n = s.last();
        if n.kad_version >= min_version && !excluded.contains(b64_spec(n.udp_dest)) { r.push(n) } else { r }
    }
}

/// The lookup width: `alpha`, at least one.
pub open spec fn job_alpha(cfg: KadServiceConfig) -> usize {
    if cfg.alpha > 1 { cfg.alpha } else { 1 }
}

/// The minimum pause between two queries of one node: `req_min_interval_secs`
/// (at least one second) in nanoseconds, held at `u64::MAX`.
pub open spec fn job_req_min(cfg: KadServiceConfig) -> u64 {
    let secs: u64 = if cfg.req_min_interval_secs > 1 { cfg.req_min_interval_secs } else { 1 };
    if secs * NANOS_PER_SEC > u64::MAX { u64::MAX } else { (secs * NANOS_PER_SEC) as u64 }
}

/// The nodes a lookup toward `keyword` asks: of `10 * alpha` query
/// candidates for the keyword, those without a pending request, at most
/// `alpha` of them.
pub open spec fn lookup_targets(routing: RoutingTable, keyword: KadId, pending: Seq<Seq<char>>,
    cfg: KadServiceConfig, now: u64) -> Seq<ImuleNodeView>
{
    let a = job_alpha(cfg);
    let cands = first_by_key(
        keyed(routing.nodes(), |st: NodeModel| query_key(st, Some(keyword), now, job_req_min(cfg), cfg.max_failures)),
        (a * 10) as usize,
    );
    let f = fresh_peers(cands, pending, 0);
    f.take(if a < f.len() { a as int } else { f.len() as int })
}

/// The nodes a job's search and publish batches draw from: the nodes
/// nearest the keyword with at least version 3.
pub open spec fn job_peers(routing: RoutingTable, keyword: KadId, now: u64) -> Seq<ImuleNodeView> {
    fallback_peers(routing, keyword, 32, 3, 0, now)
}

/// Whether the job has anything left to do.
pub open spec fn needs_work(job: KeywordJob) -> bool {
    job.want_search || job.publish is Some
}

pub open spec fn lookup_due(job: KeywordJob, now: u64) -> bool {
    needs_work(job) && now >= job.next_lookup_at
}

pub open spec fn search_due(job: KeywordJob, now: u64) -> bool {
    job.want_search && now >= job.next_search_at
}

/// A publish batch is due while the publish is not acknowledged.
pub open spec fn publish_due(job: KeywordJob, now: u64) -> bool {
    job.publish is Some && !job.got_publish_ack && now >= job.next_publish_at
}

/// One step of a job at `now`: which nodes it plans to ask for each kind
/// of request, and its new timers. A lookup goes out only when work remains
/// and its timer has passed; a search batch to version-3 nodes not yet
/// searched, a publish batch to version-2 nodes not yet asked, each only
/// when due. Each kind that goes out moves its timer on; nothing else of the
/// job changes.
pub open spec fn keyword_job_step(old: KeywordJob, new: KeywordJob, keyword: KadId, routing: RoutingTable,
    pending: Seq<Seq<char>>, cfg: KadServiceConfig, now: u64,
    lookup: Seq<ImuleNodeView>, search: Seq<ImuleNodeView>, publish: Seq<ImuleNodeView>) -> bool
{
    let peers = job_peers(routing, keyword, now);
    &&& lookup == (if lookup_due(old, now) { lookup_targets(routing, keyword, pending, cfg, now) } else { Seq::empty() })
    &&& search == (if search_due(old, now) { fresh_peers(peers, texts_of(old.sent_to_search@), 3) } else { Seq::empty() })
    &&& publish == (if publish_due(old, now) { fresh_peers(peers, texts_of(old.sent_to_publish@), 2) } else { Seq::empty() })
    &&& new.next_lookup_at == (if lookup_due(old, now) { sat_add(now, KEYWORD_JOB_LOOKUP_EVERY_NANOS) } else { old.next_lookup_at })
    &&& new.next_search_at == (if search_due(old, now) { sat_add(now, KEYWORD_JOB_ACTION_EVERY_NANOS) } else { old.next_search_at })
    &&& new.next_publish_at == (if publish_due(old, now) { sat_add(now, KEYWORD_JOB_ACTION_EVERY_NANOS) } else { old.next_publish_at })
    &&& new.created_at == old.created_at
    &&& new.sent_to_search == old.sent_to_search
    &&& new.sent_to_publish == old.sent_to_publish
    &&& new.want_search == old.want_search
    &&& new.publish == old.publish
    &&& new.got_publish_ack == old.got_publish_ack
}

/// The nodes of `v` with at least `min_version` whose destination is not
/// in `excluded`.
fn keep_fresh(v: &Vec<ImuleNode>, excluded: &Vec<String>, min_version: u8) -> (out: Vec<ImuleNode>)
    ensures
        nodes_of(out@) == fresh_peers(nodes_of(v@), texts_of(excluded@), min_version),
{
    let ghost s = nodes_of(v@);
    let ghost ex = texts_of(excluded@);
    let mut out: Vec<ImuleNode> = Vec::new();
    let mut i: usize = 0;
    while i < v.len()
        invariant
            i <= v@.len(),
            s == nodes_of(v@),
            ex == texts_of(excluded@),
            nodes_of(out@) == fresh_peers(s.take(i as int), ex, min_version),
        decreases v@.len() - i,
    {
        let ghost before = nodes_of(out@);
        assert(s.take(i + 1).drop_last() =~= s.take(i as int));
        assert(s.take(i + 1).last() == v@[i as int]@);
        let d = v[i].udp_dest_b64();
        if v[i].kad_version >= min_version && !contains_text(excluded, d.as_str()) {
            let c = copy_node(&v[i]);
            out.push(c);
            assert(nodes_of(out@) =~= before.push(c@));
        }
        i += 1;
    }
    assert(s.take(v@.len() as int) =~= s);
    out
}

/// The first `k` nodes of `v` (all of them when there are fewer).
fn take_nodes(v: &Vec<ImuleNode>, k: usize) -> (out: Vec<ImuleNode>)
    ensures
        nodes_of(out@) == nodes_of(v@).take(if k < v@.len() { k as int } else { v@.len() as int }),
{
    let n: usize = if k < v.len() { k } else { v.len() };
    let mut out: Vec<ImuleNode> = Vec::new();
    let mut i: usize = 0;
    while i < n
        invariant
            i <= n,
            n <= v@.len(),
            nodes_of(out@) == nodes_of(v@).take(i as int),
        decreases n - i,
    {
        let ghost before = nodes_of(out@);
        let c = copy_node(&v[i]);
        out.push(c);
        assert(nodes_of(out@) =~= before.push(c@));
        assert(nodes_of(v@).take(i + 1) =~= nodes_of(v@).take(i as int).push(v@[i as int]@));
        i += 1;
    }
    out
}

fn req_min_nanos(cfg: &KadServiceConfig) -> (r: u64)
    ensures
        r == job_req_min(*cfg),
{
    let secs: u64 = if cfg.req_min_interval_secs > 1 { cfg.req_min_interval_secs } else { 1 };
    match secs.checked_mul(NANOS_PER_SEC) {
        Some(v) => v,
        None => u64::MAX,
    }
}

/// Advances the job for `keyword` at `now` and says what to send. The
/// caller sends the lookups, then the search and publish batches in plan
/// order, and records each request that went out with
/// `record_search_sent` / `record_publish_sent`.
#[verifier::spinoff_prover]
pub fn progress_keyword_job(job: &mut KeywordJob, keyword: KadId, routing: &RoutingTable, pending: &Vec<String>,
    cfg: &KadServiceConfig, now: u64) -> (plan: KeywordJobPlan)
    requires
        routing.wf(),
        cfg.alpha <= usize::MAX / 10,
    ensures
        keyword_job_step(*old(job), *final(job), keyword, *routing, texts_of(pending@), *cfg, now,
            nodes_of(plan.lookup@), nodes_of(plan.search@), nodes_of(plan.publish@)),
{
    let needs = job.want_search || job.publish.is_some();
    let mut lookup: Vec<ImuleNode> = Vec::new();
    if needs && now >= job.next_lookup_at {
        let alpha: usize = if cfg.alpha > 1 { cfg.alpha } else { 1 };
        let req_min = req_min_nanos(cfg);
        let cands = routing.select_query_candidates_for_target(keyword, alpha * 10, now, req_min, cfg.max_failures);
        let fresh = keep_fresh(&cands, pending, 0);
        lookup = take_nodes(&fresh, alpha);
        job.next_lookup_at = now.saturating_add(KEYWORD_JOB_LOOKUP_EVERY_NANOS);
    }
    let do_search = job.want_search && now >= job.next_search_at;
    let do_publish = job.publish.is_some() && !job.got_publish_ack && now >= job.next_publish_at;
    let mut search: Vec<ImuleNode> = Vec::new();
    let mut publish: Vec<ImuleNode> = Vec::new();
    if do_search || do_publish {
        let peers = closest_peers_with_fallback(routing, keyword, 32, 3, 0, now);
        if do_search {
            search = keep_fresh(&peers, &job.sent_to_search, 3);
            job.next_search_at = now.saturating_add(KEYWORD_JOB_ACTION_EVERY_NANOS);
        }
        if do_publish {
            publish = keep_fresh(&peers, &job.sent_to_publish, 2);
            job.next_publish_at = now.saturating_add(KEYWORD_JOB_ACTION_EVERY_NANOS);
        }
    }
    assert(nodes_of(Seq::<ImuleNode>::empty()) =~= Seq::<ImuleNodeView>::empty());
    KeywordJobPlan { lookup, search, publish }
}

impl KeywordJob {
    /// A job created at `now` with every timer due, nothing sent and no
    /// publish.
    pub fn new(want_search: bool, now: u64) -> (j: KeywordJob)
        ensures
            j.created_at == now,
            j.next_lookup_at == now,
            j.next_search_at == now,
            j.next_publish_at == now,
            j.sent_to_search@.len() == 0,
            j.sent_to_publish@.len() == 0,
            j.want_search == want_search,
            j.publish is None,
            !j.got_publish_ack,
    {
        KeywordJob {
            created_at: now,
            next_lookup_at: now,
            next_search_at: now,
            next_publish_at: now,
            sent_to_search: Vec::new(),
            sent_to_publish: Vec::new(),
            want_search,
            publish: None,
            got_publish_ack: false,
        }
    }

    /// (Re)starts the search: a new round from `now`, lookup and search due
    /// at once, no node searched yet. The publish part is left as it was.
    pub fn start_search(&mut self, now: u64)
        ensures
            final(self).want_search,
            final(self).created_at == now,
            final(self).next_lookup_at == now,
            final(self).next_search_at == now,
            final(self).sent_to_search@.len() == 0,
            final(self).next_publish_at == old(self).next_publish_at,
            final(self).sent_to_publish == old(self).sent_to_publish,
            final(self).publish == old(self).publish,
            final(self).got_publish_ack == old(self).got_publish_ack,
    {
        self.want_search = true;
        self.created_at = now;
        self.next_lookup_at = now;
        self.next_search_at = now;
        self.sent_to_search = Vec::new();
    }

    /// (Re)starts publishing `spec`: a new round from `now`, lookup and
    /// publish due at once, not acknowledged, no node asked yet. The search
    /// part is left as it was.
    pub fn start_publish(&mut self, spec: KeywordPublishSpec, now: u64)
        ensures
            final(self).publish == Some(spec),
            final(self).created_at == now,
            final(self).next_lookup_at == now,
            final(self).next_publish_at == now,
            !final(self).got_publish_ack,
            final(self).sent_to_publish@.len() == 0,
            final(self).want_search == old(self).want_search,
            final(self).next_search_at == old(self).next_search_at,
            final(self).sent_to_search == old(self).sent_to_search,
    {
        self.publish = Some(spec);
        self.created_at = now;
        self.next_lookup_at = now;
        self.next_publish_at = now;
        self.got_publish_ack = false;
        self.sent_to_publish = Vec::new();
    }

    /// Stops the job: no more search, no publish, counted as acknowledged.
    pub fn stop(&mut self)
        ensures
            !final(self).want_search,
            final(self).publish is None,
            final(self).got_publish_ack,
            final(self).created_at == old(self).created_at,
            final(self).next_lookup_at == old(self).next_lookup_at,
            final(self).next_search_at == old(self).next_search_at,
            final(self).next_publish_at == old(self).next_publish_at,
            final(self).sent_to_search == old(self).sent_to_search,
            final(self).sent_to_publish == old(self).sent_to_publish,
    {
        self.want_search = false;
        self.publish = None;
        self.got_publish_ack = true;
    }

    /// Takes a publish acknowledgement; tells whether it was the first.
    pub fn note_publish_ack(&mut self) -> (first: bool)
        ensures
            first == !old(self).got_publish_ack,
            final(self).got_publish_ack,
            final(self).want_search == old(self).want_search,
            final(self).publish == old(self).publish,
            final(self).created_at == old(self).created_at,
            final(self).next_lookup_at == old(self).next_lookup_at,
            final(self).next_search_at == old(self).next_search_at,
            final(self).next_publish_at == old(self).next_publish_at,
            final(self).sent_to_search == old(self).sent_to_search,
            final(self).sent_to_publish == old(self).sent_to_publish,
    {
        let first = !self.got_publish_ack;
        self.got_publish_ack = true;
        first
    }

    /// Whether the job outlived its time to live at `now`.
    pub fn is_expired(&self, now: u64) -> (r: bool)
        ensures
            r == (sat_sub(now, self.created_at) > KEYWORD_JOB_TTL_NANOS),
    {
        now.saturating_sub(self.created_at) > KEYWORD_JOB_TTL_NANOS
    }

    /// Once acknowledged, the publish is done: it and its sent list are
    /// dropped. The search goes on either way.
    pub fn settle_publish(&mut self)
        ensures
            final(self).publish == (if old(self).got_publish_ack { None } else { old(self).publish }),
            final(self).sent_to_publish@ == (if old(self).got_publish_ack { Seq::empty() } else { old(self).sent_to_publish@ }),
            final(self).got_publish_ack == old(self).got_publish_ack,
            final(self).want_search == old(self).want_search,
            final(self).created_at == old(self).created_at,
            final(self).next_lookup_at == old(self).next_lookup_at,
            final(self).next_search_at == old(self).next_search_at,
            final(self).next_publish_at == old(self).next_publish_at,
            final(self).sent_to_search == old(self).sent_to_search,
    {
        if self.got_publish_ack {
            self.publish = None;
            self.sent_to_publish = Vec::new();
        }
    }

    /// Records that a search request went to `dest`.
    pub fn record_search_sent(&mut self, dest: String)
        ensures
            final(self).sent_to_search@ == old(self).sent_to_search@.push(dest),
            final(self).sent_to_publish == old(self).sent_to_publish,
            final(self).want_search == old(self).want_search,
            final(self).publish == old(self).publish,
            final(self).got_publish_ack == old(self).got_publish_ack,
            final(self).created_at == old(self).created_at,
            final(self).next_lookup_at == old(self).next_lookup_at,
            final(self).next_search_at == old(self).next_search_at,
            final(self).next_publish_at == old(self).next_publish_at,
    {
        self.sent_to_search.push(dest);
    }

    /// Records that a publish request went to `dest`.
    pub fn record_publish_sent(&mut self, dest: String)
        ensures
            final(self).sent_to_publish@ == old(self).sent_to_publish@.push(dest),
            final(self).sent_to_search == old(self).sent_to_search,
            final(self).want_search == old(self).want_search,
            final(self).publish == old(self).publish,
            final(self).got_publish_ack == old(self).got_publish_ack,
            final(self).created_at == old(self).created_at,
            final(self).next_lookup_at == old(self).next_lookup_at,
            final(self).next_search_at == old(self).next_search_at,
            final(self).next_publish_at == old(self).next_publish_at,
    {
        self.sent_to_publish.push(dest);
    }
}

/// The pairs of `v` with each key taken by its view.
pub open spec fn pairs_view<T>(v: Seq<(Vec<u128>, T)>) -> Seq<(Seq<u128>, T)> {
    v.map_values(|p: (Vec<u128>, T)| (p.0@, p.1))
}

/// The values of keyed pairs, in order.
pub open spec fn values_of<T>(s: Seq<(Seq<u128>, T)>) -> Seq<T> {
    s.map_values(|p: (Seq<u128>, T)| p.1)
}

/// Sorts `cands` by key, keeping the order of equal keys.
#[verifier::spinoff_prover]
pub fn sort_by_keys<T>(cands: Vec<(Vec<u128>, T)>) -> (out: Vec<(Vec<u128>, T)>)
    ensures
        pairs_view(out@) == stable_sort(pairs_view(cands@)),
{
    let ghost c = pairs_view(cands@);
    let n = cands.len();
    let mut rest = cands;
    let mut sorted: Vec<(Vec<u128>, T)> = Vec::new();
    let mut i: usize = 0;
    assert(c.take(0) =~= Seq::<(Seq<u128>, T)>::empty());
    assert(pairs_view(rest@) =~= c.skip(0));
    while i < n
        invariant
            i <= n,
            n == c.len(),
            pairs_view(rest@) == c.skip(i as int),
            pairs_view(sorted@) == stable_sort(c.take(i as int)),
        decreases n - i,
    {
        assert(pairs_view(rest@).len() == rest@.len());
        assert(pairs_view(rest@)[0] == c[i as int]);
        let ghost r0 = rest@;
        assert(pairs_view(r0)[0] == (r0[0].0@, r0[0].1));
        let x = rest.remove(0);
        let ghost xv = (x.0@, x.1);
        assert(xv == c[i as int]);
        assert forall|k: int| 0 <= k < rest@.len() implies #[trigger] pairs_view(rest@)[k] == c.skip(i + 1)[k] by {
            assert(rest@[k] == r0[k + 1]);
            assert(pairs_view(r0)[k + 1] == c.skip(i as int)[k + 1]);
        }
        assert(pairs_view(rest@) =~= c.skip(i + 1));
        let ghost sv = pairs_view(sorted@);
        let mut p: usize = 0;
        while p < sorted.len() && !lex_lt_exec(&x.0, &sorted[p].0)
            invariant
                p <= sorted@.len(),
                sv == pairs_view(sorted@),
                xv == (x.0@, x.1),
                forall|q: int| 0 <= q < p ==> !lex_lt(xv.0, #[trigger] sv[q].0),
            decreases sorted@.len() - p,
        {
            assert(sv[p as int].0 == sorted@[p as int].0@);
            p += 1;
        }
        proof {
            if p < sorted@.len() {
                assert(sv[p as int].0 == sorted@[p as int].0@);
            }
            lemma_insert_stable_at(sv, xv, p as int);
            assert(c.take(i + 1).drop_last() =~= c.take(i as int));
            assert(c.take(i + 1).last() == xv);
        }
        sorted.insert(p, x);
        assert(pairs_view(sorted@) =~= sv.insert(p as int, xv));
        i += 1;
    }
    assert(c.take(n as int) =~= c);
    sorted
}

/// Keys of one element compare as their numbers.
proof fn lemma_single_key_order(a: u128, b: u128)
    ensures
        !lex_lt(seq![b], seq![a]) ==> a <= b,
{
    assert(seq![b].drop_first() =~= Seq::<u128>::empty());
    assert(seq![a].drop_first() =~= Seq::<u128>::empty());
}

/// Every element of the sorted sequence comes from the input.
pub proof fn lemma_sorted_from_input<T>(s: Seq<(Seq<u128>, T)>, i: int)
    requires
        0 <= i < stable_sort(s).len(),
    ensures
        s.contains(stable_sort(s)[i]),
{
    broadcast use vstd::seq_lib::to_multiset_contains;
    lemma_stable_sort_props(s);
    let t = stable_sort(s);
    assert(t.contains(t[i]));
    assert(t.to_multiset().count(t[i]) > 0);
    assert(s.to_multiset().count(t[i]) > 0);
}

/// The values of `v`, in order.
fn into_values<T>(v: Vec<(Vec<u128>, T)>) -> (out: Vec<T>)
    ensures
        out@ == values_of(pairs_view(v@)),
{
    let ghost c = values_of(pairs_view(v@));
    let n = v.len();
    let mut rest = v;
    let mut out: Vec<T> = Vec::new();
    let mut i: usize = 0;
    while i < n
        invariant
            i <= n,
            n == c.len(),
            values_of(pairs_view(rest@)) == c.skip(i as int),
            out@ == c.take(i as int),
        decreases n - i,
    {
        let ghost r0 = rest@;
        assert(values_of(pairs_view(r0)).len() == r0.len());
        assert(values_of(pairs_view(r0))[0] == r0[0].1);
        let x = rest.remove(0);
        assert forall|k: int| 0 <= k < rest@.len() implies #[trigger] values_of(pairs_view(rest@))[k] == c.skip(i + 1)[k] by {
            assert(rest@[k] == r0[k + 1]);
            assert(values_of(pairs_view(r0))[k + 1] == c.skip(i as int)[k + 1]);
        }
        assert(values_of(pairs_view(rest@)) =~= c.skip(i + 1));
        out.push(x.1);
        assert(out@ =~= c.take(i + 1));
        i += 1;
    }
    assert(c.take(n as int) =~= c);
    out
}

/// The state a search listing shows for a job.
pub open spec fn search_state(job: KeywordJob) -> Seq<char> {
    if job.want_search || (job.publish is Some && !job.got_publish_ack) { "running"@ } else { "complete"@ }
}

/// Whole seconds from `t` to `now` (zero when `t` is later).
pub open spec fn secs_since(now: u64, t: u64) -> u64 {
    (sat_sub(now, t) / NANOS_PER_SEC) as u64
}

/// `info` lists the job for `kw` at `now`, with the number of hits the
/// cache holds for it.
pub open spec fn search_info_ok(info: KadKeywordSearchInfo, kw: KadId, job: KeywordJob, hits: Seq<KeywordEntry>,
    now: u64) -> bool
{
    &&& info.search_id_hex@ == hex_lower(kw.0@)
    &&& info.keyword_id_hex@ == hex_lower(kw.0@)
    &&& info.state@ == search_state(job)
    &&& info.created_secs_ago == secs_since(now, job.created_at)
    &&& info.hits == count_kw(hits, kw.0@)
    &&& info.want_search == job.want_search
    &&& info.publish_enabled == (job.publish is Some)
    &&& info.got_publish_ack == job.got_publish_ack
}

/// Listing entries keyed by their age.
pub open spec fn by_created(s: Seq<KadKeywordSearchInfo>) -> Seq<(Seq<u128>, KadKeywordSearchInfo)> {
    s.map_values(|x: KadKeywordSearchInfo| (seq![x.created_secs_ago as u128], x))
}

proof fn lemma_by_created_sorted(u: Seq<KadKeywordSearchInfo>)
    ensures
        forall|i: int, j: int| 0 <= i < j < values_of(stable_sort(by_created(u))).len()
            ==> (#[trigger] values_of(stable_sort(by_created(u)))[i]).created_secs_ago
                <= (#[trigger] values_of(stable_sort(by_created(u)))[j]).created_secs_ago,
{
    let b = by_created(u);
    let t = stable_sort(b);
    lemma_stable_sort_props(b);
    assert forall|i: int| 0 <= i < t.len() implies #[trigger] t[i].0 == seq![t[i].1.created_secs_ago as u128] by {
        lemma_sorted_from_input(b, i);
        let k = choose|k: int| 0 <= k < b.len() && b[k] == t[i];
        assert(b[k] == (seq![u[k].created_secs_ago as u128], u[k]));
    }
    assert forall|i: int, j: int| 0 <= i < j < values_of(t).len()
        implies (#[trigger] values_of(t)[i]).created_secs_ago <= (#[trigger] values_of(t)[j]).created_secs_ago by {
        assert(t[i].0 == seq![t[i].1.created_secs_ago as u128]);
        assert(t[j].0 == seq![t[j].1.created_secs_ago as u128]);
        assert(!lex_lt(t[j].0, t[i].0));
        lemma_single_key_order(t[i].1.created_secs_ago as u128, t[j].1.created_secs_ago as u128);
    }
}

/// The listing of the keyword jobs, youngest first (ties in job order),
/// each with its hit count from `cache`.
#[verifier::spinoff_prover]
pub fn keyword_search_infos(jobs: &Vec<(KadId, KeywordJob)>, cache: &KeywordCache, now: u64)
    -> (v: Vec<KadKeywordSearchInfo>)
    ensures
        exists|u: Seq<KadKeywordSearchInfo>| {
            &&& u.len() == jobs@.len()
            &&& forall|i: int| 0 <= i < u.len()
                ==> #[trigger] search_info_ok(u[i], jobs@[i].0, jobs@[i].1, cache.hits.entries@, now)
            &&& v@ == values_of(stable_sort(by_created(u)))
        },
        forall|i: int, j: int| 0 <= i < j < v@.len() ==> (#[trigger] v@[i]).created_secs_ago <= (#[trigger] v@[j]).created_secs_ago,
{
    let mut keyed_infos: Vec<(Vec<u128>, KadKeywordSearchInfo)> = Vec::new();
    let ghost mut u: Seq<KadKeywordSearchInfo> = Seq::empty();
    let mut i: usize = 0;
    while i < jobs.len()
        invariant
            i <= jobs@.len(),
            u.len() == i,
            pairs_view(keyed_infos@) == by_created(u),
            forall|k: int| 0 <= k < i ==> #[trigger] search_info_ok(u[k], jobs@[k].0, jobs@[k].1, cache.hits.entries@, now),
        decreases jobs@.len() - i,
    {
        let kw = jobs[i].0;
        let job = &jobs[i].1;
        let hex = kw.to_hex_lower();
        let running = job.want_search || (job.publish.is_some() && !job.got_publish_ack);
        let state = if running { String::from_str("running") } else { String::from_str("complete") };
        let created = now.saturating_sub(job.created_at) / NANOS_PER_SEC;
        let info = KadKeywordSearchInfo {
            search_id_hex: hex.clone(),
            keyword_id_hex: hex,
            state,
            created_secs_ago: created,
            hits: cache.hits.count_for(&kw),
            want_search: job.want_search,
            publish_enabled: job.publish.is_some(),
            got_publish_ack: job.got_publish_ack,
        };
        assert(search_info_ok(info, jobs@[i as int].0, jobs@[i as int].1, cache.hits.entries@, now));
        let ghost before = pairs_view(keyed_infos@);
        let mut key: Vec<u128> = Vec::new();
        key.push(created as u128);
        assert(key@ =~= seq![created as u128]);
        keyed_infos.push((key, info));
        proof {
            u = u.push(info);
            assert(pairs_view(keyed_infos@) =~= before.push((seq![created as u128], info)));
            assert(by_created(u) =~= by_created(u.drop_last()).push((seq![created as u128], info)));
            assert(u.drop_last() =~= u.take(i as int));
        }
        i += 1;
    }
    let sorted = sort_by_keys(keyed_infos);
    let v = into_values(sorted);
    proof {
        lemma_by_created_sorted(u);
    }
    v
}

/// Whether the job outlived its time to live at `now`.
pub open spec fn job_expired(job: KeywordJob, now: u64) -> bool {
    sat_sub(now, job.created_at) > KEYWORD_JOB_TTL_NANOS
}

/// `new` is `old` after `settle_publish`.
pub open spec fn publish_settled(old: KeywordJob, new: KeywordJob) -> bool {
    &&& new.publish == (if old.got_publish_ack { None } else { old.publish })
    &&& new.sent_to_publish@ == (if old.got_publish_ack { Seq::empty() } else { old.sent_to_publish@ })
    &&& new.got_publish_ack == old.got_publish_ack
    &&& new.want_search == old.want_search
    &&& new.created_at == old.created_at
    &&& new.next_lookup_at == old.next_lookup_at
    &&& new.next_search_at == old.next_search_at
    &&& new.next_publish_at == old.next_publish_at
    &&& new.sent_to_search == old.sent_to_search
}

/// One periodic tick of a live job: an acknowledged publish is dropped,
/// then the job takes its step.
pub open spec fn job_tick(old: KeywordJob, new: KeywordJob, keyword: KadId, routing: RoutingTable,
    pending: Seq<Seq<char>>, cfg: KadServiceConfig, now: u64, plan: KeywordJobPlan) -> bool
{
    exists|mid: KeywordJob| #[trigger] publish_settled(old, mid)
        && keyword_job_step(mid, new, keyword, routing, pending, cfg, now,
            nodes_of(plan.lookup@), nodes_of(plan.search@), nodes_of(plan.publish@))
}

/// The jobs of `s` that have not expired at `now`, in order.
pub open spec fn live_jobs(s: Seq<(KadId, KeywordJob)>, now: u64) -> Seq<(KadId, KeywordJob)>
    decreases s.len(),
{
    if s.len() == 0 {
        s
    } else {
        let r = live_jobs(s.drop_last(), now);
        if job_expired(s.last().1, now) { r } else { r.push(s.last()) }
    }
}

/// One periodic tick of every job: expired jobs are dropped, the others
/// keep their order and each takes `job_tick`; the plans come in the same
/// order, with their keywords.
#[verifier::spinoff_prover]
pub fn progress_keyword_jobs(jobs: &mut Vec<(KadId, KeywordJob)>, routing: &RoutingTable, pending: &Vec<String>,
    cfg: &KadServiceConfig, now: u64) -> (plans: Vec<(KadId, KeywordJobPlan)>)
    requires
        routing.wf(),
        cfg.alpha <= usize::MAX / 10,
    ensures
        final(jobs)@.len() == live_jobs(old(jobs)@, now).len(),
        plans@.len() == final(jobs)@.len(),
        forall|i: int| 0 <= i < plans@.len() ==> {
            let l = #[trigger] live_jobs(old(jobs)@, now)[i];
            &&& final(jobs)@[i].0 == l.0
            &&& plans@[i].0 == l.0
            &&& job_tick(l.1, final(jobs)@[i].1, l.0, *routing, texts_of(pending@), *cfg, now, plans@[i].1)
        },
{
    let ghost orig = jobs@;
    let mut rest: Vec<(KadId, KeywordJob)> = Vec::new();
    std::mem::swap(jobs, &mut rest);
    let n = rest.len();
    let mut plans: Vec<(KadId, KeywordJobPlan)> = Vec::new();
    let mut i: usize = 0;
    assert(rest@.skip(0) =~= orig);
    while i < n
        invariant
            i <= n,
            n == orig.len(),
            routing.wf(),
            cfg.alpha <= usize::MAX / 10,
            rest@ == orig.skip(i as int),
            jobs@.len() == live_jobs(orig.take(i as int), now).len(),
            plans@.len() == jobs@.len(),
            forall|k: int| 0 <= k < plans@.len() ==> {
                let l = #[trigger] live_jobs(orig.take(i as int), now)[k];
                &&& jobs@[k].0 == l.0
                &&& plans@[k].0 == l.0
                &&& job_tick(l.1, jobs@[k].1, l.0, *routing, texts_of(pending@), *cfg, now, plans@[k].1)
            },
        decreases n - i,
    {
        let ghost r0 = rest@;
        assert(r0[0] == orig[i as int]);
        let (kw, mut job) = rest.remove(0);
        assert(rest@ =~= orig.skip(i + 1)) by {
            assert forall|k: int| 0 <= k < rest@.len() implies #[trigger] rest@[k] == orig.skip(i + 1)[k] by {
                assert(rest@[k] == r0[k + 1]);
            }
        }
        let ghost prev = live_jobs(orig.take(i as int), now);
        assert(orig.take(i + 1).drop_last() =~= orig.take(i as int));
        assert(orig.take(i + 1).last() == (kw, job));
        if !job.is_expired(now) {
            let ghost j0 = job;
            job.settle_publish();
            let ghost j1 = job;
            let plan = progress_keyword_job(&mut job, kw, routing, pending, cfg, now);
            assert(publish_settled(j0, j1));
            assert(job_tick(j0, job, kw, *routing, texts_of(pending@), *cfg, now, plan));
            let ghost jb = jobs@;
            let ghost pb = plans@;
            jobs.push((kw, job));
            plans.push((kw, plan));
            proof {
                let cur = live_jobs(orig.take(i + 1), now);
                assert(cur == prev.push((kw, j0)));
                assert forall|k: int| 0 <= k < plans@.len() implies {
                    let l = #[trigger] cur[k];
                    &&& jobs@[k].0 == l.0
                    &&& plans@[k].0 == l.0
                    &&& job_tick(l.1, jobs@[k].1, l.0, *routing, texts_of(pending@), *cfg, now, plans@[k].1)
                } by {
                    if k < pb.len() {
                        assert(jobs@[k] == jb[k] && plans@[k] == pb[k] && cur[k] == prev[k]);
                    }
                }
            }
        }
        i += 1;
    }
    assert(orig.take(n as int) =~= orig);
    plans
}

/// The position of the first job for `kw`.
pub open spec fn job_index(s: Seq<(KadId, KeywordJob)>, kw: KadId) -> Option<int> {
    if exists|i: int| 0 <= i < s.len() && (#[trigger] s[i]).0.0@ == kw.0@ {
        Some(choose|i: int| 0 <= i < s.len() && (#[trigger] s[i]).0.0@ == kw.0@
            && forall|k: int| 0 <= k < i ==> (#[trigger] s[k]).0.0@ != kw.0@)
    } else {
        None
    }
}

proof fn lemma_job_index(s: Seq<(KadId, KeywordJob)>, kw: KadId, i: int)
    requires
        0 <= i < s.len(),
        s[i].0.0@ == kw.0@,
        forall|k: int| 0 <= k < i ==> (#[trigger] s[k]).0.0@ != kw.0@,
    ensures
        job_index(s, kw) == Some(i),
{
    let j = choose|j: int| 0 <= j < s.len() && (#[trigger] s[j]).0.0@ == kw.0@
        && forall|k: int| 0 <= k < j ==> (#[trigger] s[k]).0.0@ != kw.0@;
    assert(0 <= j < s.len() && s[j].0.0@ == kw.0@ && forall|k: int| 0 <= k < j ==> (#[trigger] s[k]).0.0@ != kw.0@);
    if j < i {
        assert(s[j].0.0@ != kw.0@);
    } else if j > i {
        assert(s[i].0.0@ != kw.0@);
    }
}

/// Finds the job for `kw`.
#[verifier::spinoff_prover]
pub fn find_job(jobs: &Vec<(KadId, KeywordJob)>, kw: KadId) -> (r: Option<usize>)
    ensures
        match r {
            Some(i) => i < jobs@.len() && job_index(jobs@, kw) == Some(i as int) && jobs@[i as int].0.0@ == kw.0@,
            None => job_index(jobs@, kw) is None,
        },
{
    let mut i: usize = 0;
    while i < jobs.len()
        invariant
            i <= jobs@.len(),
            forall|k: int| 0 <= k < i ==> (#[trigger] jobs@[k]).0.0@ != kw.0@,
        decreases jobs@.len() - i,
    {
        if jobs[i].0 == kw {
            proof {
                lemma_job_index(jobs@, kw, i as int);
            }
            return Some(i);
        }
        i += 1;
    }
    None
}

/// Starts (or restarts) the search for `kw`; a new job is added at the end
/// when none exists. Tells the job's position. Every other job is left as
/// it was.
#[verifier::spinoff_prover]
#[verifier::rlimit(30)]
pub fn start_keyword_search(jobs: &mut Vec<(KadId, KeywordJob)>, kw: KadId, now: u64) -> (i: usize)
    ensures
        i < final(jobs)@.len(),
        final(jobs)@[i as int].0.0@ == kw.0@,
        final(jobs)@.len() == old(jobs)@.len() + (if job_index(old(jobs)@, kw) is Some { 0int } else { 1int }),
        job_index(old(jobs)@, kw) is Some ==> job_index(old(jobs)@, kw) == Some(i as int),
        forall|k: int| 0 <= k < old(jobs)@.len() && k != i ==> #[trigger] final(jobs)@[k] == old(jobs)@[k],
        ({
            let j = final(jobs)@[i as int].1;
            &&& j.want_search
            &&& j.created_at == now
            &&& j.next_lookup_at == now
            &&& j.next_search_at == now
            &&& j.sent_to_search@.len() == 0
            &&& match job_index(old(jobs)@, kw) {
                Some(p) => {
                    let o = old(jobs)@[p].1;
                    &&& j.next_publish_at == o.next_publish_at
                    &&& j.sent_to_publish == o.sent_to_publish
                    &&& j.publish == o.publish
                    &&& j.got_publish_ack == o.got_publish_ack
                },
                None => j.next_publish_at == now && j.sent_to_publish@.len() == 0 && j.publish is None
                    && !j.got_publish_ack,
            }
        }),
{
    match find_job(jobs, kw) {
        Some(i) => {
            let ghost o = jobs@;
            let (k, mut job) = jobs.remove(i);
            job.start_search(now);
            jobs.insert(i, (k, job));
            assert(jobs@ =~= o.update(i as int, (k, job)));
            i
        },
        None => {
            let i = jobs.len();
            let ghost o = jobs@;
            let job = KeywordJob::new(true, now);
            jobs.push((kw, job));
            assert(jobs@ =~= o.push((kw, job)));
            i
        },
    }
}

/// Starts (or restarts) publishing `spec` under `kw`; a new job is added at
/// the end when none exists. Tells the job's position. Every other job is
/// left as it was.
#[verifier::spinoff_prover]
#[verifier::rlimit(30)]
pub fn start_keyword_publish(jobs: &mut Vec<(KadId, KeywordJob)>, kw: KadId, spec: KeywordPublishSpec, now: u64)
    -> (i: usize)
    ensures
        i < final(jobs)@.len(),
        final(jobs)@[i as int].0.0@ == kw.0@,
        final(jobs)@.len() == old(jobs)@.len() + (if job_index(old(jobs)@, kw) is Some { 0int } else { 1int }),
        job_index(old(jobs)@, kw) is Some ==> job_index(old(jobs)@, kw) == Some(i as int),
        forall|k: int| 0 <= k < old(jobs)@.len() && k != i ==> #[trigger] final(jobs)@[k] == old(jobs)@[k],
        ({
            let j = final(jobs)@[i as int].1;
            &&& j.publish == Some(spec)
            &&& j.created_at == now
            &&& j.next_lookup_at == now
            &&& j.next_publish_at == now
            &&& !j.got_publish_ack
            &&& j.sent_to_publish@.len() == 0
            &&& match job_index(old(jobs)@, kw) {
                Some(p) => {
                    let o = old(jobs)@[p].1;
                    &&& j.want_search == o.want_search
                    &&& j.next_search_at == o.next_search_at
                    &&& j.sent_to_search == o.sent_to_search
                },
                None => !j.want_search && j.next_search_at == now && j.sent_to_search@.len() == 0,
            }
        }),
{
    match find_job(jobs, kw) {
        Some(i) => {
            let ghost o = jobs@;
            let (k, mut job) = jobs.remove(i);
            job.start_publish(spec, now);
            jobs.insert(i, (k, job));
            assert(jobs@ =~= o.update(i as int, (k, job)));
            i
        },
        None => {
            let i = jobs.len();
            let mut job = KeywordJob::new(false, now);
            job.start_publish(spec, now);
            let ghost o = jobs@;
            jobs.push((kw, job));
            assert(jobs@ =~= o.push((kw, job)));
            i
        },
    }
}

/// Stops the job for `kw` (see `KeywordJob::stop`); tells whether there was
/// one. Every other job is left as it was.
#[verifier::spinoff_prover]
#[verifier::rlimit(30)]
pub fn stop_keyword_search(jobs: &mut Vec<(KadId, KeywordJob)>, kw: KadId) -> (found: bool)
    ensures
        found == (job_index(old(jobs)@, kw) is Some),
        final(jobs)@.len() == old(jobs)@.len(),
        forall|k: int| 0 <= k < old(jobs)@.len() && Some(k) != job_index(old(jobs)@, kw)
            ==> #[trigger] final(jobs)@[k] == old(jobs)@[k],
        match job_index(old(jobs)@, kw) {
            Some(p) => {
                let j = final(jobs)@[p].1;
                let o = old(jobs)@[p].1;
                &&& final(jobs)@[p].0 == old(jobs)@[p].0
                &&& !j.want_search
                &&& j.publish is None
                &&& j.got_publish_ack
                &&& j.created_at == o.created_at
                &&& j.next_lookup_at == o.next_lookup_at
                &&& j.next_search_at == o.next_search_at
                &&& j.next_publish_at == o.next_publish_at
                &&& j.sent_to_search == o.sent_to_search
                &&& j.sent_to_publish == o.sent_to_publish
            },
            None => true,
        },
{
    match find_job(jobs, kw) {
        Some(i) => {
            let ghost o = jobs@;
            let (k, mut job) = jobs.remove(i);
            job.stop();
            jobs.insert(i, (k, job));
            assert(jobs@ =~= o.update(i as int, (k, job)));
            true
        },
        None => false,
    }
}

/// Removes the job for `kw`; tells whether there was one. The other jobs
/// keep their order.
#[verifier::spinoff_prover]
pub fn delete_keyword_search(jobs: &mut Vec<(KadId, KeywordJob)>, kw: KadId) -> (found: bool)
    ensures
        found == (job_index(old(jobs)@, kw) is Some),
        final(jobs)@ == match job_index(old(jobs)@, kw) {
            Some(p) => old(jobs)@.remove(p),
            None => old(jobs)@,
        },
{
    match find_job(jobs, kw) {
        Some(i) => {
            let _ = jobs.remove(i);
            true
        },
        None => false,
    }
}

/// Takes a publish acknowledgement for `kw`: tells whether a job was
/// waiting for it, which then counts as acknowledged. Every other job, and
/// every job when none was waiting, is left as it was.
#[verifier::spinoff_prover]
#[verifier::rlimit(30)]
pub fn note_publish_ack_for(jobs: &mut Vec<(KadId, KeywordJob)>, kw: KadId) -> (first: bool)
    ensures
        first == match job_index(old(jobs)@, kw) { Some(p) => !old(jobs)@[p].1.got_publish_ack, None => false },
        final(jobs)@.len() == old(jobs)@.len(),
        forall|k: int| 0 <= k < old(jobs)@.len() && Some(k) != job_index(old(jobs)@, kw)
            ==> #[trigger] final(jobs)@[k] == old(jobs)@[k],
        match job_index(old(jobs)@, kw) {
            Some(p) => {
                let j = final(jobs)@[p].1;
                let o = old(jobs)@[p].1;
                &&& final(jobs)@[p].0 == old(jobs)@[p].0
                &&& j.got_publish_ack
                &&& j.want_search == o.want_search
                &&& j.publish == o.publish
                &&& j.created_at == o.created_at
                &&& j.next_lookup_at == o.next_lookup_at
                &&& j.next_search_at == o.next_search_at
                &&& j.next_publish_at == o.next_publish_at
                &&& j.sent_to_search == o.sent_to_search
                &&& j.sent_to_publish == o.sent_to_publish
            },
            None => true,
        },
{
    match find_job(jobs, kw) {
        Some(i) => {
            let ghost o = jobs@;
            let (k, mut job) = jobs.remove(i);
            let first = job.note_publish_ack();
            jobs.insert(i, (k, job));
            assert(jobs@ =~= o.update(i as int, (k, job)));
            first
        },
        None => false,
    }
}

proof fn lemma_fresh_peers_members(s: Seq<ImuleNodeView>, excluded: Seq<Seq<char>>, min_version: u8)
    ensures
        forall|i: int| 0 <= i < fresh_peers(s, excluded, min_version).len() ==> {
            let n = #[trigger] fresh_peers(s, excluded, min_version)[i];
            &&& n.kad_version >= min_version
            &&& !excluded.contains(b64_spec(n.udp_dest))
            &&& s.contains(n)
        },
    decreases s.len(),
{
    if s.len() > 0 {
        let r = fresh_peers(s.drop_last(), excluded, min_version);
        lemma_fresh_peers_members(s.drop_last(), excluded, min_version);
        assert forall|i: int| 0 <= i < r.len() implies s.contains(#[trigger] r[i]) by {
            let k = choose|k: int| 0 <= k < s.drop_last().len() && s.drop_last()[k] == r[i];
            assert(s[k] == r[i]);
        }
        assert(s[s.len() - 1] == s.last());
    }
}

/// A job step asks no node twice in a round and only nodes of the right
/// version: every node planned for a search is of version 3 or later and
/// not yet searched, every node planned for a publish of version 2 or later
/// and not yet asked, and both come from the nodes nearest the keyword.
pub proof fn law_job_step_asks_fresh_nodes(old: KeywordJob, new: KeywordJob, keyword: KadId, routing: RoutingTable,
    pending: Seq<Seq<char>>, cfg: KadServiceConfig, now: u64,
    lookup: Seq<ImuleNodeView>, search: Seq<ImuleNodeView>, publish: Seq<ImuleNodeView>)
    requires
        keyword_job_step(old, new, keyword, routing, pending, cfg, now, lookup, search, publish),
    ensures
        forall|i: int| 0 <= i < search.len() ==> {
            &&& (#[trigger] search[i]).kad_version >= 3
            &&& !texts_of(old.sent_to_search@).contains(b64_spec(search[i].udp_dest))
            &&& job_peers(routing, keyword, now).contains(search[i])
        },
        forall|i: int| 0 <= i < publish.len() ==> {
            &&& (#[trigger] publish[i]).kad_version >= 2
            &&& !texts_of(old.sent_to_publish@).contains(b64_spec(publish[i].udp_dest))
            &&& job_peers(routing, keyword, now).contains(publish[i])
        },
        forall|i: int| 0 <= i < lookup.len() ==> !pending.contains(b64_spec((#[trigger] lookup[i]).udp_dest)),
        lookup.len() <= job_alpha(cfg),
{
    let peers = job_peers(routing, keyword, now);
    lemma_fresh_peers_members(peers, texts_of(old.sent_to_search@), 3);
    lemma_fresh_peers_members(peers, texts_of(old.sent_to_publish@), 2);
    if lookup_due(old, now) {
        let a = job_alpha(cfg);
        let cands = first_by_key(
            keyed(routing.nodes(), |st: NodeModel| query_key(st, Some(keyword), now, job_req_min(cfg), cfg.max_failures)),
            (a * 10) as usize,
        );
        let f = fresh_peers(cands, pending, 0);
        lemma_fresh_peers_members(cands, pending, 0);
        assert forall|i: int| 0 <= i < lookup.len() implies !pending.contains(b64_spec((#[trigger] lookup[i]).udp_dest)) by {
            assert(lookup[i] == f[i]);
        }
    }
}

/// Once a publish is acknowledged no publish request is planned, and a
/// stopped job (no search, no publish) plans nothing at all.
pub proof fn law_done_jobs_stay_quiet(old: KeywordJob, new: KeywordJob, keyword: KadId, routing: RoutingTable,
    pending: Seq<Seq<char>>, cfg: KadServiceConfig, now: u64,
    lookup: Seq<ImuleNodeView>, search: Seq<ImuleNodeView>, publish: Seq<ImuleNodeView>)
    requires
        keyword_job_step(old, new, keyword, routing, pending, cfg, now, lookup, search, publish),
    ensures
        old.got_publish_ack ==> publish.len() == 0,
        !old.want_search && old.publish is None ==> lookup.len() == 0 && search.len() == 0 && publish.len() == 0,
        !old.want_search && old.publish is None ==> new.next_lookup_at == old.next_lookup_at
            && new.next_search_at == old.next_search_at && new.next_publish_at == old.next_publish_at,
{
}

/// A destination recorded as searched (or published to) is not planned
/// again for that kind of request while the round lasts.
pub proof fn law_recorded_dest_not_asked_again(j0: KeywordJob, j1: KeywordJob, dest: String, new: KeywordJob,
    keyword: KadId, routing: RoutingTable, pending: Seq<Seq<char>>, cfg: KadServiceConfig, now: u64,
    lookup: Seq<ImuleNodeView>, search: Seq<ImuleNodeView>, publish: Seq<ImuleNodeView>)
    requires
        j1.sent_to_search@ == j0.sent_to_search@.push(dest) || j1.sent_to_publish@ == j0.sent_to_publish@.push(dest),
        keyword_job_step(j1, new, keyword, routing, pending, cfg, now, lookup, search, publish),
    ensures
        j1.sent_to_search@ == j0.sent_to_search@.push(dest)
            ==> forall|i: int| 0 <= i < search.len() ==> b64_spec((#[trigger] search[i]).udp_dest) != dest@,
        j1.sent_to_publish@ == j0.sent_to_publish@.push(dest)
            ==> forall|i: int| 0 <= i < publish.len() ==> b64_spec((#[trigger] publish[i]).udp_dest) != dest@,
{
    law_job_step_asks_fresh_nodes(j1, new, keyword, routing, pending, cfg, now, lookup, search, publish);
    if j1.sent_to_search@ == j0.sent_to_search@.push(dest) {
        let t = texts_of(j1.sent_to_search@);
        assert(t[t.len() - 1] == dest@);
        assert(t.contains(dest@));
    }
    if j1.sent_to_publish@ == j0.sent_to_publish@.push(dest) {
        let t = texts_of(j1.sent_to_publish@);
        assert(t[t.len() - 1] == dest@);
        assert(t.contains(dest@));
    }
}

/// How far one search or publish batch has gone through its planned nodes,
/// and how many of its requests went out.
#[derive(Debug, Clone, Copy)]
pub struct KeywordBatch {
    pub next: usize,
    pub sent: usize,
}

impl KeywordBatch {
    pub fn new() -> (b: KeywordBatch)
        ensures
            b.next == 0,
            b.sent == 0,
    {
        KeywordBatch { next: 0, sent: 0 }
    }

    /// The position of the next planned node to send to; none once
    /// `KEYWORD_JOB_ACTION_BATCH` requests went out or the plan of
    /// `plan_len` nodes is used up.
    pub fn next_target(&self, plan_len: usize) -> (r: Option<usize>)
        ensures
            r == (if self.sent >= KEYWORD_JOB_ACTION_BATCH || self.next >= plan_len { None } else { Some(self.next) }),
            r is Some ==> self.sent < KEYWORD_JOB_ACTION_BATCH,
    {
        if self.sent >= KEYWORD_JOB_ACTION_BATCH || self.next >= plan_len {
            None
        } else {
            Some(self.next)
        }
    }

    /// Takes the outcome of the send `next_target` asked for: whether the
    /// request went out.
    pub fn record(&mut self, went_out: bool)
        requires
            old(self).next < usize::MAX,
            old(self).sent < usize::MAX,
        ensures
            final(self).next == old(self).next + 1,
            final(self).sent == old(self).sent + (if went_out { 1int } else { 0int }),
    {
        self.next = self.next + 1;
        if went_out {
            self.sent = self.sent + 1;
        }
    }
}

/// A batch driven by `next_target` and `record` never sends more than
/// `KEYWORD_JOB_ACTION_BATCH` requests: a send is only asked for below the
/// limit, and each one adds at most one.
pub proof fn law_batch_stays_within_limit(b: KeywordBatch, after: KeywordBatch, plan_len: usize, went_out: bool)
    requires
        b.sent <= KEYWORD_JOB_ACTION_BATCH,
        !(b.sent >= KEYWORD_JOB_ACTION_BATCH || b.next >= plan_len),
        after.next == b.next + 1,
        after.sent == b.sent + (if went_out { 1int } else { 0int }),
    ensures
        after.sent <= KEYWORD_JOB_ACTION_BATCH,
        after.next <= plan_len,
{
}

} // verus!
