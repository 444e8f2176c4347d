//! Summaries of the routing table for status reports: node counts, bucket
//! fill, and how long ago nodes were seen or heard from (whole seconds).

use vstd::prelude::*;
use crate::kad::id::KadId;
use crate::kad::routing::{
    age, bucket_for, lemma_insert_stable_at, lemma_stable_sort_len, lex_lt, nodes_view, stable_sort, NodeModel,
    NodeState, RoutingTable, BUCKET_COUNT,
};
use crate::kad::service::policy::age_secs;
use crate::kad::service::types::{RoutingBucketSummary, RoutingSummary};

verus! {

/// Whole seconds from `t` to `now` (none when `t` is later).
pub open spec fn secs(now: u64, t: u64) -> u64 {
    (age(now, t) / 1_000_000_000) as u64
}

pub open spec fn lower(a: Option<u64>, x: u64) -> Option<u64> {
    match a {
        Some(v) => Some(if x < v { x } else { v }),
        None => Some(x),
    }
}

pub open spec fn higher(a: Option<u64>, x: u64) -> Option<u64> {
    match a {
        Some(v) => Some(if x > v { x } else { v }),
        None => Some(x),
    }
}

/// Counts and age extremes over a set of nodes.
pub struct NodeStats {
    pub count: nat,
    pub verified: nat,
    pub seen_min: Option<u64>,
    pub seen_max: Option<u64>,
    pub inbound_min: Option<u64>,
    pub inbound_max: Option<u64>,
}

pub open spec fn no_stats() -> NodeStats {
    NodeStats { count: 0, verified: 0, seen_min: None, seen_max: None, inbound_min: None, inbound_max: None }
}

pub open spec fn add_node(a: NodeStats, st: NodeModel, now: u64) -> NodeStats {
    let seen = secs(now, st.last_seen);
    NodeStats {
        count: a.count + 1,
        verified: a.verified + if st.node.verified { 1nat } else { 0nat },
        seen_min: lower(a.seen_min, seen),
        seen_max: higher(a.seen_max, seen),
        inbound_min: match st.last_inbound {
            Some(t) => lower(a.inbound_min, secs(now, t)),
            None => a.inbound_min,
        },
        inbound_max: match st.last_inbound {
            Some(t) => higher(a.inbound_max, secs(now, t)),
            None => a.inbound_max,
        },
    }
}

/// The statistics of the nodes of `s` (all of them, or those in `bucket`).
pub open spec fn stats_of(s: Seq<NodeModel>, me: KadId, now: u64, bucket: Option<usize>) -> NodeStats
    decreases s.len(),
{
    if s.len() == 0 {
        no_stats()
    } else {
        let r = stats_of(s.drop_last(), me, now, bucket);
        let st = s.last();
        let counted = match bucket {
            Some(b) => bucket_for(me.0@, st.node.client_id) == Some(b),
            None => true,
        };
        if counted { add_node(r, st, now) } else { r }
    }
}

proof fn lemma_stats_count_le(s: Seq<NodeModel>, me: KadId, now: u64, bucket: Option<usize>)
    ensures
        stats_of(s, me, now, bucket).count <= s.len(),
        stats_of(s, me, now, bucket).verified <= stats_of(s, me, now, bucket).count,
    decreases s.len(),
{
    if s.len() > 0 {
        lemma_stats_count_le(s.drop_last(), me, now, bucket);
    }
}

struct StatsAcc {
    count: usize,
    verified: usize,
    seen_min: Option<u64>,
    seen_max: Option<u64>,
    inbound_min: Option<u64>,
    inbound_max: Option<u64>,
}

spec fn acc_view(a: StatsAcc) -> NodeStats {
    NodeStats {
        count: a.count as nat,
        verified: a.verified as nat,
        seen_min: a.seen_min,
        seen_max: a.seen_max,
        inbound_min: a.inbound_min,
        inbound_max: a.inbound_max,
    }
}

fn lower_exec(a: Option<u64>, x: u64) -> (r: Option<u64>)
    ensures
        r == lower(a, x),
{
    match a {
        Some(v) => Some(if x < v { x } else { v }),
        None => Some(x),
    }
}

fn higher_exec(a: Option<u64>, x: u64) -> (r: Option<u64>)
    ensures
        r == higher(a, x),
{
    match a {
        Some(v) => Some(if x > v { x } else { v }),
        None => Some(x),
    }
}

fn node_stats(states: &Vec<NodeState>, routing: &RoutingTable, now: u64, bucket: Option<usize>) -> (r: StatsAcc)
    requires
        nodes_view(states@) == routing.nodes(),
    ensures
        acc_view(r) == stats_of(routing.nodes(), routing.me(), now, bucket),
{
    let ghost s = routing.nodes();
    let mut a = StatsAcc { count: 0, verified: 0, seen_min: None, seen_max: None, inbound_min: None, inbound_max: None };
    let mut i: usize = 0;
    assert(s.take(0) =~= Seq::<NodeModel>::empty());
    while i < states.len()
        invariant
            i <= states@.len(),
            s == routing.nodes(),
            nodes_view(states@) == s,
            acc_view(a) == stats_of(s.take(i as int), routing.me(), now, bucket),
        decreases states@.len() - i,
    {
        let st = &states[i];
        proof {
            assert(s[i as int] == st@);
            assert(s.take(i + 1).drop_last() =~= s.take(i as int));
            assert(s.take(i + 1).last() == st@);
            lemma_stats_count_le(s.take(i as int), routing.me(), now, bucket);
        }
        let counted = match bucket {
            Some(b) => match routing.bucket_index_for(KadId(st.node.client_id)) {
                Some(x) => x == b,
                None => false,
            },
            None => true,
        };
        if counted {
            let seen = now.saturating_sub(st.last_seen) / 1_000_000_000;
            a.count = a.count + 1;
            if st.node.verified {
                a.verified = a.verified + 1;
            }
            a.seen_min = lower_exec(a.seen_min, seen);
            a.seen_max = higher_exec(a.seen_max, seen);
            match st.last_inbound {
                Some(t) => {
                    let ia = now.saturating_sub(t) / 1_000_000_000;
                    a.inbound_min = lower_exec(a.inbound_min, ia);
                    a.inbound_max = higher_exec(a.inbound_max, ia);
                },
                None => {},
            }
        }
        i += 1;
    }
    assert(s.take(states@.len() as int) =~= s);
    a
}

/// A bucket count with its sort key.
pub open spec fn count_key(c: usize) -> (Seq<u128>, usize) {
    (seq![c as u128], c)
}

/// The counts in ascending order.
pub open spec fn sorted_counts(s: Seq<usize>) -> Seq<usize> {
    stable_sort(s.map_values(|c: usize| count_key(c))).map_values(|p: (Seq<u128>, usize)| p.1)
}

proof fn lemma_lex_single(a: u128, b: u128)
    ensures
        lex_lt(seq![a], seq![b]) == (a < b),
{
    assert(seq![a].drop_first() =~= Seq::<u128>::empty());
    assert(seq![b].drop_first() =~= Seq::<u128>::empty());
    reveal_with_fuel(lex_lt, 2);
}

fn sort_counts(v: &Vec<usize>) -> (r: Vec<usize>)
    ensures
        r@ == sorted_counts(v@),
{
    let ghost keyed = v@.map_values(|c: usize| count_key(c));
    let mut out: Vec<usize> = Vec::new();
    let mut i: usize = 0;
    assert(keyed.take(0) =~= Seq::<(Seq<u128>, usize)>::empty());
    assert(out@.map_values(|c: usize| count_key(c)) =~= stable_sort(keyed.take(0)));
    while i < v.len()
        invariant
            i <= v@.len(),
            keyed == v@.map_values(|c: usize| count_key(c)),
            out@.map_values(|c: usize| count_key(c)) == stable_sort(keyed.take(i as int)),
        decreases v@.len() - i,
    {
        let x = v[i];
        let ghost sv = out@.map_values(|c: usize| count_key(c));
        let mut p: usize = 0;
        while p < out.len() && !(x < out[p])
            invariant
                p <= out@.len(),
                sv == out@.map_values(|c: usize| count_key(c)),
                forall|q: int| 0 <= q < p ==> !lex_lt(count_key(x).0, #[trigger] sv[q].0),
            decreases out@.len() - p,
        {
            proof {
                lemma_lex_single(x as u128, out@[p as int] as u128);
            }
            p += 1;
        }
        proof {
            if p < out@.len() {
                lemma_lex_single(x as u128, out@[p as int] as u128);
            }
            lemma_insert_stable_at(sv, count_key(x), p as int);
            assert(keyed.take(i + 1).drop_last() =~= keyed.take(i as int));
            assert(keyed.take(i + 1).last() == count_key(x));
        }
        out.insert(p, x);
        assert(out@.map_values(|c: usize| count_key(c)) =~= sv.insert(p as int, count_key(x)));
        i += 1;
    }
    proof {
        assert(keyed.take(v@.len() as int) =~= keyed);
        lemma_stable_sort_len(keyed);
        let st = stable_sort(keyed);
        assert(out@ =~= st.map_values(|p: (Seq<u128>, usize)| p.1)) by {
            assert forall|k: int| 0 <= k < out@.len() implies out@[k] == st[k].1 by {
                assert(out@.map_values(|c: usize| count_key(c))[k] == count_key(out@[k]));
            }
        }
    }
    out
}

/// The number of nodes in each bucket.
pub open spec fn fill_spec(s: Seq<NodeModel>, me: KadId) -> Seq<usize> {
    Seq::new(BUCKET_COUNT as nat, |b: int| stats_of(s, me, 0, Some(b as usize)).count as usize)
}

proof fn lemma_stats_count_all(s: Seq<NodeModel>, me: KadId, now: u64)
    ensures
        stats_of(s, me, now, None).count == s.len(),
    decreases s.len(),
{
    if s.len() > 0 {
        lemma_stats_count_all(s.drop_last(), me, now);
    }
}

proof fn lemma_stats_count_now(s: Seq<NodeModel>, me: KadId, now: u64, b: Option<usize>)
    ensures
        stats_of(s, me, now, b).count == stats_of(s, me, 0, b).count,
    decreases s.len(),
{
    if s.len() > 0 {
        lemma_stats_count_now(s.drop_last(), me, now, b);
    }
}

pub open spec fn count_zero(s: Seq<usize>) -> nat
    decreases s.len(),
{
    if s.len() == 0 {
        0
    } else {
        count_zero(s.drop_last()) + if s.last() == 0 { 1nat } else { 0nat }
    }
}

/// The routing summary at `now`.
pub fn build_routing_summary(routing: &RoutingTable, now: u64) -> (r: RoutingSummary)
    requires
        routing.wf(),
    ensures
        ({
            let s = routing.nodes();
            let all = stats_of(s, routing.me(), now, None);
            let fill = sorted_counts(fill_spec(s, routing.me()));
            &&& r.bucket_count == BUCKET_COUNT
            &&& r.total_nodes == s.len()
            &&& r.verified_nodes == all.verified
            &&& r.unverified_nodes == s.len() - all.verified
            &&& r.buckets_empty == count_zero(fill_spec(s, routing.me()))
            &&& r.bucket_fill_min == fill[0]
            &&& r.bucket_fill_median == fill[64]
            &&& r.bucket_fill_max == fill[127]
            &&& r.last_seen_min_secs == all.seen_min
            &&& r.last_seen_max_secs == all.seen_max
            &&& r.last_inbound_min_secs == all.inbound_min
            &&& r.last_inbound_max_secs == all.inbound_max
        }),
{
    let states = routing.snapshot_states();
    let ghost s = routing.nodes();
    let all = node_stats(&states, routing, now, None);
    let mut counts: Vec<usize> = Vec::new();
    let mut empty: usize = 0;
    let mut b: usize = 0;
    while b < BUCKET_COUNT
        invariant
            b <= BUCKET_COUNT,
            s == routing.nodes(),
            nodes_view(states@) == s,
            counts@ == fill_spec(s, routing.me()).take(b as int),
            empty == count_zero(counts@),
            empty <= b,
        decreases BUCKET_COUNT - b,
    {
        let st = node_stats(&states, routing, now, Some(b));
        proof {
            lemma_stats_count_now(s, routing.me(), now, Some(b));
        }
        let ghost before = counts@;
        counts.push(st.count);
        proof {
            assert(counts@ =~= fill_spec(s, routing.me()).take(b + 1));
            assert(counts@.drop_last() =~= before);
        }
        if st.count == 0 {
            empty = empty + 1;
        }
        b += 1;
    }
    assert(counts@ =~= fill_spec(s, routing.me()));
    let sorted = sort_counts(&counts);
    proof {
        lemma_stable_sort_len(fill_spec(s, routing.me()).map_values(|c: usize| count_key(c)));
        lemma_stats_count_le(s, routing.me(), now, None);
        lemma_stats_count_all(s, routing.me(), now);
    }
    RoutingSummary {
        bucket_count: BUCKET_COUNT,
        total_nodes: states.len(),
        verified_nodes: all.verified,
        unverified_nodes: all.count - all.verified,
        buckets_empty: empty,
        bucket_fill_min: sorted[0],
        bucket_fill_median: sorted[64],
        bucket_fill_max: sorted[127],
        last_seen_min_secs: all.seen_min,
        last_seen_max_secs: all.seen_max,
        last_inbound_min_secs: all.inbound_min,
        last_inbound_max_secs: all.inbound_max,
    }
}

/// The summary of bucket `b` at `now`.
pub open spec fn bucket_summary_spec(routing: RoutingTable, now: u64, b: usize) -> RoutingBucketSummary {
    let st = stats_of(routing.nodes(), routing.me(), now, Some(b));
    RoutingBucketSummary {
        index: b,
        count: st.count as usize,
        verified: st.verified as usize,
        unverified: (st.count - st.verified) as usize,
        last_seen_min_secs: st.seen_min,
        last_seen_max_secs: st.seen_max,
        last_inbound_min_secs: st.inbound_min,
        last_inbound_max_secs: st.inbound_max,
        last_activity_secs_ago: match routing.activity()[b as int] {
            Some(t) => Some(secs(now, t)),
            None => None,
        },
        last_refresh_secs_ago: match routing.refreshed()[b as int] {
            Some(t) => Some(secs(now, t)),
            None => None,
        },
    }
}

/// One summary per bucket, in bucket order.
pub fn build_routing_buckets(routing: &RoutingTable, now: u64) -> (r: Vec<RoutingBucketSummary>)
    requires
        routing.wf(),
    ensures
        r@.len() == BUCKET_COUNT,
        forall|b: int| 0 <= b < BUCKET_COUNT ==> #[trigger] r@[b] == bucket_summary_spec(*routing, now, b as usize),
{
    let states = routing.snapshot_states();
    let mut out: Vec<RoutingBucketSummary> = Vec::new();
    let mut b: usize = 0;
    while b < BUCKET_COUNT
        invariant
            b <= BUCKET_COUNT,
            routing.wf(),
            nodes_view(states@) == routing.nodes(),
            out@.len() == b,
            forall|k: int| 0 <= k < b ==> #[trigger] out@[k] == bucket_summary_spec(*routing, now, k as usize),
        decreases BUCKET_COUNT - b,
    {
        let st = node_stats(&states, routing, now, Some(b));
        proof {
            lemma_stats_count_le(routing.nodes(), routing.me(), now, Some(b));
        }
        let summary = RoutingBucketSummary {
            index: b,
            count: st.count,
            verified: st.verified,
            unverified: st.count - st.verified,
            last_seen_min_secs: st.seen_min,
            last_seen_max_secs: st.seen_max,
            last_inbound_min_secs: st.inbound_min,
            last_inbound_max_secs: st.inbound_max,
            last_activity_secs_ago: age_secs(now, routing.bucket_last_activity(b)),
            last_refresh_secs_ago: age_secs(now, routing.bucket_last_refresh(b)),
        };
        out.push(summary);
        b += 1;
    }
    out
}

} // verus!
