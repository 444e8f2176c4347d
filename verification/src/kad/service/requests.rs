//! Bookkeeping of outbound requests (so that only solicited responses are
//! accepted) and per-sender flood limits on inbound requests. Times are
//! nanoseconds on one clock.

use vstd::prelude::*;
use crate::kad::service::policy::{
    canonical_request_opcode, canonical_request_spec, expected_requests_spec,
    inbound_request_limit_per_minute, request_limit_spec, response_expected_request_opcodes,
};
use crate::table::{keys_distinct, table_map, lemma_table_map_at, lemma_table_map_dom,
    lemma_table_map_update, lemma_table_push};

verus! {

pub const TRACKED_OUT_REQUEST_TTL_NANOS: u64 = 180_000_000_000;
pub const TRACKED_IN_CLEANUP_EVERY_NANOS: u64 = 720_000_000_000;
pub const TRACKED_IN_ENTRY_TTL_NANOS: u64 = 900_000_000_000;
pub const INBOUND_WINDOW_NANOS: u64 = 60_000_000_000;

pub open spec fn age(now: u64, t: u64) -> int {
    if now >= t {
        now - t
    } else {
        0
    }
}

pub open spec fn sat_inc(x: u64) -> u64 {
    if x == u64::MAX {
        x
    } else {
        (x + 1) as u64
    }
}

pub struct OutRequestModel {
    pub request_id: u64,
    pub dest: Seq<char>,
    pub request_opcode: u8,
    pub trace_tag: Option<Seq<char>>,
    pub inserted: u64,
}

pub open spec fn opt_str_view(o: Option<String>) -> Option<Seq<char>> {
    match o {
        Some(s) => Some(s@),
        None => None,
    }
}

/// An outbound request awaiting its response.
#[derive(Debug, Clone)]
pub struct TrackedOutRequest {
    pub request_id: u64,
    pub dest_b64: String,
    pub request_opcode: u8,
    pub trace_tag: Option<String>,
    pub inserted: u64,
}

impl View for TrackedOutRequest {
    type V = OutRequestModel;

    open spec fn view(&self) -> OutRequestModel {
        OutRequestModel {
            request_id: self.request_id,
            dest: self.dest_b64@,
            request_opcode: self.request_opcode,
            trace_tag: opt_str_view(self.trace_tag),
            inserted: self.inserted,
        }
    }
}

/// Why the last response was refused.
#[derive(Debug, Clone)]
pub struct UnmatchedResponseDiag {
    pub from_dest_b64: String,
    pub response_opcode: u8,
    pub expected_request_opcodes: Vec<u8>,
    pub peer_tracked_requests: usize,
    pub total_tracked_requests: usize,
}

pub open spec fn requests_view(v: Seq<TrackedOutRequest>) -> Seq<OutRequestModel> {
    v.map_values(|r: TrackedOutRequest| r@)
}

/// Requests not older than the tracking period at `now`.
pub open spec fn live_requests(s: Seq<OutRequestModel>, now: u64) -> Seq<OutRequestModel>
    decreases s.len(),
{
    if s.len() == 0 {
        Seq::empty()
    } else if age(now, s.last().inserted) <= TRACKED_OUT_REQUEST_TTL_NANOS {
        live_requests(s.drop_last(), now).push(s.last())
    } else {
        live_requests(s.drop_last(), now)
    }
}

pub open spec fn answers(r: OutRequestModel, dest: Seq<char>, expected: Seq<u8>) -> bool {
    r.dest == dest && expected.contains(r.request_opcode)
}

/// The first request a response from `dest` answers.
pub open spec fn first_answered(s: Seq<OutRequestModel>, i: int, dest: Seq<char>, expected: Seq<u8>) -> bool {
    &&& 0 <= i < s.len()
    &&& answers(s[i], dest, expected)
    &&& forall|j: int| 0 <= j < i ==> !answers(#[trigger] s[j], dest, expected)
}

pub open spec fn count_for_dest(s: Seq<OutRequestModel>, dest: Seq<char>) -> int
    decreases s.len(),
{
    if s.len() == 0 {
        0
    } else {
        count_for_dest(s.drop_last(), dest) + if s.last().dest == dest { 1int } else { 0int }
    }
}

/// What `consume` does with a response from `from`: expired requests are
/// dropped; a response that needs no request passes; otherwise the oldest
/// live request it answers is removed and it passes, or it is refused and
/// remembered for diagnosis.
#[verifier::opaque]
pub open spec fn consume_step(
    a: OutRequestTracker,
    b: OutRequestTracker,
    from: Seq<char>,
    response_opcode: u8,
    payload_len: usize,
    now: u64,
    ok: bool,
) -> bool {
    &&& ({
        let live = live_requests(a.pending(), now);
        match expected_requests_spec(response_opcode, payload_len) {
            None => ok && b.pending() == live,
            Some(exp) => if exists|i: int| first_answered(live, i, from, exp) {
                let i = choose|i: int| first_answered(live, i, from, exp);
                &&& ok
                &&& b.pending() == live.remove(i)
                &&& b.unmatched_diag() is None
            } else {
                &&& !ok
                &&& b.pending() == live
                &&& b.unmatched_diag() matches Some(d) && d.from_dest_b64@ == from
                    && d.response_opcode == response_opcode && d.expected_request_opcodes@ == exp
                    && d.peer_tracked_requests == count_for_dest(live, from)
                    && d.total_tracked_requests == live.len()
            },
        }
    })
    &&& b.next_id() == a.next_id()
}

/// Outbound request tracking.
pub struct OutRequestTracker {
    requests: Vec<TrackedOutRequest>,
    next_request_id: u64,
    last_unmatched: Option<UnmatchedResponseDiag>,
    expired: u64,
    matched: u64,
    unmatched: u64,
}

impl OutRequestTracker {
    /// The requests awaiting responses, oldest first.
    pub closed spec fn pending(&self) -> Seq<OutRequestModel> {
        requests_view(self.requests@)
    }

    pub closed spec fn next_id(&self) -> u64 {
        self.next_request_id
    }

    /// Requests expired, responses matched, responses refused.
    pub closed spec fn counts(&self) -> (u64, u64, u64) {
        (self.expired, self.matched, self.unmatched)
    }

    pub closed spec fn unmatched_diag(&self) -> Option<UnmatchedResponseDiag> {
        self.last_unmatched
    }

    pub fn stats(&self) -> (r: (u64, u64, u64))
        ensures
            r == self.counts(),
    {
        (self.expired, self.matched, self.unmatched)
    }

    pub fn new() -> (r: Self)
        ensures
            r.pending() == Seq::<OutRequestModel>::empty(),
            r.next_id() == 0,
            r.counts() == (0u64, 0u64, 0u64),
            r.unmatched_diag() is None,
    {
        let r = OutRequestTracker {
            requests: Vec::new(),
            next_request_id: 0,
            last_unmatched: None,
            expired: 0,
            matched: 0,
            unmatched: 0,
        };
        assert(r.pending() =~= Seq::<OutRequestModel>::empty());
        r
    }

    /// The diagnostics of the last refused response, cleared by a match.
    pub fn last_unmatched(&self) -> (r: &Option<UnmatchedResponseDiag>)
        ensures
            *r == self.unmatched_diag(),
    {
        &self.last_unmatched
    }

    /// Drops requests older than the tracking period.
    pub fn cleanup(&mut self, now: u64)
        ensures
            final(self).pending() == live_requests(old(self).pending(), now),
            final(self).next_id() == old(self).next_id(),
            final(self).counts().1 == old(self).counts().1,
            final(self).counts().2 == old(self).counts().2,
            final(self).unmatched_diag() == old(self).unmatched_diag(),
    {
        let ghost s0 = self.pending();
        let mut old_reqs: Vec<TrackedOutRequest> = Vec::new();
        std::mem::swap(&mut old_reqs, &mut self.requests);
        let mut kept: Vec<TrackedOutRequest> = Vec::new();
        let n = old_reqs.len();
        let mut i: usize = 0;
        while i < n
            invariant
                i <= n,
                n == old_reqs@.len(),
                requests_view(old_reqs@) == s0,
                requests_view(kept@) == live_requests(s0.take(i as int), now),
                kept@.len() <= i,
            decreases n - i,
        {
            proof {
                assert(s0.take(i + 1).drop_last() =~= s0.take(i as int));
                assert(s0.take(i + 1).last() == old_reqs@[i as int]@);
            }
            let r = &old_reqs[i];
            let a: u64 = if now >= r.inserted { now - r.inserted } else { 0 };
            if a <= TRACKED_OUT_REQUEST_TTL_NANOS {
                let c = TrackedOutRequest {
                    request_id: r.request_id,
                    dest_b64: r.dest_b64.clone(),
                    request_opcode: r.request_opcode,
                    trace_tag: match &r.trace_tag {
                        Some(t) => Some(t.clone()),
                        None => None,
                    },
                    inserted: r.inserted,
                };
                let ghost b = kept@;
                kept.push(c);
                assert(requests_view(kept@) =~= requests_view(b).push(s0[i as int]));
            }
            i += 1;
        }
        assert(s0.take(n as int) =~= s0);
        let removed = n - kept.len();
        self.requests = kept;
        self.expired = self.expired.saturating_add(removed as u64);
    }

    /// Starts tracking a request sent to `dest_b64`; opcodes that are not
    /// requests are not tracked (`None`). Returns the request's identifier.
    pub fn track(&mut self, dest_b64: &str, opcode: u8, now: u64, trace_tag: Option<&str>) -> (r: Option<u64>)
        ensures
            canonical_request_spec(opcode) is None ==> r is None && *final(self) == *old(self),
            canonical_request_spec(opcode) matches Some(c) ==> ({
                let live = live_requests(old(self).pending(), now);
                &&& r == Some(old(self).next_id())
                &&& final(self).next_id() == sat_inc(old(self).next_id())
                &&& final(self).pending() == live.push(OutRequestModel {
                    request_id: old(self).next_id(),
                    dest: dest_b64@,
                    request_opcode: c,
                    trace_tag: match trace_tag {
                        Some(t) => Some(t@),
                        None => None,
                    },
                    inserted: now,
                })
            }),
    {
        let request_opcode = match canonical_request_opcode(opcode) {
            Some(c) => c,
            None => return None,
        };
        self.cleanup(now);
        let request_id = self.next_request_id;
        self.next_request_id = self.next_request_id.saturating_add(1);
        let ghost b = self.requests@;
        self.requests.push(TrackedOutRequest {
            request_id,
            dest_b64: String::from_str(dest_b64),
            request_opcode,
            trace_tag: match trace_tag {
                Some(t) => Some(String::from_str(t)),
                None => None,
            },
            inserted: now,
        });
        assert(self.pending() =~= requests_view(b).push(self.requests@.last()@));
        Some(request_id)
    }

    /// Whether an inbound response from `from_dest_b64` may be accepted:
    /// opcodes that are not tracked responses always may; others must answer
    /// a pending request to the same destination, which is then consumed
    /// (the oldest one).
    #[verifier::spinoff_prover]
    pub fn consume(&mut self, from_dest_b64: &str, response_opcode: u8, payload_len: usize, now: u64) -> (ok: bool)
        ensures
            consume_step(*old(self), *final(self), from_dest_b64@, response_opcode, payload_len, now, ok),
    {
        proof {
            reveal(consume_step);
        }
        self.cleanup(now);
        let ghost live = self.pending();
        let expected = match response_expected_request_opcodes(response_opcode, payload_len) {
            Some(e) => e,
            None => return true,
        };
        let ghost exp = expected@;
        let from = String::from_str(from_dest_b64);
        let n = self.requests.len();
        let mut i: usize = 0;
        let mut peer_tracked: usize = 0;
        while i < n
            invariant
                i <= n,
                n == self.requests@.len(),
                live == requests_view(self.requests@),
                live == live_requests(old(self).pending(), now),
                self.next_id() == old(self).next_id(),
                expected_requests_spec(response_opcode, payload_len) == Some(exp),
                expected@ == exp,
                from@ == from_dest_b64@,
                peer_tracked == count_for_dest(live.take(i as int), from@),
                peer_tracked <= i,
                forall|j: int| 0 <= j < i ==> !answers(#[trigger] live[j], from@, exp),
            decreases n - i,
        {
            proof {
                assert(live.take(i + 1).drop_last() =~= live.take(i as int));
                assert(live[i as int] == self.requests@[i as int]@);
            }
            let r = &self.requests[i];
            let same_dest = r.dest_b64 == from;
            let mut k: usize = 0;
            let mut listed = false;
            while k < expected.len()
                invariant
                    k <= expected@.len(),
                    listed == exists|q: int| 0 <= q < k && expected@[q] == r.request_opcode,
                decreases expected@.len() - k,
            {
                if expected[k] == r.request_opcode {
                    listed = true;
                }
                k += 1;
            }
            proof {
                assert(listed == exp.contains(r.request_opcode));
            }
            if same_dest && listed {
                proof {
                    assert(first_answered(live, i as int, from_dest_b64@, exp));
                    let c = choose|c: int| first_answered(live, c, from_dest_b64@, exp);
                    if c < i {
                        assert(!answers(live[c], from@, exp));
                    } else if c > i {
                        assert(!answers(live[i as int], from@, exp));
                    }
                }
                let ghost before = self.requests@;
                let _tracked = self.requests.remove(i);
                assert(self.pending() =~= requests_view(before).remove(i as int));
                self.matched = self.matched.saturating_add(1);
                self.last_unmatched = None;
                proof {
                    reveal(consume_step);
                }
                return true;
            }
            if same_dest {
                peer_tracked += 1;
            }
            i += 1;
        }
        proof {
            assert(live.take(n as int) =~= live);
            assert forall|c: int| !first_answered(live, c, from_dest_b64@, exp) by {
                if 0 <= c < live.len() {
                    assert(!answers(live[c], from@, exp));
                }
            }
        }
        self.last_unmatched = Some(UnmatchedResponseDiag {
            from_dest_b64: from,
            response_opcode,
            expected_request_opcodes: expected,
            peer_tracked_requests: peer_tracked,
            total_tracked_requests: n,
        });
        self.unmatched = self.unmatched.saturating_add(1);
        false
    }
}

/// Requests counted for one sender and request kind.
#[derive(Debug, Clone, Copy, PartialEq, Eq, Structural)]
pub struct TrackedInCounter {
    pub first_added: u64,
    pub count: u32,
    pub warned: bool,
}

/// Counters kept at `now` by the periodic cleanup.
pub open spec fn fresh_counters(s: Seq<((u32, u8), TrackedInCounter)>, now: u64) -> Seq<((u32, u8), TrackedInCounter)>
    decreases s.len(),
{
    if s.len() == 0 {
        Seq::empty()
    } else if age(now, s.last().1.first_added) <= TRACKED_IN_ENTRY_TTL_NANOS {
        fresh_counters(s.drop_last(), now).push(s.last())
    } else {
        fresh_counters(s.drop_last(), now)
    }
}

/// A counter after one more request at `now`: restarted when its minute is
/// over, then incremented; `warned` set once the limit is exceeded.
pub open spec fn bump(c: TrackedInCounter, now: u64, limit: u32) -> TrackedInCounter {
    let base = if age(now, c.first_added) >= INBOUND_WINDOW_NANOS {
        TrackedInCounter { first_added: now, count: 0, warned: false }
    } else {
        c
    };
    let count = if base.count == u32::MAX { base.count } else { (base.count + 1) as u32 };
    TrackedInCounter { first_added: base.first_added, count, warned: base.warned || count > limit }
}


proof fn lemma_fresh_counters(s: Seq<((u32, u8), TrackedInCounter)>, now: u64)
    requires
        keys_distinct(s),
    ensures
        keys_distinct(fresh_counters(s, now)),
        forall|a: int| 0 <= a < fresh_counters(s, now).len() ==> exists|x: int| 0 <= x < s.len()
            && #[trigger] fresh_counters(s, now)[a] == s[x],
    decreases s.len(),
{
    if s.len() > 0 {
        let p = s.drop_last();
        assert forall|i: int, j: int| 0 <= i < j < p.len() implies p[i].0 != p[j].0 by {
            assert(p[i] == s[i] && p[j] == s[j]);
        }
        lemma_fresh_counters(p, now);
        let fp = fresh_counters(p, now);
        let f = fresh_counters(s, now);
        assert forall|a: int| 0 <= a < f.len() implies exists|x: int| 0 <= x < s.len() && #[trigger] f[a] == s[x] by {
            if a < fp.len() {
                let x = choose|x: int| 0 <= x < p.len() && #[trigger] fp[a] == p[x];
                assert(f[a] == s[x]);
            } else {
                assert(f[a] == s[s.len() - 1]);
            }
        }
        if age(now, s.last().1.first_added) <= TRACKED_IN_ENTRY_TTL_NANOS {
            assert forall|i: int, j: int| 0 <= i < j < f.len() implies f[i].0 != f[j].0 by {
                if j == f.len() - 1 {
                    let x = choose|x: int| 0 <= x < p.len() && #[trigger] fp[i] == p[x];
                    assert(f[i] == s[x]);
                    assert(f[j] == s[s.len() - 1]);
                } else {
                    assert(f[i] == fp[i] && f[j] == fp[j]);
                }
            }
        }
    }
}

/// What `allowed` does with a request from `from_hash`: requests without a
/// limit pass untouched; otherwise stale counters are dropped (at most once
/// per cleanup period), the counter of (sender, request kind) is bumped,
/// and the request passes while the count is within the limit.
#[verifier::opaque]
pub open spec fn limiter_step(a: InboundLimiter, b: InboundLimiter, from_hash: u32, opcode: u8, now: u64, ok: bool) -> bool {
    &&& (request_limit_spec(opcode) is None ==> ok && b == a)
    &&& (request_limit_spec(opcode) matches Some((c, limit)) ==> ({
        let cleaned = age(now, a.last_cleanup_at()) >= TRACKED_IN_CLEANUP_EVERY_NANOS;
        let t = if cleaned { fresh_counters(a.table(), now) } else { a.table() };
        let m = table_map(t);
        let k = (from_hash, c);
        let before = if m.dom().contains(k) {
            m[k]
        } else {
            TrackedInCounter { first_added: now, count: 0, warned: false }
        };
        let after = bump(before, now, limit);
        &&& table_map(b.table()) == m.insert(k, after)
        &&& b.last_cleanup_at() == if cleaned { now } else { a.last_cleanup_at() }
        &&& ok == (after.count <= limit)
    }))
}

/// Per-sender, per-request-kind flood limits on inbound requests.
pub struct InboundLimiter {
    counters: Vec<((u32, u8), TrackedInCounter)>,
    last_cleanup: u64,
}

impl InboundLimiter {
    pub closed spec fn table(&self) -> Seq<((u32, u8), TrackedInCounter)> {
        self.counters@
    }

    pub closed spec fn last_cleanup_at(&self) -> u64 {
        self.last_cleanup
    }

    pub closed spec fn wf(&self) -> bool {
        keys_distinct(self.counters@)
    }

    pub fn new(now: u64) -> (r: Self)
        ensures
            r.wf(),
            r.table() == Seq::<((u32, u8), TrackedInCounter)>::empty(),
            r.last_cleanup_at() == now,
    {
        let r = InboundLimiter { counters: Vec::new(), last_cleanup: now };
        assert(r.table() =~= Seq::<((u32, u8), TrackedInCounter)>::empty());
        r
    }

    /// Counts a request of kind `opcode` from `from_hash` at `now` and says
    /// whether it is within the per-minute limit. Opcodes that are not
    /// requests are always allowed and change nothing. Every 12 minutes the
    /// counters older than 15 minutes are dropped first.
    pub fn allowed(&mut self, from_hash: u32, opcode: u8, now: u64) -> (ok: bool)
        requires
            old(self).wf(),
        ensures
            final(self).wf(),
            limiter_step(*old(self), *final(self), from_hash, opcode, now, ok),
    {
        proof {
            reveal(limiter_step);
        }
        let (canonical, limit) = match inbound_request_limit_per_minute(opcode) {
            Some(x) => x,
            None => return true,
        };
        let since: u64 = if now >= self.last_cleanup { now - self.last_cleanup } else { 0 };
        if since >= TRACKED_IN_CLEANUP_EVERY_NANOS {
            let ghost s0 = self.counters@;
            let mut old_c: Vec<((u32, u8), TrackedInCounter)> = Vec::new();
            std::mem::swap(&mut old_c, &mut self.counters);
            let mut kept: Vec<((u32, u8), TrackedInCounter)> = Vec::new();
            let mut i: usize = 0;
            while i < old_c.len()
                invariant
                    i <= old_c@.len(),
                    old_c@ == s0,
                    kept@ == fresh_counters(s0.take(i as int), now),
                decreases old_c@.len() - i,
            {
                proof {
                    assert(s0.take(i + 1).drop_last() =~= s0.take(i as int));
                    assert(s0.take(i + 1).last() == s0[i as int]);
                }
                let e = old_c[i];
                let a: u64 = if now >= e.1.first_added { now - e.1.first_added } else { 0 };
                if a <= TRACKED_IN_ENTRY_TTL_NANOS {
                    kept.push(e);
                }
                i += 1;
            }
            assert(s0.take(s0.len() as int) =~= s0);
            proof {
                lemma_fresh_counters(s0, now);
            }
            self.counters = kept;
            self.last_cleanup = now;
        }
        assert(self.last_cleanup_at() == if age(now, old(self).last_cleanup_at()) >= TRACKED_IN_CLEANUP_EVERY_NANOS {
            now
        } else {
            old(self).last_cleanup_at()
        });
        let ghost t = self.counters@;
        assert(t == if age(now, old(self).last_cleanup_at()) >= TRACKED_IN_CLEANUP_EVERY_NANOS {
            fresh_counters(old(self).table(), now)
        } else {
            old(self).table()
        });
        assert(keys_distinct(t));
        let key = (from_hash, canonical);
        let n = self.counters.len();
        let mut i: usize = 0;
        while i < n
            invariant
                i <= n,
                n == self.counters@.len(),
                t == self.counters@,
                key == (from_hash, canonical),
                forall|j: int| 0 <= j < i ==> t[j].0 != key,
            ensures
                i <= n,
                t == self.counters@,
                forall|j: int| 0 <= j < i ==> t[j].0 != key,
                i < n ==> t[i as int].0 == key,
            decreases n - i,
        {
            let e = self.counters[i];
            assert(e == t[i as int]);
            if e.0.0 == from_hash && e.0.1 == canonical {
                assert(e.0 == key);
                break;
            }
            assert(e.0 != key);
            i += 1;
        }
        let c0: TrackedInCounter = if i < n {
            proof {
                lemma_table_map_at(t, i as int);
            }
            self.counters[i].1
        } else {
            proof {
                lemma_table_map_dom(t, key);
            }
            TrackedInCounter { first_added: now, count: 0, warned: false }
        };
        let a: u64 = if now >= c0.first_added { now - c0.first_added } else { 0 };
        let base = if a >= INBOUND_WINDOW_NANOS {
            TrackedInCounter { first_added: now, count: 0, warned: false }
        } else {
            c0
        };
        let count = base.count.saturating_add(1);
        let after = TrackedInCounter { first_added: base.first_added, count, warned: base.warned || count > limit };
        if i < n {
            self.counters.set(i, (key, after));
            proof {
                lemma_table_map_update(t, i as int, after);
            }
        } else {
            self.counters.push((key, after));
            proof {
                lemma_table_push(t, key, after);
            }
        }
        count <= limit
    }
}

} // verus!
