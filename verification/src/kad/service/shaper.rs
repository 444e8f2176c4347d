//! The outbound shaper: per-class policies derived from the configured
//! limits, and the decision when (or whether) a packet may go out, from the
//! sends of the current one-second window and the last send per class and
//! per peer. Times are nanoseconds on one monotonic clock.

use vstd::prelude::*;
use crate::kad::service::policy::{class_letter, shaper_peer_key, OutboundClass};
use crate::kad::service::requests::age;
use crate::table::{keys_distinct, table_map, lemma_table_len, lemma_table_map_at, lemma_table_map_dom,
    lemma_table_map_update, lemma_table_push, lemma_table_remove};

verus! {

pub const NANOS_PER_MS: u64 = 1_000_000;
pub const SHAPER_WINDOW_NANOS: u64 = 1_000_000_000;
pub const SHAPER_PEER_STATE_TTL_NANOS: u64 = 3_600_000_000_000;
pub const SHAPER_PEER_STATE_MAX: usize = 8192;

/// The configured limits of the outbound shaper (those of queries; other
/// classes are derived from them).
#[derive(Debug, Clone, Copy, PartialEq, Eq, Structural)]
pub struct ShaperSettings {
    pub base_delay_ms: u64,
    pub jitter_ms: u64,
    pub global_min_interval_ms: u64,
    pub peer_min_interval_ms: u64,
    pub global_max_per_sec: u32,
    pub peer_max_per_sec: u32,
}

#[derive(Debug, Clone, Copy, PartialEq, Eq, Structural)]
pub struct ShaperClassPolicy {
    pub base_delay_ms: u64,
    pub jitter_ms: u64,
    pub global_min_interval_ms: u64,
    pub peer_min_interval_ms: u64,
    pub global_max_per_sec: u32,
    pub peer_max_per_sec: u32,
    pub drop_when_delayed: bool,
}

/// A cap scaled by `factor` but at least `min_if_enabled`; zero stays zero
/// (disabled).
pub open spec fn scaled_cap(base: u32, factor: u32, min_if_enabled: u32) -> u32 {
    if base == 0 {
        0
    } else {
        let m: u32 = if base * factor > u32::MAX { u32::MAX } else { (base * factor) as u32 };
        if m > min_if_enabled { m } else { min_if_enabled }
    }
}

pub fn scaled_cap_or_disabled(base: u32, factor: u32, min_if_enabled: u32) -> (r: u32)
    ensures
        r == scaled_cap(base, factor, min_if_enabled),
{
    if base == 0 {
        0
    } else {
        let m: u32 = match base.checked_mul(factor) {
            Some(v) => v,
            None => u32::MAX,
        };
        if m > min_if_enabled { m } else { min_if_enabled }
    }
}

/// Queries use the settings as they are and are dropped rather than
/// delayed; hellos and bootstraps halve the delays (bootstraps also the
/// global interval) and double the caps; responses go out at once with
/// four times the caps, delayed rather than dropped.
pub open spec fn policy_spec(s: ShaperSettings, class: OutboundClass) -> ShaperClassPolicy {
    match class {
        OutboundClass::Query => ShaperClassPolicy {
            base_delay_ms: s.base_delay_ms,
            jitter_ms: s.jitter_ms,
            global_min_interval_ms: s.global_min_interval_ms,
            peer_min_interval_ms: s.peer_min_interval_ms,
            global_max_per_sec: s.global_max_per_sec,
            peer_max_per_sec: s.peer_max_per_sec,
            drop_when_delayed: true,
        },
        OutboundClass::Hello => ShaperClassPolicy {
            base_delay_ms: s.base_delay_ms / 2,
            jitter_ms: s.jitter_ms / 2,
            global_min_interval_ms: s.global_min_interval_ms,
            peer_min_interval_ms: s.peer_min_interval_ms / 2,
            global_max_per_sec: scaled_cap(s.global_max_per_sec, 2, 32),
            peer_max_per_sec: scaled_cap(s.peer_max_per_sec, 2, 8),
            drop_when_delayed: true,
        },
        OutboundClass::Bootstrap => ShaperClassPolicy {
            base_delay_ms: s.base_delay_ms / 2,
            jitter_ms: s.jitter_ms / 2,
            global_min_interval_ms: s.global_min_interval_ms / 2,
            peer_min_interval_ms: s.peer_min_interval_ms / 2,
            global_max_per_sec: scaled_cap(s.global_max_per_sec, 2, 32),
            peer_max_per_sec: scaled_cap(s.peer_max_per_sec, 2, 8),
            drop_when_delayed: true,
        },
        OutboundClass::Response => ShaperClassPolicy {
            base_delay_ms: 0,
            jitter_ms: 0,
            global_min_interval_ms: 0,
            peer_min_interval_ms: 0,
            global_max_per_sec: scaled_cap(s.global_max_per_sec, 4, 128),
            peer_max_per_sec: scaled_cap(s.peer_max_per_sec, 4, 24),
            drop_when_delayed: false,
        },
    }
}

pub fn shaper_policy(s: &ShaperSettings, class: OutboundClass) -> (p: ShaperClassPolicy)
    ensures
        p == policy_spec(*s, class),
{
    match class {
        OutboundClass::Query => ShaperClassPolicy {
            base_delay_ms: s.base_delay_ms,
            jitter_ms: s.jitter_ms,
            global_min_interval_ms: s.global_min_interval_ms,
            peer_min_interval_ms: s.peer_min_interval_ms,
            global_max_per_sec: s.global_max_per_sec,
            peer_max_per_sec: s.peer_max_per_sec,
            drop_when_delayed: true,
        },
        OutboundClass::Hello => ShaperClassPolicy {
            base_delay_ms: s.base_delay_ms / 2,
            jitter_ms: s.jitter_ms / 2,
            global_min_interval_ms: s.global_min_interval_ms,
            peer_min_interval_ms: s.peer_min_interval_ms / 2,
            global_max_per_sec: scaled_cap_or_disabled(s.global_max_per_sec, 2, 32),
            peer_max_per_sec: scaled_cap_or_disabled(s.peer_max_per_sec, 2, 8),
            drop_when_delayed: true,
        },
        OutboundClass::Bootstrap => ShaperClassPolicy {
            base_delay_ms: s.base_delay_ms / 2,
            jitter_ms: s.jitter_ms / 2,
            global_min_interval_ms: s.global_min_interval_ms / 2,
            peer_min_interval_ms: s.peer_min_interval_ms / 2,
            global_max_per_sec: scaled_cap_or_disabled(s.global_max_per_sec, 2, 32),
            peer_max_per_sec: scaled_cap_or_disabled(s.peer_max_per_sec, 2, 8),
            drop_when_delayed: true,
        },
        OutboundClass::Response => ShaperClassPolicy {
            base_delay_ms: 0,
            jitter_ms: 0,
            global_min_interval_ms: 0,
            peer_min_interval_ms: 0,
            global_max_per_sec: scaled_cap_or_disabled(s.global_max_per_sec, 4, 128),
            peer_max_per_sec: scaled_cap_or_disabled(s.peer_max_per_sec, 4, 24),
            drop_when_delayed: false,
        },
    }
}

pub open spec fn class_index(c: OutboundClass) -> int {
    match c {
        OutboundClass::Query => 0,
        OutboundClass::Hello => 1,
        OutboundClass::Bootstrap => 2,
        OutboundClass::Response => 3,
    }
}

fn class_slot(c: OutboundClass) -> (i: usize)
    ensures
        i == class_index(c),
        i < 4,
{
    match c {
        OutboundClass::Query => 0,
        OutboundClass::Hello => 1,
        OutboundClass::Bootstrap => 2,
        OutboundClass::Response => 3,
    }
}

/// The key under which sends to a peer in a class are counted.
pub open spec fn peer_key(class: OutboundClass, dest: Seq<char>) -> Seq<char> {
    seq![class_letter(class), ':'] + dest
}

/// One step of the jitter generator (a linear congruential generator).
pub open spec fn next_seed(seed: u64) -> u64 {
    vstd::wrapping::u64_specs::wrapping_add(vstd::wrapping::u64_specs::wrapping_mul(seed, 6364136223846793005u64), 1)
}

struct PeerCount {
    key: String,
    count: u32,
}

struct PeerTime {
    key: String,
    at: u64,
}

/// What the shaper remembers.
pub struct ShaperModel {
    pub window_started: u64,
    /// Sends in the current window, by class.
    pub global_sent: Seq<u32>,
    /// Sends in the current window, by peer key.
    pub peer_sent: Map<Seq<char>, u32>,
    /// Last send, by class.
    pub last_global: Seq<Option<u64>>,
    /// Last send, by peer key.
    pub last_peer: Map<Seq<char>, u64>,
    pub seed: u64,
}

pub struct OutboundShaper {
    window_started: u64,
    global_sent: Vec<u32>,
    peer_sent: Vec<PeerCount>,
    last_global: Vec<Option<u64>>,
    last_peer: Vec<PeerTime>,
    seed: u64,
}

/// Peer entries seen within the time-to-live.
pub open spec fn stale_free(m: Map<Seq<char>, u64>, now: u64) -> Map<Seq<char>, u64> {
    Map::new(|k: Seq<char>| m.dom().contains(k) && age(now, m[k]) <= SHAPER_PEER_STATE_TTL_NANOS, |k: Seq<char>| m[k])
}

spec fn fresh_table(t: Seq<(Seq<char>, u64)>, now: u64) -> Seq<(Seq<char>, u64)>
    decreases t.len(),
{
    if t.len() == 0 {
        Seq::empty()
    } else {
        let r = fresh_table(t.drop_last(), now);
        if age(now, t.last().1) <= SHAPER_PEER_STATE_TTL_NANOS { r.push(t.last()) } else { r }
    }
}

proof fn lemma_fresh_table(t: Seq<(Seq<char>, u64)>, now: u64)
    requires
        keys_distinct(t),
    ensures
        keys_distinct(fresh_table(t, now)),
        table_map(fresh_table(t, now)) == stale_free(table_map(t), now),
        forall|i: int| 0 <= i < fresh_table(t, now).len() ==>
            exists|j: int| 0 <= j < t.len() && #[trigger] fresh_table(t, now)[i] == t[j],
    decreases t.len(),
{
    if t.len() == 0 {
        assert(stale_free(table_map(t), now) =~= Map::<Seq<char>, u64>::empty());
    } else {
        let p = t.drop_last();
        assert forall|i: int, j: int| 0 <= i < j < p.len() implies p[i].0 != p[j].0 by {
            assert(p[i] == t[i] && p[j] == t[j]);
        }
        lemma_fresh_table(p, now);
        let r = fresh_table(p, now);
        let x = t.last();
        lemma_table_map_dom(p, x.0);
        if table_map(p).dom().contains(x.0) {
            let i = choose|i: int| 0 <= i < p.len() && p[i].0 == x.0;
            assert(t[i].0 == t[t.len() - 1].0);
        }
        assert forall|i: int| 0 <= i < r.len() implies exists|j: int| 0 <= j < t.len() && #[trigger] r[i] == t[j] by {
            let j = choose|j: int| 0 <= j < p.len() && r[i] == p[j];
            assert(r[i] == t[j]);
        }
        if age(now, x.1) <= SHAPER_PEER_STATE_TTL_NANOS {
            lemma_table_map_dom(r, x.0);
            if table_map(r).dom().contains(x.0) {
                let i = choose|i: int| 0 <= i < r.len() && r[i].0 == x.0;
                let j = choose|j: int| 0 <= j < p.len() && r[i] == p[j];
                assert(t[j].0 == t[t.len() - 1].0);
            }
            lemma_table_push(r, x.0, x.1);
            assert(table_map(r.push(x)) =~= stale_free(table_map(t), now));
            let q = r.push(x);
            assert forall|i: int| 0 <= i < q.len() implies exists|j: int| 0 <= j < t.len() && #[trigger] q[i] == t[j] by {
                if i < r.len() {
                    assert(q[i] == r[i]);
                } else {
                    assert(q[i] == t[t.len() - 1]);
                }
            }
        } else {
            assert(table_map(r) =~= stale_free(table_map(t), now));
        }
    }
}

/// Peer state after dropping entries older than the time-to-live and, if
/// more than the maximum remain, keeping only the most recent ones.
pub open spec fn cleaned(before: Map<Seq<char>, u64>, after: Map<Seq<char>, u64>, now: u64) -> bool {
    let fresh = stale_free(before, now);
    &&& after.submap_of(fresh)
    &&& if fresh.len() <= SHAPER_PEER_STATE_MAX {
        after == fresh
    } else {
        &&& after.len() == SHAPER_PEER_STATE_MAX
        &&& forall|k: Seq<char>, j: Seq<char>| after.dom().contains(k) && fresh.dom().contains(j) && !after.dom().contains(j)
            ==> #[trigger] fresh[j] <= #[trigger] after[k]
    }
}

impl OutboundShaper {
    spec fn peer_sent_table(&self) -> Seq<(Seq<char>, u32)> {
        self.peer_sent@.map_values(|e: PeerCount| (e.key@, e.count))
    }

    spec fn last_peer_table(&self) -> Seq<(Seq<char>, u64)> {
        self.last_peer@.map_values(|e: PeerTime| (e.key@, e.at))
    }

    pub closed spec fn view(&self) -> ShaperModel {
        ShaperModel {
            window_started: self.window_started,
            global_sent: self.global_sent@,
            peer_sent: table_map(self.peer_sent_table()),
            last_global: self.last_global@,
            last_peer: table_map(self.last_peer_table()),
            seed: self.seed,
        }
    }

    pub closed spec fn wf(&self) -> bool {
        &&& self.global_sent@.len() == 4
        &&& self.last_global@.len() == 4
        &&& keys_distinct(self.peer_sent_table())
        &&& keys_distinct(self.last_peer_table())
    }

    pub fn new(now: u64, seed: u64) -> (s: Self)
        ensures
            s.wf(),
            s.view() == (ShaperModel {
                window_started: now,
                global_sent: seq![0u32, 0u32, 0u32, 0u32],
                peer_sent: Map::empty(),
                last_global: seq![None, None, None, None],
                last_peer: Map::empty(),
                seed,
            }),
    {
        let s = OutboundShaper {
            window_started: now,
            global_sent: vec![0u32, 0u32, 0u32, 0u32],
            peer_sent: Vec::new(),
            last_global: vec![None, None, None, None],
            last_peer: Vec::new(),
            seed,
        };
        assert(s.peer_sent_table() =~= Seq::<(Seq<char>, u32)>::empty());
        assert(s.last_peer_table() =~= Seq::<(Seq<char>, u64)>::empty());
        assert(s.view().global_sent =~= seq![0u32, 0u32, 0u32, 0u32]);
        assert(s.view().last_global =~= seq![None, None, None, None]);
        assert(s.view().peer_sent =~= Map::<Seq<char>, u32>::empty());
        assert(s.view().last_peer =~= Map::<Seq<char>, u64>::empty());
        s
    }
}


impl OutboundShaper {
    /// Drops peer entries older than the time-to-live, then the oldest ones
    /// beyond the maximum.
    fn cleanup_stale_peers(&mut self, now: u64)
        requires
            old(self).wf(),
        ensures
            final(self).wf(),
            cleaned(old(self).view().last_peer, final(self).view().last_peer, now),
            final(self).view().last_peer.dom().finite(),
            final(self).view() == (ShaperModel { last_peer: final(self).view().last_peer, ..old(self).view() }),
    {
        let ghost t0 = self.last_peer_table();
        let mut old_entries: Vec<PeerTime> = Vec::new();
        std::mem::swap(&mut old_entries, &mut self.last_peer);
        let mut i: usize = 0;
        assert(t0.take(0) =~= Seq::<(Seq<char>, u64)>::empty());
        assert(self.last_peer_table() =~= fresh_table(t0.take(0), now));
        while i < old_entries.len()
            invariant
                i <= old_entries@.len(),
                t0 == old_entries@.map_values(|e: PeerTime| (e.key@, e.at)),
                self.last_peer_table() == fresh_table(t0.take(i as int), now),
                self.window_started == old(self).window_started,
                self.global_sent == old(self).global_sent,
                self.peer_sent == old(self).peer_sent,
                self.last_global == old(self).last_global,
                self.seed == old(self).seed,
            decreases old_entries@.len() - i,
        {
            proof {
                assert(t0.take(i + 1).drop_last() =~= t0.take(i as int));
                assert(t0.take(i + 1).last() == t0[i as int]);
            }
            if now.saturating_sub(old_entries[i].at) <= SHAPER_PEER_STATE_TTL_NANOS {
                let ghost before = self.last_peer_table();
                let k = String::from_str(old_entries[i].key.as_str());
                self.last_peer.push(PeerTime { key: k, at: old_entries[i].at });
                assert(self.last_peer_table() =~= before.push(t0[i as int]));
            }
            i += 1;
        }
        proof {
            assert(t0.take(old_entries@.len() as int) =~= t0);
            lemma_fresh_table(t0, now);
        }
        let ghost fresh = table_map(self.last_peer_table());
        proof {
            lemma_table_len(self.last_peer_table());
        }
        // Keep the most recent entries.
        let ghost mut dropped: Set<Seq<char>> = Set::empty();
        while self.last_peer.len() > SHAPER_PEER_STATE_MAX
            invariant
                keys_distinct(self.last_peer_table()),
                fresh.dom().finite(),
                forall|k: Seq<char>| #[trigger] table_map(self.last_peer_table()).dom().contains(k)
                    ==> fresh.dom().contains(k) && table_map(self.last_peer_table())[k] == fresh[k],
                dropped =~= Set::<Seq<char>>::empty() || self.last_peer@.len() >= SHAPER_PEER_STATE_MAX,
                dropped.finite(),
                dropped.subset_of(fresh.dom()),
                self.last_peer@.len() + dropped.len() == fresh.len(),
                forall|k: Seq<char>| fresh.dom().contains(k) ==> (dropped.contains(k) <==> !table_map(self.last_peer_table()).dom().contains(k)),
                forall|d: Seq<char>, k: Seq<char>| dropped.contains(d) && table_map(self.last_peer_table()).dom().contains(k)
                    ==> #[trigger] fresh[d] <= #[trigger] fresh[k],
                self.window_started == old(self).window_started,
                self.global_sent == old(self).global_sent,
                self.peer_sent == old(self).peer_sent,
                self.last_global == old(self).last_global,
                self.seed == old(self).seed,
                self.global_sent@.len() == 4,
                self.last_global@.len() == 4,
                keys_distinct(self.peer_sent_table()),
            decreases self.last_peer@.len(),
        {
            let ghost t = self.last_peer_table();
            let mut m: usize = 0;
            let mut j: usize = 1;
            while j < self.last_peer.len()
                invariant
                    t == self.last_peer_table(),
                    1 <= j <= t.len(),
                    m < t.len(),
                    forall|q: int| 0 <= q < j ==> t[m as int].1 <= #[trigger] t[q].1,
                decreases t.len() - j,
            {
                if self.last_peer[j].at < self.last_peer[m].at {
                    m = j;
                }
                j += 1;
            }
            proof {
                lemma_table_map_at(t, m as int);
                lemma_table_remove(t, m as int);
                assert forall|k: Seq<char>| table_map(t).dom().contains(k) implies fresh[t[m as int].0] <= fresh[k] by {
                    lemma_table_map_dom(t, k);
                    let q = choose|q: int| 0 <= q < t.len() && t[q].0 == k;
                    lemma_table_map_at(t, q);
                    assert(t[m as int].1 <= t[q].1);
                }
            }
            let ghost gone = t[m as int].0;
            self.last_peer.remove(m);
            proof {
                assert(self.last_peer_table() =~= t.remove(m as int));
                assert(!dropped.contains(gone));
                dropped = dropped.insert(gone);
            }
        }
        proof {
            lemma_table_len(self.last_peer_table());
            let after = table_map(self.last_peer_table());
            assert(after.submap_of(fresh));
            if fresh.len() <= SHAPER_PEER_STATE_MAX {
                if dropped.len() > 0 {
                    assert(!(dropped =~= Set::<Seq<char>>::empty()));
                }
                assert(dropped =~= Set::<Seq<char>>::empty()) by {
                    if !(dropped =~= Set::<Seq<char>>::empty()) {
                        let x = dropped.choose();
                        assert(dropped.contains(x));
                        assert(dropped.len() > 0);
                    }
                }
                assert forall|k: Seq<char>| fresh.dom().contains(k) implies after.dom().contains(k) by {
                    assert(!dropped.contains(k));
                }
                assert(after =~= fresh);
            } else {
                if dropped =~= Set::<Seq<char>>::empty() {
                    assert(dropped.len() == 0);
                }
            }
        }
    }
}


/// The state after checking the window at `now`: a window that started at
/// least a second ago restarts, with its counts cleared and stale peer
/// entries cleaned out.
pub open spec fn rolled(a: ShaperModel, b: ShaperModel, now: u64) -> bool {
    if age(now, a.window_started) >= SHAPER_WINDOW_NANOS {
        &&& b.window_started == now
        &&& b.global_sent == seq![0u32, 0u32, 0u32, 0u32]
        &&& b.peer_sent == Map::<Seq<char>, u32>::empty()
        &&& cleaned(a.last_peer, b.last_peer, now)
        &&& b.last_global == a.last_global
        &&& b.seed == a.seed
    } else {
        b == a
    }
}

/// `t` plus `ms` milliseconds, saturating.
pub open spec fn after_ms(t: u64, ms: u64) -> u64 {
    let x: int = t + ms * 1_000_000;
    if x > u64::MAX { u64::MAX } else { x as u64 }
}

fn after_ms_exec(t: u64, ms: u64) -> (r: u64)
    ensures
        r == after_ms(t, ms),
{
    let d: u64 = match ms.checked_mul(NANOS_PER_MS) {
        Some(v) => v,
        None => u64::MAX,
    };
    t.saturating_add(d)
}

/// The jitter generator's next state and its jitter in `0..=max_ms`.
pub open spec fn jitter_spec(seed: u64, max_ms: u64) -> (u64, u64) {
    if max_ms == 0 {
        (seed, 0)
    } else {
        let s2 = next_seed(seed);
        (s2, (s2 as int % (max_ms as int + 1)) as u64)
    }
}

pub open spec fn sat_inc32(x: u32) -> u32 {
    if x == u32::MAX { x } else { (x + 1) as u32 }
}

pub open spec fn max64(a: u64, b: u64) -> u64 {
    if a >= b { a } else { b }
}

/// When a packet of `class` to the peer keyed `key` may go out, given the
/// state after the window check: none when the class or the peer has used
/// its cap in this window; otherwise not before `now` (plus the delay for
/// classes that wait instead of dropping), nor before the minimum interval
/// after the last send of the class and to the peer.
pub open spec fn schedule_spec(m: ShaperModel, p: ShaperClassPolicy, class: OutboundClass, key: Seq<char>, now: u64)
    -> (ShaperModel, Option<u64>)
{
    let ci = class_index(class);
    let gs = m.global_sent[ci];
    let ps: u32 = if m.peer_sent.dom().contains(key) { m.peer_sent[key] } else { 0 };
    if p.global_max_per_sec > 0 && gs >= p.global_max_per_sec {
        (m, None)
    } else if p.peer_max_per_sec > 0 && ps >= p.peer_max_per_sec {
        (m, None)
    } else {
        let jit = if p.drop_when_delayed { (m.seed, 0u64) } else { jitter_spec(m.seed, p.jitter_ms) };
        let base = if p.drop_when_delayed { now } else { after_ms(after_ms(now, p.base_delay_ms), jit.1) };
        let t1 = match m.last_global[ci] {
            Some(l) => max64(base, after_ms(l, p.global_min_interval_ms)),
            None => base,
        };
        let t2 = if m.last_peer.dom().contains(key) { max64(t1, after_ms(m.last_peer[key], p.peer_min_interval_ms)) } else { t1 };
        (ShaperModel { seed: jit.0, ..m }, Some(t2))
    }
}

/// The state after a send of `class` to the peer keyed `key` at `at`,
/// given the state after the window check.
pub open spec fn sent_spec(m: ShaperModel, class: OutboundClass, key: Seq<char>, at: u64) -> ShaperModel {
    let ci = class_index(class);
    let ps: u32 = if m.peer_sent.dom().contains(key) { m.peer_sent[key] } else { 0 };
    ShaperModel {
        global_sent: m.global_sent.update(ci, sat_inc32(m.global_sent[ci])),
        peer_sent: m.peer_sent.insert(key, sat_inc32(ps)),
        last_global: m.last_global.update(ci, Some(at)),
        last_peer: m.last_peer.insert(key, at),
        ..m
    }
}

impl OutboundShaper {
    /// Restarts the one-second window when it has run out.
    fn roll_window(&mut self, now: u64)
        requires
            old(self).wf(),
        ensures
            final(self).wf(),
            rolled(old(self).view(), final(self).view(), now),
    {
        if now.saturating_sub(self.window_started) >= SHAPER_WINDOW_NANOS {
            self.window_started = now;
            self.global_sent = vec![0u32, 0u32, 0u32, 0u32];
            self.peer_sent = Vec::new();
            assert(self.peer_sent_table() =~= Seq::<(Seq<char>, u32)>::empty());
            self.cleanup_stale_peers(now);
            assert(self.view().peer_sent =~= Map::<Seq<char>, u32>::empty());
            assert(self.view().global_sent =~= seq![0u32, 0u32, 0u32, 0u32]);
        }
    }

    fn jitter_ms(&mut self, max_ms: u64) -> (j: u64)
        requires
            max_ms < u64::MAX,
        ensures
            (final(self).seed, j) == jitter_spec(old(self).seed, max_ms),
            final(self).window_started == old(self).window_started,
            final(self).global_sent == old(self).global_sent,
            final(self).peer_sent == old(self).peer_sent,
            final(self).last_global == old(self).last_global,
            final(self).last_peer == old(self).last_peer,
    {
        if max_ms == 0 {
            return 0;
        }
        let m = self.seed.wrapping_mul(6364136223846793005);
        self.seed = m.wrapping_add(1);
        self.seed % (max_ms + 1)
    }

    fn find_peer_count(&self, key: &String) -> (r: Option<usize>)
        ensures
            match r {
                Some(i) => i < self.peer_sent_table().len() && self.peer_sent_table()[i as int].0 == key@,
                None => forall|i: int| 0 <= i < self.peer_sent_table().len() ==> (#[trigger] self.peer_sent_table()[i]).0 != key@,
            },
    {
        let mut i: usize = 0;
        while i < self.peer_sent.len()
            invariant
                i <= self.peer_sent@.len(),
                forall|j: int| 0 <= j < i ==> (#[trigger] self.peer_sent_table()[j]).0 != key@,
            decreases self.peer_sent@.len() - i,
        {
            assert(self.peer_sent_table()[i as int].0 == self.peer_sent@[i as int].key@);
            if self.peer_sent[i].key == *key {
                return Some(i);
            }
            i += 1;
        }
        None
    }

    fn find_peer_time(&self, key: &String) -> (r: Option<usize>)
        ensures
            match r {
                Some(i) => i < self.last_peer_table().len() && self.last_peer_table()[i as int].0 == key@,
                None => forall|i: int| 0 <= i < self.last_peer_table().len() ==> (#[trigger] self.last_peer_table()[i]).0 != key@,
            },
    {
        let mut i: usize = 0;
        while i < self.last_peer.len()
            invariant
                i <= self.last_peer@.len(),
                forall|j: int| 0 <= j < i ==> (#[trigger] self.last_peer_table()[j]).0 != key@,
            decreases self.last_peer@.len() - i,
        {
            assert(self.last_peer_table()[i as int].0 == self.last_peer@[i as int].key@);
            if self.last_peer[i].key == *key {
                return Some(i);
            }
            i += 1;
        }
        None
    }

    fn peer_count(&self, key: &String) -> (c: u32)
        requires
            self.wf(),
        ensures
            c == (if self.view().peer_sent.dom().contains(key@) { self.view().peer_sent[key@] } else { 0u32 }),
    {
        match self.find_peer_count(key) {
            Some(i) => {
                proof {
                    lemma_table_map_at(self.peer_sent_table(), i as int);
                }
                self.peer_sent[i].count
            },
            None => {
                proof {
                    lemma_table_map_dom(self.peer_sent_table(), key@);
                }
                0
            },
        }
    }

    fn peer_time(&self, key: &String) -> (t: Option<u64>)
        requires
            self.wf(),
        ensures
            t == (if self.view().last_peer.dom().contains(key@) { Some(self.view().last_peer[key@]) } else { None }),
    {
        match self.find_peer_time(key) {
            Some(i) => {
                proof {
                    lemma_table_map_at(self.last_peer_table(), i as int);
                }
                Some(self.last_peer[i].at)
            },
            None => {
                proof {
                    lemma_table_map_dom(self.last_peer_table(), key@);
                }
                None
            },
        }
    }

    /// When a packet of `class` to `dest_b64` may go out, judged at `now`
    /// (see `schedule_spec`); none when a cap is reached.
    pub fn schedule_send(&mut self, settings: &ShaperSettings, class: OutboundClass, dest_b64: &str, now: u64)
        -> (r: Option<u64>)
        requires
            old(self).wf(),
        ensures
            final(self).wf(),
            exists|m: ShaperModel| rolled(old(self).view(), m, now)
                && (final(self).view(), r) == schedule_spec(m, policy_spec(*settings, class), class, peer_key(class, dest_b64@), now),
    {
        self.roll_window(now);
        let ghost m = self.view();
        let policy = shaper_policy(settings, class);
        let ci = class_slot(class);
        let global_sent = self.global_sent[ci];
        if policy.global_max_per_sec > 0 && global_sent >= policy.global_max_per_sec {
            return None;
        }
        let key = shaper_peer_key(class, dest_b64);
        let peer_sent = self.peer_count(&key);
        if policy.peer_max_per_sec > 0 && peer_sent >= policy.peer_max_per_sec {
            return None;
        }
        let mut target: u64 = if policy.drop_when_delayed {
            now
        } else {
            let j = self.jitter_ms(policy.jitter_ms);
            after_ms_exec(after_ms_exec(now, policy.base_delay_ms), j)
        };
        match self.last_global[ci] {
            Some(last) => {
                let t = after_ms_exec(last, policy.global_min_interval_ms);
                if t > target {
                    target = t;
                }
            },
            None => {},
        }
        match self.peer_time(&key) {
            Some(last) => {
                let t = after_ms_exec(last, policy.peer_min_interval_ms);
                if t > target {
                    target = t;
                }
            },
            None => {},
        }
        proof {
            assert(self.view() == (ShaperModel { seed: self.seed, ..m }));
        }
        Some(target)
    }

    /// Records a send of `class` to `dest_b64` at `sent_at`.
    pub fn mark_sent(&mut self, class: OutboundClass, dest_b64: &str, sent_at: u64)
        requires
            old(self).wf(),
        ensures
            final(self).wf(),
            exists|m: ShaperModel| rolled(old(self).view(), m, sent_at)
                && final(self).view() == sent_spec(m, class, peer_key(class, dest_b64@), sent_at),
    {
        self.roll_window(sent_at);
        let ghost m = self.view();
        let ci = class_slot(class);
        let g = self.global_sent[ci];
        self.global_sent.set(ci, g.saturating_add(1));
        self.last_global.set(ci, Some(sent_at));
        let key = shaper_peer_key(class, dest_b64);
        let ghost pt = self.peer_sent_table();
        match self.find_peer_count(&key) {
            Some(i) => {
                let c = self.peer_sent[i].count;
                let k = String::from_str(key.as_str());
                self.peer_sent.set(i, PeerCount { key: k, count: c.saturating_add(1) });
                proof {
                    lemma_table_map_at(pt, i as int);
                    assert(self.peer_sent_table() =~= pt.update(i as int, (pt[i as int].0, sat_inc32(c))));
                    lemma_table_map_update(pt, i as int, sat_inc32(c));
                }
            },
            None => {
                proof {
                    lemma_table_map_dom(pt, key@);
                }
                let k = String::from_str(key.as_str());
                self.peer_sent.push(PeerCount { key: k, count: 1 });
                proof {
                    assert(self.peer_sent_table() =~= pt.push((key@, 1u32)));
                    lemma_table_push(pt, key@, 1u32);
                }
            },
        }
        let ghost lt = self.last_peer_table();
        match self.find_peer_time(&key) {
            Some(i) => {
                let k = String::from_str(key.as_str());
                self.last_peer.set(i, PeerTime { key: k, at: sent_at });
                proof {
                    assert(self.last_peer_table() =~= lt.update(i as int, (lt[i as int].0, sent_at)));
                    lemma_table_map_update(lt, i as int, sent_at);
                }
            },
            None => {
                proof {
                    lemma_table_map_dom(lt, key@);
                }
                self.last_peer.push(PeerTime { key, at: sent_at });
                proof {
                    assert(self.last_peer_table() =~= lt.push((key@, sent_at)));
                    lemma_table_push(lt, key@, sent_at);
                }
            },
        }
        proof {
            let e = sent_spec(m, class, peer_key(class, dest_b64@), sent_at);
            assert(self.view().global_sent =~= e.global_sent);
            assert(self.view().last_global =~= e.last_global);
            assert(self.view().peer_sent =~= e.peer_sent);
            assert(self.view().last_peer =~= e.last_peer);
        }
    }
}


/// A scheduled send is never earlier than `now`, nor than the minimum
/// interval after the last send of its class and to its peer; a class or
/// peer that has used its cap in the window gets no send at all.
pub proof fn law_schedule_respects_limits(m: ShaperModel, p: ShaperClassPolicy, class: OutboundClass, key: Seq<char>, now: u64)
    requires
        m.global_sent.len() == 4,
        m.last_global.len() == 4,
    ensures
        schedule_spec(m, p, class, key, now).1 matches Some(t) ==> {
            &&& t >= now
            &&& (m.last_global[class_index(class)] matches Some(l) ==> t >= after_ms(l, p.global_min_interval_ms))
            &&& (m.last_peer.dom().contains(key) ==> t >= after_ms(m.last_peer[key], p.peer_min_interval_ms))
        },
        p.global_max_per_sec > 0 && m.global_sent[class_index(class)] >= p.global_max_per_sec
            ==> schedule_spec(m, p, class, key, now).1 is None,
        p.peer_max_per_sec > 0 && m.peer_sent.dom().contains(key) && m.peer_sent[key] >= p.peer_max_per_sec
            ==> schedule_spec(m, p, class, key, now).1 is None,
{
}

} // verus!
