//! Upload activity: which ranges of which shared files peers are being
//! served, per-file totals and rates, and a short history of ended sessions.
//!
//! Times are nanoseconds on the monotonic clock, counted from the tracker's
//! creation (see `text::nanos_since`); wall-clock
//! stamps are Unix seconds.

use vstd::prelude::*;
use crate::table::{keys_distinct, table_map, lemma_table_map_at, lemma_table_map_dom,
    lemma_table_map_update, lemma_table_insert};
use crate::text::{ascii_lower, chars_lt, lemma_chars_lt_irreflexive, monotonic_now, nanos_since,
    lemma_chars_lt_total, lemma_chars_lt_transitive, str_lt, to_ascii_lowercase, unix_now_secs};
use crate::transfer_rate::{RollingTransferRate, prune_spec, window_rate, WINDOW_5S_NANOS,
    WINDOW_30S_NANOS};

verus! {

pub const RECENT_SESSION_RETENTION_NANOS: u64 = 120_000_000_000;
pub const MAX_RECENT_SESSIONS_PER_FILE: usize = 128;

#[derive(Debug, Clone, Copy, PartialEq, Eq, Structural)]
pub enum UploadRangePhase {
    Held,
    Sending,
}

#[derive(Debug, Clone, Copy, PartialEq, Eq, Structural)]
pub enum UploadTerminalReason {
    Expired,
    Dropped,
}

#[derive(Debug, Clone, Copy, PartialEq, Eq, Structural)]
pub enum UploadPayloadSource {
    SharedFile,
    ZeroFillFallback,
}

#[derive(Debug, Clone, PartialEq, Eq)]
pub struct UploadPayloadBuild {
    pub payload: Vec<u8>,
    pub source: UploadPayloadSource,
}

pub open spec fn sat_add(a: u64, b: u64) -> u64 {
    if a + b > u64::MAX {
        u64::MAX
    } else {
        (a + b) as u64
    }
}

pub open spec fn sat_inc(a: u64) -> u64 {
    sat_add(a, 1)
}

/// Bytes in the inclusive range `start..=end` (saturating; 1 when `end < start`).
pub open spec fn range_bytes(start: u64, end: u64) -> u64 {
    sat_add(if end >= start { (end - start) as u64 } else { 0 }, 1)
}

fn range_bytes_exec(start: u64, end: u64) -> (r: u64)
    ensures
        r == range_bytes(start, end),
{
    end.saturating_sub(start).saturating_add(1)
}

/// A zero-filled block for the inclusive range `start..=end`.
pub fn zero_fill_block(start: u64, end: u64) -> (r: Vec<u8>)
    requires
        range_bytes(start, end) <= usize::MAX,
    ensures
        r@ == Seq::new(range_bytes(start, end) as nat, |i: int| 0u8),
{
    let n = range_bytes_exec(start, end) as usize;
    let mut v: Vec<u8> = Vec::new();
    let mut i: usize = 0;
    while i < n
        invariant
            i <= n,
            v@ == Seq::new(i as nat, |k: int| 0u8),
        decreases n - i,
    {
        v.push(0u8);
        i += 1;
        assert(v@ =~= Seq::new(i as nat, |k: int| 0u8));
    }
    v
}

pub struct RangeModel {
    pub session_id: u64,
    pub start: u64,
    pub end: u64,
    pub phase: UploadRangePhase,
    pub peer: Seq<char>,
    pub payload_source: Option<UploadPayloadSource>,
    pub started_unix_secs: Option<u64>,
    pub requested_unix_secs: Option<u64>,
    pub last_updated_unix_secs: Option<u64>,
    pub expires_at: u64,
    pub terminal_reason: Option<UploadTerminalReason>,
}

/// One session: a range of a file requested by a peer.
#[derive(Debug, Clone)]
pub struct TrackedUploadRange {
    pub session_id: u64,
    pub start: u64,
    pub end: u64,
    pub phase: UploadRangePhase,
    pub peer_id_hex: String,
    pub payload_source: Option<UploadPayloadSource>,
    pub started_unix_secs: Option<u64>,
    pub requested_unix_secs: Option<u64>,
    pub last_updated_unix_secs: Option<u64>,
    pub expires_at: u64,
    pub terminal_reason: Option<UploadTerminalReason>,
}

impl View for TrackedUploadRange {
    type V = RangeModel;

    open spec fn view(&self) -> RangeModel {
        RangeModel {
            session_id: self.session_id,
            start: self.start,
            end: self.end,
            phase: self.phase,
            peer: self.peer_id_hex@,
            payload_source: self.payload_source,
            started_unix_secs: self.started_unix_secs,
            requested_unix_secs: self.requested_unix_secs,
            last_updated_unix_secs: self.last_updated_unix_secs,
            expires_at: self.expires_at,
            terminal_reason: self.terminal_reason,
        }
    }
}

pub open spec fn ranges_view(v: Seq<TrackedUploadRange>) -> Seq<RangeModel> {
    v.map_values(|r: TrackedUploadRange| r@)
}

fn copy_range(r: &TrackedUploadRange) -> (c: TrackedUploadRange)
    ensures
        c@ == r@,
{
    TrackedUploadRange {
        session_id: r.session_id,
        start: r.start,
        end: r.end,
        phase: r.phase,
        peer_id_hex: r.peer_id_hex.clone(),
        payload_source: r.payload_source,
        started_unix_secs: r.started_unix_secs,
        requested_unix_secs: r.requested_unix_secs,
        last_updated_unix_secs: r.last_updated_unix_secs,
        expires_at: r.expires_at,
        terminal_reason: r.terminal_reason,
    }
}

/// Ranges still live at `now`.
pub open spec fn live_ranges(s: Seq<RangeModel>, now: u64) -> Seq<RangeModel>
    decreases s.len(),
{
    if s.len() == 0 {
        Seq::empty()
    } else if s.last().expires_at > now {
        live_ranges(s.drop_last(), now).push(s.last())
    } else {
        live_ranges(s.drop_last(), now)
    }
}

/// An ended session, kept for the retention period.
pub open spec fn mark_ended(r: RangeModel, now: u64, reason: UploadTerminalReason) -> RangeModel {
    RangeModel {
        expires_at: sat_add(now, RECENT_SESSION_RETENTION_NANOS),
        terminal_reason: Some(reason),
        ..r
    }
}

/// Ranges that have expired at `now`, marked as ended.
pub open spec fn expired_ranges(s: Seq<RangeModel>, now: u64) -> Seq<RangeModel>
    decreases s.len(),
{
    if s.len() == 0 {
        Seq::empty()
    } else if s.last().expires_at > now {
        expired_ranges(s.drop_last(), now)
    } else {
        expired_ranges(s.drop_last(), now).push(mark_ended(s.last(), now, UploadTerminalReason::Expired))
    }
}

/// The most recent 128 ended sessions.
pub open spec fn cap_recent(s: Seq<RangeModel>) -> Seq<RangeModel> {
    if s.len() > 128 {
        s.subrange(s.len() - 128, s.len() as int)
    } else {
        s
    }
}

pub struct FileModel {
    pub total_requests: u64,
    pub requested_bytes_total: u64,
    pub rate: Seq<(u64, u64)>,
    pub zero_fill_requests_total: u64,
    pub zero_fill_requested_bytes_total: u64,
    pub zero_fill_rate: Seq<(u64, u64)>,
    pub last_requested_unix_secs: Option<u64>,
    pub last_peer_id_hex: Option<Seq<char>>,
    pub last_payload_source: Option<UploadPayloadSource>,
    pub active: Seq<RangeModel>,
    pub recent: Seq<RangeModel>,
}

pub open spec fn empty_file() -> FileModel {
    FileModel {
        total_requests: 0,
        requested_bytes_total: 0,
        rate: Seq::empty(),
        zero_fill_requests_total: 0,
        zero_fill_requested_bytes_total: 0,
        zero_fill_rate: Seq::empty(),
        last_requested_unix_secs: None,
        last_peer_id_hex: None,
        last_payload_source: None,
        active: Seq::empty(),
        recent: Seq::empty(),
    }
}

/// Moves expired ranges to the history and drops history past retention,
/// keeping at most 128 entries.
pub open spec fn prune_file(f: FileModel, now: u64) -> FileModel {
    FileModel {
        active: live_ranges(f.active, now),
        recent: cap_recent(live_ranges(f.recent + expired_ranges(f.active, now), now)),
        ..f
    }
}

pub open spec fn range_matches(r: RangeModel, start: u64, end: u64, peer: Seq<char>) -> bool {
    r.start == start && r.end == end && r.peer == peer
}

pub open spec fn is_first_match(s: Seq<RangeModel>, i: int, start: u64, end: u64, peer: Seq<char>) -> bool {
    &&& 0 <= i < s.len()
    &&& range_matches(s[i], start, end, peer)
    &&& forall|j: int| 0 <= j < i ==> !range_matches(#[trigger] s[j], start, end, peer)
}

/// Index of the first range for (start, end, peer), or -1.
pub open spec fn find_range(s: Seq<RangeModel>, start: u64, end: u64, peer: Seq<char>) -> int {
    if exists|i: int| is_first_match(s, i, start, end, peer) {
        choose|i: int| is_first_match(s, i, start, end, peer)
    } else {
        -1
    }
}

proof fn lemma_find_range_is(s: Seq<RangeModel>, i: int, start: u64, end: u64, peer: Seq<char>)
    requires
        is_first_match(s, i, start, end, peer),
    ensures
        find_range(s, start, end, peer) == i,
{
    let c = choose|k: int| is_first_match(s, k, start, end, peer);
    assert(is_first_match(s, c, start, end, peer));
    if c < i {
        assert(!range_matches(s[c], start, end, peer));
    } else if c > i {
        assert(!range_matches(s[i], start, end, peer));
    }
}

proof fn lemma_find_range_none(s: Seq<RangeModel>, start: u64, end: u64, peer: Seq<char>)
    requires
        forall|j: int| 0 <= j < s.len() ==> !range_matches(#[trigger] s[j], start, end, peer),
    ensures
        find_range(s, start, end, peer) == -1,
{
}

/// Per-file state.
pub struct FileUploadActivity {
    total_requests: u64,
    requested_bytes_total: u64,
    transfer_rate: RollingTransferRate,
    zero_fill_requests_total: u64,
    zero_fill_requested_bytes_total: u64,
    zero_fill_transfer_rate: RollingTransferRate,
    last_requested_unix_secs: Option<u64>,
    last_peer_id_hex: Option<String>,
    last_payload_source: Option<UploadPayloadSource>,
    active_ranges: Vec<TrackedUploadRange>,
    recent_sessions: Vec<TrackedUploadRange>,
}

pub open spec fn opt_str_view(o: Option<String>) -> Option<Seq<char>> {
    match o {
        Some(s) => Some(s@),
        None => None,
    }
}

impl View for FileUploadActivity {
    type V = FileModel;

    closed spec fn view(&self) -> FileModel {
        FileModel {
            total_requests: self.total_requests,
            requested_bytes_total: self.requested_bytes_total,
            rate: self.transfer_rate.samples(),
            zero_fill_requests_total: self.zero_fill_requests_total,
            zero_fill_requested_bytes_total: self.zero_fill_requested_bytes_total,
            zero_fill_rate: self.zero_fill_transfer_rate.samples(),
            last_requested_unix_secs: self.last_requested_unix_secs,
            last_peer_id_hex: opt_str_view(self.last_peer_id_hex),
            last_payload_source: self.last_payload_source,
            active: ranges_view(self.active_ranges@),
            recent: ranges_view(self.recent_sessions@),
        }
    }
}

impl FileUploadActivity {
    fn new() -> (f: Self)
        ensures
            f@ == empty_file(),
    {
        let f = FileUploadActivity {
            total_requests: 0,
            requested_bytes_total: 0,
            transfer_rate: RollingTransferRate::new(),
            zero_fill_requests_total: 0,
            zero_fill_requested_bytes_total: 0,
            zero_fill_transfer_rate: RollingTransferRate::new(),
            last_requested_unix_secs: None,
            last_peer_id_hex: None,
            last_payload_source: None,
            active_ranges: Vec::new(),
            recent_sessions: Vec::new(),
        };
        assert(f@.active =~= Seq::<RangeModel>::empty());
        assert(f@.recent =~= Seq::<RangeModel>::empty());
        f
    }

    fn cap_recent_sessions(&mut self)
        ensures
            final(self)@ == (FileModel { recent: cap_recent(old(self)@.recent), ..old(self)@ }),
    {
        let n = self.recent_sessions.len();
        if n > MAX_RECENT_SESSIONS_PER_FILE {
            let ghost before = self.recent_sessions@;
            let kept = self.recent_sessions.split_off(n - MAX_RECENT_SESSIONS_PER_FILE);
            self.recent_sessions = kept;
            assert(ranges_view(self.recent_sessions@) =~= cap_recent(ranges_view(before)));
        }
    }

    /// Expired active ranges become history; stale history is dropped.
    fn prune_expired(&mut self, now: u64)
        ensures
            final(self)@ == prune_file(old(self)@, now),
    {
        let ghost f0 = self@;
        let mut active: Vec<TrackedUploadRange> = Vec::new();
        std::mem::swap(&mut active, &mut self.active_ranges);
        let mut still_active: Vec<TrackedUploadRange> = Vec::new();
        let mut expired: Vec<TrackedUploadRange> = Vec::new();
        let mut i: usize = 0;
        while i < active.len()
            invariant
                i <= active@.len(),
                ranges_view(active@) == f0.active,
                ranges_view(still_active@) == live_ranges(f0.active.take(i as int), now),
                ranges_view(expired@) == expired_ranges(f0.active.take(i as int), now),
            decreases active@.len() - i,
        {
            let mut r = copy_range(&active[i]);
            proof {
                assert(f0.active.take(i + 1).drop_last() =~= f0.active.take(i as int));
                assert(f0.active.take(i + 1).last() == active@[i as int]@);
            }
            if r.expires_at > now {
                let ghost b = still_active@;
                still_active.push(r);
                assert(ranges_view(still_active@) =~= ranges_view(b).push(active@[i as int]@));
            } else {
                r.expires_at = now.saturating_add(RECENT_SESSION_RETENTION_NANOS);
                r.terminal_reason = Some(UploadTerminalReason::Expired);
                let ghost b = expired@;
                let ghost rv = r@;
                expired.push(r);
                assert(rv == mark_ended(active@[i as int]@, now, UploadTerminalReason::Expired));
                assert(ranges_view(expired@) =~= ranges_view(b).push(rv));
            }
            i += 1;
        }
        assert(f0.active.take(active@.len() as int) =~= f0.active);
        let mut recent: Vec<TrackedUploadRange> = Vec::new();
        std::mem::swap(&mut recent, &mut self.recent_sessions);
        let mut j: usize = 0;
        let ghost r0 = ranges_view(recent@);
        assert(r0 == f0.recent);
        assert(ranges_view(expired@).take(0) =~= Seq::<RangeModel>::empty());
        assert(r0 + ranges_view(expired@).take(0) =~= r0);
        while j < expired.len()
            invariant
                j <= expired@.len(),
                ranges_view(recent@) == r0 + ranges_view(expired@).take(j as int),
            decreases expired@.len() - j,
        {
            let r = copy_range(&expired[j]);
            let ghost b = recent@;
            recent.push(r);
            assert(ranges_view(recent@) =~= ranges_view(b).push(expired@[j as int]@));
            assert(ranges_view(recent@) =~= r0 + ranges_view(expired@).take(j + 1));
            j += 1;
        }
        assert(ranges_view(expired@).take(expired@.len() as int) =~= ranges_view(expired@));
        let ghost all = ranges_view(recent@);
        let mut kept: Vec<TrackedUploadRange> = Vec::new();
        let mut k: usize = 0;
        while k < recent.len()
            invariant
                k <= recent@.len(),
                ranges_view(recent@) == all,
                ranges_view(kept@) == live_ranges(all.take(k as int), now),
            decreases recent@.len() - k,
        {
            proof {
                assert(all.take(k + 1).drop_last() =~= all.take(k as int));
                assert(all.take(k + 1).last() == recent@[k as int]@);
            }
            if recent[k].expires_at > now {
                let r = copy_range(&recent[k]);
                let ghost b = kept@;
                kept.push(r);
                assert(ranges_view(kept@) =~= ranges_view(b).push(recent@[k as int]@));
            }
            k += 1;
        }
        assert(all.take(recent@.len() as int) =~= all);
        self.active_ranges = still_active;
        self.recent_sessions = kept;
        self.cap_recent_sessions();
        assert(self@.active == prune_file(f0, now).active);
        assert(self@.recent == prune_file(f0, now).recent);
    }
}


/// A (pruned) file's state after a range was reported held or being sent at
/// `now`; `new_session` is the identifier a new range gets.
pub open spec fn note_file(
    f1: FileModel,
    start: u64,
    end: u64,
    ttl: u64,
    phase: UploadRangePhase,
    peer: Seq<char>,
    unix: Option<u64>,
    source: Option<UploadPayloadSource>,
    now: u64,
    new_session: u64,
) -> FileModel {
    let idx = find_range(f1.active, start, end, peer);
    let expires = sat_add(now, ttl);
    let active = if idx >= 0 {
        f1.active.update(
            idx,
            RangeModel {
                phase,
                expires_at: expires,
                requested_unix_secs: unix,
                payload_source: source,
                last_updated_unix_secs: unix,
                ..f1.active[idx]
            },
        )
    } else {
        f1.active.push(
            RangeModel {
                session_id: new_session,
                start,
                end,
                phase,
                peer,
                payload_source: source,
                started_unix_secs: unix,
                requested_unix_secs: unix,
                last_updated_unix_secs: unix,
                expires_at: expires,
                terminal_reason: None,
            },
        )
    };
    let b = range_bytes(start, end);
    let sending = phase == UploadRangePhase::Sending;
    let zero = sending && source == Some(UploadPayloadSource::ZeroFillFallback);
    FileModel {
        active,
        total_requests: sat_inc(f1.total_requests),
        requested_bytes_total: sat_add(f1.requested_bytes_total, b),
        rate: if sending { prune_spec(f1.rate.push((now, b)), now) } else { f1.rate },
        zero_fill_requests_total: if zero { sat_inc(f1.zero_fill_requests_total) } else { f1.zero_fill_requests_total },
        zero_fill_requested_bytes_total: if zero {
            sat_add(f1.zero_fill_requested_bytes_total, b)
        } else {
            f1.zero_fill_requested_bytes_total
        },
        zero_fill_rate: if zero { prune_spec(f1.zero_fill_rate.push((now, b)), now) } else { f1.zero_fill_rate },
        last_requested_unix_secs: unix,
        last_peer_id_hex: Some(peer),
        last_payload_source: if source is Some { source } else { f1.last_payload_source },
        recent: f1.recent,
    }
}

/// A file's state after the session for (start, end, peer) ended for `reason`.
pub open spec fn terminal_file(
    f: FileModel,
    start: u64,
    end: u64,
    peer: Seq<char>,
    reason: UploadTerminalReason,
    now: u64,
) -> FileModel {
    let f1 = prune_file(f, now);
    let idx = find_range(f1.active, start, end, peer);
    if idx >= 0 {
        FileModel {
            active: f1.active.remove(idx),
            recent: cap_recent(f1.recent.push(mark_ended(f1.active[idx], now, reason))),
            ..f1
        }
    } else {
        f1
    }
}

impl FileUploadActivity {
    fn find_active(&self, start: u64, end: u64, peer: &String) -> (r: Option<usize>)
        ensures
            match r {
                Some(i) => find_range(self@.active, start, end, peer@) == i as int && i < self@.active.len(),
                None => find_range(self@.active, start, end, peer@) == -1,
            },
    {
        let ghost s = self@.active;
        let mut i: usize = 0;
        while i < self.active_ranges.len()
            invariant
                i <= self.active_ranges@.len(),
                s == ranges_view(self.active_ranges@),
                forall|j: int| 0 <= j < i ==> !range_matches(#[trigger] s[j], start, end, peer@),
            decreases self.active_ranges@.len() - i,
        {
            let r = &self.active_ranges[i];
            assert(s[i as int] == r@);
            if r.start == start && r.end == end && r.peer_id_hex == *peer {
                proof {
                    lemma_find_range_is(s, i as int, start, end, peer@);
                }
                return Some(i);
            }
            i += 1;
        }
        proof {
            lemma_find_range_none(s, start, end, peer@);
        }
        None
    }

    fn push_recent_session(&mut self, range: TrackedUploadRange)
        ensures
            final(self)@ == (FileModel { recent: cap_recent(old(self)@.recent.push(range@)), ..old(self)@ }),
    {
        let ghost b = self.recent_sessions@;
        self.recent_sessions.push(range);
        assert(ranges_view(self.recent_sessions@) =~= ranges_view(b).push(range@));
        self.cap_recent_sessions();
    }

    /// Records a held or sending range at `now` (after pruning); a new
    /// session gets identifier `new_session`.
    fn note(
        &mut self,
        start: u64,
        end: u64,
        ttl: u64,
        phase: UploadRangePhase,
        peer: &String,
        unix: Option<u64>,
        source: Option<UploadPayloadSource>,
        now: u64,
        new_session: u64,
    )
        ensures
            final(self)@ == note_file(old(self)@, start, end, ttl, phase, peer@, unix, source, now, new_session),
    {
        let ghost f1 = self@;
        let expires = now.saturating_add(ttl);
        match self.find_active(start, end, peer) {
            Some(i) => {
                let mut r = copy_range(&self.active_ranges[i]);
                r.phase = phase;
                r.expires_at = expires;
                r.requested_unix_secs = unix;
                r.payload_source = source;
                r.last_updated_unix_secs = unix;
                let ghost rv = r@;
                self.active_ranges.set(i, r);
                assert(ranges_view(self.active_ranges@) =~= f1.active.update(i as int, rv));
            },
            None => {
                let r = TrackedUploadRange {
                    session_id: new_session,
                    start,
                    end,
                    phase,
                    peer_id_hex: peer.clone(),
                    payload_source: source,
                    started_unix_secs: unix,
                    requested_unix_secs: unix,
                    last_updated_unix_secs: unix,
                    expires_at: expires,
                    terminal_reason: None,
                };
                let ghost rv = r@;
                self.active_ranges.push(r);
                assert(ranges_view(self.active_ranges@) =~= f1.active.push(rv));
            },
        }
        let b = range_bytes_exec(start, end);
        self.total_requests = self.total_requests.saturating_add(1);
        self.requested_bytes_total = self.requested_bytes_total.saturating_add(b);
        if phase == UploadRangePhase::Sending {
            self.transfer_rate.note_bytes_at(now, b);
            if source == Some(UploadPayloadSource::ZeroFillFallback) {
                self.zero_fill_requests_total = self.zero_fill_requests_total.saturating_add(1);
                self.zero_fill_requested_bytes_total = self.zero_fill_requested_bytes_total.saturating_add(b);
                self.zero_fill_transfer_rate.note_bytes_at(now, b);
            }
        }
        self.last_requested_unix_secs = unix;
        self.last_peer_id_hex = Some(peer.clone());
        if source.is_some() {
            self.last_payload_source = source;
        }
    }

    /// Ends the session for (start, end, peer), if one is active.
    fn terminal(&mut self, start: u64, end: u64, peer: &String, reason: UploadTerminalReason, now: u64)
        ensures
            final(self)@ == terminal_file(old(self)@, start, end, peer@, reason, now),
    {
        self.prune_expired(now);
        let ghost f1 = self@;
        match self.find_active(start, end, peer) {
            Some(i) => {
                let mut r = self.active_ranges.remove(i);
                r.expires_at = now.saturating_add(RECENT_SESSION_RETENTION_NANOS);
                r.terminal_reason = Some(reason);
                assert(ranges_view(self.active_ranges@) =~= f1.active.remove(i as int));
                self.push_recent_session(r);
            },
            None => {},
        }
    }
}


#[derive(Debug, Clone, PartialEq, Eq)]
pub struct UploadRangeSnapshot {
    pub start: u64,
    pub end: u64,
    pub phase: UploadRangePhase,
    pub peer_id_hex: String,
    pub requested_unix_secs: Option<u64>,
}

#[derive(Debug, Clone, PartialEq, Eq)]
pub struct UploadSessionSnapshot {
    pub session_id: u64,
    pub start: u64,
    pub end: u64,
    pub bytes_total: u64,
    pub phase: UploadRangePhase,
    pub peer_id_hex: String,
    pub payload_source: Option<UploadPayloadSource>,
    pub started_unix_secs: Option<u64>,
    pub last_updated_unix_secs: Option<u64>,
    pub terminal_reason: Option<UploadTerminalReason>,
}

#[derive(Debug, Clone, PartialEq, Eq)]
pub struct UploadActivitySnapshot {
    pub file_hash_md4_hex: String,
    pub total_requests: u64,
    pub requested_bytes_total: u64,
    pub rate_bps_5s: u64,
    pub rate_bps_30s: u64,
    pub zero_fill_requests_total: u64,
    pub zero_fill_requested_bytes_total: u64,
    pub zero_fill_rate_bps_5s: u64,
    pub zero_fill_rate_bps_30s: u64,
    pub zero_fill_active: bool,
    pub last_requested_unix_secs: Option<u64>,
    pub last_peer_id_hex: Option<String>,
    pub active_peer_ids: Vec<String>,
    pub active_since_unix_secs: Option<u64>,
    pub last_payload_source: Option<UploadPayloadSource>,
    pub active_ranges: Vec<UploadRangeSnapshot>,
    pub sessions: Vec<UploadSessionSnapshot>,
    pub recent_session_count: usize,
    pub recent_sessions: Vec<UploadSessionSnapshot>,
}

/// The snapshot of a file nobody has asked for.
pub open spec fn is_empty_snapshot(r: UploadActivitySnapshot) -> bool {
    &&& r.file_hash_md4_hex@ == Seq::<char>::empty()
    &&& r.total_requests == 0 && r.requested_bytes_total == 0
    &&& r.rate_bps_5s == 0 && r.rate_bps_30s == 0
    &&& r.zero_fill_requests_total == 0 && r.zero_fill_requested_bytes_total == 0
    &&& r.zero_fill_rate_bps_5s == 0 && r.zero_fill_rate_bps_30s == 0
    &&& !r.zero_fill_active
    &&& r.last_requested_unix_secs is None && r.last_peer_id_hex is None
    &&& r.active_peer_ids@.len() == 0 && r.active_since_unix_secs is None
    &&& r.last_payload_source is None
    &&& r.active_ranges@.len() == 0 && r.sessions@.len() == 0
    &&& r.recent_session_count == 0 && r.recent_sessions@.len() == 0
}

impl Default for UploadActivitySnapshot {
    fn default() -> (r: Self)
        ensures
            is_empty_snapshot(r),
    {
        UploadActivitySnapshot {
            file_hash_md4_hex: String::new(),
            total_requests: 0,
            requested_bytes_total: 0,
            rate_bps_5s: 0,
            rate_bps_30s: 0,
            zero_fill_requests_total: 0,
            zero_fill_requested_bytes_total: 0,
            zero_fill_rate_bps_5s: 0,
            zero_fill_rate_bps_30s: 0,
            zero_fill_active: false,
            last_requested_unix_secs: None,
            last_peer_id_hex: None,
            active_peer_ids: Vec::new(),
            active_since_unix_secs: None,
            last_payload_source: None,
            active_ranges: Vec::new(),
            sessions: Vec::new(),
            recent_session_count: 0,
            recent_sessions: Vec::new(),
        }
    }
}

pub open spec fn range_snapshot_of(s: UploadRangeSnapshot, r: RangeModel) -> bool {
    &&& s.start == r.start && s.end == r.end && s.phase == r.phase
    &&& s.peer_id_hex@ == r.peer && s.requested_unix_secs == r.requested_unix_secs
}

pub open spec fn session_snapshot_of(s: UploadSessionSnapshot, r: RangeModel) -> bool {
    &&& s.session_id == r.session_id && s.start == r.start && s.end == r.end
    &&& s.bytes_total == range_bytes(r.start, r.end) && s.phase == r.phase
    &&& s.peer_id_hex@ == r.peer && s.payload_source == r.payload_source
    &&& s.started_unix_secs == r.started_unix_secs
    &&& s.last_updated_unix_secs == r.last_updated_unix_secs
    &&& s.terminal_reason == r.terminal_reason
}

pub open spec fn sorted_strict(ss: Seq<Seq<char>>) -> bool {
    forall|i: int, j: int| 0 <= i < j < ss.len() ==> chars_lt(ss[i], ss[j])
}

pub open spec fn has_peer(rs: Seq<RangeModel>, x: Seq<char>) -> bool {
    exists|j: int| 0 <= j < rs.len() && rs[j].peer == x
}

pub open spec fn has_id(ids: Seq<Seq<char>>, x: Seq<char>) -> bool {
    exists|i: int| 0 <= i < ids.len() && ids[i] == x
}

/// The distinct peers of the ranges, in ascending order.
pub open spec fn peer_ids_of(ids: Seq<Seq<char>>, rs: Seq<RangeModel>) -> bool {
    &&& sorted_strict(ids)
    &&& forall|i: int| 0 <= i < ids.len() ==> has_peer(rs, #[trigger] ids[i])
    &&& forall|j: int| 0 <= j < rs.len() ==> has_id(ids, #[trigger] rs[j].peer)
}

/// The earliest start time among the ranges that have one.
pub open spec fn min_started(s: Seq<RangeModel>) -> Option<u64>
    decreases s.len(),
{
    if s.len() == 0 {
        None
    } else {
        let p = min_started(s.drop_last());
        match (p, s.last().started_unix_secs) {
            (None, x) => x,
            (Some(a), None) => Some(a),
            (Some(a), Some(b)) => Some(if b < a { b } else { a }),
        }
    }
}

pub open spec fn zero_fill_sending(s: Seq<RangeModel>) -> bool {
    exists|i: int| 0 <= i < s.len() && (#[trigger] s[i]).phase == UploadRangePhase::Sending
        && s[i].payload_source == Some(UploadPayloadSource::ZeroFillFallback)
}

pub open spec fn strings_view(v: Seq<String>) -> Seq<Seq<char>> {
    v.map_values(|s: String| s@)
}

/// Rate samples dropped at `now` as a snapshot does.
pub open spec fn rates_pruned(f: FileModel, now: u64) -> FileModel {
    FileModel { rate: prune_spec(f.rate, now), zero_fill_rate: prune_spec(f.zero_fill_rate, now), ..f }
}

/// `r` reports file `key` in state `f` at `now`.
pub open spec fn snapshot_of(r: UploadActivitySnapshot, key: Seq<char>, f: FileModel, now: u64) -> bool {
    &&& r.file_hash_md4_hex@ == key
    &&& r.total_requests == f.total_requests
    &&& r.requested_bytes_total == f.requested_bytes_total
    &&& r.rate_bps_5s == window_rate(f.rate, now, WINDOW_5S_NANOS)
    &&& r.rate_bps_30s == window_rate(f.rate, now, WINDOW_30S_NANOS)
    &&& r.zero_fill_requests_total == f.zero_fill_requests_total
    &&& r.zero_fill_requested_bytes_total == f.zero_fill_requested_bytes_total
    &&& r.zero_fill_rate_bps_5s == window_rate(f.zero_fill_rate, now, WINDOW_5S_NANOS)
    &&& r.zero_fill_rate_bps_30s == window_rate(f.zero_fill_rate, now, WINDOW_30S_NANOS)
    &&& r.zero_fill_active == zero_fill_sending(f.active)
    &&& r.last_requested_unix_secs == f.last_requested_unix_secs
    &&& opt_str_view(r.last_peer_id_hex) == f.last_peer_id_hex
    &&& peer_ids_of(strings_view(r.active_peer_ids@), f.active)
    &&& r.active_since_unix_secs == min_started(f.active)
    &&& r.last_payload_source == f.last_payload_source
    &&& r.active_ranges@.len() == f.active.len()
    &&& forall|i: int| 0 <= i < f.active.len() ==> range_snapshot_of(#[trigger] r.active_ranges@[i], f.active[i])
    &&& r.sessions@.len() == f.active.len()
    &&& forall|i: int| 0 <= i < f.active.len() ==> session_snapshot_of(#[trigger] r.sessions@[i], f.active[i])
    &&& r.recent_session_count == f.recent.len()
    &&& r.recent_sessions@.len() == f.recent.len()
    &&& forall|i: int| 0 <= i < f.recent.len() ==> session_snapshot_of(#[trigger] r.recent_sessions@[i], f.recent[i])
}

fn session_snapshots(v: &Vec<TrackedUploadRange>) -> (out: Vec<UploadSessionSnapshot>)
    ensures
        out@.len() == v@.len(),
        forall|i: int| 0 <= i < v@.len() ==> session_snapshot_of(#[trigger] out@[i], v@[i]@),
{
    let mut out: Vec<UploadSessionSnapshot> = Vec::new();
    let mut i: usize = 0;
    while i < v.len()
        invariant
            i <= v@.len(),
            out@.len() == i,
            forall|k: int| 0 <= k < i ==> session_snapshot_of(#[trigger] out@[k], v@[k]@),
        decreases v@.len() - i,
    {
        let r = &v[i];
        out.push(UploadSessionSnapshot {
            session_id: r.session_id,
            start: r.start,
            end: r.end,
            bytes_total: range_bytes_exec(r.start, r.end),
            phase: r.phase,
            peer_id_hex: r.peer_id_hex.clone(),
            payload_source: r.payload_source,
            started_unix_secs: r.started_unix_secs,
            last_updated_unix_secs: r.last_updated_unix_secs,
            terminal_reason: r.terminal_reason,
        });
        i += 1;
    }
    out
}

fn range_snapshots(v: &Vec<TrackedUploadRange>) -> (out: Vec<UploadRangeSnapshot>)
    ensures
        out@.len() == v@.len(),
        forall|i: int| 0 <= i < v@.len() ==> range_snapshot_of(#[trigger] out@[i], v@[i]@),
{
    let mut out: Vec<UploadRangeSnapshot> = Vec::new();
    let mut i: usize = 0;
    while i < v.len()
        invariant
            i <= v@.len(),
            out@.len() == i,
            forall|k: int| 0 <= k < i ==> range_snapshot_of(#[trigger] out@[k], v@[k]@),
        decreases v@.len() - i,
    {
        let r = &v[i];
        out.push(UploadRangeSnapshot {
            start: r.start,
            end: r.end,
            phase: r.phase,
            peer_id_hex: r.peer_id_hex.clone(),
            requested_unix_secs: r.requested_unix_secs,
        });
        i += 1;
    }
    out
}

fn min_started_exec(v: &Vec<TrackedUploadRange>) -> (r: Option<u64>)
    ensures
        r == min_started(ranges_view(v@)),
{
    let ghost s = ranges_view(v@);
    let mut best: Option<u64> = None;
    let mut i: usize = 0;
    while i < v.len()
        invariant
            i <= v@.len(),
            s == ranges_view(v@),
            best == min_started(s.take(i as int)),
        decreases v@.len() - i,
    {
        proof {
            assert(s.take(i + 1).drop_last() =~= s.take(i as int));
            assert(s.take(i + 1).last() == v@[i as int]@);
        }
        let x = v[i].started_unix_secs;
        best = match (best, x) {
            (None, x) => x,
            (Some(a), None) => Some(a),
            (Some(a), Some(b)) => Some(if b < a { b } else { a }),
        };
        i += 1;
    }
    assert(s.take(v@.len() as int) =~= s);
    best
}

fn any_zero_fill_sending(v: &Vec<TrackedUploadRange>) -> (r: bool)
    ensures
        r == zero_fill_sending(ranges_view(v@)),
{
    let ghost s = ranges_view(v@);
    let mut i: usize = 0;
    while i < v.len()
        invariant
            i <= v@.len(),
            s == ranges_view(v@),
            forall|k: int| 0 <= k < i ==> !((#[trigger] s[k]).phase == UploadRangePhase::Sending
                && s[k].payload_source == Some(UploadPayloadSource::ZeroFillFallback)),
        decreases v@.len() - i,
    {
        assert(s[i as int] == v@[i as int]@);
        if v[i].phase == UploadRangePhase::Sending && v[i].payload_source == Some(UploadPayloadSource::ZeroFillFallback) {
            return true;
        }
        i += 1;
    }
    false
}

/// Inserts `x` into an ascending list without repeats.
fn insert_sorted(out: &mut Vec<String>, x: String)
    requires
        sorted_strict(strings_view(old(out)@)),
    ensures
        sorted_strict(strings_view(final(out)@)),
        forall|i: int| 0 <= i < final(out)@.len() ==> (#[trigger] final(out)@[i])@ == x@
            || exists|j: int| 0 <= j < old(out)@.len() && old(out)@[j]@ == final(out)@[i]@,
        exists|i: int| 0 <= i < final(out)@.len() && (#[trigger] final(out)@[i])@ == x@,
        forall|j: int| 0 <= j < old(out)@.len() ==> exists|i: int| 0 <= i < final(out)@.len()
            && final(out)@[i]@ == (#[trigger] old(out)@[j])@,
{
    let ghost o = strings_view(out@);
    let mut p: usize = 0;
    while p < out.len() && str_lt(out[p].as_str(), x.as_str())
        invariant
            p <= out@.len(),
            o == strings_view(out@),
            forall|q: int| 0 <= q < p ==> chars_lt(#[trigger] o[q], x@),
        decreases out@.len() - p,
    {
        p += 1;
    }
    if p < out.len() && out[p] == x {
        assert(out@[p as int]@ == x@);
        assert forall|j: int| 0 <= j < old(out)@.len() implies exists|i: int| 0 <= i < out@.len()
            && out@[i]@ == (#[trigger] old(out)@[j])@ by {
            assert(out@[j]@ == old(out)@[j]@);
        }
        return;
    }
    proof {
        if p < out@.len() {
            assert(!chars_lt(o[p as int], x@));
            assert(o[p as int] != x@);
            lemma_chars_lt_total(o[p as int], x@);
            assert(chars_lt(x@, o[p as int]));
            assert forall|q: int| p < q < o.len() implies chars_lt(x@, #[trigger] o[q]) by {
                lemma_chars_lt_transitive(x@, o[p as int], o[q]);
            }
        }
    }
    let ghost xv = x@;
    out.insert(p, x);
    proof {
        let n = strings_view(out@);
        assert(n =~= o.insert(p as int, xv));
        assert forall|i: int, j: int| 0 <= i < j < n.len() implies chars_lt(n[i], n[j]) by {
            if j < p {
            } else if j == p {
            } else if i < p {
                assert(n[j] == o[j - 1]);
                if j - 1 == p as int {
                    lemma_chars_lt_transitive(o[i], xv, o[j - 1]);
                } else {
                    lemma_chars_lt_transitive(o[i], xv, o[j - 1]);
                }
            } else if i == p {
                assert(n[j] == o[j - 1]);
            } else {
                assert(n[i] == o[i - 1] && n[j] == o[j - 1]);
            }
        }
        assert(out@[p as int]@ == xv);
        assert forall|i: int| 0 <= i < out@.len() implies (#[trigger] out@[i])@ == xv
            || exists|j: int| 0 <= j < old(out)@.len() && old(out)@[j]@ == out@[i]@ by {
            if i < p {
                assert(old(out)@[i]@ == out@[i]@);
            } else if i > p {
                assert(old(out)@[i - 1]@ == out@[i]@);
            }
        }
        assert forall|j: int| 0 <= j < old(out)@.len() implies exists|i: int| 0 <= i < out@.len()
            && out@[i]@ == (#[trigger] old(out)@[j])@ by {
            if j < p {
                assert(out@[j]@ == old(out)@[j]@);
            } else {
                assert(out@[j + 1]@ == old(out)@[j]@);
            }
        }
    }
}

fn sorted_peer_ids(v: &Vec<TrackedUploadRange>) -> (out: Vec<String>)
    ensures
        peer_ids_of(strings_view(out@), ranges_view(v@)),
{
    let ghost s = ranges_view(v@);
    let mut out: Vec<String> = Vec::new();
    let mut i: usize = 0;
    while i < v.len()
        invariant
            i <= v@.len(),
            s == ranges_view(v@),
            sorted_strict(strings_view(out@)),
            forall|k: int| 0 <= k < out@.len() ==> exists|j: int| 0 <= j < i && s[j].peer == (#[trigger] out@[k])@,
            forall|j: int| 0 <= j < i ==> exists|k: int| 0 <= k < out@.len() && out@[k]@ == (#[trigger] s[j]).peer,
        decreases v@.len() - i,
    {
        let ghost before = out@;
        let x = v[i].peer_id_hex.clone();
        assert(x@ == s[i as int].peer);
        insert_sorted(&mut out, x);
        proof {
            assert forall|k: int| 0 <= k < out@.len() implies exists|j: int| 0 <= j < i + 1 && s[j].peer == (#[trigger] out@[k])@ by {
                if out@[k]@ != s[i as int].peer {
                    let j0 = choose|j0: int| 0 <= j0 < before.len() && before[j0]@ == out@[k]@;
                    assert(before[j0]@ == out@[k]@);
                    let jj = choose|jj: int| 0 <= jj < i && s[jj].peer == (#[trigger] before[j0])@;
                }
            }
            assert forall|j: int| 0 <= j < i + 1 implies exists|k: int| 0 <= k < out@.len() && out@[k]@ == (#[trigger] s[j]).peer by {
                if j < i {
                    let k0 = choose|k0: int| 0 <= k0 < before.len() && before[k0]@ == s[j].peer;
                    assert(before[k0]@ == s[j].peer);
                }
            }
        }
        i += 1;
    }
    proof {
        let ids = strings_view(out@);
        assert forall|k: int| 0 <= k < ids.len() implies has_peer(s, #[trigger] ids[k]) by {
            assert(ids[k] == out@[k]@);
            let j0 = choose|j0: int| 0 <= j0 < i && s[j0].peer == out@[k]@;
            assert(0 <= j0 < s.len() && s[j0].peer == ids[k]);
        }
        assert forall|j: int| 0 <= j < s.len() implies has_id(ids, #[trigger] s[j].peer) by {
            let k0 = choose|k0: int| 0 <= k0 < out@.len() && out@[k0]@ == s[j].peer;
            assert(ids[k0] == out@[k0]@);
        }
    }
    out
}


fn clone_opt_string(o: &Option<String>) -> (r: Option<String>)
    ensures
        opt_str_view(r) == opt_str_view(*o),
{
    match o {
        Some(x) => Some(x.clone()),
        None => None,
    }
}

impl FileUploadActivity {
    /// Reports the file under `key` at `now`; the rate windows drop samples
    /// older than 30 seconds.
    fn snapshot(&mut self, key: &String, now: u64) -> (r: UploadActivitySnapshot)
        ensures
            final(self)@ == rates_pruned(old(self)@, now),
            snapshot_of(r, key@, final(self)@, now),
    {
        let active_peer_ids = sorted_peer_ids(&self.active_ranges);
        let active_since_unix_secs = min_started_exec(&self.active_ranges);
        let rates = self.transfer_rate.snapshot_at(now);
        let zero_rates = self.zero_fill_transfer_rate.snapshot_at(now);
        let zero_fill_active = any_zero_fill_sending(&self.active_ranges);
        let active_ranges = range_snapshots(&self.active_ranges);
        let sessions = session_snapshots(&self.active_ranges);
        let recent_sessions = session_snapshots(&self.recent_sessions);
        UploadActivitySnapshot {
            file_hash_md4_hex: key.clone(),
            total_requests: self.total_requests,
            requested_bytes_total: self.requested_bytes_total,
            rate_bps_5s: rates.rate_bps_5s,
            rate_bps_30s: rates.rate_bps_30s,
            zero_fill_requests_total: self.zero_fill_requests_total,
            zero_fill_requested_bytes_total: self.zero_fill_requested_bytes_total,
            zero_fill_rate_bps_5s: zero_rates.rate_bps_5s,
            zero_fill_rate_bps_30s: zero_rates.rate_bps_30s,
            zero_fill_active,
            last_requested_unix_secs: self.last_requested_unix_secs,
            last_peer_id_hex: clone_opt_string(&self.last_peer_id_hex),
            active_peer_ids,
            active_since_unix_secs,
            last_payload_source: self.last_payload_source,
            active_ranges,
            sessions,
            recent_session_count: self.recent_sessions.len(),
            recent_sessions,
        }
    }

    fn is_idle(&self) -> (r: bool)
        ensures
            r == (self@.total_requests == 0 && self@.active.len() == 0 && self@.recent.len() == 0),
    {
        self.total_requests == 0 && self.active_ranges.len() == 0 && self.recent_sessions.len() == 0
    }
}

/// The tracker as values: the last session identifier handed out and the
/// files by lower-cased hash, in ascending key order.
pub struct TrackerModel {
    pub next_session_id: u64,
    /// Where the tracker's own clock readings count from.
    pub origin: std::time::Instant,
    pub files: Seq<(Seq<char>, FileModel)>,
}

pub open spec fn keys_sorted(s: Seq<(Seq<char>, FileModel)>) -> bool {
    forall|i: int, j: int| 0 <= i < j < s.len() ==> chars_lt(s[i].0, s[j].0)
}

pub open spec fn file_or_empty(m: Map<Seq<char>, FileModel>, k: Seq<char>) -> FileModel {
    if m.dom().contains(k) {
        m[k]
    } else {
        empty_file()
    }
}

/// The tracker after a held/sending report for file `key`.
pub open spec fn note_tracker(
    t: TrackerModel,
    key: Seq<char>,
    start: u64,
    end: u64,
    ttl: u64,
    phase: UploadRangePhase,
    peer: Seq<char>,
    unix: Option<u64>,
    source: Option<UploadPayloadSource>,
    now: u64,
) -> (u64, Map<Seq<char>, FileModel>) {
    let f1 = prune_file(file_or_empty(table_map(t.files), key), now);
    let is_new = find_range(f1.active, start, end, peer) < 0;
    let next = if is_new { sat_inc(t.next_session_id) } else { t.next_session_id };
    (next, table_map(t.files).insert(key, note_file(f1, start, end, ttl, phase, peer, unix, source, now, next)))
}

pub struct FileEntry {
    key: String,
    activity: FileUploadActivity,
}

/// Upload activity of all files, keyed by lower-cased file hash.
pub struct UploadActivityTracker {
    next_session_id: u64,
    origin: std::time::Instant,
    files: Vec<FileEntry>,
}

impl View for UploadActivityTracker {
    type V = TrackerModel;

    closed spec fn view(&self) -> TrackerModel {
        TrackerModel {
            next_session_id: self.next_session_id,
            origin: self.origin,
            files: self.files@.map_values(|e: FileEntry| (e.key@, e.activity@)),
        }
    }
}

impl UploadActivityTracker {
    pub closed spec fn wf(&self) -> bool {
        keys_distinct(self@.files) && keys_sorted(self@.files)
    }

    pub fn new() -> (r: Self)
        ensures
            r.wf(),
            r@.next_session_id == 0,
            r@.files == Seq::<(Seq<char>, FileModel)>::empty(),
    {
        let r = UploadActivityTracker { next_session_id: 0, origin: monotonic_now(), files: Vec::new() };
        assert(r@.files =~= Seq::<(Seq<char>, FileModel)>::empty());
        r
    }

    /// Where `key` is (`Ok`), or where it would go (`Err`).
    fn locate(&self, key: &String) -> (r: Result<usize, usize>)
        requires
            self.wf(),
        ensures
            match r {
                Ok(i) => i < self@.files.len() && self@.files[i as int].0 == key@,
                Err(p) => p <= self@.files.len() && !table_map(self@.files).dom().contains(key@)
                    && (forall|q: int| 0 <= q < p ==> chars_lt(#[trigger] self@.files[q].0, key@))
                    && (forall|q: int| p <= q < self@.files.len() ==> chars_lt(key@, #[trigger] self@.files[q].0)),
            },
    {
        let ghost t = self@.files;
        let mut i: usize = 0;
        while i < self.files.len()
            invariant
                i <= self.files@.len(),
                t == self@.files,
                t.len() == self.files@.len(),
                keys_sorted(t),
                forall|q: int| 0 <= q < i ==> chars_lt(#[trigger] t[q].0, key@),
            decreases self.files@.len() - i,
        {
            assert(t[i as int] == (self.files@[i as int].key@, self.files@[i as int].activity@));
            if self.files[i].key == *key {
                return Ok(i);
            }
            if !str_lt(self.files[i].key.as_str(), key.as_str()) {
                proof {
                    lemma_chars_lt_total(t[i as int].0, key@);
                    assert forall|q: int| i <= q < t.len() implies chars_lt(key@, #[trigger] t[q].0) by {
                        if q > i {
                            lemma_chars_lt_transitive(key@, t[i as int].0, t[q].0);
                        }
                    }
                    lemma_table_map_dom(t, key@);
                    if table_map(t).dom().contains(key@) {
                        let q = choose|q: int| 0 <= q < t.len() && t[q].0 == key@;
                        if q < i {
                            lemma_chars_lt_irreflexive(key@);
                        } else {
                            lemma_chars_lt_irreflexive(key@);
                        }
                    }
                }
                return Err(i);
            }
            i += 1;
        }
        proof {
            lemma_table_map_dom(t, key@);
            if table_map(t).dom().contains(key@) {
                let q = choose|q: int| 0 <= q < t.len() && t[q].0 == key@;
                lemma_chars_lt_irreflexive(key@);
            }
        }
        Err(i)
    }

    /// Index of the entry for `key`, creating an empty one if needed.
    fn entry_index(&mut self, key: &String) -> (i: usize)
        requires
            old(self).wf(),
        ensures
            final(self).wf(),
            i < final(self)@.files.len(),
            final(self)@.files[i as int].0 == key@,
            final(self)@.next_session_id == old(self)@.next_session_id,
            final(self)@.origin == old(self)@.origin,
            table_map(final(self)@.files) == table_map(old(self)@.files).insert(
                key@,
                file_or_empty(table_map(old(self)@.files), key@),
            ),
    {
        let ghost t0 = self@.files;
        match self.locate(key) {
            Ok(i) => {
                proof {
                    lemma_table_map_at(t0, i as int);
                    assert(table_map(t0).insert(key@, file_or_empty(table_map(t0), key@)) =~= table_map(t0));
                }
                i
            },
            Err(p) => {
                let e = FileEntry { key: key.clone(), activity: FileUploadActivity::new() };
                self.files.insert(p, e);
                proof {
                    assert(self@.files =~= t0.insert(p as int, (key@, empty_file())));
                    lemma_table_insert(t0, p as int, key@, empty_file());
                    assert forall|i: int, j: int| 0 <= i < j < self@.files.len() implies chars_lt(
                        self@.files[i].0,
                        self@.files[j].0,
                    ) by {
                        let s = self@.files;
                        if j < p {
                        } else if j == p {
                        } else if i < p {
                            assert(s[j] == t0[j - 1]);
                            lemma_chars_lt_transitive(t0[i].0, key@, t0[j - 1].0);
                        } else if i == p {
                            assert(s[j] == t0[j - 1]);
                        } else {
                            assert(s[i] == t0[i - 1] && s[j] == t0[j - 1]);
                        }
                    }
                }
                p
            },
        }
    }
}


/// The tracker after the session for (start, end, peer) of file `key` ended.
pub open spec fn terminal_tracker(
    files: Map<Seq<char>, FileModel>,
    key: Seq<char>,
    start: u64,
    end: u64,
    peer: Seq<char>,
    reason: UploadTerminalReason,
    now: u64,
) -> Map<Seq<char>, FileModel> {
    if files.dom().contains(key) {
        files.insert(key, terminal_file(files[key], start, end, peer, reason, now))
    } else {
        files
    }
}


/// `after` is `before` with the report applied.
pub open spec fn noted(
    before: TrackerModel,
    after: TrackerModel,
    key: Seq<char>,
    start: u64,
    end: u64,
    ttl: u64,
    phase: UploadRangePhase,
    peer: Seq<char>,
    unix: Option<u64>,
    source: Option<UploadPayloadSource>,
    now: u64,
) -> bool {
    let r = note_tracker(before, key, start, end, ttl, phase, peer, unix, source, now);
    after.next_session_id == r.0 && after.origin == before.origin && table_map(after.files) == r.1
}

/// `r` is the snapshot of file `key` taken at `now`, and `after` the tracker
/// left behind.
pub open spec fn snapshot_taken(before: TrackerModel, after: TrackerModel, key: Seq<char>, r: UploadActivitySnapshot, now: u64) -> bool {
    let files = table_map(before.files);
    &&& after.next_session_id == before.next_session_id
    &&& after.origin == before.origin
    &&& if files.dom().contains(key) {
        let f = rates_pruned(prune_file(files[key], now), now);
        &&& table_map(after.files) == files.insert(key, f)
        &&& snapshot_of(r, key, f, now)
    } else {
        &&& after == before
        &&& is_empty_snapshot(r)
    }
}

proof fn lemma_replace_entry(t: Seq<(Seq<char>, FileModel)>, i: int, f: FileModel)
    requires
        keys_distinct(t),
        keys_sorted(t),
        0 <= i < t.len(),
    ensures
        keys_distinct(t.update(i, (t[i].0, f))),
        keys_sorted(t.update(i, (t[i].0, f))),
        table_map(t.update(i, (t[i].0, f))) == table_map(t).insert(t[i].0, f),
{
    lemma_table_map_update(t, i, f);
    let u = t.update(i, (t[i].0, f));
    assert forall|a: int, b: int| 0 <= a < b < u.len() implies chars_lt(u[a].0, u[b].0) by {
        assert(u[a].0 == t[a].0 && u[b].0 == t[b].0);
    }
}

impl UploadActivityTracker {
    /// Records that `peer` asked for `start..=end` of the file (phase
    /// `phase`, kept active for `ttl` nanoseconds) at `now`, with wall-clock
    /// stamp `unix`.
    pub fn note_at(
        &mut self,
        hash_hex: &str,
        peer_id_hex: &str,
        start: u64,
        end: u64,
        ttl: u64,
        phase: UploadRangePhase,
        source: Option<UploadPayloadSource>,
        now: u64,
        unix: Option<u64>,
    )
        requires
            old(self).wf(),
        ensures
            final(self).wf(),
            noted(old(self)@, final(self)@, ascii_lower(hash_hex@), start, end, ttl, phase, peer_id_hex@, unix, source, now),
    {
        let key = to_ascii_lowercase(hash_hex);
        let peer = String::from_str(peer_id_hex);
        let ghost t0 = self@.files;
        let i = self.entry_index(&key);
        let ghost t1 = self@.files;
        proof {
            lemma_table_map_at(t1, i as int);
        }
        let mut e = self.files.remove(i);
        e.activity.prune_expired(now);
        let existing = e.activity.find_active(start, end, &peer);
        if existing.is_none() {
            self.next_session_id = self.next_session_id.saturating_add(1);
        }
        let new_session = self.next_session_id;
        e.activity.note(start, end, ttl, phase, &peer, unix, source, now, new_session);
        let ghost nf = e.activity@;
        self.files.insert(i, e);
        proof {
            assert(self@.files =~= t1.update(i as int, (t1[i as int].0, nf)));
            lemma_replace_entry(t1, i as int, nf);
            assert(table_map(self@.files) =~= table_map(t0).insert(key@, nf));
        }
    }

    /// A peer's request for a range that is held (queued) for now.
    pub fn note_held(&mut self, hash_hex: &str, peer_id_hex: &str, start: u64, end: u64, ttl: u64)
        requires
            old(self).wf(),
        ensures
            final(self).wf(),
            exists|now: u64, unix: Option<u64>| noted(
                old(self)@,
                final(self)@,
                ascii_lower(hash_hex@),
                start,
                end,
                ttl,
                UploadRangePhase::Held,
                peer_id_hex@,
                unix,
                None,
                now,
            ),
    {
        let now = nanos_since(&self.origin);
        let unix = unix_now_secs();
        self.note_at(hash_hex, peer_id_hex, start, end, ttl, UploadRangePhase::Held, None, now, unix);
    }

    /// A range being sent to a peer, with where its payload came from.
    pub fn note_sending(
        &mut self,
        hash_hex: &str,
        peer_id_hex: &str,
        start: u64,
        end: u64,
        ttl: u64,
        payload_source: UploadPayloadSource,
    )
        requires
            old(self).wf(),
        ensures
            final(self).wf(),
            exists|now: u64, unix: Option<u64>| noted(
                old(self)@,
                final(self)@,
                ascii_lower(hash_hex@),
                start,
                end,
                ttl,
                UploadRangePhase::Sending,
                peer_id_hex@,
                unix,
                Some(payload_source),
                now,
            ),
    {
        let now = nanos_since(&self.origin);
        let unix = unix_now_secs();
        self.note_at(hash_hex, peer_id_hex, start, end, ttl, UploadRangePhase::Sending, Some(payload_source), now, unix);
    }

    /// Ends the active session for (start, end, peer) of the file, moving it
    /// to the history with `reason`; nothing happens for an unknown file.
    pub fn note_terminal_at(
        &mut self,
        hash_hex: &str,
        peer_id_hex: &str,
        start: u64,
        end: u64,
        reason: UploadTerminalReason,
        now: u64,
    )
        requires
            old(self).wf(),
        ensures
            final(self).wf(),
            final(self)@.next_session_id == old(self)@.next_session_id,
            final(self)@.origin == old(self)@.origin,
            table_map(final(self)@.files) == terminal_tracker(table_map(old(self)@.files), ascii_lower(hash_hex@), start, end, peer_id_hex@, reason, now),
    {
        let key = to_ascii_lowercase(hash_hex);
        let peer = String::from_str(peer_id_hex);
        let ghost t0 = self@.files;
        match self.locate(&key) {
            Err(_) => {},
            Ok(i) => {
                proof {
                    lemma_table_map_at(t0, i as int);
                }
                let mut e = self.files.remove(i);
                e.activity.terminal(start, end, &peer, reason, now);
                let ghost nf = e.activity@;
                self.files.insert(i, e);
                proof {
                    assert(self@.files =~= t0.update(i as int, (t0[i as int].0, nf)));
                    lemma_replace_entry(t0, i as int, nf);
                }
            },
        }
    }

    pub fn note_terminal(
        &mut self,
        hash_hex: &str,
        peer_id_hex: &str,
        start: u64,
        end: u64,
        reason: UploadTerminalReason,
    )
        requires
            old(self).wf(),
        ensures
            final(self).wf(),
            final(self)@.next_session_id == old(self)@.next_session_id,
            final(self)@.origin == old(self)@.origin,
            exists|now: u64| table_map(final(self)@.files) == #[trigger] terminal_tracker(table_map(old(self)@.files), ascii_lower(hash_hex@), start, end, peer_id_hex@, reason, now),
    {
        let now = nanos_since(&self.origin);
        self.note_terminal_at(hash_hex, peer_id_hex, start, end, reason, now);
    }

    /// The activity of one file at `now` (its expired ranges move to the
    /// history first); an empty snapshot for a file never reported.
    pub fn snapshot_for_hash_at(&mut self, hash_hex: &str, now: u64) -> (r: UploadActivitySnapshot)
        requires
            old(self).wf(),
        ensures
            final(self).wf(),
            final(self)@.next_session_id == old(self)@.next_session_id,
            final(self)@.origin == old(self)@.origin,
            snapshot_taken(old(self)@, final(self)@, ascii_lower(hash_hex@), r, now),
    {
        let key = to_ascii_lowercase(hash_hex);
        let ghost t0 = self@.files;
        match self.locate(&key) {
            Err(_) => UploadActivitySnapshot::default(),
            Ok(i) => {
                proof {
                    lemma_table_map_at(t0, i as int);
                }
                let mut e = self.files.remove(i);
                e.activity.prune_expired(now);
                let snap = e.activity.snapshot(&key, now);
                let ghost nf = e.activity@;
                self.files.insert(i, e);
                proof {
                    assert(self@.files =~= t0.update(i as int, (t0[i as int].0, nf)));
                    lemma_replace_entry(t0, i as int, nf);
                }
                snap
            },
        }
    }

    pub fn snapshot_for_hash(&mut self, hash_hex: &str) -> (r: UploadActivitySnapshot)
        requires
            old(self).wf(),
        ensures
            final(self).wf(),
            final(self)@.next_session_id == old(self)@.next_session_id,
            final(self)@.origin == old(self)@.origin,
            exists|now: u64| snapshot_taken(old(self)@, final(self)@, ascii_lower(hash_hex@), r, now),
    {
        let now = nanos_since(&self.origin);
        self.snapshot_for_hash_at(hash_hex, now)
    }
}


pub open spec fn is_idle_file(f: FileModel) -> bool {
    f.total_requests == 0 && f.active.len() == 0 && f.recent.len() == 0
}

/// A file as left by a full snapshot: pruned, and its rate windows pruned
/// when it was reported.
pub open spec fn swept(e: (Seq<char>, FileModel), now: u64) -> (Seq<char>, FileModel) {
    let f1 = prune_file(e.1, now);
    if is_idle_file(f1) {
        (e.0, f1)
    } else {
        (e.0, rates_pruned(f1, now))
    }
}

pub open spec fn sweep_all(t: Seq<(Seq<char>, FileModel)>, now: u64) -> Seq<(Seq<char>, FileModel)> {
    Seq::new(t.len(), |i: int| swept(t[i], now))
}

/// The files a full snapshot reports, in table order, with their state.
pub open spec fn reported(t: Seq<(Seq<char>, FileModel)>, now: u64) -> Seq<(Seq<char>, FileModel)>
    decreases t.len(),
{
    if t.len() == 0 {
        Seq::empty()
    } else if is_idle_file(prune_file(t.last().1, now)) {
        reported(t.drop_last(), now)
    } else {
        reported(t.drop_last(), now).push(swept(t.last(), now))
    }
}

proof fn lemma_reported_keys(t: Seq<(Seq<char>, FileModel)>, now: u64, j: int)
    requires
        0 <= j < reported(t, now).len(),
    ensures
        exists|i: int| 0 <= i < t.len() && t[i].0 == (#[trigger] reported(t, now)[j]).0,
    decreases t.len(),
{
    if t.len() > 0 {
        let p = reported(t.drop_last(), now);
        if j < p.len() {
            lemma_reported_keys(t.drop_last(), now, j);
            let i = choose|i: int| 0 <= i < t.drop_last().len() && t.drop_last()[i].0 == p[j].0;
            assert(t[i] == t.drop_last()[i]);
        } else {
            assert(reported(t, now)[j].0 == t.last().0);
        }
    }
}

/// Reported files come in ascending key order when the table is sorted.
pub proof fn law_snapshot_all_sorted(t: Seq<(Seq<char>, FileModel)>, now: u64)
    requires
        keys_sorted(t),
    ensures
        keys_sorted(reported(t, now)),
    decreases t.len(),
{
    if t.len() > 0 {
        let p = t.drop_last();
        assert(keys_sorted(p)) by {
            assert forall|i: int, j: int| 0 <= i < j < p.len() implies chars_lt(p[i].0, p[j].0) by {
                assert(p[i] == t[i] && p[j] == t[j]);
            }
        }
        law_snapshot_all_sorted(p, now);
        let r = reported(t, now);
        if !is_idle_file(prune_file(t.last().1, now)) {
            assert forall|a: int, b: int| 0 <= a < b < r.len() implies chars_lt(r[a].0, r[b].0) by {
                if b == r.len() - 1 {
                    lemma_reported_keys(p, now, a);
                    let i = choose|i: int| 0 <= i < p.len() && p[i].0 == (#[trigger] reported(p, now)[a]).0;
                    assert(t[i] == p[i]);
                    assert(r[b].0 == t.last().0);
                }
            }
        }
    }
}

impl UploadActivityTracker {
    /// Every file with activity or history, in ascending hash order, at `now`.
    pub fn snapshot_all_at(&mut self, now: u64) -> (r: Vec<UploadActivitySnapshot>)
        requires
            old(self).wf(),
        ensures
            final(self).wf(),
            final(self)@.next_session_id == old(self)@.next_session_id,
            final(self)@.origin == old(self)@.origin,
            final(self)@.files == sweep_all(old(self)@.files, now),
            r@.len() == reported(old(self)@.files, now).len(),
            forall|j: int| 0 <= j < r@.len() ==> snapshot_of(
                #[trigger] r@[j],
                reported(old(self)@.files, now)[j].0,
                reported(old(self)@.files, now)[j].1,
                now,
            ),
    {
        let ghost t0 = self@.files;
        let mut out: Vec<UploadActivitySnapshot> = Vec::new();
        let mut i: usize = 0;
        assert(t0.take(0) =~= Seq::<(Seq<char>, FileModel)>::empty());
        assert(sweep_all(t0.take(0), now) + t0.skip(0) =~= t0);
        while i < self.files.len()
            invariant
                i <= self.files@.len(),
                self.files@.len() == t0.len(),
                self@.next_session_id == old(self)@.next_session_id,
                self@.origin == old(self)@.origin,
                keys_distinct(t0),
                keys_sorted(t0),
                self@.files == sweep_all(t0.take(i as int), now) + t0.skip(i as int),
                out@.len() == reported(t0.take(i as int), now).len(),
                forall|j: int| 0 <= j < out@.len() ==> snapshot_of(
                    #[trigger] out@[j],
                    reported(t0.take(i as int), now)[j].0,
                    reported(t0.take(i as int), now)[j].1,
                    now,
                ),
            decreases self.files@.len() - i,
        {
            let ghost cur = self@.files;
            assert(cur[i as int] == t0[i as int]);
            let mut e = self.files.remove(i);
            assert(e.key@ == t0[i as int].0 && e.activity@ == t0[i as int].1);
            e.activity.prune_expired(now);
            let ghost before_out = out@;
            proof {
                assert(t0.take(i + 1).drop_last() =~= t0.take(i as int));
                assert(t0.take(i + 1).last() == t0[i as int]);
            }
            if !e.activity.is_idle() {
                let snap = e.activity.snapshot(&e.key, now);
                out.push(snap);
                proof {
                    assert forall|j: int| 0 <= j < out@.len() implies snapshot_of(
                        #[trigger] out@[j],
                        reported(t0.take(i + 1), now)[j].0,
                        reported(t0.take(i + 1), now)[j].1,
                        now,
                    ) by {
                        if j < before_out.len() {
                            assert(out@[j] == before_out[j]);
                        }
                    }
                }
            }
            let ghost nf = e.activity@;
            self.files.insert(i, e);
            proof {
                assert((t0[i as int].0, nf) == swept(t0[i as int], now));
                assert(self@.files =~= cur.update(i as int, (t0[i as int].0, nf)));
                assert(self@.files =~= sweep_all(t0.take(i + 1), now) + t0.skip(i + 1));
            }
            i += 1;
        }
        proof {
            assert(t0.take(t0.len() as int) =~= t0);
            assert(t0.skip(t0.len() as int) =~= Seq::<(Seq<char>, FileModel)>::empty());
            assert(self@.files =~= sweep_all(t0, now));
            let t1 = self@.files;
            assert forall|a: int, b: int| 0 <= a < b < t1.len() implies chars_lt(t1[a].0, t1[b].0) by {
                assert(t1[a].0 == t0[a].0 && t1[b].0 == t0[b].0);
            }
            assert forall|a: int, b: int| 0 <= a < b < t1.len() implies t1[a].0 != t1[b].0 by {
                assert(t1[a].0 == t0[a].0 && t1[b].0 == t0[b].0);
            }
        }
        out
    }

    pub fn snapshot_all(&mut self) -> (r: Vec<UploadActivitySnapshot>)
        requires
            old(self).wf(),
        ensures
            final(self).wf(),
            final(self)@.next_session_id == old(self)@.next_session_id,
            final(self)@.origin == old(self)@.origin,
            exists|now: u64| {
                &&& final(self)@.files == #[trigger] sweep_all(old(self)@.files, now)
                &&& r@.len() == reported(old(self)@.files, now).len()
                &&& forall|j: int| 0 <= j < r@.len() ==> snapshot_of(
                    #[trigger] r@[j],
                    reported(old(self)@.files, now)[j].0,
                    reported(old(self)@.files, now)[j].1,
                    now,
                )
            },
    {
        let now = nanos_since(&self.origin);
        self.snapshot_all_at(now)
    }
}

impl Default for UploadActivityTracker {
    fn default() -> (r: Self)
        ensures
            r.wf(),
            r@.next_session_id == 0,
            r@.files == Seq::<(Seq<char>, FileModel)>::empty(),
    {
        Self::new()
    }
}

/// A snapshot reports as many recent sessions as it lists, and never more
/// than 128 of them: the history keeps only the latest sessions, the
/// oldest going first.
pub proof fn law_snapshot_recent_sessions_capped(before: TrackerModel, after: TrackerModel, key: Seq<char>,
    r: UploadActivitySnapshot, now: u64)
    requires
        snapshot_taken(before, after, key, r, now),
    ensures
        r.recent_session_count == r.recent_sessions@.len(),
        r.recent_sessions@.len() <= MAX_RECENT_SESSIONS_PER_FILE,
{
}

/// Capping the history keeps its latest entries, in order.
pub proof fn law_cap_recent_keeps_latest(s: Seq<RangeModel>)
    ensures
        cap_recent(s).len() == if s.len() > 128 { 128 } else { s.len() },
        forall|i: int| 0 <= i < cap_recent(s).len() ==> #[trigger] cap_recent(s)[i] == s[s.len() - cap_recent(s).len() + i],
{
}

} // verus!
