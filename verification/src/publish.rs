//! Per-file bookkeeping of source and keyword publish attempts.

use vstd::prelude::*;
use crate::table::{keys_distinct, table_map, lemma_table_map_at, lemma_table_map_dom,
    lemma_table_map_update, lemma_table_push};
use crate::text::{ascii_lower, to_ascii_lowercase, unix_now_secs};

verus! {

#[derive(Debug, Clone, PartialEq, Eq)]
pub struct SharedPublishSnapshot {
    pub source_last_attempt_unix_secs: Option<u64>,
    pub source_last_result: Option<String>,
    pub source_attempts: u64,
    pub keyword_last_attempt_unix_secs: Option<u64>,
    pub keyword_last_result: Option<String>,
    pub keyword_attempts: u64,
    pub keyword_queued: u64,
    pub keyword_failed: u64,
}

pub struct PublishModel {
    pub source_last_attempt_unix_secs: Option<u64>,
    pub source_last_result: Option<Seq<char>>,
    pub source_attempts: u64,
    pub keyword_last_attempt_unix_secs: Option<u64>,
    pub keyword_last_result: Option<Seq<char>>,
    pub keyword_attempts: u64,
    pub keyword_queued: u64,
    pub keyword_failed: u64,
}

pub open spec fn opt_str_view(o: Option<String>) -> Option<Seq<char>> {
    match o {
        Some(s) => Some(s@),
        None => None,
    }
}

impl View for SharedPublishSnapshot {
    type V = PublishModel;

    open spec fn view(&self) -> PublishModel {
        PublishModel {
            source_last_attempt_unix_secs: self.source_last_attempt_unix_secs,
            source_last_result: opt_str_view(self.source_last_result),
            source_attempts: self.source_attempts,
            keyword_last_attempt_unix_secs: self.keyword_last_attempt_unix_secs,
            keyword_last_result: opt_str_view(self.keyword_last_result),
            keyword_attempts: self.keyword_attempts,
            keyword_queued: self.keyword_queued,
            keyword_failed: self.keyword_failed,
        }
    }
}

pub open spec fn empty_publish_model() -> PublishModel {
    PublishModel {
        source_last_attempt_unix_secs: None,
        source_last_result: None,
        source_attempts: 0,
        keyword_last_attempt_unix_secs: None,
        keyword_last_result: None,
        keyword_attempts: 0,
        keyword_queued: 0,
        keyword_failed: 0,
    }
}

impl Default for SharedPublishSnapshot {
    fn default() -> (r: Self)
        ensures
            r@ == empty_publish_model(),
    {
        SharedPublishSnapshot {
            source_last_attempt_unix_secs: None,
            source_last_result: None,
            source_attempts: 0,
            keyword_last_attempt_unix_secs: None,
            keyword_last_result: None,
            keyword_attempts: 0,
            keyword_queued: 0,
            keyword_failed: 0,
        }
    }
}

fn clone_opt_string(o: &Option<String>) -> (r: Option<String>)
    ensures
        opt_str_view(r) == opt_str_view(*o),
{
    match o {
        Some(s) => Some(s.clone()),
        None => None,
    }
}

impl SharedPublishSnapshot {
    /// A copy with the same contents.
    pub fn duplicate(&self) -> (r: Self)
        ensures
            r@ == self@,
    {
        SharedPublishSnapshot {
            source_last_attempt_unix_secs: self.source_last_attempt_unix_secs,
            source_last_result: clone_opt_string(&self.source_last_result),
            source_attempts: self.source_attempts,
            keyword_last_attempt_unix_secs: self.keyword_last_attempt_unix_secs,
            keyword_last_result: clone_opt_string(&self.keyword_last_result),
            keyword_attempts: self.keyword_attempts,
            keyword_queued: self.keyword_queued,
            keyword_failed: self.keyword_failed,
        }
    }
}

/// The four publish outcomes that are counted.
#[derive(Debug, Clone, Copy, PartialEq, Eq, Structural)]
pub enum PublishOutcome {
    SourceQueued,
    SourceQueueFailed,
    KeywordQueued,
    KeywordQueueFailed,
}

pub open spec fn sat_inc(x: u64) -> u64 {
    if x == u64::MAX {
        x
    } else {
        (x + 1) as u64
    }
}

/// How one outcome observed at `now` changes a file's record.
pub open spec fn record_outcome(m: PublishModel, ev: PublishOutcome, now: Option<u64>) -> PublishModel {
    match ev {
        PublishOutcome::SourceQueued => PublishModel {
            source_attempts: sat_inc(m.source_attempts),
            source_last_attempt_unix_secs: now,
            source_last_result: Some("queued"@),
            ..m
        },
        PublishOutcome::SourceQueueFailed => PublishModel {
            source_attempts: sat_inc(m.source_attempts),
            source_last_attempt_unix_secs: now,
            source_last_result: Some("queue_failed"@),
            ..m
        },
        PublishOutcome::KeywordQueued => PublishModel {
            keyword_attempts: sat_inc(m.keyword_attempts),
            keyword_queued: sat_inc(m.keyword_queued),
            keyword_last_attempt_unix_secs: now,
            keyword_last_result: Some("queued"@),
            ..m
        },
        PublishOutcome::KeywordQueueFailed => PublishModel {
            keyword_attempts: sat_inc(m.keyword_attempts),
            keyword_failed: sat_inc(m.keyword_failed),
            keyword_last_attempt_unix_secs: now,
            keyword_last_result: Some("queue_failed"@),
            ..m
        },
    }
}

pub struct PublishEntry {
    key: String,
    snap: SharedPublishSnapshot,
}

/// Publish records keyed by lower-cased file hash.
pub struct SharedPublishTracker {
    entries: Vec<PublishEntry>,
}

pub open spec fn record_or_empty(m: Map<Seq<char>, PublishModel>, k: Seq<char>) -> PublishModel {
    if m.dom().contains(k) {
        m[k]
    } else {
        empty_publish_model()
    }
}

impl SharedPublishTracker {
    pub closed spec fn table(&self) -> Seq<(Seq<char>, PublishModel)> {
        self.entries@.map_values(|e: PublishEntry| (e.key@, e.snap@))
    }

    /// The records, by lower-cased hash.
    pub closed spec fn records(&self) -> Map<Seq<char>, PublishModel> {
        table_map(self.table())
    }

    pub closed spec fn wf(&self) -> bool {
        keys_distinct(self.table())
    }

    pub fn new() -> (r: Self)
        ensures
            r.wf(),
            r.records() == Map::<Seq<char>, PublishModel>::empty(),
    {
        let r = SharedPublishTracker { entries: Vec::new() };
        assert(r.table() =~= Seq::<(Seq<char>, PublishModel)>::empty());
        r
    }

    /// Records one outcome for the file, observed at `now` (Unix seconds).
    pub fn note_outcome_at(&mut self, hash_hex: &str, ev: PublishOutcome, now: Option<u64>)
        requires
            old(self).wf(),
        ensures
            final(self).wf(),
            final(self).records() == old(self).records().insert(
                ascii_lower(hash_hex@),
                record_outcome(record_or_empty(old(self).records(), ascii_lower(hash_hex@)), ev, now),
            ),
    {
        let key = to_ascii_lowercase(hash_hex);
        let ghost t0 = self.table();
        let mut i: usize = 0;
        while i < self.entries.len()
            invariant
                i <= self.entries@.len(),
                self.table() == t0,
                forall|j: int| 0 <= j < i ==> t0[j].0 != key@,
            ensures
                i <= self.entries@.len(),
                self.table() == t0,
                forall|j: int| 0 <= j < i ==> t0[j].0 != key@,
                i < self.entries@.len() ==> t0[i as int].0 == key@,
            decreases self.entries@.len() - i,
        {
            if self.entries[i].key == key {
                assert(t0[i as int] == (self.entries@[i as int].key@, self.entries@[i as int].snap@));
                break;
            }
            assert(t0[i as int] == (self.entries@[i as int].key@, self.entries@[i as int].snap@));
            i += 1;
        }
        if i < self.entries.len() {
            proof {
                assert(t0[i as int].0 == key@);
                lemma_table_map_at(t0, i as int);
            }
            let mut e = self.entries.remove(i);
            apply_outcome(&mut e.snap, ev, now);
            let ghost newv = e.snap@;
            self.entries.insert(i, e);
            proof {
                assert(self.table() =~= t0.update(i as int, (t0[i as int].0, newv)));
                lemma_table_map_update(t0, i as int, newv);
            }
        } else {
            proof {
                lemma_table_map_dom(t0, key@);
            }
            let mut snap = SharedPublishSnapshot::default();
            apply_outcome(&mut snap, ev, now);
            let ghost newv = snap@;
            self.entries.push(PublishEntry { key, snap });
            proof {
                assert(self.table() =~= t0.push((key@, newv)));
                lemma_table_push(t0, key@, newv);
            }
        }
    }

    pub fn note_source_queued(&mut self, hash_hex: &str)
        requires
            old(self).wf(),
        ensures
            final(self).wf(),
            exists|now: Option<u64>| final(self).records() == old(self).records().insert(
                ascii_lower(hash_hex@),
                record_outcome(record_or_empty(old(self).records(), ascii_lower(hash_hex@)), PublishOutcome::SourceQueued, now),
            ),
    {
        let now = unix_now_secs();
        self.note_outcome_at(hash_hex, PublishOutcome::SourceQueued, now);
    }

    pub fn note_source_queue_failed(&mut self, hash_hex: &str)
        requires
            old(self).wf(),
        ensures
            final(self).wf(),
            exists|now: Option<u64>| final(self).records() == old(self).records().insert(
                ascii_lower(hash_hex@),
                record_outcome(record_or_empty(old(self).records(), ascii_lower(hash_hex@)), PublishOutcome::SourceQueueFailed, now),
            ),
    {
        let now = unix_now_secs();
        self.note_outcome_at(hash_hex, PublishOutcome::SourceQueueFailed, now);
    }

    pub fn note_keyword_queued(&mut self, hash_hex: &str)
        requires
            old(self).wf(),
        ensures
            final(self).wf(),
            exists|now: Option<u64>| final(self).records() == old(self).records().insert(
                ascii_lower(hash_hex@),
                record_outcome(record_or_empty(old(self).records(), ascii_lower(hash_hex@)), PublishOutcome::KeywordQueued, now),
            ),
    {
        let now = unix_now_secs();
        self.note_outcome_at(hash_hex, PublishOutcome::KeywordQueued, now);
    }

    pub fn note_keyword_queue_failed(&mut self, hash_hex: &str)
        requires
            old(self).wf(),
        ensures
            final(self).wf(),
            exists|now: Option<u64>| final(self).records() == old(self).records().insert(
                ascii_lower(hash_hex@),
                record_outcome(record_or_empty(old(self).records(), ascii_lower(hash_hex@)), PublishOutcome::KeywordQueueFailed, now),
            ),
    {
        let now = unix_now_secs();
        self.note_outcome_at(hash_hex, PublishOutcome::KeywordQueueFailed, now);
    }

    /// The record of a file (looked up case-insensitively), or an empty one.
    pub fn snapshot_for_hash(&self, hash_hex: &str) -> (r: SharedPublishSnapshot)
        requires
            self.wf(),
        ensures
            r@ == record_or_empty(self.records(), ascii_lower(hash_hex@)),
    {
        let key = to_ascii_lowercase(hash_hex);
        let ghost t0 = self.table();
        let mut i: usize = 0;
        while i < self.entries.len()
            invariant
                i <= self.entries@.len(),
                self.table() == t0,
                keys_distinct(t0),
                key@ == ascii_lower(hash_hex@),
                forall|j: int| 0 <= j < i ==> t0[j].0 != key@,
            decreases self.entries@.len() - i,
        {
            assert(t0[i as int] == (self.entries@[i as int].key@, self.entries@[i as int].snap@));
            if self.entries[i].key == key {
                proof {
                    assert(t0[i as int].0 == key@);
                    lemma_table_map_at(t0, i as int);
                }
                return self.entries[i].snap.duplicate();
            }
            i += 1;
        }
        proof {
            lemma_table_map_dom(t0, key@);
        }
        SharedPublishSnapshot::default()
    }
}

impl Default for SharedPublishTracker {
    fn default() -> (r: Self)
        ensures
            r.wf(),
            r.records() == Map::<Seq<char>, PublishModel>::empty(),
    {
        Self::new()
    }
}

fn apply_outcome(s: &mut SharedPublishSnapshot, ev: PublishOutcome, now: Option<u64>)
    ensures
        final(s)@ == record_outcome(old(s)@, ev, now),
{
    match ev {
        PublishOutcome::SourceQueued => {
            s.source_attempts = s.source_attempts.saturating_add(1);
            s.source_last_attempt_unix_secs = now;
            s.source_last_result = Some(String::from_str("queued"));
        },
        PublishOutcome::SourceQueueFailed => {
            s.source_attempts = s.source_attempts.saturating_add(1);
            s.source_last_attempt_unix_secs = now;
            s.source_last_result = Some(String::from_str("queue_failed"));
        },
        PublishOutcome::KeywordQueued => {
            s.keyword_attempts = s.keyword_attempts.saturating_add(1);
            s.keyword_queued = s.keyword_queued.saturating_add(1);
            s.keyword_last_attempt_unix_secs = now;
            s.keyword_last_result = Some(String::from_str("queued"));
        },
        PublishOutcome::KeywordQueueFailed => {
            s.keyword_attempts = s.keyword_attempts.saturating_add(1);
            s.keyword_failed = s.keyword_failed.saturating_add(1);
            s.keyword_last_attempt_unix_secs = now;
            s.keyword_last_result = Some(String::from_str("queue_failed"));
        },
    }
}

} // verus!
