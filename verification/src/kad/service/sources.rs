//! File sources that peers publish to us (answered to source searches), and
//! the probe that times our own source publishes and searches.

use vstd::prelude::*;
use crate::kad::id::KadId;
use crate::kad::routing::{bytes_lt, id_lt, lemma_bytes_lt_irreflexive};
use crate::kad::service::keyword::{lemma_pair_lt_irreflexive, lemma_pair_lt_total, lemma_pair_lt_transitive, pair_lt, window};
use crate::kad::service::types::KadServiceCrypto;

verus! {

/// One source of one file: its identifier and destination.
#[derive(Debug, Clone, Copy)]
pub struct SourceEntry {
    pub file: KadId,
    pub source: KadId,
    pub dest: [u8; 387],
}

pub open spec fn skey(e: SourceEntry) -> (Seq<u8>, Seq<u8>) {
    (e.file.0@, e.source.0@)
}

pub open spec fn sources_sorted(s: Seq<SourceEntry>) -> bool {
    forall|i: int, j: int| 0 <= i < j < s.len() ==> pair_lt(skey(#[trigger] s[i]), skey(#[trigger] s[j]))
}

/// `s` with `e` put in its place by key (`s` holds no entry with its key).
pub open spec fn insert_source(s: Seq<SourceEntry>, e: SourceEntry) -> Seq<SourceEntry>
    decreases s.len(),
{
    if s.len() == 0 {
        seq![e]
    } else if pair_lt(skey(s.last()), skey(e)) {
        s.push(e)
    } else {
        insert_source(s.drop_last(), e).push(s.last())
    }
}

pub open spec fn has_source(s: Seq<SourceEntry>, k: (Seq<u8>, Seq<u8>)) -> bool {
    exists|i: int| 0 <= i < s.len() && skey(#[trigger] s[i]) == k
}

pub open spec fn source_index(s: Seq<SourceEntry>, k: (Seq<u8>, Seq<u8>)) -> int {
    choose|i: int| 0 <= i < s.len() && skey(#[trigger] s[i]) == k
}

/// `s` after storing `e`: it replaces the entry with its file and source,
/// or is added in order.
pub open spec fn stored_source(s: Seq<SourceEntry>, e: SourceEntry) -> Seq<SourceEntry> {
    if has_source(s, skey(e)) { s.update(source_index(s, skey(e)), e) } else { insert_source(s, e) }
}

/// The sources of `file`, in source order.
pub open spec fn sources_of(s: Seq<SourceEntry>, file: Seq<u8>) -> Seq<SourceEntry>
    decreases s.len(),
{
    if s.len() == 0 {
        s
    } else if s.last().file.0@ == file {
        sources_of(s.drop_last(), file).push(s.last())
    } else {
        sources_of(s.drop_last(), file)
    }
}

/// How many files have sources (`s` is sorted).
pub open spec fn file_count(s: Seq<SourceEntry>) -> nat
    decreases s.len(),
{
    if s.len() == 0 {
        0
    } else {
        file_count(s.drop_last()) + if s.len() == 1 || s[s.len() - 2].file.0@ != s.last().file.0@ { 1nat } else { 0nat }
    }
}

pub open spec fn source_pairs(s: Seq<SourceEntry>) -> Seq<(KadId, [u8; 387])> {
    s.map_values(|e: SourceEntry| (e.source, e.dest))
}

proof fn lemma_insert_source_at(s: Seq<SourceEntry>, e: SourceEntry, p: int)
    requires
        0 <= p <= s.len(),
        forall|k: int| p <= k < s.len() ==> pair_lt(skey(e), skey(#[trigger] s[k])),
        p == 0 || pair_lt(skey(s[p - 1]), skey(e)),
    ensures
        insert_source(s, e) == s.take(p).push(e) + s.skip(p),
    decreases s.len(),
{
    if s.len() == 0 {
        assert(s.take(p).push(e) + s.skip(p) =~= seq![e]);
    } else if p == s.len() {
        assert(s.take(p).push(e) + s.skip(p) =~= s.push(e));
    } else {
        let t = s.drop_last();
        lemma_pair_lt_irreflexive(skey(e));
        assert(pair_lt(skey(e), skey(s.last())));
        if pair_lt(skey(s.last()), skey(e)) {
            lemma_pair_lt_transitive(skey(e), skey(s.last()), skey(e));
        }
        assert forall|k: int| p <= k < t.len() implies pair_lt(skey(e), skey(#[trigger] t[k])) by {
            assert(t[k] == s[k]);
        }
        lemma_insert_source_at(t, e, p);
        assert(t.take(p).push(e) + t.skip(p) + seq![s.last()] =~= s.take(p).push(e) + s.skip(p));
    }
}

fn source_less(a_file: &[u8; 16], a_src: &[u8; 16], b_file: &[u8; 16], b_src: &[u8; 16]) -> (r: bool)
    ensures
        r == pair_lt((a_file@, a_src@), (b_file@, b_src@)),
{
    if id_lt(a_file, b_file) {
        true
    } else if KadId(*a_file) == KadId(*b_file) {
        id_lt(a_src, b_src)
    } else {
        false
    }
}

/// The sources peers published to us, in file and source order.
#[derive(Debug)]
pub struct SourceStore {
    pub entries: Vec<SourceEntry>,
}

impl SourceStore {
    pub open spec fn wf(&self) -> bool {
        sources_sorted(self.entries@)
    }

    pub fn new() -> (r: SourceStore)
        ensures
            r.wf(),
            r.entries@.len() == 0,
    {
        SourceStore { entries: Vec::new() }
    }

    fn locate(&self, file: &KadId, source: &KadId) -> (r: Result<usize, usize>)
        requires
            self.wf(),
        ensures
            match r {
                Ok(i) => i < self.entries@.len() && skey(self.entries@[i as int]) == (file.0@, source.0@),
                Err(p) => {
                    &&& p <= self.entries@.len()
                    &&& forall|k: int| 0 <= k < p ==> pair_lt(skey(#[trigger] self.entries@[k]), (file.0@, source.0@))
                    &&& forall|k: int| p <= k < self.entries@.len() ==> pair_lt((file.0@, source.0@), skey(#[trigger] self.entries@[k]))
                    &&& !has_source(self.entries@, (file.0@, source.0@))
                },
            },
    {
        let ghost s = self.entries@;
        let ghost k = (file.0@, source.0@);
        let mut i: usize = 0;
        while i < self.entries.len()
            invariant
                i <= s.len(),
                s == self.entries@,
                sources_sorted(s),
                k == (file.0@, source.0@),
                forall|j: int| 0 <= j < i ==> pair_lt(skey(#[trigger] s[j]), k),
            decreases s.len() - i,
        {
            let e = &self.entries[i];
            if source_less(&e.file.0, &e.source.0, &file.0, &source.0) {
                i += 1;
            } else {
                if e.file == *file && e.source == *source {
                    return Ok(i);
                }
                proof {
                    lemma_pair_lt_total(skey(s[i as int]), k);
                    assert forall|j: int| i <= j < s.len() implies pair_lt(k, skey(#[trigger] s[j])) by {
                        if j > i {
                            lemma_pair_lt_transitive(k, skey(s[i as int]), skey(s[j]));
                        }
                    }
                    assert(!has_source(s, k)) by {
                        if has_source(s, k) {
                            let j = choose|j: int| 0 <= j < s.len() && skey(#[trigger] s[j]) == k;
                            lemma_pair_lt_irreflexive(k);
                        }
                    }
                }
                return Err(i);
            }
        }
        proof {
            assert(!has_source(s, k)) by {
                if has_source(s, k) {
                    let j = choose|j: int| 0 <= j < s.len() && skey(#[trigger] s[j]) == k;
                    lemma_pair_lt_irreflexive(k);
                }
            }
        }
        Err(i)
    }

    /// Stores `dest` as the destination of `source` for `file`; tells
    /// whether the pair is new.
    pub fn insert(&mut self, file: KadId, source: KadId, dest: [u8; 387]) -> (added: bool)
        requires
            old(self).wf(),
        ensures
            final(self).wf(),
            added == !has_source(old(self).entries@, (file.0@, source.0@)),
            final(self).entries@ == stored_source(old(self).entries@, SourceEntry { file, source, dest }),
    {
        let ghost s = self.entries@;
        let e = SourceEntry { file, source, dest };
        match self.locate(&file, &source) {
            Ok(i) => {
                proof {
                    let j = source_index(s, skey(e));
                    assert(has_source(s, skey(e)));
                    if j != i {
                        if j < i { assert(pair_lt(skey(s[j]), skey(s[i as int]))); } else { assert(pair_lt(skey(s[i as int]), skey(s[j]))); }
                        lemma_pair_lt_irreflexive(skey(e));
                    }
                }
                self.entries.set(i, e);
                assert forall|a: int, b: int| 0 <= a < b < self.entries@.len() implies
                    pair_lt(skey(#[trigger] self.entries@[a]), skey(#[trigger] self.entries@[b])) by {
                    assert(skey(self.entries@[a]) == skey(s[a]));
                    assert(skey(self.entries@[b]) == skey(s[b]));
                }
                false
            },
            Err(p) => {
                proof {
                    lemma_insert_source_at(s, e, p as int);
                    let r = s.take(p as int).push(e) + s.skip(p as int);
                    assert forall|i: int, j: int| 0 <= i < j < r.len() implies pair_lt(skey(#[trigger] r[i]), skey(#[trigger] r[j])) by {
                        if j < p {
                            assert(r[i] == s[i] && r[j] == s[j]);
                        } else if j == p {
                            assert(r[i] == s[i]);
                        } else if i == p {
                            assert(r[j] == s[j - 1]);
                        } else if i < p {
                            assert(r[i] == s[i] && r[j] == s[j - 1]);
                        } else {
                            assert(r[i] == s[i - 1] && r[j] == s[j - 1]);
                        }
                    }
                }
                self.entries.insert(p, e);
                assert(self.entries@ =~= s.take(p as int).push(e) + s.skip(p as int));
                true
            },
        }
    }

    /// Number of sources stored for `file`.
    pub fn count_for(&self, file: &KadId) -> (n: usize)
        ensures
            n == sources_of(self.entries@, file.0@).len(),
    {
        let ghost s = self.entries@;
        let mut n: usize = 0;
        let mut i: usize = 0;
        while i < self.entries.len()
            invariant
                i <= s.len(),
                s == self.entries@,
                n == sources_of(s.take(i as int), file.0@).len(),
                n <= i,
            decreases s.len() - i,
        {
            assert(s.take(i + 1).drop_last() =~= s.take(i as int));
            if self.entries[i].file == *file {
                n += 1;
            }
            i += 1;
        }
        assert(s.take(s.len() as int) =~= s);
        n
    }

    /// The number of files with sources and the number of sources.
    pub fn totals(&self) -> (r: (usize, usize))
        ensures
            r == (file_count(self.entries@) as usize, self.entries@.len() as usize),
    {
        let ghost s = self.entries@;
        let mut n: usize = 0;
        let mut i: usize = 0;
        while i < self.entries.len()
            invariant
                i <= s.len(),
                s == self.entries@,
                n == file_count(s.take(i as int)),
                n <= i,
            decreases s.len() - i,
        {
            assert(s.take(i + 1).drop_last() =~= s.take(i as int));
            if i == 0 || self.entries[i - 1].file != self.entries[i].file {
                n += 1;
            }
            i += 1;
        }
        assert(s.take(s.len() as int) =~= s);
        (n, self.entries.len())
    }

    /// Up to `max` sources of `file` from position `skip` on, in source
    /// order.
    pub fn sources_for(&self, file: &KadId, skip: usize, max: usize) -> (r: Vec<(KadId, [u8; 387])>)
        ensures
            r@ == window(source_pairs(sources_of(self.entries@, file.0@)), skip as int, max as int),
    {
        let ghost s = self.entries@;
        let mut all: Vec<(KadId, [u8; 387])> = Vec::new();
        let mut i: usize = 0;
        while i < self.entries.len()
            invariant
                i <= s.len(),
                s == self.entries@,
                all@ == source_pairs(sources_of(s.take(i as int), file.0@)),
            decreases s.len() - i,
        {
            assert(s.take(i + 1).drop_last() =~= s.take(i as int));
            assert(s.take(i + 1).last() == s[i as int]);
            if self.entries[i].file == *file {
                all.push((self.entries[i].source, self.entries[i].dest));
                assert(all@ =~= source_pairs(sources_of(s.take(i as int), file.0@).push(s[i as int])));
            }
            i += 1;
        }
        assert(s.take(s.len() as int) =~= s);
        let ghost h = all@;
        let mut out: Vec<(KadId, [u8; 387])> = Vec::new();
        if skip < all.len() {
            let end: usize = if all.len() - skip <= max { all.len() } else { skip + max };
            let mut j: usize = skip;
            while j < end
                invariant
                    skip <= j <= end,
                    end <= h.len(),
                    h == all@,
                    out@ == h.subrange(skip as int, j as int),
                decreases end - j,
            {
                out.push(all[j]);
                j += 1;
                assert(out@ =~= h.subrange(skip as int, j as int));
            }
            assert(h.skip(skip as int) =~= h.subrange(skip as int, h.len() as int));
        }
        assert(out@ =~= window(h, skip as int, max as int));
        out
    }

    /// Records ourselves as a source of a file we publish.
    pub fn cache_local_published_source(&mut self, crypto: &KadServiceCrypto, file: KadId) -> (added: bool)
        requires
            old(self).wf(),
        ensures
            final(self).wf(),
            added == !has_source(old(self).entries@, (file.0@, crypto.my_kad_id.0@)),
            final(self).entries@ == stored_source(old(self).entries@,
                SourceEntry { file, source: crypto.my_kad_id, dest: crypto.my_dest }),
    {
        self.insert(file, crypto.my_kad_id, crypto.my_dest)
    }
}


/// How many files the probe follows at most.
pub const SOURCE_PROBE_MAX_TRACKED_FILES: usize = 2048;

/// When our first source publish and search for a file went out and were
/// first answered, and what the searches returned.
#[derive(Debug, Clone, Copy, PartialEq, Eq)]
pub struct SourceProbeState {
    pub first_publish_sent_at: Option<u64>,
    pub first_search_sent_at: Option<u64>,
    pub first_publish_res_at: Option<u64>,
    pub first_search_res_at: Option<u64>,
    pub search_result_events: u64,
    pub search_results_total: u64,
    pub last_search_results: u64,
    pub last_update: u64,
}

pub open spec fn fresh_probe(now: u64) -> SourceProbeState {
    SourceProbeState {
        first_publish_sent_at: None,
        first_search_sent_at: None,
        first_publish_res_at: None,
        first_search_res_at: None,
        search_result_events: 0,
        search_results_total: 0,
        last_search_results: 0,
        last_update: now,
    }
}

pub open spec fn probes_distinct(s: Seq<(KadId, SourceProbeState)>) -> bool {
    forall|i: int, j: int| 0 <= i < j < s.len() ==> (#[trigger] s[i]).0.0@ != (#[trigger] s[j]).0.0@
}

pub open spec fn probe_index(s: Seq<(KadId, SourceProbeState)>, file: Seq<u8>) -> int {
    choose|i: int| 0 <= i < s.len() && (#[trigger] s[i]).0.0@ == file
}

pub open spec fn probed(s: Seq<(KadId, SourceProbeState)>, file: Seq<u8>) -> bool {
    exists|i: int| 0 <= i < s.len() && (#[trigger] s[i]).0.0@ == file
}

/// Index `i` holds the first of the least recently updated probes.
pub open spec fn is_stalest_probe(s: Seq<(KadId, SourceProbeState)>, i: int) -> bool {
    &&& 0 <= i < s.len()
    &&& forall|j: int| 0 <= j < s.len() ==> s[i].1.last_update <= (#[trigger] s[j]).1.last_update
    &&& forall|j: int| 0 <= j < i ==> s[i].1.last_update < (#[trigger] s[j]).1.last_update
}

pub open spec fn stalest_probe(s: Seq<(KadId, SourceProbeState)>) -> int {
    choose|i: int| is_stalest_probe(s, i)
}

/// The probes once `file` has one: a new one starts at `now`, and when the
/// probe is full the least recently updated one makes room.
pub open spec fn with_probe(s: Seq<(KadId, SourceProbeState)>, file: KadId, now: u64) -> Seq<(KadId, SourceProbeState)> {
    if probed(s, file.0@) {
        s
    } else {
        let s1 = if s.len() >= SOURCE_PROBE_MAX_TRACKED_FILES && 0 <= stalest_probe(s) < s.len() {
            s.remove(stalest_probe(s))
        } else {
            s
        };
        s1.push((file, fresh_probe(now)))
    }
}

/// The probes after `file`'s state became `f` of what it was (after
/// `with_probe`).
pub open spec fn probe_updated(s: Seq<(KadId, SourceProbeState)>, file: KadId, now: u64,
    f: spec_fn(SourceProbeState) -> SourceProbeState) -> Seq<(KadId, SourceProbeState)>
{
    let s1 = with_probe(s, file, now);
    let i = probe_index(s1, file.0@);
    s1.update(i, (s1[i].0, f(s1[i].1)))
}

/// Milliseconds from `from` to `now`, zero when `from` is later.
pub open spec fn millis_since(now: u64, from: u64) -> u64 {
    if now >= from { ((now - from) / 1_000_000) as u64 } else { 0 }
}

proof fn lemma_probe_index_unique(s: Seq<(KadId, SourceProbeState)>, i: int)
    requires
        probes_distinct(s),
        0 <= i < s.len(),
    ensures
        probe_index(s, s[i].0.0@) == i,
        probed(s, s[i].0.0@),
{
    assert(probed(s, s[i].0.0@));
    let j = probe_index(s, s[i].0.0@);
    if j != i {
        if j < i { assert(s[j].0.0@ != s[i].0.0@); } else { assert(s[i].0.0@ != s[j].0.0@); }
    }
}

/// The probe of our own source publishes and searches, per file.
#[derive(Debug)]
pub struct SourceProbes {
    pub states: Vec<(KadId, SourceProbeState)>,
}

impl SourceProbes {
    pub open spec fn wf(&self) -> bool {
        probes_distinct(self.states@)
    }

    pub fn new() -> (r: SourceProbes)
        ensures
            r.wf(),
            r.states@.len() == 0,
    {
        SourceProbes { states: Vec::new() }
    }

    /// The index of `file`'s probe, started at `now` if needed.
    fn slot(&mut self, file: KadId, now: u64) -> (i: usize)
        requires
            old(self).wf(),
        ensures
            final(self).wf(),
            final(self).states@ == with_probe(old(self).states@, file, now),
            i < final(self).states@.len(),
            i == probe_index(final(self).states@, file.0@),
            final(self).states@[i as int].0 == file || probed(old(self).states@, file.0@),
    {
        let ghost s = self.states@;
        let mut k: usize = 0;
        while k < self.states.len()
            invariant
                k <= s.len(),
                s == self.states@,
                probes_distinct(s),
                forall|j: int| 0 <= j < k ==> (#[trigger] s[j]).0.0@ != file.0@,
            decreases s.len() - k,
        {
            if self.states[k].0 == file {
                proof {
                    assert(s[k as int].0.0@ == file.0@);
                    lemma_probe_index_unique(s, k as int);
                }
                return k;
            }
            k += 1;
        }
        assert(!probed(s, file.0@));
        if self.states.len() >= SOURCE_PROBE_MAX_TRACKED_FILES {
            let mut best: usize = 0;
            let mut j: usize = 1;
            while j < self.states.len()
                invariant
                    1 <= j <= s.len(),
                    s == self.states@,
                    best < j,
                    forall|m: int| 0 <= m < j ==> s[best as int].1.last_update <= (#[trigger] s[m]).1.last_update,
                    forall|m: int| 0 <= m < best ==> s[best as int].1.last_update < (#[trigger] s[m]).1.last_update,
                decreases s.len() - j,
            {
                if self.states[j].1.last_update < self.states[best].1.last_update {
                    best = j;
                }
                j += 1;
            }
            proof {
                assert(is_stalest_probe(s, best as int));
                let c = stalest_probe(s);
                if c != best {
                    if c < best {
                        assert(s[best as int].1.last_update < s[c].1.last_update);
                    } else {
                        assert(s[c].1.last_update < s[best as int].1.last_update);
                    }
                }
                let r = s.remove(best as int);
                assert forall|a: int, b: int| 0 <= a < b < r.len() implies (#[trigger] r[a]).0.0@ != (#[trigger] r[b]).0.0@ by {
                    let a2 = if a < best { a } else { a + 1 };
                    let b2 = if b < best { b } else { b + 1 };
                    assert(r[a] == s[a2] && r[b] == s[b2]);
                }
            }
            self.states.remove(best);
        }
        let ghost s1 = self.states@;
        assert forall|j: int| 0 <= j < s1.len() implies (#[trigger] s1[j]).0.0@ != file.0@ by {
            if s1.len() < s.len() {
                let b = stalest_probe(s);
                let j2 = if j < b { j } else { j + 1 };
                assert(s1[j] == s[j2]);
            } else {
                assert(s1[j] == s[j]);
            }
        }
        self.states.push((file, SourceProbeState {
            first_publish_sent_at: None,
            first_search_sent_at: None,
            first_publish_res_at: None,
            first_search_res_at: None,
            search_result_events: 0,
            search_results_total: 0,
            last_search_results: 0,
            last_update: now,
        }));
        let n = self.states.len() - 1;
        proof {
            let t = self.states@;
            assert forall|a: int, b: int| 0 <= a < b < t.len() implies (#[trigger] t[a]).0.0@ != (#[trigger] t[b]).0.0@ by {
                if b == t.len() - 1 {
                    assert(t[a] == s1[a]);
                } else {
                    assert(t[a] == s1[a] && t[b] == s1[b]);
                }
            }
            lemma_probe_index_unique(t, n as int);
        }
        n
    }

    /// The state of `file`'s probe, if it has one.
    pub fn state_of(&self, file: &KadId) -> (r: Option<SourceProbeState>)
        requires
            self.wf(),
        ensures
            match r {
                Some(st) => probed(self.states@, file.0@) && st == self.states@[probe_index(self.states@, file.0@)].1,
                None => !probed(self.states@, file.0@),
            },
    {
        let mut k: usize = 0;
        while k < self.states.len()
            invariant
                k <= self.states@.len(),
                probes_distinct(self.states@),
                forall|j: int| 0 <= j < k ==> (#[trigger] self.states@[j]).0.0@ != file.0@,
            decreases self.states@.len() - k,
        {
            if self.states[k].0 == *file {
                proof {
                    lemma_probe_index_unique(self.states@, k as int);
                }
                return Some(self.states[k].1);
            }
            k += 1;
        }
        None
    }

    /// Notes that a source publish for `file` went out at `now`.
    pub fn mark_publish_sent(&mut self, file: KadId, now: u64)
        requires
            old(self).wf(),
        ensures
            final(self).wf(),
            final(self).states@ == probe_updated(old(self).states@, file, now, |st: SourceProbeState| SourceProbeState {
                first_publish_sent_at: if st.first_publish_sent_at is None { Some(now) } else { st.first_publish_sent_at },
                last_update: now,
                ..st
            }),
    {
        let i = self.slot(file, now);
        let (f, mut st) = self.states[i];
        if st.first_publish_sent_at.is_none() {
            st.first_publish_sent_at = Some(now);
        }
        st.last_update = now;
        self.set_state(i, f, st);
    }

    /// Notes that a source search for `file` went out at `now`.
    pub fn mark_search_sent(&mut self, file: KadId, now: u64)
        requires
            old(self).wf(),
        ensures
            final(self).wf(),
            final(self).states@ == probe_updated(old(self).states@, file, now, |st: SourceProbeState| SourceProbeState {
                first_search_sent_at: if st.first_search_sent_at is None { Some(now) } else { st.first_search_sent_at },
                last_update: now,
                ..st
            }),
    {
        let i = self.slot(file, now);
        let (f, mut st) = self.states[i];
        if st.first_search_sent_at.is_none() {
            st.first_search_sent_at = Some(now);
        }
        st.last_update = now;
        self.set_state(i, f, st);
    }

    fn set_state(&mut self, i: usize, f: KadId, st: SourceProbeState)
        requires
            old(self).wf(),
            i < old(self).states@.len(),
            old(self).states@[i as int].0 == f,
        ensures
            final(self).wf(),
            final(self).states@ == old(self).states@.update(i as int, (f, st)),
    {
        self.states.set(i, (f, st));
        assert forall|a: int, b: int| 0 <= a < b < self.states@.len() implies
            (#[trigger] self.states@[a]).0.0@ != (#[trigger] self.states@[b]).0.0@ by {
            assert(self.states@[a].0 == old(self).states@[a].0);
            assert(self.states@[b].0 == old(self).states@[b].0);
        }
    }

    /// Notes an answer to a source publish for `file` at `now`. For the
    /// first answer it returns the milliseconds since the first publish
    /// went out (none when no publish was noted).
    pub fn on_publish_response(&mut self, file: KadId, now: u64) -> (r: (bool, Option<u64>))
        requires
            old(self).wf(),
        ensures
            final(self).wf(),
            ({
                let s1 = with_probe(old(self).states@, file, now);
                let st = s1[probe_index(s1, file.0@)].1;
                let first = st.first_publish_res_at is None;
                &&& r.0 == first
                &&& r.1 == (if first { match st.first_publish_sent_at { Some(t) => Some(millis_since(now, t)), None => None } } else { None })
                &&& final(self).states@ == probe_updated(old(self).states@, file, now, |st: SourceProbeState| SourceProbeState {
                        first_publish_res_at: if st.first_publish_res_at is None { Some(now) } else { st.first_publish_res_at },
                        last_update: now,
                        ..st
                    })
            }),
    {
        let i = self.slot(file, now);
        let (f, mut st) = self.states[i];
        let mut first = false;
        let mut latency: Option<u64> = None;
        if st.first_publish_res_at.is_none() {
            st.first_publish_res_at = Some(now);
            first = true;
            if let Some(sent) = st.first_publish_sent_at {
                latency = Some(now.saturating_sub(sent) / 1_000_000);
            }
        }
        st.last_update = now;
        self.set_state(i, f, st);
        (first, latency)
    }

    /// Notes an answer to a source search for `file` that returned
    /// `returned` sources at `now`. For the first answer it returns the
    /// milliseconds since the first search went out (none when no search was
    /// noted).
    pub fn on_search_response(&mut self, file: KadId, returned: u64, now: u64) -> (r: (bool, Option<u64>))
        requires
            old(self).wf(),
        ensures
            final(self).wf(),
            ({
                let s1 = with_probe(old(self).states@, file, now);
                let st = s1[probe_index(s1, file.0@)].1;
                let first = st.first_search_res_at is None;
                &&& r.0 == first
                &&& r.1 == (if first { match st.first_search_sent_at { Some(t) => Some(millis_since(now, t)), None => None } } else { None })
                &&& final(self).states@ == probe_updated(old(self).states@, file, now, |st: SourceProbeState| SourceProbeState {
                        first_search_res_at: if st.first_search_res_at is None { Some(now) } else { st.first_search_res_at },
                        search_result_events: if st.search_result_events == u64::MAX { u64::MAX } else { (st.search_result_events + 1) as u64 },
                        search_results_total: if st.search_results_total + returned > u64::MAX { u64::MAX } else { (st.search_results_total + returned) as u64 },
                        last_search_results: returned,
                        last_update: now,
                        ..st
                    })
            }),
    {
        let i = self.slot(file, now);
        let (f, mut st) = self.states[i];
        let mut first = false;
        let mut latency: Option<u64> = None;
        if st.first_search_res_at.is_none() {
            st.first_search_res_at = Some(now);
            first = true;
            if let Some(sent) = st.first_search_sent_at {
                latency = Some(now.saturating_sub(sent) / 1_000_000);
            }
        }
        st.search_result_events = st.search_result_events.saturating_add(1);
        st.search_results_total = st.search_results_total.saturating_add(returned);
        st.last_search_results = returned;
        st.last_update = now;
        self.set_state(i, f, st);
        (first, latency)
    }
}

} // verus!
