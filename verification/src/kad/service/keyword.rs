//! Keyword hits kept in memory: the results of our own keyword searches
//! (kept while we are interested in the keyword) and the keyword entries
//! that other nodes publish to us. Both hold, per keyword, one hit per file,
//! and both are bounded by age and by count.

use vstd::prelude::*;
use crate::kad::id::KadId;
use crate::kad::routing::{bytes_lt, id_lt, lemma_bytes_lt_irreflexive, lemma_bytes_lt_total,
    lemma_bytes_lt_transitive};
use crate::kad::service::types::{KadKeywordHit, KadKeywordHitOrigin, KadServiceConfig};
use crate::kad::wire::Kad2PublishKeyEntry;

verus! {

/// One hit of one keyword, and when it was last seen.
#[derive(Debug)]
pub struct KeywordEntry {
    pub keyword: KadId,
    pub last_seen: u64,
    pub hit: KadKeywordHit,
}

/// Entries are ordered by keyword, then by file.
pub open spec fn ekey(e: KeywordEntry) -> (Seq<u8>, Seq<u8>) {
    (e.keyword.0@, e.hit.file_id.0@)
}

pub open spec fn pair_lt(a: (Seq<u8>, Seq<u8>), b: (Seq<u8>, Seq<u8>)) -> bool {
    bytes_lt(a.0, b.0) || (a.0 == b.0 && bytes_lt(a.1, b.1))
}

/// Strictly increasing keys: one entry per keyword and file.
pub open spec fn entries_sorted(s: Seq<KeywordEntry>) -> bool {
    forall|i: int, j: int| 0 <= i < j < s.len() ==> pair_lt(ekey(#[trigger] s[i]), ekey(#[trigger] s[j]))
}

pub proof fn lemma_pair_lt_irreflexive(a: (Seq<u8>, Seq<u8>))
    ensures
        !pair_lt(a, a),
{
    lemma_bytes_lt_irreflexive(a.0);
    lemma_bytes_lt_irreflexive(a.1);
}

pub proof fn lemma_pair_lt_transitive(a: (Seq<u8>, Seq<u8>), b: (Seq<u8>, Seq<u8>), c: (Seq<u8>, Seq<u8>))
    requires
        pair_lt(a, b),
        pair_lt(b, c),
    ensures
        pair_lt(a, c),
{
    if bytes_lt(a.0, b.0) && bytes_lt(b.0, c.0) {
        lemma_bytes_lt_transitive(a.0, b.0, c.0);
    } else if a.0 == b.0 && b.0 == c.0 {
        lemma_bytes_lt_transitive(a.1, b.1, c.1);
    }
}

pub proof fn lemma_pair_lt_total(a: (Seq<u8>, Seq<u8>), b: (Seq<u8>, Seq<u8>))
    ensures
        a == b || pair_lt(a, b) || pair_lt(b, a),
{
    lemma_bytes_lt_total(a.0, b.0);
    lemma_bytes_lt_total(a.1, b.1);
}

/// `s` with `e` put in its place by key (`s` holds no entry with its key).
pub open spec fn insert_sorted(s: Seq<KeywordEntry>, e: KeywordEntry) -> Seq<KeywordEntry>
    decreases s.len(),
{
    if s.len() == 0 {
        seq![e]
    } else if pair_lt(ekey(s.last()), ekey(e)) {
        s.push(e)
    } else {
        insert_sorted(s.drop_last(), e).push(s.last())
    }
}

/// Whether some entry of `s` has key `k`.
pub open spec fn has_key(s: Seq<KeywordEntry>, k: (Seq<u8>, Seq<u8>)) -> bool {
    exists|i: int| 0 <= i < s.len() && ekey(#[trigger] s[i]) == k
}

/// The position of the entry with key `k` (meaningful when there is one).
pub open spec fn key_index(s: Seq<KeywordEntry>, k: (Seq<u8>, Seq<u8>)) -> int {
    choose|i: int| 0 <= i < s.len() && ekey(#[trigger] s[i]) == k
}

/// The entries of `s` that `keep` keeps, in order.
pub open spec fn keep_entries(s: Seq<KeywordEntry>, keep: spec_fn(KeywordEntry) -> bool) -> Seq<KeywordEntry>
    decreases s.len(),
{
    if s.len() == 0 {
        s
    } else if keep(s.last()) {
        keep_entries(s.drop_last(), keep).push(s.last())
    } else {
        keep_entries(s.drop_last(), keep)
    }
}

/// How many entries of `s` belong to keyword `kw`.
pub open spec fn count_kw(s: Seq<KeywordEntry>, kw: Seq<u8>) -> nat
    decreases s.len(),
{
    if s.len() == 0 {
        0
    } else {
        count_kw(s.drop_last(), kw) + if s.last().keyword.0@ == kw { 1nat } else { 0nat }
    }
}

/// How many keywords `s` holds (`s` is sorted, so a keyword's entries are
/// next to each other).
pub open spec fn keyword_count(s: Seq<KeywordEntry>) -> nat
    decreases s.len(),
{
    if s.len() == 0 {
        0
    } else {
        keyword_count(s.drop_last()) + if s.len() == 1 || s[s.len() - 2].keyword.0@ != s.last().keyword.0@ {
            1nat
        } else {
            0nat
        }
    }
}

proof fn lemma_insert_sorted_at(s: Seq<KeywordEntry>, e: KeywordEntry, p: int)
    requires
        0 <= p <= s.len(),
        forall|k: int| p <= k < s.len() ==> pair_lt(ekey(e), ekey(#[trigger] s[k])),
        p == 0 || pair_lt(ekey(s[p - 1]), ekey(e)),
    ensures
        insert_sorted(s, e) == s.take(p).push(e) + s.skip(p),
    decreases s.len(),
{
    if s.len() == 0 {
        assert(s.take(p).push(e) + s.skip(p) =~= seq![e]);
    } else if p == s.len() {
        assert(s.take(p).push(e) + s.skip(p) =~= s.push(e));
    } else {
        let t = s.drop_last();
        lemma_pair_lt_irreflexive(ekey(e));
        assert(pair_lt(ekey(e), ekey(s.last())));
        if pair_lt(ekey(s.last()), ekey(e)) {
            lemma_pair_lt_transitive(ekey(e), ekey(s.last()), ekey(e));
        }
        assert forall|k: int| p <= k < t.len() implies pair_lt(ekey(e), ekey(#[trigger] t[k])) by {
            assert(t[k] == s[k]);
        }
        lemma_insert_sorted_at(t, e, p);
        assert(t.take(p).push(e) + t.skip(p) + seq![s.last()] =~= s.take(p).push(e) + s.skip(p));
    }
}

proof fn lemma_sorted_insert_at(s: Seq<KeywordEntry>, e: KeywordEntry, p: int)
    requires
        entries_sorted(s),
        0 <= p <= s.len(),
        forall|k: int| p <= k < s.len() ==> pair_lt(ekey(e), ekey(#[trigger] s[k])),
        forall|k: int| 0 <= k < p ==> pair_lt(ekey(#[trigger] s[k]), ekey(e)),
    ensures
        entries_sorted(s.take(p).push(e) + s.skip(p)),
{
    let r = s.take(p).push(e) + s.skip(p);
    assert forall|i: int, j: int| 0 <= i < j < r.len() implies pair_lt(ekey(#[trigger] r[i]), ekey(#[trigger] r[j])) by {
        if j < p {
            assert(r[i] == s[i] && r[j] == s[j]);
        } else if j == p {
            assert(r[i] == s[i]);
        } else if i == p {
            assert(r[j] == s[j - 1]);
        } else if i < p {
            assert(r[i] == s[i] && r[j] == s[j - 1]);
        } else {
            assert(r[i] == s[i - 1] && r[j] == s[j - 1]);
        }
    }
}

fn key_less(a_kw: &[u8; 16], a_file: &[u8; 16], b_kw: &[u8; 16], b_file: &[u8; 16]) -> (r: bool)
    ensures
        r == pair_lt((a_kw@, a_file@), (b_kw@, b_file@)),
{
    if id_lt(a_kw, b_kw) {
        true
    } else if KadId(*a_kw) == KadId(*b_kw) {
        id_lt(a_file, b_file)
    } else {
        false
    }
}

/// Where the entry keyed `(kw, file)` is (`Ok`), or where it would go
/// (`Err`).
fn locate(s: &Vec<KeywordEntry>, kw: &KadId, file: &KadId) -> (r: Result<usize, usize>)
    requires
        entries_sorted(s@),
    ensures
        match r {
            Ok(i) => i < s@.len() && ekey(s@[i as int]) == (kw.0@, file.0@),
            Err(p) => {
                &&& p <= s@.len()
                &&& forall|k: int| 0 <= k < p ==> pair_lt(ekey(#[trigger] s@[k]), (kw.0@, file.0@))
                &&& forall|k: int| p <= k < s@.len() ==> pair_lt((kw.0@, file.0@), ekey(#[trigger] s@[k]))
                &&& !has_key(s@, (kw.0@, file.0@))
            },
        },
{
    let ghost k = (kw.0@, file.0@);
    let mut i: usize = 0;
    while i < s.len()
        invariant
            i <= s@.len(),
            entries_sorted(s@),
            k == (kw.0@, file.0@),
            forall|j: int| 0 <= j < i ==> pair_lt(ekey(#[trigger] s@[j]), k),
        decreases s@.len() - i,
    {
        let e = &s[i];
        if key_less(&e.keyword.0, &e.hit.file_id.0, &kw.0, &file.0) {
            i += 1;
        } else {
            if e.keyword == *kw && e.hit.file_id == *file {
                return Ok(i);
            }
            proof {
                lemma_pair_lt_total(ekey(s@[i as int]), k);
                assert(pair_lt(k, ekey(s@[i as int])));
                assert forall|j: int| i <= j < s@.len() implies pair_lt(k, ekey(#[trigger] s@[j])) by {
                    if j > i {
                        lemma_pair_lt_transitive(k, ekey(s@[i as int]), ekey(s@[j]));
                    }
                }
                assert(!has_key(s@, k)) by {
                    if has_key(s@, k) {
                        let j = choose|j: int| 0 <= j < s@.len() && ekey(#[trigger] s@[j]) == k;
                        lemma_pair_lt_irreflexive(k);
                    }
                }
            }
            return Err(i);
        }
    }
    proof {
        assert(!has_key(s@, k)) by {
            if has_key(s@, k) {
                let j = choose|j: int| 0 <= j < s@.len() && ekey(#[trigger] s@[j]) == k;
                lemma_pair_lt_irreflexive(k);
            }
        }
    }
    Err(i)
}


pub(crate) fn copy_opt_string(o: &Option<String>) -> (r: Option<String>)
    ensures
        r == *o,
{
    match o {
        Some(x) => Some(x.clone()),
        None => None,
    }
}

/// A copy of a hit.
pub fn copy_hit(h: &KadKeywordHit) -> (c: KadKeywordHit)
    ensures
        c == *h,
{
    KadKeywordHit {
        file_id: h.file_id,
        filename: h.filename.clone(),
        file_size: h.file_size,
        file_type: copy_opt_string(&h.file_type),
        publish_info: h.publish_info,
        origin: h.origin,
    }
}

/// The hit a peer's publish of `file` under a keyword leaves: the new name,
/// size and type, no publish info, and the origin of the hit it replaces
/// (`Network` for a new one).
pub open spec fn published_hit(old: Option<KadKeywordHit>, file: KadId, filename: String, file_size: u64,
    file_type: Option<String>) -> KadKeywordHit
{
    KadKeywordHit {
        file_id: match old { Some(h) => h.file_id, None => file },
        filename,
        file_size,
        file_type,
        publish_info: None,
        origin: match old { Some(h) => h.origin, None => KadKeywordHitOrigin::Network },
    }
}

/// Age of a `last_seen` at `now`, zero when it lies ahead.
pub open spec fn age_at(now: u64, t: u64) -> int {
    if now >= t { now - t } else { 0 }
}

/// Hits grouped by keyword and file, in key order.
#[derive(Debug)]
pub struct KeywordHits {
    pub entries: Vec<KeywordEntry>,
}

impl KeywordHits {
    pub open spec fn wf(&self) -> bool {
        entries_sorted(self.entries@)
    }

    pub fn new() -> (r: KeywordHits)
        ensures
            r.wf(),
            r.entries@.len() == 0,
    {
        KeywordHits { entries: Vec::new() }
    }

    /// Number of hits.
    pub fn len(&self) -> (n: usize)
        ensures
            n == self.entries@.len(),
    {
        self.entries.len()
    }

    /// Number of keywords with at least one hit.
    pub fn keyword_count(&self) -> (n: usize)
        ensures
            n == keyword_count(self.entries@),
    {
        let mut n: usize = 0;
        let mut i: usize = 0;
        let ghost s = self.entries@;
        while i < self.entries.len()
            invariant
                i <= s.len(),
                s == self.entries@,
                n == keyword_count(s.take(i as int)),
                n <= i,
            decreases s.len() - i,
        {
            assert(s.take(i + 1).drop_last() =~= s.take(i as int));
            if i == 0 || self.entries[i - 1].keyword != self.entries[i].keyword {
                n += 1;
            }
            i += 1;
        }
        assert(s.take(s.len() as int) =~= s);
        n
    }

    /// Number of hits of `kw`.
    pub fn count_for(&self, kw: &KadId) -> (n: usize)
        ensures
            n == count_kw(self.entries@, kw.0@),
    {
        let mut n: usize = 0;
        let mut i: usize = 0;
        let ghost s = self.entries@;
        while i < self.entries.len()
            invariant
                i <= s.len(),
                s == self.entries@,
                n == count_kw(s.take(i as int), kw.0@),
                n <= i,
            decreases s.len() - i,
        {
            assert(s.take(i + 1).drop_last() =~= s.take(i as int));
            if self.entries[i].keyword == *kw {
                n += 1;
            }
            i += 1;
        }
        assert(s.take(s.len() as int) =~= s);
        n
    }

    /// Puts `e` in place of the entry with its keyword and file, or adds it.
    /// Tells whether it was added.
    pub fn upsert(&mut self, e: KeywordEntry) -> (added: bool)
        requires
            old(self).wf(),
        ensures
            final(self).wf(),
            added == !has_key(old(self).entries@, ekey(e)),
            final(self).entries@ == if added {
                insert_sorted(old(self).entries@, e)
            } else {
                old(self).entries@.update(key_index(old(self).entries@, ekey(e)), e)
            },
    {
        let ghost s = self.entries@;
        match locate(&self.entries, &e.keyword, &e.hit.file_id) {
            Ok(i) => {
                proof {
                    let j = key_index(s, ekey(e));
                    assert(has_key(s, ekey(e)));
                    if j != i {
                        if j < i { assert(pair_lt(ekey(s[j]), ekey(s[i as int]))); } else { assert(pair_lt(ekey(s[i as int]), ekey(s[j]))); }
                        lemma_pair_lt_irreflexive(ekey(e));
                    }
                }
                self.entries.set(i, e);
                assert forall|a: int, b: int| 0 <= a < b < self.entries@.len() implies
                    pair_lt(ekey(#[trigger] self.entries@[a]), ekey(#[trigger] self.entries@[b])) by {
                    assert(ekey(self.entries@[a]) == ekey(s[a]));
                    assert(ekey(self.entries@[b]) == ekey(s[b]));
                }
                false
            },
            Err(p) => {
                proof {
                    lemma_insert_sorted_at(s, e, p as int);
                    lemma_sorted_insert_at(s, e, p as int);
                }
                self.entries.insert(p, e);
                assert(self.entries@ =~= s.take(p as int).push(e) + s.skip(p as int));
                true
            },
        }
    }

    /// Records a peer's publish of `file` under `keyword` at `now`, keeping
    /// the origin of a hit already there. Tells whether the hit is new.
    pub fn publish(&mut self, keyword: KadId, file: KadId, filename: String, file_size: u64,
        file_type: Option<String>, now: u64) -> (added: bool)
        requires
            old(self).wf(),
        ensures
            final(self).wf(),
            added == !has_key(old(self).entries@, (keyword.0@, file.0@)),
            ({
                let s = old(self).entries@;
                let k = (keyword.0@, file.0@);
                if added {
                    final(self).entries@ == insert_sorted(s, KeywordEntry {
                        keyword,
                        last_seen: now,
                        hit: published_hit(None, file, filename, file_size, file_type),
                    })
                } else {
                    final(self).entries@ == s.update(key_index(s, k), KeywordEntry {
                        keyword: s[key_index(s, k)].keyword,
                        last_seen: now,
                        hit: published_hit(Some(s[key_index(s, k)].hit), file, filename, file_size, file_type),
                    })
                }
            }),
    {
        let ghost s = self.entries@;
        let ghost k = (keyword.0@, file.0@);
        match locate(&self.entries, &keyword, &file) {
            Ok(i) => {
                proof {
                    let j = key_index(s, k);
                    assert(has_key(s, k));
                    if j != i {
                        if j < i { assert(pair_lt(ekey(s[j]), ekey(s[i as int]))); } else { assert(pair_lt(ekey(s[i as int]), ekey(s[j]))); }
                        lemma_pair_lt_irreflexive(k);
                    }
                }
                let old_kw = self.entries[i].keyword;
                let old_file = self.entries[i].hit.file_id;
                let origin = self.entries[i].hit.origin;
                let e = KeywordEntry {
                    keyword: old_kw,
                    last_seen: now,
                    hit: KadKeywordHit { file_id: old_file, filename, file_size, file_type, publish_info: None, origin },
                };
                self.entries.set(i, e);
                assert forall|a: int, b: int| 0 <= a < b < self.entries@.len() implies
                    pair_lt(ekey(#[trigger] self.entries@[a]), ekey(#[trigger] self.entries@[b])) by {
                    assert(ekey(self.entries@[a]) == ekey(s[a]));
                    assert(ekey(self.entries@[b]) == ekey(s[b]));
                }
                false
            },
            Err(p) => {
                let e = KeywordEntry {
                    keyword,
                    last_seen: now,
                    hit: KadKeywordHit {
                        file_id: file,
                        filename,
                        file_size,
                        file_type,
                        publish_info: None,
                        origin: KadKeywordHitOrigin::Network,
                    },
                };
                proof {
                    lemma_insert_sorted_at(s, e, p as int);
                    lemma_sorted_insert_at(s, e, p as int);
                }
                self.entries.insert(p, e);
                assert(self.entries@ =~= s.take(p as int).push(e) + s.skip(p as int));
                true
            },
        }
    }
}


/// Which entries a sweep keeps.
pub enum KeepRule {
    /// Those of other keywords.
    OtherKeyword(KadId),
    /// Those seen less than `ttl` before `now`.
    Fresh { now: u64, ttl: u64 },
    /// Those seen less than `ttl` before `now` whose keyword is none of
    /// `dropped` and, when `require` holds, one of `wanted`.
    Wanted { now: u64, ttl: u64, dropped: Vec<KadId>, require: bool, wanted: Vec<KadId> },
}

pub open spec fn ids_of(v: Seq<KadId>) -> Seq<Seq<u8>> {
    v.map_values(|k: KadId| k.0@)
}

pub open spec fn rule_keeps(r: KeepRule, e: KeywordEntry) -> bool {
    match r {
        KeepRule::OtherKeyword(kw) => e.keyword.0@ != kw.0@,
        KeepRule::Fresh { now, ttl } => age_at(now, e.last_seen) < ttl,
        KeepRule::Wanted { now, ttl, dropped, require, wanted } => {
            &&& age_at(now, e.last_seen) < ttl
            &&& !ids_of(dropped@).contains(e.keyword.0@)
            &&& (require ==> ids_of(wanted@).contains(e.keyword.0@))
        },
    }
}

fn id_listed(v: &Vec<KadId>, id: &KadId) -> (r: bool)
    ensures
        r == ids_of(v@).contains(id.0@),
{
    let mut i: usize = 0;
    while i < v.len()
        invariant
            i <= v@.len(),
            forall|j: int| 0 <= j < i ==> ids_of(v@)[j] != id.0@,
        decreases v@.len() - i,
    {
        if v[i] == *id {
            assert(ids_of(v@)[i as int] == id.0@);
            return true;
        }
        i += 1;
    }
    false
}

fn keeps(r: &KeepRule, e: &KeywordEntry) -> (b: bool)
    ensures
        b == rule_keeps(*r, *e),
{
    match r {
        KeepRule::OtherKeyword(kw) => e.keyword != *kw,
        KeepRule::Fresh { now, ttl } => {
            let age: u64 = if *now >= e.last_seen { *now - e.last_seen } else { 0 };
            age < *ttl
        },
        KeepRule::Wanted { now, ttl, dropped, require, wanted } => {
            let age: u64 = if *now >= e.last_seen { *now - e.last_seen } else { 0 };
            age < *ttl && !id_listed(dropped, &e.keyword) && (!*require || id_listed(wanted, &e.keyword))
        },
    }
}

proof fn lemma_keep_entries_from(s: Seq<KeywordEntry>, keep: spec_fn(KeywordEntry) -> bool, i: int)
    requires
        0 <= i < keep_entries(s, keep).len(),
    ensures
        keep_entries(s, keep).len() <= s.len(),
        exists|j: int| 0 <= j < s.len() && s[j] == keep_entries(s, keep)[i] && keep(s[j]),
    decreases s.len(),
{
    let t = s.drop_last();
    if keep(s.last()) && i == keep_entries(s, keep).len() - 1 {
        assert(s[s.len() - 1] == keep_entries(s, keep)[i]);
        if t.len() > 0 && keep_entries(t, keep).len() > 0 {
            lemma_keep_entries_from(t, keep, 0);
        }
    } else {
        lemma_keep_entries_from(t, keep, i);
        let j = choose|j: int| 0 <= j < t.len() && t[j] == keep_entries(t, keep)[i] && keep(t[j]);
        assert(s[j] == t[j]);
    }
}

proof fn lemma_keep_entries_sorted(s: Seq<KeywordEntry>, keep: spec_fn(KeywordEntry) -> bool)
    requires
        entries_sorted(s),
    ensures
        entries_sorted(keep_entries(s, keep)),
        keep_entries(s, keep).len() <= s.len(),
    decreases s.len(),
{
    if s.len() > 0 {
        let t = s.drop_last();
        assert forall|a: int, b: int| 0 <= a < b < t.len() implies pair_lt(ekey(#[trigger] t[a]), ekey(#[trigger] t[b])) by {
            assert(t[a] == s[a] && t[b] == s[b]);
        }
        lemma_keep_entries_sorted(t, keep);
        let kt = keep_entries(t, keep);
        if keep(s.last()) {
            let r = kt.push(s.last());
            assert forall|a: int, b: int| 0 <= a < b < r.len() implies pair_lt(ekey(#[trigger] r[a]), ekey(#[trigger] r[b])) by {
                if b == r.len() - 1 {
                    lemma_keep_entries_from(t, keep, a);
                    let j = choose|j: int| 0 <= j < t.len() && t[j] == kt[a] && keep(t[j]);
                    assert(s[j] == t[j]);
                    assert(pair_lt(ekey(s[j]), ekey(s[s.len() - 1])));
                } else {
                    assert(r[a] == kt[a] && r[b] == kt[b]);
                }
            }
        }
    }
}

proof fn lemma_keep_other_keyword_count(s: Seq<KeywordEntry>, kw: Seq<u8>, keep: spec_fn(KeywordEntry) -> bool)
    requires
        forall|e: KeywordEntry| #[trigger] keep(e) == (e.keyword.0@ != kw),
    ensures
        keep_entries(s, keep).len() + count_kw(s, kw) == s.len(),
    decreases s.len(),
{
    if s.len() > 0 {
        lemma_keep_other_keyword_count(s.drop_last(), kw, keep);
    }
}

impl KeywordHits {
    /// Keeps the entries that `rule` keeps; returns how many went.
    pub fn retain(&mut self, rule: &KeepRule) -> (removed: usize)
        requires
            old(self).wf(),
        ensures
            final(self).wf(),
            final(self).entries@ == keep_entries(old(self).entries@, |e: KeywordEntry| rule_keeps(*rule, e)),
            removed == old(self).entries@.len() - final(self).entries@.len(),
    {
        let ghost s = self.entries@;
        let ghost keep = |e: KeywordEntry| rule_keeps(*rule, e);
        let n0 = self.entries.len();
        let mut rest: Vec<KeywordEntry> = Vec::new();
        std::mem::swap(&mut rest, &mut self.entries);
        let mut k: usize = 0;
        while rest.len() > 0
            invariant
                k + rest@.len() == s.len(),
                n0 == s.len(),
                rest@ == s.skip(k as int),
                self.entries@ == keep_entries(s.take(k as int), keep),
                keep == (|e: KeywordEntry| rule_keeps(*rule, e)),
            decreases rest@.len(),
        {
            let e = rest.remove(0);
            assert(e == s[k as int]);
            assert(s.take(k + 1).drop_last() =~= s.take(k as int));
            assert(s.take(k + 1).last() == e);
            if keeps(rule, &e) {
                self.entries.push(e);
            }
            k += 1;
            assert(rest@ =~= s.skip(k as int));
        }
        assert(s.take(s.len() as int) =~= s);
        proof {
            lemma_keep_entries_sorted(s, keep);
        }
        n0 - self.entries.len()
    }

    /// Drops every hit of `kw`; returns how many there were.
    pub fn remove_keyword(&mut self, kw: &KadId) -> (n: usize)
        requires
            old(self).wf(),
        ensures
            final(self).wf(),
            final(self).entries@ == keep_entries(old(self).entries@, |e: KeywordEntry| e.keyword.0@ != kw.0@),
            n == count_kw(old(self).entries@, kw.0@),
    {
        let rule = KeepRule::OtherKeyword(*kw);
        let n = self.retain(&rule);
        proof {
            assert((|e: KeywordEntry| rule_keeps(rule, e)) =~= (|e: KeywordEntry| e.keyword.0@ != kw.0@));
            lemma_keep_other_keyword_count(old(self).entries@, kw.0@, |e: KeywordEntry| rule_keeps(rule, e));
        }
        n
    }
}


/// Older first: by time, then by the tie-breaking bytes.
pub open spec fn rank_lt(t1: u64, b1: Seq<u8>, t2: u64, b2: Seq<u8>) -> bool {
    t1 < t2 || (t1 == t2 && bytes_lt(b1, b2))
}

proof fn lemma_rank_lt_asym(t1: u64, b1: Seq<u8>, t2: u64, b2: Seq<u8>)
    requires
        rank_lt(t1, b1, t2, b2),
    ensures
        !rank_lt(t2, b2, t1, b1),
{
    if t1 == t2 && bytes_lt(b2, b1) {
        lemma_bytes_lt_transitive(b1, b2, b1);
        lemma_bytes_lt_irreflexive(b1);
    }
}

proof fn lemma_rank_lt_trans(t1: u64, b1: Seq<u8>, t2: u64, b2: Seq<u8>, t3: u64, b3: Seq<u8>)
    requires
        rank_lt(t1, b1, t2, b2),
        rank_lt(t2, b2, t3, b3),
    ensures
        rank_lt(t1, b1, t3, b3),
{
    if t1 == t2 && t2 == t3 {
        lemma_bytes_lt_transitive(b1, b2, b3);
    }
}

/// Index `i` holds the oldest hit of keyword `kw` (by last seen, then file).
pub open spec fn is_oldest_hit(s: Seq<KeywordEntry>, kw: Seq<u8>, i: int) -> bool {
    &&& 0 <= i < s.len()
    &&& s[i].keyword.0@ == kw
    &&& forall|j: int| 0 <= j < s.len() && j != i && (#[trigger] s[j]).keyword.0@ == kw
        ==> rank_lt(s[i].last_seen, s[i].hit.file_id.0@, s[j].last_seen, s[j].hit.file_id.0@)
}

pub open spec fn oldest_hit(s: Seq<KeywordEntry>, kw: Seq<u8>) -> int {
    choose|i: int| is_oldest_hit(s, kw, i)
}

/// `s` after dropping the oldest hits of `kw` until at most `max` remain.
pub open spec fn prune_keyword_spec(s: Seq<KeywordEntry>, kw: Seq<u8>, max: nat) -> Seq<KeywordEntry>
    decreases s.len(),
{
    if count_kw(s, kw) <= max {
        s
    } else {
        let i = oldest_hit(s, kw);
        if 0 <= i < s.len() { prune_keyword_spec(s.remove(i), kw, max) } else { s }
    }
}

proof fn lemma_oldest_hit_unique(s: Seq<KeywordEntry>, kw: Seq<u8>, i: int)
    requires
        is_oldest_hit(s, kw, i),
    ensures
        oldest_hit(s, kw) == i,
{
    let j = oldest_hit(s, kw);
    if j != i {
        assert(s[j].keyword.0@ == kw);
        lemma_rank_lt_asym(s[i].last_seen, s[i].hit.file_id.0@, s[j].last_seen, s[j].hit.file_id.0@);
    }
}

proof fn lemma_remove_sorted(s: Seq<KeywordEntry>, i: int)
    requires
        entries_sorted(s),
        0 <= i < s.len(),
    ensures
        entries_sorted(s.remove(i)),
{
    let r = s.remove(i);
    assert forall|a: int, b: int| 0 <= a < b < r.len() implies pair_lt(ekey(#[trigger] r[a]), ekey(#[trigger] r[b])) by {
        let a2 = if a < i { a } else { a + 1 };
        let b2 = if b < i { b } else { b + 1 };
        assert(r[a] == s[a2] && r[b] == s[b2]);
    }
}

proof fn lemma_count_kw_remove(s: Seq<KeywordEntry>, kw: Seq<u8>, i: int)
    requires
        0 <= i < s.len(),
    ensures
        count_kw(s.remove(i), kw) + (if s[i].keyword.0@ == kw { 1int } else { 0int }) == count_kw(s, kw),
    decreases s.len(),
{
    if i < s.len() - 1 {
        let t = s.drop_last();
        lemma_count_kw_remove(t, kw, i);
        assert(s.remove(i).drop_last() =~= t.remove(i));
        assert(s.remove(i).last() == s.last());
    } else {
        assert(s.remove(i) =~= s.drop_last());
    }
}

proof fn lemma_count_kw_none(s: Seq<KeywordEntry>, kw: Seq<u8>)
    requires
        forall|j: int| 0 <= j < s.len() ==> (#[trigger] s[j]).keyword.0@ != kw,
    ensures
        count_kw(s, kw) == 0,
    decreases s.len(),
{
    if s.len() > 0 {
        let t = s.drop_last();
        assert forall|j: int| 0 <= j < t.len() implies (#[trigger] t[j]).keyword.0@ != kw by {
            assert(t[j] == s[j]);
        }
        lemma_count_kw_none(t, kw);
    }
}

impl KeywordHits {
    /// Drops the oldest hits of `kw` (by last seen, then file) until at most
    /// `max` remain; returns how many went.
    pub fn prune_keyword(&mut self, kw: &KadId, max: usize) -> (removed: usize)
        requires
            old(self).wf(),
        ensures
            final(self).wf(),
            final(self).entries@ == prune_keyword_spec(old(self).entries@, kw.0@, max as nat),
            removed == old(self).entries@.len() - final(self).entries@.len(),
    {
        let n0 = self.entries.len();
        let mut count = self.count_for(kw);
        while count > max
            invariant
                self.wf(),
                count == count_kw(self.entries@, kw.0@),
                prune_keyword_spec(self.entries@, kw.0@, max as nat) == prune_keyword_spec(old(self).entries@, kw.0@, max as nat),
                self.entries@.len() <= n0,
                n0 == old(self).entries@.len(),
            decreases self.entries@.len(),
        {
            let ghost s = self.entries@;
            // find the oldest hit of kw
            let mut best: usize = self.entries.len();
            let mut i: usize = 0;
            while i < self.entries.len()
                invariant
                    i <= s.len(),
                    s == self.entries@,
                    entries_sorted(s),
                    best == s.len() || (best < i && s[best as int].keyword.0@ == kw.0@),
                    best == s.len() ==> forall|j: int| 0 <= j < i ==> (#[trigger] s[j]).keyword.0@ != kw.0@,
                    best < s.len() ==> forall|j: int| 0 <= j < i && j != best && (#[trigger] s[j]).keyword.0@ == kw.0@
                        ==> rank_lt(s[best as int].last_seen, s[best as int].hit.file_id.0@, s[j].last_seen, s[j].hit.file_id.0@),
                decreases s.len() - i,
            {
                if self.entries[i].keyword == *kw {
                    if best == self.entries.len() {
                        best = i;
                    } else {
                        let b = &self.entries[best];
                        let e = &self.entries[i];
                        let older = e.last_seen < b.last_seen
                            || (e.last_seen == b.last_seen && id_lt(&e.hit.file_id.0, &b.hit.file_id.0));
                        if older {
                            proof {
                                assert forall|j: int| 0 <= j < i + 1 && j != i && (#[trigger] s[j]).keyword.0@ == kw.0@
                                    implies rank_lt(s[i as int].last_seen, s[i as int].hit.file_id.0@, s[j].last_seen, s[j].hit.file_id.0@) by {
                                    if j != best {
                                        lemma_rank_lt_trans(s[i as int].last_seen, s[i as int].hit.file_id.0@,
                                            s[best as int].last_seen, s[best as int].hit.file_id.0@, s[j].last_seen, s[j].hit.file_id.0@);
                                    }
                                }
                            }
                            best = i;
                        } else {
                            proof {
                                // same keyword, different files: the ranks differ
                                assert(pair_lt(ekey(s[best as int]), ekey(s[i as int])));
                                lemma_bytes_lt_irreflexive(kw.0@);
                                if s[best as int].last_seen == s[i as int].last_seen {
                                    lemma_bytes_lt_total(s[best as int].hit.file_id.0@, s[i as int].hit.file_id.0@);
                                    lemma_bytes_lt_irreflexive(s[i as int].hit.file_id.0@);
                                }
                            }
                        }
                    }
                }
                i += 1;
            }
            proof {
                if best == s.len() {
                    lemma_count_kw_none(s, kw.0@);
                }
                lemma_oldest_hit_unique(s, kw.0@, best as int);
                lemma_remove_sorted(s, best as int);
                lemma_count_kw_remove(s, kw.0@, best as int);
            }
            self.entries.remove(best);
            count -= 1;
        }
        n0 - self.entries.len()
    }
}


/// No keyword appears twice among the interests.
pub open spec fn interest_distinct(s: Seq<(KadId, u64)>) -> bool {
    forall|i: int, j: int| 0 <= i < j < s.len() ==> (#[trigger] s[i]).0.0@ != (#[trigger] s[j]).0.0@
}

/// Index `i` holds the interest touched longest ago (ties by keyword).
pub open spec fn is_oldest_interest(s: Seq<(KadId, u64)>, i: int) -> bool {
    &&& 0 <= i < s.len()
    &&& forall|j: int| 0 <= j < s.len() && j != i ==> rank_lt(s[i].1, s[i].0.0@, (#[trigger] s[j]).1, s[j].0.0@)
}

pub open spec fn oldest_interest(s: Seq<(KadId, u64)>) -> int {
    choose|i: int| is_oldest_interest(s, i)
}

/// Forgets the oldest interest and every hit of its keyword.
pub open spec fn evict_oldest(interest: Seq<(KadId, u64)>, hits: Seq<KeywordEntry>) -> (Seq<(KadId, u64)>, Seq<KeywordEntry>) {
    let i = oldest_interest(interest);
    if 0 <= i < interest.len() {
        let kw = interest[i].0.0@;
        (interest.remove(i), keep_entries(hits, |e: KeywordEntry| e.keyword.0@ != kw))
    } else {
        (interest, hits)
    }
}

/// Evicts the oldest interests until at most `max` remain.
pub open spec fn evict_to_count(interest: Seq<(KadId, u64)>, hits: Seq<KeywordEntry>, max: nat)
    -> (Seq<(KadId, u64)>, Seq<KeywordEntry>)
    decreases interest.len(),
{
    if interest.len() <= max {
        (interest, hits)
    } else {
        let n = evict_oldest(interest, hits);
        if n.0.len() < interest.len() { evict_to_count(n.0, n.1, max) } else { (interest, hits) }
    }
}

/// Evicts the oldest interests until at most `max` hits remain or no
/// interest is left.
pub open spec fn evict_to_total(interest: Seq<(KadId, u64)>, hits: Seq<KeywordEntry>, max: nat)
    -> (Seq<(KadId, u64)>, Seq<KeywordEntry>)
    decreases interest.len(),
{
    if hits.len() <= max || interest.len() == 0 {
        (interest, hits)
    } else {
        let n = evict_oldest(interest, hits);
        if n.0.len() < interest.len() { evict_to_total(n.0, n.1, max) } else { (interest, hits) }
    }
}

proof fn lemma_oldest_interest_unique(s: Seq<(KadId, u64)>, i: int)
    requires
        is_oldest_interest(s, i),
    ensures
        oldest_interest(s) == i,
{
    let j = oldest_interest(s);
    if j != i {
        lemma_rank_lt_asym(s[i].1, s[i].0.0@, s[j].1, s[j].0.0@);
    }
}

proof fn lemma_interest_remove_distinct(s: Seq<(KadId, u64)>, i: int)
    requires
        interest_distinct(s),
        0 <= i < s.len(),
    ensures
        interest_distinct(s.remove(i)),
{
    let r = s.remove(i);
    assert forall|a: int, b: int| 0 <= a < b < r.len() implies (#[trigger] r[a]).0.0@ != (#[trigger] r[b]).0.0@ by {
        let a2 = if a < i { a } else { a + 1 };
        let b2 = if b < i { b } else { b + 1 };
        assert(r[a] == s[a2] && r[b] == s[b2]);
    }
}

/// The index of the oldest interest of a non-empty list.
fn oldest_interest_exec(s: &Vec<(KadId, u64)>) -> (best: usize)
    requires
        s@.len() > 0,
        interest_distinct(s@),
    ensures
        best < s@.len(),
        best == oldest_interest(s@),
{
    let mut best: usize = 0;
    let mut i: usize = 1;
    while i < s.len()
        invariant
            1 <= i <= s@.len(),
            best < i,
            interest_distinct(s@),
            forall|j: int| 0 <= j < i && j != best ==> rank_lt(s@[best as int].1, s@[best as int].0.0@, (#[trigger] s@[j]).1, s@[j].0.0@),
        decreases s@.len() - i,
    {
        let older = s[i].1 < s[best].1 || (s[i].1 == s[best].1 && id_lt(&s[i].0.0, &s[best].0.0));
        if older {
            proof {
                assert forall|j: int| 0 <= j < i + 1 && j != i implies rank_lt(s@[i as int].1, s@[i as int].0.0@, (#[trigger] s@[j]).1, s@[j].0.0@) by {
                    if j != best {
                        lemma_rank_lt_trans(s@[i as int].1, s@[i as int].0.0@, s@[best as int].1, s@[best as int].0.0@, s@[j].1, s@[j].0.0@);
                    }
                }
            }
            best = i;
        } else {
            proof {
                if s@[best as int].1 == s@[i as int].1 {
                    lemma_bytes_lt_total(s@[best as int].0.0@, s@[i as int].0.0@);
                }
            }
        }
        i += 1;
    }
    proof {
        lemma_oldest_interest_unique(s@, best as int);
    }
    best
}

/// Results of our own keyword searches, kept for the keywords we are
/// interested in (with the time of the last interest).
#[derive(Debug)]
pub struct KeywordCache {
    pub hits: KeywordHits,
    pub interest: Vec<(KadId, u64)>,
}

impl KeywordCache {
    pub open spec fn wf(&self) -> bool {
        self.hits.wf() && interest_distinct(self.interest@)
    }

    pub fn new() -> (c: KeywordCache)
        ensures
            c.wf(),
            c.hits.entries@.len() == 0,
            c.interest@.len() == 0,
    {
        KeywordCache { hits: KeywordHits::new(), interest: Vec::new() }
    }

    fn evict_oldest_interest(&mut self)
        requires
            old(self).wf(),
            old(self).interest@.len() > 0,
        ensures
            final(self).wf(),
            (final(self).interest@, final(self).hits.entries@) == evict_oldest(old(self).interest@, old(self).hits.entries@),
            final(self).interest@.len() == old(self).interest@.len() - 1,
    {
        let i = oldest_interest_exec(&self.interest);
        let kw = self.interest[i].0;
        proof {
            lemma_interest_remove_distinct(self.interest@, i as int);
        }
        self.interest.remove(i);
        self.hits.remove_keyword(&kw);
        proof {
            let k = old(self).interest@[i as int].0.0@;
            assert((|e: KeywordEntry| e.keyword.0@ != kw.0@) =~= (|e: KeywordEntry| e.keyword.0@ != k));
        }
    }

    /// Evicts the oldest interests, with their hits, while more than `max`
    /// remain.
    pub fn evict_interest_to_count(&mut self, max: usize)
        requires
            old(self).wf(),
        ensures
            final(self).wf(),
            (final(self).interest@, final(self).hits.entries@) == evict_to_count(old(self).interest@, old(self).hits.entries@, max as nat),
    {
        while self.interest.len() > max
            invariant
                self.wf(),
                evict_to_count(self.interest@, self.hits.entries@, max as nat) == evict_to_count(old(self).interest@, old(self).hits.entries@, max as nat),
            decreases self.interest@.len(),
        {
            self.evict_oldest_interest();
        }
    }

    /// Evicts the oldest interests, with their hits, while more than
    /// `max_total` hits remain and an interest is left.
    pub fn evict_interest_to_total(&mut self, max_total: usize)
        requires
            old(self).wf(),
        ensures
            final(self).wf(),
            (final(self).interest@, final(self).hits.entries@) == evict_to_total(old(self).interest@, old(self).hits.entries@, max_total as nat),
    {
        while self.hits.len() > max_total && self.interest.len() > 0
            invariant
                self.wf(),
                evict_to_total(self.interest@, self.hits.entries@, max_total as nat) == evict_to_total(old(self).interest@, old(self).hits.entries@, max_total as nat),
            decreases self.interest@.len(),
        {
            self.evict_oldest_interest();
        }
    }
}


/// The keywords of sorted entries, each once, in order.
pub open spec fn keywords_of(s: Seq<KeywordEntry>) -> Seq<Seq<u8>>
    decreases s.len(),
{
    if s.len() == 0 {
        Seq::empty()
    } else if s.len() == 1 || s[s.len() - 2].keyword.0@ != s.last().keyword.0@ {
        keywords_of(s.drop_last()).push(s.last().keyword.0@)
    } else {
        keywords_of(s.drop_last())
    }
}

/// `prune_keyword_spec` for each of `kws` in turn.
pub open spec fn prune_each(s: Seq<KeywordEntry>, kws: Seq<Seq<u8>>, per: nat) -> Seq<KeywordEntry>
    decreases kws.len(),
{
    if kws.len() == 0 { s } else { prune_keyword_spec(prune_each(s, kws.drop_last(), per), kws.last(), per) }
}

/// `s` with `e` in place of the entry with its key, or added in order.
pub open spec fn upserted(s: Seq<KeywordEntry>, e: KeywordEntry) -> Seq<KeywordEntry> {
    if has_key(s, ekey(e)) { s.update(key_index(s, ekey(e)), e) } else { insert_sorted(s, e) }
}

/// The cache after its size limits: at most `per` hits per keyword (none
/// when `per` is zero), then the oldest interests go until at most
/// `max_total` hits remain (no limit when it is zero).
pub open spec fn size_limited(interest: Seq<(KadId, u64)>, hits: Seq<KeywordEntry>, per: usize, max_total: usize)
    -> (Seq<(KadId, u64)>, Seq<KeywordEntry>)
{
    let h1 = if per == 0 { hits } else { prune_each(hits, keywords_of(hits), per as nat) };
    if max_total == 0 { (interest, h1) } else { evict_to_total(interest, h1, max_total as nat) }
}

/// The cache after its keyword limit: everything goes when it is zero,
/// else the oldest interests go until at most `max` remain.
pub open spec fn interest_limited(interest: Seq<(KadId, u64)>, hits: Seq<KeywordEntry>, max: usize)
    -> (Seq<(KadId, u64)>, Seq<KeywordEntry>)
{
    if max == 0 { (Seq::empty(), Seq::empty()) } else { evict_to_count(interest, hits, max as nat) }
}

pub open spec fn interest_index(s: Seq<(KadId, u64)>, kw: Seq<u8>) -> int {
    choose|i: int| 0 <= i < s.len() && (#[trigger] s[i]).0.0@ == kw
}

pub open spec fn is_interested(s: Seq<(KadId, u64)>, kw: Seq<u8>) -> bool {
    exists|i: int| 0 <= i < s.len() && (#[trigger] s[i]).0.0@ == kw
}

/// The interests after touching `kw` at `now`.
pub open spec fn touched_interest(s: Seq<(KadId, u64)>, kw: KadId, now: u64) -> Seq<(KadId, u64)> {
    if is_interested(s, kw.0@) { s.update(interest_index(s, kw.0@), (kw, now)) } else { s.push((kw, now)) }
}

/// Nanoseconds in `secs` seconds, at least `min_secs`, saturating.
pub open spec fn ttl_nanos(secs: u64, min_secs: u64) -> u64 {
    let s = if secs >= min_secs { secs } else { min_secs };
    if s * 1_000_000_000 > u64::MAX { u64::MAX } else { (s * 1_000_000_000) as u64 }
}

fn ttl_nanos_exec(secs: u64, min_secs: u64) -> (r: u64)
    ensures
        r == ttl_nanos(secs, min_secs),
{
    let s = if secs >= min_secs { secs } else { min_secs };
    match s.checked_mul(1_000_000_000) {
        Some(v) => v,
        None => u64::MAX,
    }
}

/// The interests still fresh (`keep`) or expired (`!keep`) at `now`.
pub open spec fn interest_by_age(s: Seq<(KadId, u64)>, now: u64, ttl: u64, keep: bool) -> Seq<(KadId, u64)>
    decreases s.len(),
{
    if s.len() == 0 {
        s
    } else {
        let p = interest_by_age(s.drop_last(), now, ttl, keep);
        if (age_at(now, s.last().1) < ttl) == keep { p.push(s.last()) } else { p }
    }
}

pub open spec fn interest_ids(s: Seq<(KadId, u64)>) -> Seq<Seq<u8>> {
    s.map_values(|p: (KadId, u64)| p.0.0@)
}

/// The cache after its periodic upkeep at `now`: interests older than the
/// interest lifetime go with their hits; then hits older than the result
/// lifetime go, and (when interest is required) so do hits of keywords no
/// longer of interest; then the keyword limit and the size limits apply.
pub open spec fn maintained(interest: Seq<(KadId, u64)>, hits: Seq<KeywordEntry>, cfg: KadServiceConfig, now: u64)
    -> (Seq<(KadId, u64)>, Seq<KeywordEntry>)
{
    let ti = ttl_nanos(cfg.keyword_interest_ttl_secs, 60);
    let tr = ttl_nanos(cfg.keyword_results_ttl_secs, 60);
    let i1 = interest_by_age(interest, now, ti, true);
    let gone = interest_ids(interest_by_age(interest, now, ti, false));
    let h1 = keep_entries(hits, |e: KeywordEntry| {
        &&& age_at(now, e.last_seen) < tr
        &&& !gone.contains(e.keyword.0@)
        &&& (cfg.keyword_require_interest ==> interest_ids(i1).contains(e.keyword.0@))
    });
    let (i2, h2) = interest_limited(i1, h1, cfg.keyword_max_keywords);
    size_limited(i2, h2, cfg.keyword_max_hits_per_keyword, cfg.keyword_max_total_hits)
}

proof fn lemma_interest_by_age_distinct(s: Seq<(KadId, u64)>, now: u64, ttl: u64, keep: bool)
    requires
        interest_distinct(s),
    ensures
        interest_distinct(interest_by_age(s, now, ttl, keep)),
        forall|x: (KadId, u64)| interest_by_age(s, now, ttl, keep).contains(x) ==> s.contains(x),
    decreases s.len(),
{
    if s.len() > 0 {
        let t = s.drop_last();
        assert forall|a: int, b: int| 0 <= a < b < t.len() implies (#[trigger] t[a]).0.0@ != (#[trigger] t[b]).0.0@ by {
            assert(t[a] == s[a] && t[b] == s[b]);
        }
        lemma_interest_by_age_distinct(t, now, ttl, keep);
        let p = interest_by_age(t, now, ttl, keep);
        assert forall|x: (KadId, u64)| interest_by_age(s, now, ttl, keep).contains(x) implies s.contains(x) by {
            let r = interest_by_age(s, now, ttl, keep);
            let k = choose|k: int| 0 <= k < r.len() && r[k] == x;
            if k < p.len() {
                assert(p[k] == x);
                assert(p.contains(x));
                assert(t.contains(x));
                let j = choose|j: int| 0 <= j < t.len() && t[j] == x;
                assert(s[j] == x);
            } else {
                assert(s[s.len() - 1] == x);
            }
        }
        if (age_at(now, s.last().1) < ttl) == keep {
            let r = p.push(s.last());
            assert forall|a: int, b: int| 0 <= a < b < r.len() implies (#[trigger] r[a]).0.0@ != (#[trigger] r[b]).0.0@ by {
                if b == r.len() - 1 {
                    assert(r[a] == p[a]);
                    assert(p.contains(r[a]));
                    assert(t.contains(r[a]));
                    let j = choose|j: int| 0 <= j < t.len() && t[j] == r[a];
                    assert(s[j] == t[j]);
                } else {
                    assert(r[a] == p[a] && r[b] == p[b]);
                }
            }
        }
    }
}

fn interest_by_age_exec(s: &Vec<(KadId, u64)>, now: u64, ttl: u64, keep: bool) -> (r: Vec<(KadId, u64)>)
    ensures
        r@ == interest_by_age(s@, now, ttl, keep),
{
    let mut r: Vec<(KadId, u64)> = Vec::new();
    let mut i: usize = 0;
    while i < s.len()
        invariant
            i <= s@.len(),
            r@ == interest_by_age(s@.take(i as int), now, ttl, keep),
        decreases s@.len() - i,
    {
        assert(s@.take(i + 1).drop_last() =~= s@.take(i as int));
        let t = s[i].1;
        let age: u64 = if now >= t { now - t } else { 0 };
        if (age < ttl) == keep {
            r.push(s[i]);
        }
        i += 1;
    }
    assert(s@.take(s@.len() as int) =~= s@);
    r
}

fn interest_ids_exec(s: &Vec<(KadId, u64)>) -> (r: Vec<KadId>)
    ensures
        ids_of(r@) == interest_ids(s@),
{
    let mut r: Vec<KadId> = Vec::new();
    let mut i: usize = 0;
    while i < s.len()
        invariant
            i <= s@.len(),
            ids_of(r@) == interest_ids(s@.take(i as int)),
        decreases s@.len() - i,
    {
        assert(s@.take(i + 1) =~= s@.take(i as int).push(s@[i as int]));
        let ghost r0 = r@;
        r.push(s[i].0);
        assert(r@ == r0.push(s@[i as int].0));
        assert(ids_of(r@) =~= ids_of(r0).push(s@[i as int].0.0@));
        assert(interest_ids(s@.take(i + 1)) =~= interest_ids(s@.take(i as int)).push(s@[i as int].0.0@));
        i += 1;
    }
    assert(s@.take(s@.len() as int) =~= s@);
    r
}

impl KeywordHits {
    /// The keywords present, each once, in order.
    pub fn keywords(&self) -> (r: Vec<KadId>)
        ensures
            ids_of(r@) == keywords_of(self.entries@),
    {
        let ghost s = self.entries@;
        let mut r: Vec<KadId> = Vec::new();
        let mut i: usize = 0;
        while i < self.entries.len()
            invariant
                i <= s.len(),
                s == self.entries@,
                ids_of(r@) == keywords_of(s.take(i as int)),
            decreases s.len() - i,
        {
            let ghost t = s.take(i + 1);
            assert(t.drop_last() =~= s.take(i as int));
            if i == 0 || self.entries[i - 1].keyword != self.entries[i].keyword {
                r.push(self.entries[i].keyword);
                assert(ids_of(r@) =~= keywords_of(s.take(i as int)).push(s[i as int].keyword.0@));
            }
            i += 1;
        }
        assert(s.take(s.len() as int) =~= s);
        r
    }

    /// At most `per` hits per keyword: the oldest of each go.
    pub fn prune_all(&mut self, per: usize)
        requires
            old(self).wf(),
        ensures
            final(self).wf(),
            final(self).entries@ == prune_each(old(self).entries@, keywords_of(old(self).entries@), per as nat),
    {
        let kws = self.keywords();
        let ghost ks = ids_of(kws@);
        let ghost s0 = self.entries@;
        let mut i: usize = 0;
        while i < kws.len()
            invariant
                i <= kws@.len(),
                ks == ids_of(kws@),
                ks == keywords_of(s0),
                self.wf(),
                self.entries@ == prune_each(s0, ks.take(i as int), per as nat),
            decreases kws@.len() - i,
        {
            assert(ks.take(i + 1).drop_last() =~= ks.take(i as int));
            assert(ks.take(i + 1).last() == kws@[i as int].0@);
            self.prune_keyword(&kws[i], per);
            i += 1;
        }
        assert(ks.take(ks.len() as int) =~= ks);
    }
}

impl KeywordCache {
    fn interest_pos(&self, kw: &KadId) -> (r: Option<usize>)
        requires
            interest_distinct(self.interest@),
        ensures
            match r {
                Some(i) => i < self.interest@.len() && i == interest_index(self.interest@, kw.0@)
                    && is_interested(self.interest@, kw.0@),
                None => !is_interested(self.interest@, kw.0@),
            },
    {
        let mut i: usize = 0;
        while i < self.interest.len()
            invariant
                i <= self.interest@.len(),
                interest_distinct(self.interest@),
                forall|j: int| 0 <= j < i ==> (#[trigger] self.interest@[j]).0.0@ != kw.0@,
            decreases self.interest@.len() - i,
        {
            if self.interest[i].0 == *kw {
                proof {
                    assert(self.interest@[i as int].0.0@ == kw.0@);
                    assert(is_interested(self.interest@, kw.0@));
                    let j = interest_index(self.interest@, kw.0@);
                    if j != i {
                        if j < i { assert(self.interest@[j].0.0@ != self.interest@[i as int].0.0@); }
                        else { assert(self.interest@[i as int].0.0@ != self.interest@[j].0.0@); }
                    }
                }
                return Some(i);
            }
            i += 1;
        }
        None
    }

    /// Whether `kw` is of interest.
    pub fn is_interested(&self, kw: &KadId) -> (b: bool)
        requires
            self.wf(),
        ensures
            b == is_interested(self.interest@, kw.0@),
    {
        self.interest_pos(kw).is_some()
    }

    /// Forgets every hit and interest; returns how many keywords had hits
    /// and how many hits there were.
    pub fn drop_all(&mut self) -> (r: (usize, usize))
        requires
            old(self).wf(),
        ensures
            final(self).wf(),
            final(self).hits.entries@.len() == 0,
            final(self).interest@.len() == 0,
            r == (keyword_count(old(self).hits.entries@) as usize, old(self).hits.entries@.len() as usize),
    {
        let keywords = self.hits.keyword_count();
        let hits = self.hits.len();
        self.hits = KeywordHits::new();
        self.interest = Vec::new();
        (keywords, hits)
    }

    /// Applies the keyword limit.
    pub fn enforce_interest_limit(&mut self, max_keywords: usize)
        requires
            old(self).wf(),
        ensures
            final(self).wf(),
            (final(self).interest@, final(self).hits.entries@)
                == interest_limited(old(self).interest@, old(self).hits.entries@, max_keywords),
    {
        if max_keywords == 0 {
            self.drop_all();
            assert(self.interest@ =~= Seq::<(KadId, u64)>::empty());
            assert(self.hits.entries@ =~= Seq::<KeywordEntry>::empty());
            return;
        }
        self.evict_interest_to_count(max_keywords);
    }

    /// Applies the size limits.
    pub fn enforce_size_limits(&mut self, per: usize, max_total: usize)
        requires
            old(self).wf(),
        ensures
            final(self).wf(),
            (final(self).interest@, final(self).hits.entries@)
                == size_limited(old(self).interest@, old(self).hits.entries@, per, max_total),
    {
        if per != 0 {
            self.hits.prune_all(per);
        }
        if max_total != 0 {
            self.evict_interest_to_total(max_total);
        }
    }

    /// Marks `kw` as of interest at `now`, then applies the keyword limit.
    pub fn touch_interest(&mut self, max_keywords: usize, kw: KadId, now: u64)
        requires
            old(self).wf(),
        ensures
            final(self).wf(),
            (final(self).interest@, final(self).hits.entries@) == interest_limited(
                touched_interest(old(self).interest@, kw, now), old(self).hits.entries@, max_keywords),
    {
        match self.interest_pos(&kw) {
            Some(i) => {
                self.interest.set(i, (kw, now));
                assert forall|a: int, b: int| 0 <= a < b < self.interest@.len() implies
                    (#[trigger] self.interest@[a]).0.0@ != (#[trigger] self.interest@[b]).0.0@ by {
                    assert(self.interest@[a].0.0@ == old(self).interest@[a].0.0@);
                    assert(self.interest@[b].0.0@ == old(self).interest@[b].0.0@);
                }
            },
            None => {
                self.interest.push((kw, now));
                assert forall|a: int, b: int| 0 <= a < b < self.interest@.len() implies
                    (#[trigger] self.interest@[a]).0.0@ != (#[trigger] self.interest@[b]).0.0@ by {
                    if b == self.interest@.len() - 1 {
                        assert(self.interest@[a] == old(self).interest@[a]);
                    } else {
                        assert(self.interest@[a] == old(self).interest@[a] && self.interest@[b] == old(self).interest@[b]);
                    }
                }
            },
        }
        self.enforce_interest_limit(max_keywords);
    }

    /// Adds or refreshes a search hit for `kw` seen at `now` (ignored when
    /// interest is required and `kw` is not of interest), then applies the
    /// size limits.
    pub fn upsert_hit(&mut self, cfg: &KadServiceConfig, now: u64, kw: KadId, hit: KadKeywordHit)
        requires
            old(self).wf(),
        ensures
            final(self).wf(),
            if cfg.keyword_require_interest && !is_interested(old(self).interest@, kw.0@) {
                *final(self) == *old(self)
            } else {
                (final(self).interest@, final(self).hits.entries@) == size_limited(old(self).interest@,
                    upserted(old(self).hits.entries@, KeywordEntry { keyword: kw, last_seen: now, hit }),
                    cfg.keyword_max_hits_per_keyword, cfg.keyword_max_total_hits)
            },
    {
        if cfg.keyword_require_interest && !self.is_interested(&kw) {
            return;
        }
        self.hits.upsert(KeywordEntry { keyword: kw, last_seen: now, hit });
        self.enforce_size_limits(cfg.keyword_max_hits_per_keyword, cfg.keyword_max_total_hits);
    }

    /// The periodic upkeep at `now`.
    pub fn maintain(&mut self, cfg: &KadServiceConfig, now: u64)
        requires
            old(self).wf(),
        ensures
            final(self).wf(),
            (final(self).interest@, final(self).hits.entries@) == maintained(old(self).interest@, old(self).hits.entries@, *cfg, now),
    {
        let ti = ttl_nanos_exec(cfg.keyword_interest_ttl_secs, 60);
        let tr = ttl_nanos_exec(cfg.keyword_results_ttl_secs, 60);
        let fresh = interest_by_age_exec(&self.interest, now, ti, true);
        let stale = interest_by_age_exec(&self.interest, now, ti, false);
        proof {
            lemma_interest_by_age_distinct(self.interest@, now, ti, true);
        }
        let dropped = interest_ids_exec(&stale);
        let wanted = interest_ids_exec(&fresh);
        self.interest = fresh;
        let rule = KeepRule::Wanted { now, ttl: tr, dropped, require: cfg.keyword_require_interest, wanted };
        self.hits.retain(&rule);
        proof {
            let i1 = interest_by_age(old(self).interest@, now, ti, true);
            let gone = interest_ids(interest_by_age(old(self).interest@, now, ti, false));
            assert((|e: KeywordEntry| rule_keeps(rule, e)) =~= (|e: KeywordEntry| {
                &&& age_at(now, e.last_seen) < tr
                &&& !gone.contains(e.keyword.0@)
                &&& (cfg.keyword_require_interest ==> interest_ids(i1).contains(e.keyword.0@))
            }));
        }
        self.enforce_interest_limit(cfg.keyword_max_keywords);
        self.enforce_size_limits(cfg.keyword_max_hits_per_keyword, cfg.keyword_max_total_hits);
    }
}


/// The most recent `last_seen` among the hits of `kw` (zero without any).
pub open spec fn kw_last(s: Seq<KeywordEntry>, kw: Seq<u8>) -> u64
    decreases s.len(),
{
    if s.len() == 0 {
        0
    } else {
        let p = kw_last(s.drop_last(), kw);
        if s.last().keyword.0@ == kw && s.last().last_seen > p { s.last().last_seen } else { p }
    }
}

pub open spec fn has_kw(s: Seq<KeywordEntry>, kw: Seq<u8>) -> bool {
    exists|j: int| 0 <= j < s.len() && (#[trigger] s[j]).keyword.0@ == kw
}

/// `kw` is the keyword whose newest hit is oldest (ties by keyword).
pub open spec fn is_stalest(s: Seq<KeywordEntry>, kw: Seq<u8>) -> bool {
    &&& has_kw(s, kw)
    &&& forall|j: int| 0 <= j < s.len() && (#[trigger] s[j]).keyword.0@ != kw
        ==> rank_lt(kw_last(s, kw), kw, kw_last(s, s[j].keyword.0@), s[j].keyword.0@)
}

pub open spec fn stalest(s: Seq<KeywordEntry>) -> Seq<u8> {
    choose|kw: Seq<u8>| is_stalest(s, kw)
}

/// Drops the stalest keyword with all its hits.
pub open spec fn evict_stalest(s: Seq<KeywordEntry>) -> Seq<KeywordEntry> {
    let kw = stalest(s);
    keep_entries(s, |e: KeywordEntry| e.keyword.0@ != kw)
}

/// Drops stalest keywords until at most `max` keywords remain.
pub open spec fn store_to_keywords(s: Seq<KeywordEntry>, max: nat) -> Seq<KeywordEntry>
    decreases s.len(),
{
    if keyword_count(s) <= max {
        s
    } else {
        let n = evict_stalest(s);
        if n.len() < s.len() { store_to_keywords(n, max) } else { s }
    }
}

/// Drops stalest keywords until at most `max` hits remain.
pub open spec fn store_to_total(s: Seq<KeywordEntry>, max: nat) -> Seq<KeywordEntry>
    decreases s.len(),
{
    if s.len() <= max {
        s
    } else {
        let n = evict_stalest(s);
        if n.len() < s.len() { store_to_total(n, max) } else { s }
    }
}

/// The keyword store after its limits: empty when either limit is zero,
/// else stalest keywords go until at most `max_keywords` keywords, then
/// until at most `max_total` hits remain.
pub open spec fn store_limited(s: Seq<KeywordEntry>, max_keywords: usize, max_total: usize) -> Seq<KeywordEntry> {
    if max_keywords == 0 || max_total == 0 {
        Seq::empty()
    } else {
        store_to_total(store_to_keywords(s, max_keywords as nat), max_total as nat)
    }
}

proof fn lemma_stalest_unique(s: Seq<KeywordEntry>, kw: Seq<u8>)
    requires
        is_stalest(s, kw),
    ensures
        stalest(s) == kw,
{
    let k2 = stalest(s);
    if k2 != kw {
        let j = choose|j: int| 0 <= j < s.len() && (#[trigger] s[j]).keyword.0@ == k2;
        let i = choose|i: int| 0 <= i < s.len() && (#[trigger] s[i]).keyword.0@ == kw;
        assert(s[j].keyword.0@ != kw);
        assert(s[i].keyword.0@ != k2);
        lemma_rank_lt_asym(kw_last(s, kw), kw, kw_last(s, k2), k2);
    }
}

proof fn lemma_count_kw_pos(s: Seq<KeywordEntry>, kw: Seq<u8>, j: int)
    requires
        0 <= j < s.len(),
        s[j].keyword.0@ == kw,
    ensures
        count_kw(s, kw) > 0,
    decreases s.len(),
{
    if j < s.len() - 1 {
        lemma_count_kw_pos(s.drop_last(), kw, j);
    }
}

fn kw_last_exec(s: &Vec<KeywordEntry>, kw: &KadId) -> (r: u64)
    ensures
        r == kw_last(s@, kw.0@),
{
    let mut r: u64 = 0;
    let mut i: usize = 0;
    while i < s.len()
        invariant
            i <= s@.len(),
            r == kw_last(s@.take(i as int), kw.0@),
        decreases s@.len() - i,
    {
        assert(s@.take(i + 1).drop_last() =~= s@.take(i as int));
        if s[i].keyword == *kw && s[i].last_seen > r {
            r = s[i].last_seen;
        }
        i += 1;
    }
    assert(s@.take(s@.len() as int) =~= s@);
    r
}

impl KeywordHits {
    /// Drops the keyword whose newest hit is oldest, with all its hits.
    fn evict_stalest_keyword(&mut self)
        requires
            old(self).wf(),
            old(self).entries@.len() > 0,
        ensures
            final(self).wf(),
            final(self).entries@ == evict_stalest(old(self).entries@),
            final(self).entries@.len() < old(self).entries@.len(),
    {
        let ghost s = self.entries@;
        let mut best: KadId = self.entries[0].keyword;
        let mut best_last = kw_last_exec(&self.entries, &best);
        let mut i: usize = 1;
        while i < self.entries.len()
            invariant
                1 <= i <= s.len(),
                s == self.entries@,
                best_last == kw_last(s, best.0@),
                exists|b: int| 0 <= b < i && (#[trigger] s[b]).keyword.0@ == best.0@,
                forall|j: int| 0 <= j < i && (#[trigger] s[j]).keyword.0@ != best.0@
                    ==> rank_lt(best_last, best.0@, kw_last(s, s[j].keyword.0@), s[j].keyword.0@),
            decreases s.len() - i,
        {
            let cand = self.entries[i].keyword;
            let cl = kw_last_exec(&self.entries, &cand);
            if cand != best {
                let better = cl < best_last || (cl == best_last && id_lt(&cand.0, &best.0));
                if better {
                    proof {
                        assert forall|j: int| 0 <= j < i + 1 && (#[trigger] s[j]).keyword.0@ != cand.0@
                            implies rank_lt(cl, cand.0@, kw_last(s, s[j].keyword.0@), s[j].keyword.0@) by {
                            if s[j].keyword.0@ != best.0@ {
                                lemma_rank_lt_trans(cl, cand.0@, best_last, best.0@, kw_last(s, s[j].keyword.0@), s[j].keyword.0@);
                            }
                        }
                        assert(s[i as int].keyword.0@ == cand.0@);
                    }
                    best = cand;
                    best_last = cl;
                } else {
                    proof {
                        assert(s[i as int].keyword.0@ != best.0@);
                        lemma_bytes_lt_total(cand.0@, best.0@);
                    }
                }
            }
            i += 1;
        }
        proof {
            let b = choose|b: int| 0 <= b < s.len() && (#[trigger] s[b]).keyword.0@ == best.0@;
            assert(has_kw(s, best.0@));
            lemma_stalest_unique(s, best.0@);
            lemma_count_kw_pos(s, best.0@, b);
        }
        self.remove_keyword(&best);
        proof {
            let k = stalest(s);
            assert((|e: KeywordEntry| e.keyword.0@ != best.0@) =~= (|e: KeywordEntry| e.keyword.0@ != k));
            lemma_keep_other_keyword_count(s, best.0@, |e: KeywordEntry| e.keyword.0@ != best.0@);
        }
    }

    /// Applies the keyword store's limits.
    pub fn enforce_store_limits(&mut self, max_keywords: usize, max_total: usize)
        requires
            old(self).wf(),
        ensures
            final(self).wf(),
            final(self).entries@ == store_limited(old(self).entries@, max_keywords, max_total),
    {
        if max_keywords == 0 || max_total == 0 {
            self.entries = Vec::new();
            assert(self.entries@ =~= Seq::<KeywordEntry>::empty());
            return;
        }
        let ghost s0 = self.entries@;
        while self.keyword_count() > max_keywords
            invariant
                self.wf(),
                store_to_keywords(self.entries@, max_keywords as nat) == store_to_keywords(s0, max_keywords as nat),
            decreases self.entries@.len(),
        {
            proof {
                if self.entries@.len() == 0 {
                    assert(keyword_count(self.entries@) == 0);
                }
            }
            self.evict_stalest_keyword();
        }
        let ghost s1 = self.entries@;
        while self.entries.len() > max_total
            invariant
                self.wf(),
                store_to_total(self.entries@, max_total as nat) == store_to_total(s1, max_total as nat),
            decreases self.entries@.len(),
        {
            self.evict_stalest_keyword();
        }
    }

    /// The keyword store's periodic upkeep at `now`: hits older than the
    /// eviction age (at least a minute) go, then the limits apply.
    pub fn maintain_store(&mut self, cfg: &KadServiceConfig, now: u64)
        requires
            old(self).wf(),
        ensures
            final(self).wf(),
            final(self).entries@ == store_limited(keep_entries(old(self).entries@,
                |e: KeywordEntry| age_at(now, e.last_seen) < ttl_nanos(cfg.store_keyword_evict_age_secs, 60)),
                cfg.store_keyword_max_keywords, cfg.store_keyword_max_total_hits),
    {
        let ttl = ttl_nanos_exec(cfg.store_keyword_evict_age_secs, 60);
        let rule = KeepRule::Fresh { now, ttl };
        self.retain(&rule);
        proof {
            assert((|e: KeywordEntry| rule_keeps(rule, e)) =~= (|e: KeywordEntry| age_at(now, e.last_seen) < ttl));
        }
        self.enforce_store_limits(cfg.store_keyword_max_keywords, cfg.store_keyword_max_total_hits);
    }
}


/// The entries of keyword `kw`, in file order.
pub open spec fn entries_of(s: Seq<KeywordEntry>, kw: Seq<u8>) -> Seq<KeywordEntry> {
    keep_entries(s, |e: KeywordEntry| e.keyword.0@ == kw)
}

/// At most `max` items of `s` from position `skip` on.
pub open spec fn window<T>(s: Seq<T>, skip: int, max: int) -> Seq<T> {
    if skip >= s.len() { Seq::empty() } else if s.len() - skip <= max { s.skip(skip) } else { s.subrange(skip, skip + max) }
}

pub open spec fn hits_of(s: Seq<KeywordEntry>) -> Seq<KadKeywordHit> {
    s.map_values(|e: KeywordEntry| e.hit)
}

/// The entries after a peer's publish of `e` under `kw` at `now`: entries
/// without a name, with an empty name or without a size are skipped.
pub open spec fn publish_one(s: Seq<KeywordEntry>, kw: KadId, e: Kad2PublishKeyEntry, now: u64) -> (Seq<KeywordEntry>, bool) {
    match (e.filename, e.file_size) {
        (Some(name), Some(size)) => if name@.len() == 0 {
            (s, false)
        } else {
            let k = (kw.0@, e.file.0@);
            if has_key(s, k) {
                let i = key_index(s, k);
                (s.update(i, KeywordEntry {
                    keyword: s[i].keyword,
                    last_seen: now,
                    hit: published_hit(Some(s[i].hit), e.file, name, size, e.file_type),
                }), false)
            } else {
                (insert_sorted(s, KeywordEntry { keyword: kw, last_seen: now, hit: published_hit(None, e.file, name, size, e.file_type) }), true)
            }
        },
        _ => (s, false),
    }
}

/// `publish_one` of each of `es` in turn, with the number of new hits.
pub open spec fn publish_all(s: Seq<KeywordEntry>, kw: KadId, es: Seq<Kad2PublishKeyEntry>, now: u64) -> (Seq<KeywordEntry>, nat)
    decreases es.len(),
{
    if es.len() == 0 {
        (s, 0)
    } else {
        let (p, n) = publish_all(s, kw, es.drop_last(), now);
        let (q, added) = publish_one(p, kw, es.last(), now);
        (q, n + if added { 1nat } else { 0nat })
    }
}

impl KeywordHits {
    /// Up to `max` hits of `kw` from position `skip` on, in file order.
    pub fn hits_for(&self, kw: &KadId, skip: usize, max: usize) -> (r: Vec<KadKeywordHit>)
        ensures
            r@ == window(hits_of(entries_of(self.entries@, kw.0@)), skip as int, max as int),
    {
        let ghost s = self.entries@;
        let ghost keep = |e: KeywordEntry| e.keyword.0@ == kw.0@;
        let mut all: Vec<KadKeywordHit> = Vec::new();
        let mut i: usize = 0;
        while i < self.entries.len()
            invariant
                i <= s.len(),
                s == self.entries@,
                keep == (|e: KeywordEntry| e.keyword.0@ == kw.0@),
                all@ == hits_of(keep_entries(s.take(i as int), keep)),
                all@.len() <= i,
            decreases s.len() - i,
        {
            assert(s.take(i + 1).drop_last() =~= s.take(i as int));
            assert(s.take(i + 1).last() == s[i as int]);
            if self.entries[i].keyword == *kw {
                let ghost a0 = all@;
                all.push(copy_hit(&self.entries[i].hit));
                assert(all@ =~= hits_of(keep_entries(s.take(i as int), keep).push(s[i as int])));
            }
            i += 1;
        }
        assert(s.take(s.len() as int) =~= s);
        let ghost h = all@;
        let mut out: Vec<KadKeywordHit> = Vec::new();
        if skip < all.len() {
            let end: usize = if all.len() - skip <= max { all.len() } else { skip + max };
            let mut j: usize = skip;
            while j < end
                invariant
                    skip <= j <= end,
                    end <= h.len(),
                    h == all@,
                    out@ == h.subrange(skip as int, j as int),
                decreases end - j,
            {
                out.push(copy_hit(&all[j]));
                j += 1;
                assert(out@ =~= h.subrange(skip as int, j as int));
            }
            assert(h.skip(skip as int) =~= h.subrange(skip as int, h.len() as int));
        }
        assert(out@ =~= window(h, skip as int, max as int));
        out
    }

    /// Stores the entries a peer published under `keyword` at `now` (those
    /// with a non-empty name and a size), then applies the store limits
    /// when any hit is new. Returns the number of new hits.
    pub fn accept_publish(&mut self, cfg: &KadServiceConfig, keyword: KadId, entries: Vec<Kad2PublishKeyEntry>, now: u64)
        -> (inserted: u64)
        requires
            old(self).wf(),
        ensures
            final(self).wf(),
            ({
                let (s1, n) = publish_all(old(self).entries@, keyword, entries@, now);
                &&& inserted == n
                &&& final(self).entries@ == if n > 0 {
                        store_limited(s1, cfg.store_keyword_max_keywords, cfg.store_keyword_max_total_hits)
                    } else {
                        s1
                    }
            }),
    {
        let ghost es = entries@;
        let ghost s0 = self.entries@;
        let mut inserted: u64 = 0;
        let total_n = entries.len();
        let mut rest = entries;
        let mut k: usize = 0;
        while rest.len() > 0
            invariant
                self.wf(),
                k + rest@.len() == es.len(),
                es.len() == total_n,
                rest@ == es.skip(k as int),
                (self.entries@, inserted as nat) == publish_all(s0, keyword, es.take(k as int), now),
                inserted <= k,
            decreases rest@.len(),
        {
            let e = rest.remove(0);
            assert(e == es[k as int]);
            assert(es.take(k + 1).drop_last() =~= es.take(k as int));
            assert(es.take(k + 1).last() == e);
            let ghost p = self.entries@;
            match (e.filename, e.file_size) {
                (Some(name), Some(size)) => {
                    if name.as_str().unicode_len() > 0 {
                        let added = self.publish(keyword, e.file, name, size, e.file_type, now);
                        if added {
                            inserted += 1;
                        }
                    }
                },
                _ => {},
            }
            k += 1;
            assert(rest@ =~= es.skip(k as int));
        }
        assert(es.take(es.len() as int) =~= es);
        if inserted > 0 {
            self.enforce_store_limits(cfg.store_keyword_max_keywords, cfg.store_keyword_max_total_hits);
        }
        inserted
    }
}


proof fn lemma_oldest_interest_exists(s: Seq<(KadId, u64)>)
    requires
        s.len() > 0,
        interest_distinct(s),
    ensures
        is_oldest_interest(s, oldest_interest(s)),
    decreases s.len(),
{
    let n = s.len() - 1;
    let m: int = if n == 0 {
        0
    } else {
        let t = s.drop_last();
        assert forall|a: int, b: int| 0 <= a < b < t.len() implies (#[trigger] t[a]).0.0@ != (#[trigger] t[b]).0.0@ by {
            assert(t[a] == s[a] && t[b] == s[b]);
        }
        lemma_oldest_interest_exists(t);
        let i = oldest_interest(t);
        assert(s[i] == t[i]);
        assert(s[i].0.0@ != s[n].0.0@);
        lemma_bytes_lt_total(s[i].0.0@, s[n].0.0@);
        if rank_lt(s[n].1, s[n].0.0@, s[i].1, s[i].0.0@) {
            assert forall|j: int| 0 <= j < s.len() && j != n implies rank_lt(s[n].1, s[n].0.0@, (#[trigger] s[j]).1, s[j].0.0@) by {
                if j != i {
                    assert(t[j] == s[j]);
                    lemma_rank_lt_trans(s[n].1, s[n].0.0@, s[i].1, s[i].0.0@, s[j].1, s[j].0.0@);
                }
            }
            n
        } else {
            assert forall|j: int| 0 <= j < s.len() && j != i implies rank_lt(s[i].1, s[i].0.0@, (#[trigger] s[j]).1, s[j].0.0@) by {
                if j != n {
                    assert(t[j] == s[j]);
                }
            }
            i
        }
    };
    assert(is_oldest_interest(s, m));
    lemma_oldest_interest_unique(s, m);
}

proof fn lemma_evict_to_count_len(interest: Seq<(KadId, u64)>, hits: Seq<KeywordEntry>, max: nat)
    requires
        interest_distinct(interest),
    ensures
        evict_to_count(interest, hits, max).0.len() <= max,
    decreases interest.len(),
{
    if interest.len() > max {
        lemma_oldest_interest_exists(interest);
        let i = oldest_interest(interest);
        lemma_interest_remove_distinct(interest, i);
        let n = evict_oldest(interest, hits);
        lemma_evict_to_count_len(n.0, n.1, max);
    }
}

/// The keyword limit holds afterwards: at most `max` interests remain.
pub proof fn law_interest_limit_holds(interest: Seq<(KadId, u64)>, hits: Seq<KeywordEntry>, max: usize)
    requires
        interest_distinct(interest),
    ensures
        interest_limited(interest, hits, max).0.len() <= max,
{
    if max > 0 {
        lemma_evict_to_count_len(interest, hits, max as nat);
    }
}

/// Index `i` holds the oldest hit of `kw` among the first `n` entries.
pub open spec fn oldest_in_prefix(s: Seq<KeywordEntry>, kw: Seq<u8>, n: int, i: int) -> bool {
    &&& 0 <= i < n
    &&& s[i].keyword.0@ == kw
    &&& forall|j: int| 0 <= j < n && j != i && (#[trigger] s[j]).keyword.0@ == kw
        ==> rank_lt(s[i].last_seen, s[i].hit.file_id.0@, s[j].last_seen, s[j].hit.file_id.0@)
}

proof fn lemma_oldest_hit_exists(s: Seq<KeywordEntry>, kw: Seq<u8>, n: int) -> (i: int)
    requires
        entries_sorted(s),
        0 < n <= s.len(),
        exists|j: int| 0 <= j < n && (#[trigger] s[j]).keyword.0@ == kw,
    ensures
        oldest_in_prefix(s, kw, n, i),
    decreases n,
{
    let k = n - 1;
    if !(exists|j: int| 0 <= j < k && (#[trigger] s[j]).keyword.0@ == kw) {
        assert(s[k].keyword.0@ == kw);
        k
    } else {
        let i = lemma_oldest_hit_exists(s, kw, k);
        if s[k].keyword.0@ != kw {
            i
        } else {
            assert(pair_lt(ekey(s[i]), ekey(s[k])));
            lemma_bytes_lt_irreflexive(kw);
            lemma_bytes_lt_total(s[i].hit.file_id.0@, s[k].hit.file_id.0@);
            if rank_lt(s[k].last_seen, s[k].hit.file_id.0@, s[i].last_seen, s[i].hit.file_id.0@) {
                assert forall|j: int| 0 <= j < n && j != k && (#[trigger] s[j]).keyword.0@ == kw
                    implies rank_lt(s[k].last_seen, s[k].hit.file_id.0@, s[j].last_seen, s[j].hit.file_id.0@) by {
                    if j != i {
                        lemma_rank_lt_trans(s[k].last_seen, s[k].hit.file_id.0@, s[i].last_seen, s[i].hit.file_id.0@, s[j].last_seen, s[j].hit.file_id.0@);
                    }
                }
                k
            } else {
                i
            }
        }
    }
}

proof fn lemma_prune_keyword_count(s: Seq<KeywordEntry>, kw: Seq<u8>, max: nat)
    requires
        entries_sorted(s),
    ensures
        count_kw(prune_keyword_spec(s, kw, max), kw) <= max,
        entries_sorted(prune_keyword_spec(s, kw, max)),
    decreases s.len(),
{
    if count_kw(s, kw) > max {
        if !(exists|j: int| 0 <= j < s.len() && (#[trigger] s[j]).keyword.0@ == kw) {
            lemma_count_kw_none(s, kw);
        }
        let i0 = lemma_oldest_hit_exists(s, kw, s.len() as int);
        assert(is_oldest_hit(s, kw, i0));
        lemma_oldest_hit_unique(s, kw, i0);
        lemma_remove_sorted(s, i0);
        lemma_prune_keyword_count(s.remove(i0), kw, max);
    }
}

/// Pruning a keyword leaves at most `max` of its hits.
pub proof fn law_prune_keyword_caps(s: Seq<KeywordEntry>, kw: Seq<u8>, max: nat)
    requires
        entries_sorted(s),
    ensures
        count_kw(prune_keyword_spec(s, kw, max), kw) <= max,
{
    lemma_prune_keyword_count(s, kw, max);
}


/// Index `i`'s keyword is the stalest among the keywords of the first `n`
/// entries.
pub open spec fn stalest_in_prefix(s: Seq<KeywordEntry>, n: int, i: int) -> bool {
    &&& 0 <= i < n
    &&& forall|j: int| 0 <= j < n && (#[trigger] s[j]).keyword.0@ != s[i].keyword.0@
        ==> rank_lt(kw_last(s, s[i].keyword.0@), s[i].keyword.0@, kw_last(s, s[j].keyword.0@), s[j].keyword.0@)
}

proof fn lemma_stalest_exists(s: Seq<KeywordEntry>, n: int) -> (i: int)
    requires
        0 < n <= s.len(),
    ensures
        stalest_in_prefix(s, n, i),
    decreases n,
{
    let k = n - 1;
    if k == 0 {
        0
    } else {
        let i = lemma_stalest_exists(s, k);
        let ki = s[i].keyword.0@;
        let kk = s[k].keyword.0@;
        if kk == ki {
            i
        } else {
            lemma_bytes_lt_total(kk, ki);
            if rank_lt(kw_last(s, kk), kk, kw_last(s, ki), ki) {
                assert forall|j: int| 0 <= j < n && (#[trigger] s[j]).keyword.0@ != kk
                    implies rank_lt(kw_last(s, kk), kk, kw_last(s, s[j].keyword.0@), s[j].keyword.0@) by {
                    if s[j].keyword.0@ != ki {
                        lemma_rank_lt_trans(kw_last(s, kk), kk, kw_last(s, ki), ki, kw_last(s, s[j].keyword.0@), s[j].keyword.0@);
                    }
                }
                k
            } else {
                i
            }
        }
    }
}

proof fn lemma_evict_stalest_shrinks(s: Seq<KeywordEntry>)
    requires
        entries_sorted(s),
        s.len() > 0,
    ensures
        evict_stalest(s).len() < s.len(),
        entries_sorted(evict_stalest(s)),
{
    let i = lemma_stalest_exists(s, s.len() as int);
    let kw = s[i].keyword.0@;
    assert(has_kw(s, kw));
    lemma_stalest_unique(s, kw);
    lemma_count_kw_pos(s, kw, i);
    lemma_keep_other_keyword_count(s, kw, |e: KeywordEntry| e.keyword.0@ != kw);
    lemma_keep_entries_sorted(s, |e: KeywordEntry| e.keyword.0@ != kw);
}

proof fn lemma_keyword_count_empty(s: Seq<KeywordEntry>)
    requires
        s.len() == 0,
    ensures
        keyword_count(s) == 0,
{
}

proof fn lemma_store_to_keywords_bound(s: Seq<KeywordEntry>, max: nat)
    requires
        entries_sorted(s),
    ensures
        keyword_count(store_to_keywords(s, max)) <= max,
        entries_sorted(store_to_keywords(s, max)),
    decreases s.len(),
{
    if keyword_count(s) > max {
        if s.len() == 0 {
            lemma_keyword_count_empty(s);
        }
        lemma_evict_stalest_shrinks(s);
        lemma_store_to_keywords_bound(evict_stalest(s), max);
    }
}

proof fn lemma_store_to_total_bound(s: Seq<KeywordEntry>, max: nat)
    requires
        entries_sorted(s),
    ensures
        store_to_total(s, max).len() <= max,
    decreases s.len(),
{
    if s.len() > max {
        lemma_evict_stalest_shrinks(s);
        lemma_store_to_total_bound(evict_stalest(s), max);
    }
}

/// The store's limits hold afterwards: the keyword step leaves at most
/// `max_keywords` keywords, and the whole leaves at most `max_total` hits.
pub proof fn law_store_limits_hold(s: Seq<KeywordEntry>, max_keywords: usize, max_total: usize)
    requires
        entries_sorted(s),
    ensures
        max_keywords > 0 ==> keyword_count(store_to_keywords(s, max_keywords as nat)) <= max_keywords,
        store_limited(s, max_keywords, max_total).len() <= max_total,
{
    lemma_store_to_keywords_bound(s, max_keywords as nat);
    if max_keywords > 0 && max_total > 0 {
        lemma_store_to_total_bound(store_to_keywords(s, max_keywords as nat), max_total as nat);
    }
}

} // verus!
