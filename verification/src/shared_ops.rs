//! Operator actions on the shared library (reindex, republish sources,
//! republish keywords): when one may start, the status it reports, and the
//! keyword publishes a republish queues. Running the actions happens outside;
//! times are Unix seconds, absent when the clock is unavailable.

use vstd::prelude::*;
use vstd::utf8::encode_utf8;
use crate::kad::id::KadId;
use crate::kad::keyword::{keyword_hash, lowercase, words, words_spec};
use crate::kad::md4::md4;
use crate::share::{components, SharedLibraryFile};
use crate::text::{chars_to_string, same_text, str_chars};

verus! {

pub const REPUBLISH_SOURCES_COOLDOWN_SECS: u64 = 300;
pub const REPUBLISH_KEYWORDS_COOLDOWN_SECS: u64 = 900;

#[derive(Debug, Clone, Copy, PartialEq, Eq, Structural)]
pub enum SharedActionKind {
    Reindex,
    RepublishSources,
    RepublishKeywords,
}

impl SharedActionKind {
    pub open spec fn name(self) -> Seq<char> {
        match self {
            SharedActionKind::Reindex => "reindex"@,
            SharedActionKind::RepublishSources => "republish_sources"@,
            SharedActionKind::RepublishKeywords => "republish_keywords"@,
        }
    }

    pub fn as_str(self) -> (s: &'static str)
        ensures
            s@ == self.name(),
    {
        match self {
            SharedActionKind::Reindex => "reindex",
            SharedActionKind::RepublishSources => "republish_sources",
            SharedActionKind::RepublishKeywords => "republish_keywords",
        }
    }
}

#[derive(Debug, Clone, Copy, PartialEq, Eq, Structural)]
pub enum SharedActionRejectReason {
    AlreadyRunning,
    CooldownActive,
}

#[derive(Debug, Clone, PartialEq, Eq)]
pub struct SharedActionStatus {
    pub action: String,
    pub state: String,
    pub started_unix_secs: Option<u64>,
    pub finished_unix_secs: Option<u64>,
    pub cooldown_until_unix_secs: Option<u64>,
    pub items_total: usize,
    pub queued_total: usize,
    pub failed_total: usize,
    pub library_files_total: Option<usize>,
    pub reused_entries: Option<usize>,
    pub hashed_entries: Option<usize>,
    pub last_error: Option<String>,
}

pub struct StatusModel {
    pub action: Seq<char>,
    pub state: Seq<char>,
    pub started_unix_secs: Option<u64>,
    pub finished_unix_secs: Option<u64>,
    pub cooldown_until_unix_secs: Option<u64>,
    pub items_total: usize,
    pub queued_total: usize,
    pub failed_total: usize,
    pub library_files_total: Option<usize>,
    pub reused_entries: Option<usize>,
    pub hashed_entries: Option<usize>,
    pub last_error: Option<Seq<char>>,
}

pub open spec fn opt_text(o: Option<String>) -> Option<Seq<char>> {
    match o {
        Some(s) => Some(s@),
        None => None,
    }
}

impl View for SharedActionStatus {
    type V = StatusModel;

    open spec fn view(&self) -> StatusModel {
        StatusModel {
            action: self.action@,
            state: self.state@,
            started_unix_secs: self.started_unix_secs,
            finished_unix_secs: self.finished_unix_secs,
            cooldown_until_unix_secs: self.cooldown_until_unix_secs,
            items_total: self.items_total,
            queued_total: self.queued_total,
            failed_total: self.failed_total,
            library_files_total: self.library_files_total,
            reused_entries: self.reused_entries,
            hashed_entries: self.hashed_entries,
            last_error: opt_text(self.last_error),
        }
    }
}

/// A status with the given action, state, times and error, and no counts.
pub open spec fn bare_status(
    kind: SharedActionKind,
    state: Seq<char>,
    started: Option<u64>,
    finished: Option<u64>,
    error: Option<Seq<char>>,
) -> StatusModel {
    StatusModel {
        action: kind.name(),
        state,
        started_unix_secs: started,
        finished_unix_secs: finished,
        cooldown_until_unix_secs: None,
        items_total: 0,
        queued_total: 0,
        failed_total: 0,
        library_files_total: None,
        reused_entries: None,
        hashed_entries: None,
        last_error: error,
    }
}

fn bare(kind: SharedActionKind, state: &str, started: Option<u64>, finished: Option<u64>, error: Option<String>)
    -> (s: SharedActionStatus)
    ensures
        s@ == bare_status(kind, state@, started, finished, opt_text(error)),
{
    SharedActionStatus {
        action: String::from_str(kind.as_str()),
        state: String::from_str(state),
        started_unix_secs: started,
        finished_unix_secs: finished,
        cooldown_until_unix_secs: None,
        items_total: 0,
        queued_total: 0,
        failed_total: 0,
        library_files_total: None,
        reused_entries: None,
        hashed_entries: None,
        last_error: error,
    }
}

fn copy_opt_text(o: &Option<String>) -> (r: Option<String>)
    ensures
        opt_text(r) == opt_text(*o),
{
    match o {
        Some(s) => Some(String::from_str(s.as_str())),
        None => None,
    }
}

impl SharedActionStatus {
    /// The status of an action that has not run.
    pub fn idle(kind: SharedActionKind) -> (s: Self)
        ensures
            s@ == bare_status(kind, "idle"@, None, None, None),
    {
        bare(kind, "idle", None, None, None)
    }

    pub fn copy(&self) -> (c: Self)
        ensures
            c@ == self@,
    {
        SharedActionStatus {
            action: String::from_str(self.action.as_str()),
            state: String::from_str(self.state.as_str()),
            started_unix_secs: self.started_unix_secs,
            finished_unix_secs: self.finished_unix_secs,
            cooldown_until_unix_secs: self.cooldown_until_unix_secs,
            items_total: self.items_total,
            queued_total: self.queued_total,
            failed_total: self.failed_total,
            library_files_total: self.library_files_total,
            reused_entries: self.reused_entries,
            hashed_entries: self.hashed_entries,
            last_error: copy_opt_text(&self.last_error),
        }
    }
}

#[derive(Debug, Clone)]
pub struct SharedActionStartResponse {
    pub started: bool,
    pub reason: Option<SharedActionRejectReason>,
    pub status: SharedActionStatus,
}

#[derive(Debug, Clone)]
pub struct SharedActionsSnapshot {
    pub actions: Vec<SharedActionStatus>,
}

/// Whether an action with status `st` may start at `now`, and if not why:
/// not while it runs, nor before its cooldown has passed.
pub open spec fn start_refusal(st: StatusModel, now: Option<u64>) -> Option<SharedActionRejectReason> {
    if st.state == "running"@ {
        Some(SharedActionRejectReason::AlreadyRunning)
    } else if st.cooldown_until_unix_secs matches Some(c) && now matches Some(t) && t < c {
        Some(SharedActionRejectReason::CooldownActive)
    } else {
        None
    }
}

/// What a finished run leaves: its report, keeping when the run started, or
/// a failure with the error.
pub open spec fn finished_status(
    st: StatusModel,
    kind: SharedActionKind,
    result: Result<StatusModel, Seq<char>>,
    now: Option<u64>,
) -> StatusModel {
    match result {
        Ok(r) => StatusModel { started_unix_secs: st.started_unix_secs, ..r },
        Err(e) => bare_status(kind, "failed"@, st.started_unix_secs, now, Some(e)),
    }
}

pub open spec fn result_view(r: Result<SharedActionStatus, String>) -> Result<StatusModel, Seq<char>> {
    match r {
        Ok(s) => Ok(s@),
        Err(e) => Err(e@),
    }
}

/// The status of each action.
pub struct SharedActionBoard {
    reindex: SharedActionStatus,
    sources: SharedActionStatus,
    keywords: SharedActionStatus,
}

impl SharedActionBoard {
    pub closed spec fn get(&self, kind: SharedActionKind) -> StatusModel {
        match kind {
            SharedActionKind::Reindex => self.reindex@,
            SharedActionKind::RepublishSources => self.sources@,
            SharedActionKind::RepublishKeywords => self.keywords@,
        }
    }

    pub fn new() -> (b: Self)
        ensures
            forall|k: SharedActionKind| b.get(k) == bare_status(k, "idle"@, None, None, None),
    {
        SharedActionBoard {
            reindex: SharedActionStatus::idle(SharedActionKind::Reindex),
            sources: SharedActionStatus::idle(SharedActionKind::RepublishSources),
            keywords: SharedActionStatus::idle(SharedActionKind::RepublishKeywords),
        }
    }

    fn slot(&mut self, kind: SharedActionKind) -> (s: &mut SharedActionStatus)
        ensures
            *s == match kind {
                SharedActionKind::Reindex => old(self).reindex,
                SharedActionKind::RepublishSources => old(self).sources,
                SharedActionKind::RepublishKeywords => old(self).keywords,
            },
            final(self).reindex == (if kind == SharedActionKind::Reindex { *final(s) } else { old(self).reindex }),
            final(self).sources == (if kind == SharedActionKind::RepublishSources { *final(s) } else { old(self).sources }),
            final(self).keywords == (if kind == SharedActionKind::RepublishKeywords { *final(s) } else { old(self).keywords }),
    {
        match kind {
            SharedActionKind::Reindex => &mut self.reindex,
            SharedActionKind::RepublishSources => &mut self.sources,
            SharedActionKind::RepublishKeywords => &mut self.keywords,
        }
    }

    pub fn status(&self, kind: SharedActionKind) -> (s: SharedActionStatus)
        ensures
            s@ == self.get(kind),
    {
        match kind {
            SharedActionKind::Reindex => self.reindex.copy(),
            SharedActionKind::RepublishSources => self.sources.copy(),
            SharedActionKind::RepublishKeywords => self.keywords.copy(),
        }
    }

    /// Every action's status, in the order reindex, sources, keywords.
    pub fn action_snapshot(&self) -> (s: SharedActionsSnapshot)
        ensures
            s.actions@.len() == 3,
            s.actions@[0]@ == self.get(SharedActionKind::Reindex),
            s.actions@[1]@ == self.get(SharedActionKind::RepublishSources),
            s.actions@[2]@ == self.get(SharedActionKind::RepublishKeywords),
    {
        let mut actions: Vec<SharedActionStatus> = Vec::new();
        actions.push(self.reindex.copy());
        actions.push(self.sources.copy());
        actions.push(self.keywords.copy());
        SharedActionsSnapshot { actions }
    }

    /// Starts `kind` at `now` unless it is running or cooling down; a started
    /// action is marked running from `now`.
    pub fn start_action(&mut self, kind: SharedActionKind, now: Option<u64>) -> (r: SharedActionStartResponse)
        ensures
            r.reason == start_refusal(old(self).get(kind), now),
            r.started == r.reason is None,
            r.status@ == final(self).get(kind),
            final(self).get(kind) == if r.started {
                bare_status(kind, "running"@, now, None, None)
            } else {
                old(self).get(kind)
            },
            forall|k: SharedActionKind| k != kind ==> final(self).get(k) == old(self).get(k),
    {
        let slot = self.slot(kind);
        if same_text(slot.state.as_str(), "running") {
            return SharedActionStartResponse {
                started: false,
                reason: Some(SharedActionRejectReason::AlreadyRunning),
                status: slot.copy(),
            };
        }
        let cooling = match (slot.cooldown_until_unix_secs, now) {
            (Some(until), Some(t)) => t < until,
            _ => false,
        };
        if cooling {
            return SharedActionStartResponse {
                started: false,
                reason: Some(SharedActionRejectReason::CooldownActive),
                status: slot.copy(),
            };
        }
        *slot = bare(kind, "running", now, None, None);
        let status = slot.copy();
        SharedActionStartResponse { started: true, reason: None, status }
    }

    /// Records how a run of `kind` ended.
    pub fn finish_action(&mut self, kind: SharedActionKind, result: Result<SharedActionStatus, String>, now: Option<u64>)
        ensures
            final(self).get(kind) == finished_status(old(self).get(kind), kind, result_view(result), now),
            forall|k: SharedActionKind| k != kind ==> final(self).get(k) == old(self).get(k),
    {
        let slot = self.slot(kind);
        let started = slot.started_unix_secs;
        match result {
            Ok(report) => {
                let mut report = report;
                report.started_unix_secs = started;
                *slot = report;
            },
            Err(err) => {
                *slot = bare(kind, "failed", started, now, Some(err));
            },
        }
    }
}

/// The time `secs` after `now`.
pub open spec fn after(now: Option<u64>, secs: u64) -> Option<u64> {
    match now {
        Some(t) => Some((t + secs) as u64),
        None => None,
    }
}

/// The report of a reindex that found `roots_total` roots.
pub fn reindex_report(roots_total: usize, library_files_total: usize, reused: usize, hashed: usize, now: Option<u64>)
    -> (s: SharedActionStatus)
    ensures
        s@ == (StatusModel {
            items_total: roots_total,
            library_files_total: Some(library_files_total),
            reused_entries: Some(reused),
            hashed_entries: Some(hashed),
            ..bare_status(SharedActionKind::Reindex, "succeeded"@, None, now, None)
        }),
{
    let mut s = bare(SharedActionKind::Reindex, "succeeded", None, now, None);
    s.items_total = roots_total;
    s.library_files_total = Some(library_files_total);
    s.reused_entries = Some(reused);
    s.hashed_entries = Some(hashed);
    s
}

/// The report of a republish: failed when any publish failed to queue, with
/// the cooldown running from `now`.
pub open spec fn republish_status(
    kind: SharedActionKind,
    items: usize,
    queued: usize,
    failed: usize,
    library_len: usize,
    now: Option<u64>,
    cooldown: u64,
    error: Seq<char>,
) -> StatusModel {
    StatusModel {
        cooldown_until_unix_secs: after(now, cooldown),
        items_total: items,
        queued_total: queued,
        failed_total: failed,
        library_files_total: Some(library_len),
        ..bare_status(
            kind,
            if failed == 0 { "succeeded"@ } else { "failed"@ },
            None,
            now,
            if failed > 0 { Some(error) } else { None },
        )
    }
}

fn republish_report(
    kind: SharedActionKind,
    items: usize,
    queued: usize,
    failed: usize,
    library_len: usize,
    now: Option<u64>,
    cooldown: u64,
    error: &str,
) -> (s: SharedActionStatus)
    requires
        now matches Some(t) ==> t + cooldown <= u64::MAX,
    ensures
        s@ == republish_status(kind, items, queued, failed, library_len, now, cooldown, error@),
{
    let state = if failed == 0 { "succeeded" } else { "failed" };
    let err = if failed > 0 { Some(String::from_str(error)) } else { None };
    let mut s = bare(kind, state, None, now, err);
    s.cooldown_until_unix_secs = match now {
        Some(t) => Some(t + cooldown),
        None => None,
    };
    s.items_total = items;
    s.queued_total = queued;
    s.failed_total = failed;
    s.library_files_total = Some(library_len);
    s
}

/// The report of republishing the sources of `library_len` files.
pub fn republish_sources_report(library_len: usize, queued: usize, failed: usize, now: Option<u64>)
    -> (s: SharedActionStatus)
    requires
        now matches Some(t) ==> t + REPUBLISH_SOURCES_COOLDOWN_SECS <= u64::MAX,
    ensures
        s@ == republish_status(SharedActionKind::RepublishSources, library_len, queued, failed, library_len, now,
            REPUBLISH_SOURCES_COOLDOWN_SECS, "one or more source publishes failed to queue"@),
{
    republish_report(SharedActionKind::RepublishSources, library_len, queued, failed, library_len, now,
        REPUBLISH_SOURCES_COOLDOWN_SECS, "one or more source publishes failed to queue")
}

/// The report of republishing `items` keywords of `library_len` files.
pub fn republish_keywords_report(items: usize, queued: usize, failed: usize, library_len: usize, now: Option<u64>)
    -> (s: SharedActionStatus)
    requires
        now matches Some(t) ==> t + REPUBLISH_KEYWORDS_COOLDOWN_SECS <= u64::MAX,
    ensures
        s@ == republish_status(SharedActionKind::RepublishKeywords, items, queued, failed, library_len, now,
            REPUBLISH_KEYWORDS_COOLDOWN_SECS, "one or more keyword publishes failed to queue"@),
{
    republish_report(SharedActionKind::RepublishKeywords, items, queued, failed, library_len, now,
        REPUBLISH_KEYWORDS_COOLDOWN_SECS, "one or more keyword publishes failed to queue")
}

/// Republishing needs the KAD service.
pub fn ensure_kad_service_enabled(enabled: bool) -> (r: Result<(), String>)
    ensures
        match r {
            Ok(()) => enabled,
            Err(e) => !enabled && e@ == "KAD service is disabled"@,
        },
{
    if enabled {
        Ok(())
    } else {
        Err(String::from_str("KAD service is disabled"))
    }
}

// ---------------------------------------------------------------------------
// Keyword publishes

/// The file name of a relative path (`Path::file_name`): its last component,
/// none for `..` or an empty path.
pub open spec fn file_name_spec(p: Seq<char>) -> Option<Seq<char>> {
    let c = components(p);
    if c.len() == 0 || c.last() == ".."@ { None } else { Some(c.last()) }
}

/// The text after the last dot of a file name (`Path::extension`), when
/// the dot is not the first character; an empty one counts as none.
pub open spec fn extension_spec(name: Seq<char>) -> Option<Seq<char>> {
    if exists|i: int| 0 < i < name.len() && name[i] == '.' {
        let d = choose|i: int| 0 < i < name.len() && name[i] == '.' && forall|j: int| i < j < name.len() ==> name[j] != '.';
        if d + 1 < name.len() { Some(name.subrange(d + 1, name.len() as int)) } else { None }
    } else {
        None
    }
}

/// One keyword publish: the keyword's identifier and text, and the file.
#[derive(Debug, Clone)]
pub struct KeywordPublish {
    pub keyword: KadId,
    pub keyword_label: String,
    pub file: KadId,
    pub filename: String,
    pub file_size: u64,
    pub file_type: Option<String>,
}

pub struct KeywordPublishModel {
    pub keyword: Seq<u8>,
    pub keyword_label: Seq<char>,
    pub file: Seq<u8>,
    pub filename: Seq<char>,
    pub file_size: u64,
    pub file_type: Option<Seq<char>>,
}

impl View for KeywordPublish {
    type V = KeywordPublishModel;

    open spec fn view(&self) -> KeywordPublishModel {
        KeywordPublishModel {
            keyword: self.keyword.0@,
            keyword_label: self.keyword_label@,
            file: self.file.0@,
            filename: self.filename@,
            file_size: self.file_size,
            file_type: opt_text(self.file_type),
        }
    }
}

/// The name a file is published under: its file name, or its whole
/// relative path when it has none.
pub open spec fn publish_name(f: SharedLibraryFile) -> Seq<char> {
    match file_name_spec(f.relative_path@) {
        Some(n) => n,
        None => f.relative_path@,
    }
}

/// The publishes for one file: one per keyword of its name, in order.
pub open spec fn file_publishes(f: SharedLibraryFile) -> Seq<KeywordPublishModel> {
    let name = publish_name(f);
    let ws = words_spec(name);
    Seq::new(ws.len(), |i: int| KeywordPublishModel {
        keyword: md4(encode_utf8(lowercase(ws[i]))),
        keyword_label: ws[i],
        file: f.file_id.0@,
        filename: name,
        file_size: f.file_size,
        file_type: extension_spec(name),
    })
}

/// The publishes for all files, file by file.
pub open spec fn keyword_plan_spec(files: Seq<SharedLibraryFile>) -> Seq<KeywordPublishModel>
    decreases files.len(),
{
    if files.len() == 0 {
        Seq::empty()
    } else {
        keyword_plan_spec(files.drop_last()) + file_publishes(files.last())
    }
}

fn file_name_of(p: &str) -> (r: Option<String>)
    ensures
        match r {
            Some(n) => file_name_spec(p@) == Some(n@),
            None => file_name_spec(p@) is None,
        },
{
    let cs = crate::share::path_components(p);
    if cs.len() == 0 {
        return None;
    }
    let last = &cs[cs.len() - 1];
    let dd = str_chars("..");
    proof {
        assert(cs@.map_values(|c: Vec<char>| c@).last() == last@);
    }
    if crate::text::same_chars(last, &dd) {
        return None;
    }
    Some(chars_to_string(last))
}

fn extension_of(name: &str) -> (r: Option<String>)
    ensures
        opt_text(r) == extension_spec(name@),
{
    let cs = str_chars(name);
    let n = cs.len();
    let mut k: usize = n;
    // Find the last dot after the first character.
    while k > 1 && cs[k - 1] != '.'
        invariant
            0 <= k <= n,
            n == cs@.len(),
            cs@ == name@,
            forall|j: int| k <= j < n ==> cs@[j] != '.',
        decreases k,
    {
        k -= 1;
    }
    if k <= 1 {
        proof {
            assert forall|i: int| 0 < i < n implies name@[i] != '.' by {
                if k == 1 {
                } else {
                }
            }
        }
        return None;
    }
    let d = k - 1;
    proof {
        assert(0 < d < name@.len() && name@[d as int] == '.');
        let c = choose|i: int| 0 < i < name@.len() && name@[i] == '.' && forall|j: int| i < j < name@.len() ==> name@[j] != '.';
        assert(c == d) by {
            if c < d {
                assert(name@[d as int] != '.');
            }
            if c > d {
                assert(cs@[c] != '.');
            }
        }
    }
    if d + 1 == n {
        return None;
    }
    let mut out: Vec<char> = Vec::new();
    let mut m: usize = d + 1;
    while m < n
        invariant
            d + 1 <= m <= n,
            n == cs@.len(),
            out@ == cs@.subrange(d + 1, m as int),
        decreases n - m,
    {
        out.push(cs[m]);
        m += 1;
        assert(out@ =~= cs@.subrange(d + 1, m as int));
    }
    Some(chars_to_string(&out))
}

pub open spec fn plan_view(v: Seq<KeywordPublish>) -> Seq<KeywordPublishModel> {
    v.map_values(|p: KeywordPublish| p@)
}

/// The keyword publishes a republish queues for `files`.
pub fn keyword_publish_plan(files: &[SharedLibraryFile]) -> (plan: Vec<KeywordPublish>)
    ensures
        plan_view(plan@) == keyword_plan_spec(files@),
{
    let mut plan: Vec<KeywordPublish> = Vec::new();
    let mut i: usize = 0;
    assert(files@.take(0) =~= Seq::<SharedLibraryFile>::empty());
    while i < files.len()
        invariant
            i <= files@.len(),
            plan_view(plan@) == keyword_plan_spec(files@.take(i as int)),
        decreases files@.len() - i,
    {
        let f = &files[i];
        let filename = match file_name_of(f.relative_path.as_str()) {
            Some(n) => n,
            None => String::from_str(f.relative_path.as_str()),
        };
        assert(filename@ == publish_name(*f));
        let file_type = extension_of(filename.as_str());
        let ws = words(filename.as_str());
        let ghost base = plan@;
        let ghost expect = file_publishes(*f);
        let mut k: usize = 0;
        while k < ws.len()
            invariant
                k <= ws@.len(),
                crate::kad::keyword::strings_view(ws@) == words_spec(filename@),
                filename@ == publish_name(*f),
                opt_text(file_type) == extension_spec(filename@),
                expect == file_publishes(*f),
                plan_view(plan@) == plan_view(base) + expect.take(k as int),
            decreases ws@.len() - k,
        {
            let w = ws[k].as_str();
            assert(w@ == words_spec(filename@)[k as int]);
            let keyword = keyword_hash(w);
            let item = KeywordPublish {
                keyword,
                keyword_label: String::from_str(w),
                file: f.file_id,
                filename: String::from_str(filename.as_str()),
                file_size: f.file_size,
                file_type: copy_opt_text(&file_type),
            };
            let ghost pre = plan@;
            plan.push(item);
            assert(plan_view(plan@) =~= plan_view(base) + expect.take(k + 1)) by {
                assert(plan_view(plan@) =~= plan_view(pre).push(expect[k as int]));
                assert(expect.take(k + 1) =~= expect.take(k as int).push(expect[k as int]));
            }
            k += 1;
        }
        proof {
            assert(expect.take(ws@.len() as int) =~= expect);
            assert(files@.take(i + 1).drop_last() =~= files@.take(i as int));
            assert(files@.take(i + 1).last() == *f);
        }
        i += 1;
    }
    assert(files@.take(files@.len() as int) =~= files@);
    plan
}

} // verus!

