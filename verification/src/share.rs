//! Shared folders: which roots may be shared, and the index of shared files
//! by MD4 hash. Reading directories and hashing file contents happen outside;
//! paths here are the text of absolute paths.

use vstd::prelude::*;
use crate::kad::id::KadId;
use crate::kad::keyword::{char_is_whitespace, is_whitespace};
use crate::text::{ascii_lower, chars_to_string, hex_lower, same_chars, same_text, str_chars, to_ascii_lowercase};

verus! {

#[verifier::external_type_specification]
#[verifier::external_body]
pub struct ExIoError(std::io::Error);

// ---------------------------------------------------------------------------
// Paths

/// The finished components and the component being read after scanning `s`.
pub open spec fn scan_components(s: Seq<char>) -> (Seq<Seq<char>>, Seq<char>)
    decreases s.len(),
{
    if s.len() == 0 {
        (Seq::empty(), Seq::empty())
    } else {
        let (done, cur) = scan_components(s.drop_last());
        if s.last() == '/' {
            (flush_component(done, cur), Seq::empty())
        } else {
            (done, cur.push(s.last()))
        }
    }
}

/// Empty components (repeated or trailing separators) and `.` are dropped.
pub open spec fn flush_component(done: Seq<Seq<char>>, cur: Seq<char>) -> Seq<Seq<char>> {
    if cur.len() == 0 || cur == seq!['.'] {
        done
    } else {
        done.push(cur)
    }
}

/// The components of an absolute path below the root (`Path::components`).
pub open spec fn components(s: Seq<char>) -> Seq<Seq<char>> {
    flush_component(scan_components(s).0, scan_components(s).1)
}

pub open spec fn is_absolute(s: Seq<char>) -> bool {
    s.len() > 0 && s[0] == '/'
}

/// `Path::starts_with` on absolute paths: `base`'s components begin `path`'s.
pub open spec fn path_starts_with(path: Seq<char>, base: Seq<char>) -> bool {
    components(base).len() <= components(path).len()
        && components(path).take(components(base).len() as int) == components(base)
}

/// One path equals or contains the other.
pub open spec fn overlap_spec(a: Seq<char>, b: Seq<char>) -> bool {
    path_starts_with(a, b) || path_starts_with(b, a)
}

/// System directories that may never be shared.
pub open spec fn unsafe_system_root(p: Seq<char>) -> bool {
    p == "/bin"@ || p == "/boot"@ || p == "/dev"@ || p == "/etc"@ || p == "/home"@ || p == "/lib"@
        || p == "/lib64"@ || p == "/proc"@ || p == "/root"@ || p == "/run"@ || p == "/sbin"@
        || p == "/srv"@ || p == "/sys"@ || p == "/tmp"@ || p == "/usr"@ || p == "/var"@
}

pub fn path_components(s: &str) -> (r: Vec<Vec<char>>)
    ensures
        r@.map_values(|c: Vec<char>| c@) == components(s@),
{
    let cs = str_chars(s);
    let ghost sv = cs@;
    let mut done: Vec<Vec<char>> = Vec::new();
    let mut cur: Vec<char> = Vec::new();
    let mut i: usize = 0;
    assert(sv.take(0) =~= Seq::<char>::empty());
    while i < cs.len()
        invariant
            i <= cs@.len(),
            sv == cs@,
            (done@.map_values(|c: Vec<char>| c@), cur@) == scan_components(sv.take(i as int)),
        decreases cs@.len() - i,
    {
        let c = cs[i];
        proof {
            assert(sv.take(i + 1).drop_last() =~= sv.take(i as int));
            assert(sv.take(i + 1).last() == c);
        }
        if c == '/' {
            flush(&mut done, &mut cur);
        } else {
            cur.push(c);
        }
        i += 1;
    }
    assert(sv.take(i as int) =~= sv);
    flush(&mut done, &mut cur);
    done
}

fn flush(done: &mut Vec<Vec<char>>, cur: &mut Vec<char>)
    ensures
        final(done)@.map_values(|c: Vec<char>| c@) == flush_component(old(done)@.map_values(|c: Vec<char>| c@), old(cur)@),
        final(cur)@ == Seq::<char>::empty(),
{
    let is_dot = cur.len() == 1 && cur[0] == '.';
    if is_dot {
        assert(old(cur)@ =~= seq!['.']);
    }
    if cur.len() != 0 && !is_dot {
        let ghost before = done@;
        let mut piece: Vec<char> = Vec::new();
        std::mem::swap(&mut piece, cur);
        done.push(piece);
        assert(done@.map_values(|c: Vec<char>| c@) =~= before.map_values(|c: Vec<char>| c@).push(old(cur)@));
    } else {
        *cur = Vec::new();
    }
    assert(cur@ =~= Seq::<char>::empty());
}

fn components_start_with(a: &Vec<Vec<char>>, b: &Vec<Vec<char>>) -> (r: bool)
    ensures
        r == (b@.len() <= a@.len() && a@.map_values(|c: Vec<char>| c@).take(b@.len() as int)
            == b@.map_values(|c: Vec<char>| c@)),
{
    let ghost av = a@.map_values(|c: Vec<char>| c@);
    let ghost bv = b@.map_values(|c: Vec<char>| c@);
    if b.len() > a.len() {
        return false;
    }
    let mut i: usize = 0;
    while i < b.len()
        invariant
            i <= b@.len() <= a@.len(),
            av == a@.map_values(|c: Vec<char>| c@),
            bv == b@.map_values(|c: Vec<char>| c@),
            forall|j: int| 0 <= j < i ==> av[j] == bv[j],
        decreases b@.len() - i,
    {
        if !same_chars(&a[i], &b[i]) {
            assert(av.take(b@.len() as int)[i as int] != bv[i as int]);
            return false;
        }
        i += 1;
    }
    assert(av.take(b@.len() as int) =~= bv);
    true
}

/// Whether one of two absolute paths equals or contains the other.
pub fn paths_overlap(a: &str, b: &str) -> (r: bool)
    ensures
        r == overlap_spec(a@, b@),
{
    let ca = path_components(a);
    let cb = path_components(b);
    components_start_with(&ca, &cb) || components_start_with(&cb, &ca)
}

/// Whether an absolute path is the file system root (it has no parent).
pub fn is_root_path(p: &str) -> (r: bool)
    ensures
        r == (components(p@).len() == 0),
{
    path_components(p).len() == 0
}

pub fn is_known_unsafe_system_root(p: &str) -> (r: bool)
    ensures
        r == unsafe_system_root(p@),
{
    same_text(p, "/bin") || same_text(p, "/boot") || same_text(p, "/dev") || same_text(p, "/etc")
        || same_text(p, "/home") || same_text(p, "/lib") || same_text(p, "/lib64") || same_text(p, "/proc")
        || same_text(p, "/root") || same_text(p, "/run") || same_text(p, "/sbin") || same_text(p, "/srv")
        || same_text(p, "/sys") || same_text(p, "/tmp") || same_text(p, "/usr") || same_text(p, "/var")
}

// ---------------------------------------------------------------------------
// Errors

#[derive(Debug)]
pub enum ShareError {
    EmptyPath,
    CurrentDir(std::io::Error),
    Canonicalize { path: String, source: std::io::Error },
    Metadata { path: String, source: std::io::Error },
    OpenFile { path: String, source: std::io::Error },
    ReadFile { path: String, source: std::io::Error },
    ReadDir { path: String, source: std::io::Error },
    UnsafeRoot(String),
    OverlappingRoots { first: String, second: String },
    OutsideRoot { path: String, root: String },
}

impl ShareError {
    pub open spec fn message_spec(&self) -> Seq<char> {
        match self {
            ShareError::EmptyPath => "share root path must not be empty"@,
            ShareError::CurrentDir(_) => "failed to resolve current working directory"@,
            ShareError::Canonicalize { path, .. } => "failed to resolve share root '"@ + path@ + "'"@,
            ShareError::Metadata { path, .. } => "failed to stat shared path '"@ + path@ + "'"@,
            ShareError::OpenFile { path, .. } => "failed to open shared file '"@ + path@ + "'"@,
            ShareError::ReadFile { path, .. } => "failed to read shared file '"@ + path@ + "'"@,
            ShareError::ReadDir { path, .. } => "failed to enumerate shared path '"@ + path@ + "'"@,
            ShareError::UnsafeRoot(path) => "unsafe share root '"@ + path@ + "'"@,
            ShareError::OverlappingRoots { first, second } =>
                "overlapping share roots '"@ + first@ + "' and '"@ + second@ + "'"@,
            ShareError::OutsideRoot { path, root } =>
                "shared file '"@ + path@ + "' escaped share root '"@ + root@ + "'"@,
        }
    }

    /// The error as it is reported.
    pub fn to_string(&self) -> (s: String)
        ensures
            s@ == self.message_spec(),
    {
        match self {
            ShareError::EmptyPath => String::from_str("share root path must not be empty"),
            ShareError::CurrentDir(_) => String::from_str("failed to resolve current working directory"),
            ShareError::Canonicalize { path, .. } => quoted("failed to resolve share root '", path.as_str()),
            ShareError::Metadata { path, .. } => quoted("failed to stat shared path '", path.as_str()),
            ShareError::OpenFile { path, .. } => quoted("failed to open shared file '", path.as_str()),
            ShareError::ReadFile { path, .. } => quoted("failed to read shared file '", path.as_str()),
            ShareError::ReadDir { path, .. } => quoted("failed to enumerate shared path '", path.as_str()),
            ShareError::UnsafeRoot(path) => quoted("unsafe share root '", path.as_str()),
            ShareError::OverlappingRoots { first, second } => {
                let mut v = str_chars("overlapping share roots '");
                let mut a = str_chars(first.as_str());
                v.append(&mut a);
                let mut m = str_chars("' and '");
                v.append(&mut m);
                let mut b = str_chars(second.as_str());
                v.append(&mut b);
                let mut e = str_chars("'");
                v.append(&mut e);
                chars_to_string(&v)
            },
            ShareError::OutsideRoot { path, root } => {
                let mut v = str_chars("shared file '");
                let mut a = str_chars(path.as_str());
                v.append(&mut a);
                let mut m = str_chars("' escaped share root '");
                v.append(&mut m);
                let mut b = str_chars(root.as_str());
                v.append(&mut b);
                let mut e = str_chars("'");
                v.append(&mut e);
                chars_to_string(&v)
            },
        }
    }
}

fn quoted(prefix: &str, path: &str) -> (s: String)
    ensures
        s@ == prefix@ + path@ + "'"@,
{
    let mut v = str_chars(prefix);
    let mut a = str_chars(path);
    v.append(&mut a);
    let mut e = str_chars("'");
    v.append(&mut e);
    chars_to_string(&v)
}

// ---------------------------------------------------------------------------
// Roots

#[derive(Debug, Clone, PartialEq, Eq)]
pub struct SharedRoot {
    pub configured_path: String,
    pub canonical_path: String,
}

/// `s` without leading and trailing white space (`str::trim`).
pub open spec fn trim_spec(s: Seq<char>) -> Seq<char>
    decreases s.len(),
{
    if s.len() > 0 && char_is_whitespace(s[0]) {
        trim_spec(s.drop_first())
    } else if s.len() > 0 && char_is_whitespace(s.last()) {
        trim_spec(s.drop_last())
    } else {
        s
    }
}

proof fn lemma_trim_skip(s: Seq<char>, a: int, b: int)
    requires
        0 <= a <= b <= s.len(),
        forall|k: int| 0 <= k < a ==> char_is_whitespace(#[trigger] s[k]),
        forall|k: int| b <= k < s.len() ==> char_is_whitespace(#[trigger] s[k]),
        a < b ==> !char_is_whitespace(s[a]) && !char_is_whitespace(s[b - 1]),
    ensures
        trim_spec(s) == s.subrange(a, b),
    decreases s.len(),
{
    if a > 0 {
        let t = s.drop_first();
        assert forall|k: int| 0 <= k < a - 1 implies char_is_whitespace(#[trigger] t[k]) by {
            assert(t[k] == s[k + 1]);
        }
        assert forall|k: int| b - 1 <= k < t.len() implies char_is_whitespace(#[trigger] t[k]) by {
            assert(t[k] == s[k + 1]);
        }
        if a < b {
            assert(t[a - 1] == s[a] && t[b - 2] == s[b - 1]);
        }
        lemma_trim_skip(t, a - 1, b - 1);
        assert(t.subrange(a - 1, b - 1) =~= s.subrange(a, b));
    } else if b < s.len() {
        let t = s.drop_last();
        if s.len() > 0 && a < b {
            assert(!char_is_whitespace(s[0]));
        }
        assert(char_is_whitespace(s[s.len() - 1]));
        if a == b && s.len() > 0 && char_is_whitespace(s[0]) {
            // both ends are white space; dropping either end gives the same
            let u = s.drop_first();
            assert forall|k: int| b <= k < u.len() implies char_is_whitespace(#[trigger] u[k]) by {
                assert(u[k] == s[k + 1]);
            }
            lemma_trim_skip(u, 0, 0);
            assert(u.subrange(0, 0) =~= s.subrange(a, b));
        } else {
            assert forall|k: int| b <= k < t.len() implies char_is_whitespace(#[trigger] t[k]) by {
                assert(t[k] == s[k]);
            }
            if a < b {
                assert(t[a] == s[a] && t[b - 1] == s[b - 1]);
            }
            lemma_trim_skip(t, a, b);
            assert(t.subrange(a, b) =~= s.subrange(a, b));
        }
    } else {
        if s.len() > 0 {
            assert(!char_is_whitespace(s[0]));
            assert(!char_is_whitespace(s.last()));
        }
        assert(s.subrange(a, b) =~= s);
    }
}

/// A configured root without surrounding white space; an empty one is refused.
pub fn trim_share_root(raw: &str) -> (r: Result<String, ShareError>)
    ensures
        match r {
            Ok(t) => t@ == trim_spec(raw@) && t@.len() > 0,
            Err(e) => e is EmptyPath && trim_spec(raw@).len() == 0,
        },
{
    let cs = str_chars(raw);
    let n = cs.len();
    let mut a: usize = 0;
    while a < n && is_whitespace(cs[a])
        invariant
            a <= n,
            n == cs@.len(),
            forall|k: int| 0 <= k < a ==> char_is_whitespace(#[trigger] cs@[k]),
        decreases n - a,
    {
        a += 1;
    }
    let mut b: usize = n;
    while b > a && is_whitespace(cs[b - 1])
        invariant
            a <= b <= n,
            n == cs@.len(),
            forall|k: int| b <= k < n ==> char_is_whitespace(#[trigger] cs@[k]),
        decreases b,
    {
        b -= 1;
    }
    proof {
        if a == b {
            assert forall|k: int| b <= k < n implies char_is_whitespace(#[trigger] cs@[k]) by {}
        }
        lemma_trim_skip(cs@, a as int, b as int);
    }
    if a == b {
        return Err(ShareError::EmptyPath);
    }
    let mut out: Vec<char> = Vec::new();
    let mut k: usize = a;
    while k < b
        invariant
            a <= k <= b <= n,
            n == cs@.len(),
            out@ == cs@.subrange(a as int, k as int),
        decreases b - k,
    {
        out.push(cs[k]);
        k += 1;
        assert(out@ =~= cs@.subrange(a as int, k as int));
    }
    Ok(chars_to_string(&out))
}

/// A root may not be the file system root or a system directory, nor
/// overlap the node's own data directory.
pub open spec fn safe_root(candidate: Seq<char>, runtime_dir: Seq<char>) -> bool {
    components(candidate).len() != 0 && !unsafe_system_root(candidate) && !overlap_spec(candidate, runtime_dir)
}

pub fn ensure_safe_root(candidate: &str, runtime_dir: &str) -> (r: Result<(), ShareError>)
    ensures
        match r {
            Ok(()) => safe_root(candidate@, runtime_dir@),
            Err(ShareError::UnsafeRoot(p)) => !safe_root(candidate@, runtime_dir@) && p@ == candidate@,
            Err(_) => false,
        },
{
    if is_root_path(candidate) || is_known_unsafe_system_root(candidate) || paths_overlap(candidate, runtime_dir) {
        return Err(ShareError::UnsafeRoot(String::from_str(candidate)));
    }
    Ok(())
}

pub open spec fn roots_view(v: Seq<SharedRoot>) -> Seq<(Seq<char>, Seq<char>)> {
    v.map_values(|r: SharedRoot| (r.configured_path@, r.canonical_path@))
}

/// Admits the next root (configured text already trimmed, path already
/// resolved): it must be safe and overlap none of the roots before it; the
/// first it overlaps is named in the error.
pub fn admit_share_root(out: &mut Vec<SharedRoot>, configured: String, canonical: String, runtime_dir: &str)
    -> (r: Result<(), ShareError>)
    ensures
        match r {
            Ok(()) => {
                &&& safe_root(canonical@, runtime_dir@)
                &&& forall|i: int| 0 <= i < old(out)@.len() ==> !overlap_spec(canonical@, #[trigger] old(out)@[i].canonical_path@)
                &&& roots_view(final(out)@) == roots_view(old(out)@).push((configured@, canonical@))
            },
            Err(ShareError::UnsafeRoot(p)) => {
                &&& !safe_root(canonical@, runtime_dir@)
                &&& p@ == canonical@
                &&& final(out)@ == old(out)@
            },
            Err(ShareError::OverlappingRoots { first, second }) => {
                &&& safe_root(canonical@, runtime_dir@)
                &&& exists|i: int| 0 <= i < old(out)@.len()
                    && overlap_spec(canonical@, #[trigger] old(out)@[i].canonical_path@)
                    && first@ == old(out)@[i].canonical_path@
                    && forall|j: int| 0 <= j < i ==> !overlap_spec(canonical@, #[trigger] old(out)@[j].canonical_path@)
                &&& second@ == canonical@
                &&& final(out)@ == old(out)@
            },
            Err(_) => false,
        },
{
    match ensure_safe_root(canonical.as_str(), runtime_dir) {
        Ok(()) => {},
        Err(e) => {
            return Err(e);
        },
    }
    let mut i: usize = 0;
    while i < out.len()
        invariant
            i <= out@.len(),
            out@ == old(out)@,
            safe_root(canonical@, runtime_dir@),
            forall|j: int| 0 <= j < i ==> !overlap_spec(canonical@, #[trigger] out@[j].canonical_path@),
        decreases out@.len() - i,
    {
        if paths_overlap(canonical.as_str(), out[i].canonical_path.as_str()) {
            let first = String::from_str(out[i].canonical_path.as_str());
            assert(overlap_spec(canonical@, old(out)@[i as int].canonical_path@));
            return Err(ShareError::OverlappingRoots { first, second: canonical });
        }
        i += 1;
    }
    let ghost before = out@;
    out.push(SharedRoot { configured_path: configured, canonical_path: canonical });
    assert(roots_view(out@) =~= roots_view(before).push((out@.last().configured_path@, out@.last().canonical_path@)));
    Ok(())
}

// ---------------------------------------------------------------------------
// The library

#[derive(Debug, Clone, PartialEq, Eq)]
pub struct SharedFile {
    pub root_index: usize,
    pub canonical_path: String,
    pub relative_path: String,
    pub file_size: u64,
}

#[derive(Debug, Clone, PartialEq, Eq)]
pub struct SharedLibraryFile {
    pub root_index: usize,
    pub canonical_path: String,
    pub relative_path: String,
    pub file_size: u64,
    pub file_id: KadId,
    pub file_hash_md4_hex: String,
}

pub struct LibraryFileModel {
    pub root_index: usize,
    pub canonical_path: Seq<char>,
    pub relative_path: Seq<char>,
    pub file_size: u64,
    pub file_id: Seq<u8>,
    pub hash_hex: Seq<char>,
}

impl View for SharedLibraryFile {
    type V = LibraryFileModel;

    open spec fn view(&self) -> LibraryFileModel {
        LibraryFileModel {
            root_index: self.root_index,
            canonical_path: self.canonical_path@,
            relative_path: self.relative_path@,
            file_size: self.file_size,
            file_id: self.file_id.0@,
            hash_hex: self.file_hash_md4_hex@,
        }
    }
}

/// A found file with the MD4 digest of its contents, as the library holds it.
pub open spec fn library_entry(f: SharedFile, id: KadId) -> LibraryFileModel {
    LibraryFileModel {
        root_index: f.root_index,
        canonical_path: f.canonical_path@,
        relative_path: f.relative_path@,
        file_size: f.file_size,
        file_id: id.0@,
        hash_hex: hex_lower(id.0@),
    }
}

/// The library built from files in order: a file whose hash is already
/// present is left out (the first path is kept).
pub open spec fn index_spec(s: Seq<(SharedFile, KadId)>) -> Seq<LibraryFileModel>
    decreases s.len(),
{
    if s.len() == 0 {
        Seq::empty()
    } else {
        let r = index_spec(s.drop_last());
        let e = library_entry(s.last().0, s.last().1);
        if exists|i: int| 0 <= i < r.len() && #[trigger] r[i].hash_hex == e.hash_hex {
            r
        } else {
            r.push(e)
        }
    }
}

pub open spec fn hashes_distinct(s: Seq<LibraryFileModel>) -> bool {
    forall|i: int, j: int| 0 <= i < j < s.len() ==> (#[trigger] s[i]).hash_hex != (#[trigger] s[j]).hash_hex
}

/// The indexed shared files, each under a distinct MD4 hash.
#[derive(Debug, Clone)]
pub struct SharedLibrary {
    files: Vec<SharedLibraryFile>,
}

impl SharedLibrary {
    pub closed spec fn view(&self) -> Seq<LibraryFileModel> {
        self.files@.map_values(|f: SharedLibraryFile| f@)
    }

    pub closed spec fn wf(&self) -> bool {
        hashes_distinct(self.view())
    }

    pub fn new() -> (r: Self)
        ensures
            r.wf(),
            r.view() == Seq::<LibraryFileModel>::empty(),
    {
        let r = SharedLibrary { files: Vec::new() };
        assert(r.view() =~= Seq::<LibraryFileModel>::empty());
        r
    }

    pub fn is_empty(&self) -> (b: bool)
        ensures
            b == (self.view().len() == 0),
    {
        self.files.len() == 0
    }

    pub fn len(&self) -> (n: usize)
        ensures
            n == self.view().len(),
    {
        self.files.len()
    }

    pub fn files(&self) -> (r: &[SharedLibraryFile])
        ensures
            r@.map_values(|f: SharedLibraryFile| f@) == self.view(),
    {
        self.files.as_slice()
    }

    /// The file whose MD4 hash is `hash_hex`, in either case.
    pub fn get_by_hash_hex(&self, hash_hex: &str) -> (r: Option<&SharedLibraryFile>)
        requires
            self.wf(),
        ensures
            match r {
                Some(f) => exists|i: int| 0 <= i < self.view().len() && self.view()[i] == f@
                    && f@.hash_hex == ascii_lower(hash_hex@),
                None => forall|i: int| 0 <= i < self.view().len() ==> (#[trigger] self.view()[i]).hash_hex != ascii_lower(hash_hex@),
            },
    {
        let key = to_ascii_lowercase(hash_hex);
        let mut i: usize = 0;
        while i < self.files.len()
            invariant
                i <= self.files@.len(),
                key@ == ascii_lower(hash_hex@),
                forall|j: int| 0 <= j < i ==> (#[trigger] self.view()[j]).hash_hex != key@,
            decreases self.files@.len() - i,
        {
            assert(self.view()[i as int] == self.files@[i as int]@);
            if self.files[i].file_hash_md4_hex == key {
                return Some(&self.files[i]);
            }
            i += 1;
        }
        None
    }

    fn find_hash(&self, hex: &String) -> (r: bool)
        ensures
            r == exists|i: int| 0 <= i < self.view().len() && #[trigger] self.view()[i].hash_hex == hex@,
    {
        let mut i: usize = 0;
        while i < self.files.len()
            invariant
                i <= self.files@.len(),
                forall|j: int| 0 <= j < i ==> (#[trigger] self.view()[j]).hash_hex != hex@,
            decreases self.files@.len() - i,
        {
            assert(self.view()[i as int] == self.files@[i as int]@);
            if self.files[i].file_hash_md4_hex == *hex {
                assert(self.view()[i as int].hash_hex == hex@);
                return true;
            }
            i += 1;
        }
        false
    }

    /// Adds a file under the MD4 digest of its contents, unless a file with
    /// the same hash is already there; returns whether it was added.
    pub fn add_hashed(&mut self, file: SharedFile, file_id: KadId) -> (added: bool)
        requires
            old(self).wf(),
        ensures
            final(self).wf(),
            added == !exists|i: int| 0 <= i < old(self).view().len()
                && #[trigger] old(self).view()[i].hash_hex == hex_lower(file_id.0@),
            final(self).view() == if added {
                old(self).view().push(library_entry(file, file_id))
            } else {
                old(self).view()
            },
    {
        let hex = file_id.to_hex_lower();
        if self.find_hash(&hex) {
            return false;
        }
        let ghost before = self.view();
        let ghost e = library_entry(file, file_id);
        self.files.push(SharedLibraryFile {
            root_index: file.root_index,
            canonical_path: file.canonical_path,
            relative_path: file.relative_path,
            file_size: file.file_size,
            file_id,
            file_hash_md4_hex: hex,
        });
        assert(self.view() =~= before.push(e));
        true
    }
}

/// The library of the found files, given with the MD4 digests of their
/// contents, in order; duplicates of a hash keep the first path.
pub fn index_shared_files(files: Vec<(SharedFile, KadId)>) -> (lib: SharedLibrary)
    ensures
        lib.wf(),
        lib.view() == index_spec(files@),
{
    let ghost s = files@;
    let mut items = files;
    let mut lib = SharedLibrary::new();
    let mut i: usize = 0;
    let n = items.len();
    assert(s.take(0) =~= Seq::<(SharedFile, KadId)>::empty());
    assert(s.skip(0) =~= s);
    while i < n
        invariant
            i <= n,
            n == s.len(),
            items@ == s.skip(i as int),
            lib.wf(),
            lib.view() == index_spec(s.take(i as int)),
        decreases n - i,
    {
        let (f, id) = items.remove(0);
        proof {
            assert(items@ =~= s.skip(i + 1));
            assert(s.take(i + 1).drop_last() =~= s.take(i as int));
            assert(s.take(i + 1).last() == s[i as int]);
        }
        let _ = lib.add_hashed(f, id);
        i += 1;
    }
    assert(s.take(n as int) =~= s);
    lib
}

/// Files of the index, in order, are distinct by hash.
pub proof fn law_index_hashes_distinct(s: Seq<(SharedFile, KadId)>)
    ensures
        hashes_distinct(index_spec(s)),
    decreases s.len(),
{
    if s.len() > 0 {
        law_index_hashes_distinct(s.drop_last());
    }
}


/// The number of bytes in block `start..=end` of `file`; a block that is
/// reversed or reaches past the end of the file is refused.
pub fn shared_block_len(file: &SharedLibraryFile, start: u64, end: u64) -> (r: Result<u64, ShareError>)
    ensures
        match r {
            Ok(n) => start <= end && end < file.file_size && n == end - start + 1,
            Err(ShareError::OutsideRoot { path, root }) => (end < start || end >= file.file_size)
                && path@ == file.canonical_path@ && root@ == file.canonical_path@,
            Err(_) => false,
        },
{
    if end < start || end >= file.file_size {
        return Err(ShareError::OutsideRoot {
            path: String::from_str(file.canonical_path.as_str()),
            root: String::from_str(file.canonical_path.as_str()),
        });
    }
    Ok(end - start + 1)
}

/// Where `path` lies under `root`, for canonical paths (absolute, no `.` or
/// `..`, no doubled or trailing `/` but in `/` itself): the path relative to
/// the root when the root's components begin the path, `None` otherwise. An
/// empty root leaves the path as it is.
pub open spec fn path_under(path: Seq<char>, root: Seq<char>) -> Option<Seq<char>> {
    if root.len() == 0 {
        Some(path)
    } else if path.len() < root.len() || path.take(root.len() as int) != root {
        None
    } else if path.len() == root.len() {
        Some(Seq::empty())
    } else if root.last() == '/' {
        Some(path.skip(root.len() as int))
    } else if path[root.len() as int] == '/' {
        Some(path.skip(root.len() as int + 1))
    } else {
        None
    }
}

/// The path of a file relative to its share root, or `None` when it lies
/// outside the root (see `path_under`).
pub fn path_within_root(path: &str, root: &str) -> (r: Option<String>)
    ensures
        match path_under(path@, root@) {
            Some(rel) => r is Some && r->Some_0@ == rel,
            None => r is None,
        },
{
    let p = str_chars(path);
    let q = str_chars(root);
    if q.len() == 0 {
        return Some(chars_to_string(&p));
    }
    if p.len() < q.len() {
        return None;
    }
    let mut i: usize = 0;
    while i < q.len()
        invariant
            i <= q@.len(),
            q@.len() <= p@.len(),
            p@ == path@,
            q@ == root@,
            p@.take(i as int) == q@.take(i as int),
        decreases q@.len() - i,
    {
        if p[i] != q[i] {
            assert(p@.take(q@.len() as int)[i as int] != q@[i as int]);
            assert(p@.take(q@.len() as int) != q@);
            return None;
        }
        assert(p@.take(i + 1) =~= p@.take(i as int).push(p@[i as int]));
        assert(q@.take(i + 1) =~= q@.take(i as int).push(q@[i as int]));
        i += 1;
    }
    assert(q@.take(q@.len() as int) =~= q@);
    if p.len() == q.len() {
        let empty: Vec<char> = Vec::new();
        assert(empty@ =~= Seq::<char>::empty());
        return Some(chars_to_string(&empty));
    }
    let start: usize = if q[q.len() - 1] == '/' {
        q.len()
    } else if p[q.len()] == '/' {
        q.len() + 1
    } else {
        return None;
    };
    let mut rel: Vec<char> = Vec::new();
    let mut k: usize = start;
    while k < p.len()
        invariant
            start <= k <= p@.len(),
            rel@ == p@.subrange(start as int, k as int),
        decreases p@.len() - k,
    {
        rel.push(p[k]);
        k += 1;
        assert(rel@ =~= p@.subrange(start as int, k as int));
    }
    assert(p@.subrange(start as int, p@.len() as int) =~= p@.skip(start as int));
    Some(chars_to_string(&rel))
}

} // verus!
