//! iMule keyword handling (`CSearchManager::GetWords`): splitting a query
//! into words and hashing a word into its keyword identifier.

use vstd::prelude::*;
use vstd::utf8::encode_utf8;
use crate::kad::id::KadId;
use crate::kad::md4::{digest, md4};
use crate::text::{ascii_lower, chars_to_string, lemma_encode_utf8_concat, utf8_width};

verus! {

/// The characters iMule treats as keyword separators
/// (`SearchManager.h::GetInvalidKeywordChars()`): ` ()[]{}<>,._-!?:;\/"`.
pub open spec fn invalid_keyword_char(c: char) -> bool {
    c == ' ' || c == '(' || c == ')' || c == '[' || c == ']' || c == '{' || c == '}' || c == '<'
        || c == '>' || c == ',' || c == '.' || c == '_' || c == '-' || c == '!' || c == '?'
        || c == ':' || c == ';' || c == '\\' || c == '/' || c == '"'
}

/// Unicode `White_Space`, the characters `char::is_whitespace` accepts:
/// tab to carriage return, space, next line, no-break space, ogham space
/// mark, en quad to hair space, line and paragraph separators, narrow
/// no-break space, medium mathematical space and ideographic space.
pub open spec fn char_is_whitespace(c: char) -> bool {
    let v = c as u32;
    (0x09 <= v <= 0x0D) || v == 0x20 || v == 0x85 || v == 0xA0 || v == 0x1680 || (0x2000 <= v <= 0x200A)
        || v == 0x2028 || v == 0x2029 || v == 0x202F || v == 0x205F || v == 0x3000
}

/// What `str::to_lowercase` (Unicode `Lowercase` mapping) makes of a string.
pub uninterp spec fn str_lowercase(s: Seq<char>) -> Seq<char>;

/// `char::is_whitespace`.
#[verifier::external_body]
pub(crate) fn is_whitespace(c: char) -> (r: bool)
    ensures
        r == char_is_whitespace(c),
{
    c.is_whitespace()
}

/// Whether every character is ASCII.
pub open spec fn all_ascii(s: Seq<char>) -> bool {
    forall|i: int| 0 <= i < s.len() ==> (s[i] as u32) < 128
}

/// A string lowercased as `str::to_lowercase` does it: ASCII text by mapping
/// `A`..=`Z` to `a`..=`z`, other text by the Unicode `Lowercase` mapping.
pub open spec fn lowercase(s: Seq<char>) -> Seq<char> {
    if all_ascii(s) { ascii_lower(s) } else { str_lowercase(s) }
}

/// `str::to_lowercase`: the Unicode `Lowercase` mapping, which on ASCII
/// text maps `A`..=`Z` to `a`..=`z` and keeps everything else.
#[verifier::external_body]
fn to_lowercase(s: &str) -> (r: String)
    ensures
        r@ == str_lowercase(s@),
        all_ascii(s@) ==> r@ == ascii_lower(s@),
{
    s.to_lowercase()
}

pub open spec fn is_separator(c: char) -> bool {
    invalid_keyword_char(c) || char_is_whitespace(c)
}

/// Ends the current word: lowercased, kept when it is at least three UTF-8
/// bytes long and not already present.
pub open spec fn close_word(out: Seq<Seq<char>>, cur: Seq<char>) -> Seq<Seq<char>> {
    if cur.len() == 0 {
        out
    } else {
        let w = lowercase(cur);
        if encode_utf8(w).len() >= 3 && !out.contains(w) {
            out.push(w)
        } else {
            out
        }
    }
}

/// Words closed so far and the word being read, after the characters `q`.
pub open spec fn scan_words(q: Seq<char>) -> (Seq<Seq<char>>, Seq<char>)
    decreases q.len(),
{
    if q.len() == 0 {
        (Seq::empty(), Seq::empty())
    } else {
        let (out, cur) = scan_words(q.drop_last());
        let c = q.last();
        if is_separator(c) {
            (close_word(out, cur), Seq::empty())
        } else {
            (out, cur.push(c))
        }
    }
}

pub open spec fn words_spec(q: Seq<char>) -> Seq<Seq<char>> {
    let (out, cur) = scan_words(q);
    close_word(out, cur)
}

pub open spec fn strings_view(v: Seq<String>) -> Seq<Seq<char>> {
    v.map_values(|s: String| s@)
}

/// Every word is at least three UTF-8 bytes long and none occurs twice.
pub open spec fn words_ok(ws: Seq<Seq<char>>) -> bool {
    &&& forall|i: int| 0 <= i < ws.len() ==> encode_utf8(#[trigger] ws[i]).len() >= 3
    &&& forall|i: int, j: int| 0 <= i < j < ws.len() ==> ws[i] != ws[j]
}

proof fn lemma_close_word_ok(out: Seq<Seq<char>>, cur: Seq<char>)
    requires
        words_ok(out),
    ensures
        words_ok(close_word(out, cur)),
{
    if cur.len() > 0 {
        let w = lowercase(cur);
        if encode_utf8(w).len() >= 3 && !out.contains(w) {
            let r = out.push(w);
            assert forall|i: int, j: int| 0 <= i < j < r.len() implies r[i] != r[j] by {
                if j == out.len() {
                    assert(out.contains(out[i]));
                }
            }
        }
    }
}


/// Whether the UTF-8 encoding of `s` has at least three bytes.
fn utf8_len_at_least_3(s: &str) -> (r: bool)
    ensures
        r == (encode_utf8(s@).len() >= 3),
{
    let n = s.unicode_len();
    let mut total: usize = 0;
    let mut i: usize = 0;
    while i < n && total < 3
        invariant
            i <= n,
            n == s@.len(),
            total == encode_utf8(s@.subrange(0, i as int)).len(),
            total < 3 + 4,
        decreases n - i,
    {
        let c = s.get_char(i);
        let w = utf8_width(c);
        proof {
            assert(s@.subrange(0, i + 1) =~= s@.subrange(0, i as int) + seq![c]);
            lemma_encode_utf8_concat(s@.subrange(0, i as int), seq![c]);
        }
        total = total + w;
        i += 1;
    }
    proof {
        assert(s@ =~= s@.subrange(0, i as int) + s@.subrange(i as int, n as int));
        lemma_encode_utf8_concat(s@.subrange(0, i as int), s@.subrange(i as int, n as int));
    }
    total >= 3
}

fn close_word_exec(out: &mut Vec<String>, cur: &mut Vec<char>)
    requires
        words_ok(strings_view(old(out)@)),
    ensures
        strings_view(final(out)@) == close_word(strings_view(old(out)@), old(cur)@),
        final(cur)@ == Seq::<char>::empty(),
        words_ok(strings_view(final(out)@)),
{
    proof {
        lemma_close_word_ok(strings_view(out@), cur@);
    }
    if cur.len() == 0 {
        return;
    }
    let raw = chars_to_string(cur);
    let w = to_lowercase(raw.as_str());
    assert(w@ == lowercase(old(cur)@));
    *cur = Vec::new();
    if !utf8_len_at_least_3(w.as_str()) {
        return;
    }
    let mut k: usize = 0;
    while k < out.len()
        invariant
            k <= out@.len(),
            out@ == old(out)@,
            words_ok(strings_view(old(out)@)),
            cur@ == Seq::<char>::empty(),
            old(cur)@.len() > 0,
            w@ == lowercase(old(cur)@),
            encode_utf8(w@).len() >= 3,
            forall|t: int| 0 <= t < k ==> out@[t]@ != w@,
        decreases out@.len() - k,
    {
        if out[k] == w {
            proof {
                assert(strings_view(out@)[k as int] == w@);
                assert(strings_view(out@).contains(w@));
            }
            return;
        }
        k += 1;
    }
    proof {
        assert(!strings_view(out@).contains(w@)) by {
            if strings_view(out@).contains(w@) {
                let t = choose|t: int| 0 <= t < strings_view(out@).len() && strings_view(out@)[t] == w@;
                assert(out@[t]@ == w@);
            }
        }
    }
    let ghost before = out@;
    out.push(w);
    proof {
        assert(strings_view(out@) =~= strings_view(before).push(w@));
    }
}

fn is_separator_exec(c: char) -> (r: bool)
    ensures
        r == is_separator(c),
{
    c == ' ' || c == '(' || c == ')' || c == '[' || c == ']' || c == '{' || c == '}' || c == '<'
        || c == '>' || c == ',' || c == '.' || c == '_' || c == '-' || c == '!' || c == '?'
        || c == ':' || c == ';' || c == '\\' || c == '/' || c == '"' || is_whitespace(c)
}

/// Splits a query into keyword words: separators are the invalid keyword
/// characters and whitespace; words are lowercased; words shorter than three
/// UTF-8 bytes and repeats are dropped.
pub fn words(query: &str) -> (r: Vec<String>)
    ensures
        strings_view(r@) == words_spec(query@),
        words_ok(strings_view(r@)),
{
    let mut out: Vec<String> = Vec::new();
    let mut cur: Vec<char> = Vec::new();
    let n = query.unicode_len();
    let mut i: usize = 0;
    assert(query@.subrange(0, 0) =~= Seq::<char>::empty());
    assert(strings_view(out@) =~= Seq::<Seq<char>>::empty());
    while i < n
        invariant
            i <= n,
            n == query@.len(),
            (strings_view(out@), cur@) == scan_words(query@.subrange(0, i as int)),
            words_ok(strings_view(out@)),
        decreases n - i,
    {
        let ch = query.get_char(i);
        proof {
            assert(query@.subrange(0, i + 1).drop_last() =~= query@.subrange(0, i as int));
        }
        if is_separator_exec(ch) {
            close_word_exec(&mut out, &mut cur);
        } else {
            cur.push(ch);
        }
        i += 1;
    }
    assert(query@.subrange(0, n as int) =~= query@);
    close_word_exec(&mut out, &mut cur);
    out
}

/// iMule keyword hash: MD4 of the UTF-8 bytes of the lowercased keyword.
pub fn keyword_hash(word: &str) -> (id: KadId)
    ensures
        id.0@ == md4(encode_utf8(lowercase(word@))),
{
    let lower = to_lowercase(word);
    KadId(digest(lower.as_str().as_bytes()))
}

#[derive(Debug, Clone, PartialEq, Eq, Structural)]
pub enum KeywordError {
    NoKeyword,
}

impl KeywordError {
    pub fn to_string(&self) -> (s: String)
        ensures
            s@ == "query yielded no valid keyword words"@,
    {
        String::from_str("query yielded no valid keyword words")
    }
}

/// The first word of a query and its keyword hash (iMule searches on the
/// first extracted word).
pub fn query_to_keyword_id(query: &str) -> (r: Result<(String, KadId), KeywordError>)
    ensures
        words_spec(query@).len() == 0 ==> r == Err::<(String, KadId), KeywordError>(KeywordError::NoKeyword),
        words_spec(query@).len() > 0 ==> (r matches Ok((w, id)) && w@ == words_spec(query@)[0]
            && id.0@ == md4(encode_utf8(lowercase(w@)))),
{
    let mut ws = words(query);
    if ws.len() == 0 {
        return Err(KeywordError::NoKeyword);
    }
    assert(ws@[0]@ == strings_view(ws@)[0]);
    let first = ws.swap_remove(0);
    let id = keyword_hash(first.as_str());
    Ok((first, id))
}

} // verus!
