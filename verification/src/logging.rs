//! Helpers for log output: shortening identifiers so that logs do not carry
//! them whole, and throttling warnings that would otherwise repeat.

use vstd::prelude::*;
use vstd::utf8::encode_utf8;
use crate::table::{keys_distinct, table_map, lemma_table_map_at, lemma_table_map_dom, lemma_table_map_update,
    lemma_table_push};
use crate::text::{chars_to_string, lemma_encode_utf8_concat, str_chars, utf8_width};

verus! {

/// Whether cutting `s` to its first `head` and last `tail` bytes falls
/// between characters (always so when it is not longer than both).
pub open spec fn can_shorten(s: Seq<char>, head: nat, tail: nat) -> bool {
    encode_utf8(s).len() <= head + tail || (
        (exists|p: int| 0 <= p <= s.len() && #[trigger] encode_utf8(s.take(p)).len() == head)
        && (exists|q: int| 0 <= q <= s.len() && #[trigger] encode_utf8(s.skip(q)).len() == tail)
    )
}

/// `r` is `s` when `s` has at most `head + tail` bytes, else its first
/// `head` bytes, `..`, and its last `tail` bytes.
pub open spec fn is_shortened(s: Seq<char>, head: nat, tail: nat, r: Seq<char>) -> bool {
    if encode_utf8(s).len() <= head + tail {
        r == s
    } else {
        exists|p: int, q: int|
            0 <= p <= s.len() && 0 <= q <= s.len() && #[trigger] encode_utf8(s.take(p)).len() == head
                && #[trigger] encode_utf8(s.skip(q)).len() == tail && r == s.take(p) + seq!['.', '.'] + s.skip(q)
    }
}

proof fn lemma_encode_len_ge(s: Seq<char>)
    ensures
        encode_utf8(s).len() >= s.len(),
    decreases s.len(),
{
    if s.len() > 0 {
        lemma_encode_len_ge(s.drop_first());
    }
}

proof fn lemma_take_grows(s: Seq<char>, i: int, j: int)
    requires
        0 <= i < j <= s.len(),
    ensures
        encode_utf8(s.take(i)).len() < encode_utf8(s.take(j)).len(),
{
    assert(s.take(j) =~= s.take(i) + s.subrange(i, j));
    lemma_encode_utf8_concat(s.take(i), s.subrange(i, j));
    lemma_encode_len_ge(s.subrange(i, j));
}

proof fn lemma_skip_shrinks(s: Seq<char>, i: int, j: int)
    requires
        0 <= i < j <= s.len(),
    ensures
        encode_utf8(s.skip(i)).len() > encode_utf8(s.skip(j)).len(),
{
    assert(s.skip(i) =~= s.subrange(i, j) + s.skip(j));
    lemma_encode_utf8_concat(s.subrange(i, j), s.skip(j));
    lemma_encode_len_ge(s.subrange(i, j));
}

fn shorten(value: &str, head: usize, tail: usize) -> (r: String)
    requires
        head <= 8,
        tail <= 8,
        can_shorten(value@, head as nat, tail as nat),
    ensures
        is_shortened(value@, head as nat, tail as nat, r@),
{
    let cs = str_chars(value);
    let ghost s = cs@;
    let n = cs.len();
    let limit: usize = head + tail;
    let mut total: usize = 0;
    let mut i: usize = 0;
    while i < n && total <= limit
        invariant
            i <= n,
            n == s.len(),
            s == cs@,
            limit == head + tail,
            limit <= 16,
            total == encode_utf8(s.take(i as int)).len(),
            total <= limit + 4,
        decreases n - i,
    {
        let w = utf8_width(cs[i]);
        proof {
            assert(s.take(i + 1) =~= s.take(i as int) + seq![s[i as int]]);
            lemma_encode_utf8_concat(s.take(i as int), seq![s[i as int]]);
        }
        total = total + w;
        i += 1;
    }
    if total <= limit {
        proof {
            assert(s.take(i as int) =~= s);
        }
        let mut out: Vec<char> = Vec::new();
        let mut k: usize = 0;
        while k < n
            invariant
                k <= n,
                n == cs@.len(),
                out@ == cs@.take(k as int),
            decreases n - k,
        {
            out.push(cs[k]);
            k += 1;
            assert(out@ =~= cs@.take(k as int));
        }
        assert(out@ =~= s);
        return chars_to_string(&out);
    }
    proof {
        if i < n {
            lemma_take_grows(s, i as int, n as int);
        }
        assert(s.take(n as int) =~= s);
    }
    // The first `head` bytes.
    let ghost p0 = choose|p: int| 0 <= p <= s.len() && #[trigger] encode_utf8(s.take(p)).len() == head;
    let mut out: Vec<char> = Vec::new();
    let mut acc: usize = 0;
    let mut j: usize = 0;
    while acc < head
        invariant
            j <= p0,
            0 <= p0 <= s.len(),
            encode_utf8(s.take(p0)).len() == head,
            n == s.len(),
            s == cs@,
            head <= 8,
            acc == encode_utf8(s.take(j as int)).len(),
            out@ == s.take(j as int),
        decreases head - acc,
    {
        proof {
            if j == p0 {
                assert(false);
            }
        }
        let c = cs[j];
        let w = utf8_width(c);
        proof {
            assert(s.take(j + 1) =~= s.take(j as int) + seq![c]);
            lemma_encode_utf8_concat(s.take(j as int), seq![c]);
            if j + 1 < p0 {
                lemma_take_grows(s, j + 1, p0);
            }
        }
        out.push(c);
        acc = acc + w;
        j += 1;
        assert(out@ =~= s.take(j as int));
    }
    proof {
        if j < p0 {
            lemma_take_grows(s, j as int, p0);
        }
    }
    out.push('.');
    out.push('.');
    // The last `tail` bytes.
    let ghost q0 = choose|q: int| 0 <= q <= s.len() && #[trigger] encode_utf8(s.skip(q)).len() == tail;
    let mut k: usize = n;
    let mut acc2: usize = 0;
    proof {
        assert(s.skip(n as int) =~= Seq::<char>::empty());
    }
    while acc2 < tail
        invariant
            q0 <= k <= n,
            0 <= q0 <= s.len(),
            encode_utf8(s.skip(q0)).len() == tail,
            n == s.len(),
            s == cs@,
            tail <= 8,
            acc2 == encode_utf8(s.skip(k as int)).len(),
        decreases tail - acc2,
    {
        proof {
            if k == q0 {
                assert(false);
            }
        }
        let c = cs[k - 1];
        let w = utf8_width(c);
        proof {
            assert(s.skip(k - 1) =~= seq![c] + s.skip(k as int));
            lemma_encode_utf8_concat(seq![c], s.skip(k as int));
            if q0 < k - 1 {
                lemma_skip_shrinks(s, q0, k - 1);
            }
        }
        acc2 = acc2 + w;
        k -= 1;
    }
    proof {
        if q0 < k {
            lemma_skip_shrinks(s, q0, k as int);
        }
    }
    let ghost mid = out@;
    let mut m: usize = k;
    while m < n
        invariant
            k <= m <= n,
            n == cs@.len(),
            out@ == mid + cs@.subrange(k as int, m as int),
        decreases n - m,
    {
        out.push(cs[m]);
        m += 1;
        assert(out@ =~= mid + cs@.subrange(k as int, m as int));
    }
    proof {
        assert(cs@.subrange(k as int, n as int) =~= s.skip(k as int));
        assert(out@ =~= s.take(j as int) + seq!['.', '.'] + s.skip(k as int));
    }
    chars_to_string(&out)
}

/// A hexadecimal identifier shortened to its first and last eight bytes.
pub fn redact_hex(value: &str) -> (r: String)
    requires
        can_shorten(value@, 8, 8),
    ensures
        is_shortened(value@, 8, 8, r@),
{
    shorten(value, 8, 8)
}

/// A base64 destination shortened to its first and last six bytes.
pub fn redact_b64(value: &str) -> (r: String)
    requires
        can_shorten(value@, 6, 6),
    ensures
        is_shortened(value@, 6, 6, r@),
{
    shorten(value, 6, 6)
}

/// When a warning under some key was last let through, and how many have
/// been held back since.
#[derive(Debug, Clone, Copy, PartialEq, Eq, Structural)]
pub struct WarnThrottleState {
    pub last: u64,
    pub suppressed: u64,
}

struct ThrottleEntry {
    key: String,
    state: WarnThrottleState,
}

/// Per-key throttling of warnings: one warning per key per interval, with a
/// count of those held back in between. Times are nanoseconds.
pub struct WarnThrottle {
    entries: Vec<ThrottleEntry>,
}

/// One warning under `key` at `now`: the first ever passes with a count of
/// zero; one within `interval` of the last that passed is held back and
/// counted; a later one passes, reports the count, and starts a new interval.
pub open spec fn throttle_step(m: Map<Seq<char>, WarnThrottleState>, key: Seq<char>, now: u64, interval: u64)
    -> (Map<Seq<char>, WarnThrottleState>, Option<u64>)
{
    if m.dom().contains(key) {
        let st = m[key];
        let elapsed: int = if now >= st.last { now - st.last } else { 0 };
        if elapsed < interval {
            let n: u64 = if st.suppressed == u64::MAX { u64::MAX } else { (st.suppressed + 1) as u64 };
            (m.insert(key, WarnThrottleState { last: st.last, suppressed: n }), None)
        } else {
            (m.insert(key, WarnThrottleState { last: now, suppressed: 0 }), Some(st.suppressed))
        }
    } else {
        (m.insert(key, WarnThrottleState { last: now, suppressed: 0 }), Some(0))
    }
}

impl WarnThrottle {
    spec fn table(&self) -> Seq<(Seq<char>, WarnThrottleState)> {
        self.entries@.map_values(|e: ThrottleEntry| (e.key@, e.state))
    }

    /// The state of each key seen so far.
    pub closed spec fn view(&self) -> Map<Seq<char>, WarnThrottleState> {
        table_map(self.table())
    }

    pub closed spec fn wf(&self) -> bool {
        keys_distinct(self.table())
    }

    pub fn new() -> (r: Self)
        ensures
            r.wf(),
            r.view() == Map::<Seq<char>, WarnThrottleState>::empty(),
    {
        let r = WarnThrottle { entries: Vec::new() };
        assert(r.table() =~= Seq::<(Seq<char>, WarnThrottleState)>::empty());
        assert(r.view() =~= Map::<Seq<char>, WarnThrottleState>::empty());
        r
    }

    /// Whether a warning under `key` may be logged at `now`, and if so how
    /// many were held back since the last one.
    pub fn warn_throttled_with_count(&mut self, key: &str, now: u64, interval: u64) -> (r: Option<u64>)
        requires
            old(self).wf(),
        ensures
            final(self).wf(),
            (final(self).view(), r) == throttle_step(old(self).view(), key@, now, interval),
    {
        let ghost t0 = self.table();
        let key_owned = String::from_str(key);
        let mut i: usize = 0;
        while i < self.entries.len()
            invariant
                key_owned@ == key@,
                keys_distinct(t0),
                t0 == old(self).table(),
                i <= self.entries@.len(),
                t0 == self.table(),
                forall|j: int| 0 <= j < i ==> (#[trigger] t0[j]).0 != key@,
            decreases self.entries@.len() - i,
        {
            assert(t0[i as int].0 == self.entries@[i as int].key@);
            if self.entries[i].key == key_owned {
                let st = self.entries[i].state;
                proof {
                    lemma_table_map_at(t0, i as int);
                }
                let elapsed = now.saturating_sub(st.last);
                let (next, r) = if elapsed < interval {
                    (WarnThrottleState { last: st.last, suppressed: st.suppressed.saturating_add(1) }, None)
                } else {
                    (WarnThrottleState { last: now, suppressed: 0 }, Some(st.suppressed))
                };
                let k = self.entries[i].key.clone();
                self.entries.set(i, ThrottleEntry { key: k, state: next });
                proof {
                    assert(t0[i as int].0 == key@);
                    assert(st == table_map(t0)[key@]);
                    assert(self.table() =~= t0.update(i as int, (t0[i as int].0, next)));
                    lemma_table_map_update(t0, i as int, next);
                    let expect = throttle_step(table_map(t0), key@, now, interval);
                    assert(expect.0 =~= self.view());
                    assert(expect.1 == r);
                }
                return r;
            }
            i += 1;
        }
        proof {
            lemma_table_map_dom(t0, key@);
        }
        let st = WarnThrottleState { last: now, suppressed: 0 };
        self.entries.push(ThrottleEntry { key: key_owned, state: st });
        proof {
            assert(self.table() =~= t0.push((key@, st)));
            lemma_table_push(t0, key@, st);
        }
        Some(0)
    }

    /// Whether a warning under `key` may be logged at `now`.
    pub fn warn_throttled(&mut self, key: &str, now: u64, interval: u64) -> (r: bool)
        requires
            old(self).wf(),
        ensures
            final(self).wf(),
            final(self).view() == throttle_step(old(self).view(), key@, now, interval).0,
            r == throttle_step(old(self).view(), key@, now, interval).1 is Some,
    {
        self.warn_throttled_with_count(key, now, interval).is_some()
    }
}

/// The first warning under a key always passes; a repeat at the same moment
/// within a non-zero interval is held back, and the next one to pass reports it.
pub proof fn law_throttle_holds_back_repeats(
    m: Map<Seq<char>, WarnThrottleState>,
    key: Seq<char>,
    now: u64,
    later: u64,
    interval: u64,
)
    requires
        interval > 0,
        later >= now + interval,
    ensures
        !m.dom().contains(key) ==> throttle_step(m, key, now, interval).1 == Some(0u64),
        throttle_step(m, key, now, interval).1 is Some ==> ({
            let m1 = throttle_step(m, key, now, interval).0;
            let m2 = throttle_step(m1, key, now, interval).0;
            &&& throttle_step(m1, key, now, interval).1 is None
            &&& throttle_step(m2, key, later, interval).1 == Some(1u64)
        }),
{
}

} // verus!
