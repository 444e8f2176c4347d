//! Iterative lookups: picking refresh targets inside a bucket, the state of
//! one lookup, and the bookkeeping around its requests and answers.

use vstd::prelude::*;
use crate::kad::id::KadId;
use crate::kad::routing::{bucket_for, bytes_lt, clz8, closest_key, copy_node, distance_key, first_by_key, health_rank,
    health_spec, id_lt, keyed, keyed_view, leading_zeros, peer_health_rank, push_distance, select_first_by_key,
    NodeModel, PeerHealthClass, RoutingTable, BUCKET_COUNT};
use crate::i2p::b64::b64_spec;
use crate::kad::service::types::KadServiceConfig;
use crate::kad::udp_crypto::fill_random;
use crate::nodes::imule::{ImuleNode, ImuleNodeView};
use crate::text::{hex_lower, same_text, to_hex_lower};

verus! {

/// The distance byte at position `i` of a target drawn for `bucket`: zero
/// before the bucket's bit, that bit set, the bits after it taken from
/// `rand`. A bucket past the last bit gives a zero distance.
pub open spec fn bucket_dist_byte(bucket: usize, rand: Seq<u8>, i: int) -> u8 {
    if bucket >= 128 || i < bucket / 8 {
        0
    } else if i == bucket / 8 {
        let m: u8 = 0x80u8 >> ((bucket % 8) as u8);
        m | (rand[i] & ((m - 1) as u8))
    } else {
        rand[i]
    }
}

/// The identifier at the distance that `bucket` and `rand` give from `me`.
pub open spec fn id_in_bucket_spec(me: KadId, bucket: usize, rand: Seq<u8>) -> Seq<u8> {
    Seq::new(16, |i: int| me.0@[i] ^ bucket_dist_byte(bucket, rand, i))
}

/// The identifier whose XOR distance from `my_id` has its first set bit at
/// position `bucket` (counted from the most significant bit), with the bits
/// after it taken from `rand`.
pub fn id_in_bucket(my_id: KadId, bucket: usize, rand: &[u8; 16]) -> (out: KadId)
    ensures
        out.0@ == id_in_bucket_spec(my_id, bucket, rand@),
{
    let mut out = [0u8; 16];
    let mut i: usize = 0;
    while i < 16
        invariant
            i <= 16,
            out@.len() == 16,
            forall|j: int| 0 <= j < i ==> out@[j] == my_id.0@[j] ^ bucket_dist_byte(bucket, rand@, j),
        decreases 16 - i,
    {
        let d: u8 = if bucket >= 128 || i < bucket / 8 {
            0
        } else if i == bucket / 8 {
            let k: u8 = (bucket % 8) as u8;
            let m: u8 = 0x80u8 >> k;
            assert(m >= 1) by (bit_vector)
                requires
                    k < 8,
                    m == 0x80u8 >> k,
            ;
            m | (rand[i] & (m - 1))
        } else {
            rand[i]
        };
        out[i] = my_id.0[i] ^ d;
        i += 1;
    }
    let r = KadId(out);
    assert(r.0@ =~= id_in_bucket_spec(my_id, bucket, rand@));
    r
}

/// A random identifier in `bucket` as seen from `my_id`. When the system's
/// random source fails, the bits after the bucket's bit are zero.
pub fn random_id_in_bucket(my_id: KadId, bucket: usize) -> (out: KadId)
    ensures
        exists|rand: Seq<u8>| rand.len() == 16 && out.0@ == #[trigger] id_in_bucket_spec(my_id, bucket, rand),
{
    let mut buf: Vec<u8> = vec![0u8; 16];
    let _ = fill_random(&mut buf);
    let mut rand = [0u8; 16];
    let mut i: usize = 0;
    while i < 16
        invariant
            i <= 16,
            buf@.len() == 16,
            rand@.len() == 16,
            forall|j: int| 0 <= j < i ==> rand@[j] == buf@[j],
        decreases 16 - i,
    {
        rand[i] = buf[i];
        i += 1;
    }
    let out = id_in_bucket(my_id, bucket, &rand);
    assert(rand@.len() == 16);
    out
}

proof fn lemma_leading_zero_bytes(d: Seq<u8>, n: int)
    requires
        0 <= n <= d.len(),
        forall|i: int| 0 <= i < n ==> d[i] == 0,
    ensures
        leading_zeros(d) == 8 * n + leading_zeros(d.subrange(n, d.len() as int)),
    decreases n,
{
    if n == 0 {
        assert(d.subrange(0, d.len() as int) =~= d);
    } else {
        let t = d.drop_first();
        assert forall|i: int| 0 <= i < n - 1 implies t[i] == 0 by {
            assert(t[i] == d[i + 1]);
        }
        lemma_leading_zero_bytes(t, n - 1);
        assert(t.subrange(n - 1, t.len() as int) =~= d.subrange(n, d.len() as int));
    }
}

proof fn lemma_bucket_byte_clz(k: u8, r: u8)
    requires
        k < 8,
    ensures
        clz8((0x80u8 >> k) | (r & (((0x80u8 >> k) - 1) as u8))) == k,
        (0x80u8 >> k) | (r & (((0x80u8 >> k) - 1) as u8)) != 0,
{
    let m: u8 = 0x80u8 >> k;
    let x: u8 = m | (r & ((m - 1) as u8));
    assert(m <= x && x < 2 * m) by (bit_vector)
        requires
            k < 8,
            m == 0x80u8 >> k,
            x == m | (r & ((m - 1) as u8)),
    ;
    assert((k == 0 ==> m == 128) && (k == 1 ==> m == 64) && (k == 2 ==> m == 32) && (k == 3 ==> m == 16)
        && (k == 4 ==> m == 8) && (k == 5 ==> m == 4) && (k == 6 ==> m == 2) && (k == 7 ==> m == 1)) by (bit_vector)
        requires
            m == 0x80u8 >> k,
    ;
}

/// A target drawn for a bucket lies in that bucket: its distance from us has
/// exactly `bucket` leading zero bits (unless it is the all-zero identifier,
/// which the table files nowhere).
pub proof fn law_bucket_target_in_bucket(me: KadId, bucket: usize, rand: Seq<u8>)
    requires
        bucket < 128,
        rand.len() == 16,
    ensures
        ({
            let t = id_in_bucket_spec(me, bucket, rand);
            (exists|i: int| 0 <= i < 16 && t[i] != 0) ==> bucket_for(me.0@, t) == Some(bucket)
        }),
{
    let t = id_in_bucket_spec(me, bucket, rand);
    let d = Seq::new(16, |i: int| me.0@[i] ^ t[i]);
    let bb: int = bucket as int / 8;
    let k: u8 = (bucket % 8) as u8;
    assert forall|i: int| 0 <= i < 16 implies d[i] == bucket_dist_byte(bucket, rand, i) by {
        let a = me.0@[i];
        let b = bucket_dist_byte(bucket, rand, i);
        assert(a ^ (a ^ b) == b) by (bit_vector);
    }
    assert forall|i: int| 0 <= i < bb implies d[i] == 0 by {}
    lemma_leading_zero_bytes(d, bb);
    let rest = d.subrange(bb, 16);
    lemma_bucket_byte_clz(k, rand[bb]);
    assert(rest[0] == d[bb]);
    assert(d[bb] != 0);
    assert(leading_zeros(rest) == clz8(rest[0]));
    assert(leading_zeros(d) == bucket);
    assert(t != me.0@) by {
        if t == me.0@ {
            let a = me.0@[bb];
            let b = d[bb];
            assert(t[bb] == a ^ b);
            assert(a ^ b == a ==> b == 0) by (bit_vector);
        }
    }
}


/// What a lookup is for.
#[derive(Debug, Clone, Copy, PartialEq, Eq)]
pub enum LookupKind {
    Debug,
    Refresh { bucket: usize },
}

/// One iterative lookup towards `target`.
#[derive(Debug)]
pub struct LookupTask {
    pub kind: LookupKind,
    pub target: KadId,
    pub started_at: u64,
    pub last_progress: u64,
    pub iteration: u32,
    pub alpha_override: Option<usize>,
    /// Destinations asked so far.
    pub queried: Vec<String>,
    /// Destinations asked and not yet answered.
    pub inflight: Vec<String>,
    /// Nodes learned for this lookup, one per identifier.
    pub known: Vec<ImuleNode>,
    pub new_nodes: u64,
}

pub open spec fn nodes_of(v: Seq<ImuleNode>) -> Seq<ImuleNodeView> {
    v.map_values(|n: ImuleNode| n@)
}

pub open spec fn texts_of(v: Seq<String>) -> Seq<Seq<char>> {
    v.map_values(|s: String| s@)
}

/// Whether some node of `s` has identifier `id`.
pub open spec fn has_id(s: Seq<ImuleNodeView>, id: Seq<u8>) -> bool {
    exists|i: int| 0 <= i < s.len() && (#[trigger] s[i]).client_id == id
}

/// `s` with `n` added unless a node with its identifier is there already.
pub open spec fn add_if_new(s: Seq<ImuleNodeView>, n: ImuleNodeView) -> Seq<ImuleNodeView> {
    if has_id(s, n.client_id) { s } else { s.push(n) }
}

/// `add_if_new` of each node of `ns` in turn.
pub open spec fn add_all_new(s: Seq<ImuleNodeView>, ns: Seq<ImuleNodeView>) -> Seq<ImuleNodeView>
    decreases ns.len(),
{
    if ns.len() == 0 { s } else { add_if_new(add_all_new(s, ns.drop_last()), ns.last()) }
}

/// No two nodes of `s` share an identifier.
pub open spec fn ids_distinct(s: Seq<ImuleNodeView>) -> bool {
    forall|i: int, j: int| 0 <= i < j < s.len() ==> (#[trigger] s[i]).client_id != (#[trigger] s[j]).client_id
}

/// `s` without every occurrence of `x`.
pub open spec fn without(s: Seq<Seq<char>>, x: Seq<char>) -> Seq<Seq<char>>
    decreases s.len(),
{
    if s.len() == 0 {
        s
    } else if s.last() == x {
        without(s.drop_last(), x)
    } else {
        without(s.drop_last(), x).push(s.last())
    }
}

/// XOR distance between `target` and an identifier.
pub open spec fn dist_to(target: KadId, id: Seq<u8>) -> Seq<u8> {
    Seq::new(16, |i: int| target.0@[i] ^ id[i])
}

/// The smallest distance to `target` among the nodes of `s` (the first one
/// on a tie); `s` is not empty.
pub open spec fn min_dist(target: KadId, s: Seq<ImuleNodeView>) -> Seq<u8>
    decreases s.len(),
{
    if s.len() <= 1 {
        dist_to(target, s[0].client_id)
    } else {
        let m = min_dist(target, s.drop_last());
        let d = dist_to(target, s.last().client_id);
        if bytes_lt(d, m) { d } else { m }
    }
}

/// The rendering of the closest known distance, or `none`.
pub open spec fn closest_text(target: KadId, s: Seq<ImuleNodeView>) -> Seq<char> {
    if s.len() == 0 { "none"@ } else { hex_lower(min_dist(target, s)) }
}

proof fn lemma_add_if_new_distinct(s: Seq<ImuleNodeView>, n: ImuleNodeView)
    requires
        ids_distinct(s),
    ensures
        ids_distinct(add_if_new(s, n)),
{
    if !has_id(s, n.client_id) {
        let t = s.push(n);
        assert forall|i: int, j: int| 0 <= i < j < t.len() implies (#[trigger] t[i]).client_id != (#[trigger] t[j]).client_id by {
            if j == s.len() {
                assert(s[i].client_id != n.client_id);
            } else {
                assert(s[i] == t[i] && s[j] == t[j]);
            }
        }
    }
}

pub(crate) fn contains_text(v: &Vec<String>, x: &str) -> (r: bool)
    ensures
        r == texts_of(v@).contains(x@),
{
    let mut i: usize = 0;
    while i < v.len()
        invariant
            i <= v@.len(),
            forall|j: int| 0 <= j < i ==> texts_of(v@)[j] != x@,
        decreases v@.len() - i,
    {
        if same_text(v[i].as_str(), x) {
            assert(texts_of(v@)[i as int] == x@);
            return true;
        }
        i += 1;
    }
    false
}

fn remove_text(v: &mut Vec<String>, x: &str)
    ensures
        texts_of(final(v)@) == without(texts_of(old(v)@), x@),
{
    let ghost orig = texts_of(v@);
    let mut out: Vec<String> = Vec::new();
    let mut i: usize = 0;
    while i < v.len()
        invariant
            i <= v@.len(),
            texts_of(v@) == orig,
            texts_of(out@) == without(orig.take(i as int), x@),
        decreases v@.len() - i,
    {
        assert(orig.take(i + 1).drop_last() =~= orig.take(i as int));
        assert(orig.take(i + 1).last() == v@[i as int]@);
        if !same_text(v[i].as_str(), x) {
            out.push(v[i].clone());
            assert(texts_of(out@) =~= without(orig.take(i as int), x@).push(v@[i as int]@));
        }
        i += 1;
    }
    assert(orig.take(orig.len() as int) =~= orig);
    *v = out;
}

fn has_id_exec(s: &Vec<ImuleNode>, id: &[u8; 16]) -> (r: bool)
    ensures
        r == has_id(nodes_of(s@), id@),
{
    let mut i: usize = 0;
    while i < s.len()
        invariant
            i <= s@.len(),
            forall|j: int| 0 <= j < i ==> nodes_of(s@)[j].client_id != id@,
        decreases s@.len() - i,
    {
        if KadId(s[i].client_id) == KadId(*id) {
            assert(nodes_of(s@)[i as int].client_id == id@);
            return true;
        }
        i += 1;
    }
    false
}

/// Adds `n` to `known` unless its identifier is known already.
fn add_known(known: &mut Vec<ImuleNode>, n: ImuleNode)
    ensures
        nodes_of(final(known)@) == add_if_new(nodes_of(old(known)@), n@),
{
    if !has_id_exec(known, &n.client_id) {
        known.push(n);
        assert(nodes_of(known@) =~= nodes_of(old(known)@).push(n@));
    }
}

impl LookupTask {
    /// The identifiers known to this lookup are distinct.
    pub open spec fn wf(&self) -> bool {
        ids_distinct(nodes_of(self.known@))
    }

    /// A fresh lookup started at `now`.
    pub fn new(kind: LookupKind, target: KadId, alpha_override: Option<usize>, now: u64) -> (t: LookupTask)
        ensures
            t.wf(),
            t.kind == kind,
            t.target == target,
            t.started_at == now,
            t.last_progress == now,
            t.iteration == 0,
            t.alpha_override == alpha_override,
            t.queried@.len() == 0,
            t.inflight@.len() == 0,
            t.known@.len() == 0,
            t.new_nodes == 0,
    {
        LookupTask {
            kind,
            target,
            started_at: now,
            last_progress: now,
            iteration: 0,
            alpha_override,
            queried: Vec::new(),
            inflight: Vec::new(),
            known: Vec::new(),
            new_nodes: 0,
        }
    }

    /// Adds each of `peers` whose identifier is not known yet.
    pub fn seed_known(&mut self, peers: Vec<ImuleNode>)
        requires
            old(self).wf(),
        ensures
            final(self).wf(),
            nodes_of(final(self).known@) == add_all_new(nodes_of(old(self).known@), nodes_of(peers@)),
            final(self).kind == old(self).kind,
            final(self).target == old(self).target,
            final(self).started_at == old(self).started_at,
            final(self).last_progress == old(self).last_progress,
            final(self).iteration == old(self).iteration,
            final(self).alpha_override == old(self).alpha_override,
            final(self).queried@ == old(self).queried@,
            final(self).inflight@ == old(self).inflight@,
            final(self).new_nodes == old(self).new_nodes,
    {
        let ghost ps = nodes_of(peers@);
        let ghost k0 = nodes_of(self.known@);
        let mut i: usize = 0;
        while i < peers.len()
            invariant
                i <= peers@.len(),
                ps == nodes_of(peers@),
                ids_distinct(nodes_of(self.known@)),
                nodes_of(self.known@) == add_all_new(k0, ps.take(i as int)),
                self.kind == old(self).kind,
                self.target == old(self).target,
                self.started_at == old(self).started_at,
                self.last_progress == old(self).last_progress,
                self.iteration == old(self).iteration,
                self.alpha_override == old(self).alpha_override,
                self.queried@ == old(self).queried@,
                self.inflight@ == old(self).inflight@,
                self.new_nodes == old(self).new_nodes,
            decreases peers@.len() - i,
        {
            assert(ps.take(i + 1).drop_last() =~= ps.take(i as int));
            assert(ps.take(i + 1).last() == peers@[i as int]@);
            proof {
                lemma_add_if_new_distinct(nodes_of(self.known@), peers@[i as int]@);
            }
            add_known(&mut self.known, copy_node(&peers[i]));
            i += 1;
        }
        assert(ps.take(ps.len() as int) =~= ps);
    }

    /// Whether `dest` has been neither asked nor is awaited.
    pub fn wants_query(&self, dest: &str) -> (r: bool)
        ensures
            r == (!texts_of(self.queried@).contains(dest@) && !texts_of(self.inflight@).contains(dest@)),
    {
        !contains_text(&self.queried, dest) && !contains_text(&self.inflight, dest)
    }

    /// Records that a request went to `peer` at `dest`.
    pub fn record_query(&mut self, dest: &str, peer: &ImuleNode)
        requires
            old(self).wf(),
        ensures
            final(self).wf(),
            texts_of(final(self).queried@) == texts_of(old(self).queried@).push(dest@),
            texts_of(final(self).inflight@) == texts_of(old(self).inflight@).push(dest@),
            nodes_of(final(self).known@) == add_if_new(nodes_of(old(self).known@), peer@),
            final(self).kind == old(self).kind,
            final(self).target == old(self).target,
            final(self).started_at == old(self).started_at,
            final(self).last_progress == old(self).last_progress,
            final(self).iteration == old(self).iteration,
            final(self).alpha_override == old(self).alpha_override,
            final(self).new_nodes == old(self).new_nodes,
    {
        self.queried.push(dest.to_string());
        self.inflight.push(dest.to_string());
        assert(texts_of(self.queried@) =~= texts_of(old(self).queried@).push(dest@));
        assert(texts_of(self.inflight@) =~= texts_of(old(self).inflight@).push(dest@));
        proof {
            lemma_add_if_new_distinct(nodes_of(self.known@), peer@);
        }
        add_known(&mut self.known, copy_node(peer));
    }

    /// The closest known distance to the target, rendered in hex (`none`
    /// when nothing is known), and the number of known nodes.
    pub fn closest_summary(&self) -> (r: (String, usize))
        ensures
            r.0@ == closest_text(self.target, nodes_of(self.known@)),
            r.1 == self.known@.len(),
    {
        let ghost s = nodes_of(self.known@);
        if self.known.len() == 0 {
            return (String::from_str("none"), 0);
        }
        let mut best = crate::kad::id::xor_distance(self.target, KadId(self.known[0].client_id));
        assert(best@ =~= dist_to(self.target, s[0].client_id));
        assert(s.take(1).len() == 1 && s.take(1)[0] == s[0]);
        let mut i: usize = 1;
        while i < self.known.len()
            invariant
                1 <= i <= self.known@.len(),
                s == nodes_of(self.known@),
                best@ == min_dist(self.target, s.take(i as int)),
            decreases self.known@.len() - i,
        {
            let d = crate::kad::id::xor_distance(self.target, KadId(self.known[i].client_id));
            assert(d@ =~= dist_to(self.target, s[i as int].client_id));
            assert(s.take(i + 1).drop_last() =~= s.take(i as int));
            assert(s.take(i + 1).last() == s[i as int]);
            if id_lt(&d, &best) {
                best = d;
            }
            i += 1;
        }
        assert(s.take(s.len() as int) =~= s);
        (to_hex_lower(best.as_slice()), self.known.len())
    }
}


/// One second in the clock's unit.
pub const NANOS_PER_SEC: u64 = 1_000_000_000;

/// Whole seconds from `t` to `now`, zero when `t` is later.
pub open spec fn secs_since(now: u64, t: u64) -> u64 {
    if now >= t { ((now - t) / NANOS_PER_SEC as int) as u64 } else { 0 }
}

/// Whether a lookup has gone `timeout_secs` without progress.
pub open spec fn stalled_spec(t: LookupTask, now: u64, timeout_secs: u64) -> bool {
    secs_since(now, t.last_progress) > timeout_secs
}

/// The nodes that an answer from the table adds to `known`: each listed
/// contact that is neither known nor missing from the table, in order.
pub open spec fn learned(k: Seq<ImuleNodeView>, contacts: Seq<KadId>, table: Map<Seq<u8>, NodeModel>) -> Seq<ImuleNodeView>
    decreases contacts.len(),
{
    if contacts.len() == 0 {
        k
    } else {
        let p = learned(k, contacts.drop_last(), table);
        let id = contacts.last().0@;
        if !has_id(p, id) && table.dom().contains(id) { p.push(table[id].node) } else { p }
    }
}

/// The state of `t` after an answer for it from `from` that named
/// `contacts` and added `inserted` nodes to the table.
pub open spec fn answered(t: LookupTask, u: LookupTask, from: Seq<char>, contacts: Seq<KadId>, inserted: u64,
    table: Map<Seq<u8>, NodeModel>, now: u64) -> bool
{
    &&& u.kind == t.kind
    &&& u.target == t.target
    &&& u.started_at == t.started_at
    &&& u.iteration == t.iteration
    &&& u.alpha_override == t.alpha_override
    &&& u.queried@ == t.queried@
    &&& texts_of(u.inflight@) == without(texts_of(t.inflight@), from)
    &&& u.last_progress == (if inserted > 0 { now } else { t.last_progress })
    &&& u.new_nodes == (if inserted > 0 {
            if t.new_nodes + inserted > u64::MAX { u64::MAX } else { (t.new_nodes + inserted) as u64 }
        } else {
            t.new_nodes
        })
    &&& nodes_of(u.known@) == learned(nodes_of(t.known@), contacts, table)
}

impl LookupTask {
    /// Records the answer to one of this lookup's requests.
    pub fn on_response(&mut self, routing: &RoutingTable, now: u64, from_dest: &str, contacts: &[KadId], inserted: u64)
        requires
            old(self).wf(),
            routing.wf(),
        ensures
            final(self).wf(),
            answered(*old(self), *final(self), from_dest@, contacts@, inserted, routing.by_id_map(), now),
    {
        remove_text(&mut self.inflight, from_dest);
        if inserted > 0 {
            self.new_nodes = self.new_nodes.saturating_add(inserted);
            self.last_progress = now;
        }
        let ghost k0 = nodes_of(self.known@);
        let ghost t0 = *self;
        let mut i: usize = 0;
        while i < contacts.len()
            invariant
                i <= contacts@.len(),
                routing.wf(),
                ids_distinct(nodes_of(self.known@)),
                nodes_of(self.known@) == learned(k0, contacts@.take(i as int), routing.by_id_map()),
                self.kind == t0.kind,
                self.target == t0.target,
                self.started_at == t0.started_at,
                self.last_progress == t0.last_progress,
                self.iteration == t0.iteration,
                self.alpha_override == t0.alpha_override,
                self.queried@ == t0.queried@,
                self.inflight@ == t0.inflight@,
                self.new_nodes == t0.new_nodes,
            decreases contacts@.len() - i,
        {
            let id = contacts[i];
            assert(contacts@.take(i + 1).drop_last() =~= contacts@.take(i as int));
            assert(contacts@.take(i + 1).last() == id);
            if !has_id_exec(&self.known, &id.0) {
                match routing.get_by_id(id) {
                    Some(st) => {
                        proof {
                            routing.lemma_by_id_key(id.0@);
                            lemma_add_if_new_distinct(nodes_of(self.known@), st.node@);
                        }
                        self.known.push(copy_node(&st.node));
                        assert(nodes_of(self.known@) =~= learned(k0, contacts@.take(i as int), routing.by_id_map()).push(st.node@));
                    },
                    None => {},
                }
            }
            i += 1;
        }
        assert(contacts@.take(contacts@.len() as int) =~= contacts@);
    }

    /// Closes one round in which `sent` requests went out: counts the round
    /// when anything was sent, and tells whether the lookup is over (eight
    /// rounds, nothing sent and nothing awaited, or no progress for
    /// `req_timeout_secs`).
    pub fn finish_round(&mut self, sent: usize, now: u64, req_timeout_secs: u64) -> (done: bool)
        requires
            old(self).iteration < u32::MAX,
        ensures
            final(self).iteration == (if sent > 0 { old(self).iteration + 1 } else { old(self).iteration as int }),
            done == (final(self).iteration >= 8 || (sent == 0 && old(self).inflight@.len() == 0)
                || stalled_spec(*old(self), now, req_timeout_secs)),
            final(self).kind == old(self).kind,
            final(self).target == old(self).target,
            final(self).started_at == old(self).started_at,
            final(self).last_progress == old(self).last_progress,
            final(self).alpha_override == old(self).alpha_override,
            final(self).queried@ == old(self).queried@,
            final(self).inflight@ == old(self).inflight@,
            final(self).known@ == old(self).known@,
            final(self).new_nodes == old(self).new_nodes,
    {
        if sent > 0 {
            self.iteration = self.iteration + 1;
        }
        let stalled = now.saturating_sub(self.last_progress) / NANOS_PER_SEC > req_timeout_secs;
        self.iteration >= 8 || (sent == 0 && self.inflight.len() == 0) || stalled
    }
}

/// How many nodes one round asks: the lookup's own override, else the
/// configured `alpha` (at least one).
pub fn lookup_alpha(task: &LookupTask, cfg_alpha: usize) -> (a: usize)
    ensures
        a == match task.alpha_override {
            Some(x) => x,
            None => if cfg_alpha >= 1 { cfg_alpha } else { 1 },
        },
{
    match task.alpha_override {
        Some(x) => x,
        None => if cfg_alpha >= 1 { cfg_alpha } else { 1 },
    }
}

/// The contact count a lookup request asks for: the configured one, kept
/// within 1..=31.
pub fn requested_contacts(req_contacts: u8) -> (c: u8)
    ensures
        c == (if req_contacts < 1 { 1 } else if req_contacts > 31 { 31 } else { req_contacts }),
{
    if req_contacts < 1 { 1 } else if req_contacts > 31 { 31 } else { req_contacts }
}

/// The nodes of `s` with at least version `min`, in order.
pub open spec fn at_least_version(s: Seq<ImuleNodeView>, min: u8) -> Seq<ImuleNodeView>
    decreases s.len(),
{
    if s.len() == 0 {
        s
    } else if s.last().kad_version >= min {
        at_least_version(s.drop_last(), min).push(s.last())
    } else {
        at_least_version(s.drop_last(), min)
    }
}

/// At most the first `n` of `s`.
pub open spec fn first_n<T>(s: Seq<T>, n: int) -> Seq<T> {
    if s.len() <= n { s } else { s.take(n) }
}

fn keep_version(peers: &Vec<ImuleNode>, min_kad_version: u8) -> (out: Vec<ImuleNode>)
    ensures
        nodes_of(out@) == at_least_version(nodes_of(peers@), min_kad_version),
{
    let ghost ps = nodes_of(peers@);
    let mut out: Vec<ImuleNode> = Vec::new();
    let mut i: usize = 0;
    while i < peers.len()
        invariant
            i <= peers@.len(),
            ps == nodes_of(peers@),
            nodes_of(out@) == at_least_version(ps.take(i as int), min_kad_version),
        decreases peers@.len() - i,
    {
        assert(ps.take(i + 1).drop_last() =~= ps.take(i as int));
        assert(ps.take(i + 1).last() == peers@[i as int]@);
        if peers[i].kad_version >= min_kad_version {
            out.push(copy_node(&peers[i]));
            assert(nodes_of(out@) =~= at_least_version(ps.take(i as int), min_kad_version).push(peers@[i as int]@));
        }
        i += 1;
    }
    assert(ps.take(ps.len() as int) =~= ps);
    out
}

/// The `max` nodes closest to `target` among the `2 * max` nearest, keeping
/// only those with at least version `min_kad_version`.
pub fn closest_peers_by_distance(routing: &RoutingTable, target: KadId, max: usize, min_kad_version: u8,
    exclude_dest_hash: u32) -> (out: Vec<ImuleNode>)
    requires
        max <= usize::MAX / 2,
    ensures
        nodes_of(out@) == first_n(at_least_version(first_by_key(
            keyed(routing.nodes(), |st: NodeModel| closest_key(st, target, exclude_dest_hash)), (2 * max) as usize),
            min_kad_version), max as int),
{
    let peers = routing.closest_to(target, max * 2, exclude_dest_hash);
    let ghost ps = nodes_of(peers@);
    assert(ps =~= peers@.map_values(|n: ImuleNode| n@));
    let mut out = keep_version(&peers, min_kad_version);
    out.truncate(max);
    assert(nodes_of(out@) =~= first_n(at_least_version(ps, min_kad_version), max as int));
    out
}


/// Seconds since a bucket's last event; a bucket without one counts as idle
/// for half the range of `u64`.
pub open spec fn idle_of(last: Option<u64>, now: u64) -> u64 {
    match last {
        Some(t) => secs_since(now, t),
        None => (u64::MAX / 2) as u64,
    }
}

/// A bucket is due for refreshing when nothing happened in it for
/// `interval` seconds and it was not refreshed in the last half of that.
pub open spec fn is_stale(act: Option<u64>, refr: Option<u64>, now: u64, interval: u64) -> bool {
    idle_of(act, now) >= interval && idle_of(refr, now) >= interval / 2
}

/// `s` with `x` placed after every entry that has been idle at least as
/// long (entries are bucket and idle seconds).
pub open spec fn insert_by_idle(s: Seq<(usize, u64)>, x: (usize, u64)) -> Seq<(usize, u64)>
    decreases s.len(),
{
    if s.len() == 0 {
        seq![x]
    } else if s.last().1 >= x.1 {
        s.push(x)
    } else {
        insert_by_idle(s.drop_last(), x).push(s.last())
    }
}

/// The stale buckets among the first `n`, longest idle first, ties by
/// bucket number.
pub open spec fn stale_buckets_upto(act: Seq<Option<u64>>, refr: Seq<Option<u64>>, now: u64, interval: u64, n: nat)
    -> Seq<(usize, u64)>
    decreases n,
{
    if n == 0 {
        Seq::empty()
    } else {
        let p = stale_buckets_upto(act, refr, now, interval, (n - 1) as nat);
        let b = (n - 1) as int;
        if is_stale(act[b], refr[b], now, interval) {
            insert_by_idle(p, ((n - 1) as usize, idle_of(act[b], now)))
        } else {
            p
        }
    }
}

/// The table's stale buckets in refresh order.
pub open spec fn stale_buckets_spec(routing: RoutingTable, now: u64, interval: u64) -> Seq<(usize, u64)> {
    stale_buckets_upto(routing.activity(), routing.refreshed(), now, interval, BUCKET_COUNT as nat)
}

proof fn lemma_insert_by_idle_at(s: Seq<(usize, u64)>, x: (usize, u64), p: int)
    requires
        0 <= p <= s.len(),
        forall|k: int| p <= k < s.len() ==> (#[trigger] s[k]).1 < x.1,
        p == 0 || s[p - 1].1 >= x.1,
    ensures
        insert_by_idle(s, x) == s.take(p).push(x) + s.skip(p),
    decreases s.len(),
{
    if s.len() == 0 {
        assert(s.take(p).push(x) + s.skip(p) =~= seq![x]);
    } else if p == s.len() {
        assert(s.take(p).push(x) + s.skip(p) =~= s.push(x));
    } else {
        let t = s.drop_last();
        assert forall|k: int| p <= k < t.len() implies (#[trigger] t[k]).1 < x.1 by {
            assert(t[k] == s[k]);
        }
        lemma_insert_by_idle_at(t, x, p);
        assert(t.take(p).push(x) + t.skip(p) + seq![s.last()] =~= s.take(p).push(x) + s.skip(p));
    }
}

fn idle_secs(last: Option<u64>, now: u64) -> (r: u64)
    ensures
        r == idle_of(last, now),
{
    match last {
        Some(t) => now.saturating_sub(t) / NANOS_PER_SEC,
        None => u64::MAX / 2,
    }
}

/// The stale buckets of the table, longest idle first (ties by bucket
/// number), each with its idle seconds.
pub fn stale_buckets(routing: &RoutingTable, now: u64, interval_secs: u64) -> (out: Vec<(usize, u64)>)
    requires
        routing.wf(),
    ensures
        out@ == stale_buckets_spec(*routing, now, interval_secs),
{
    let mut out: Vec<(usize, u64)> = Vec::new();
    let mut b: usize = 0;
    while b < BUCKET_COUNT
        invariant
            b <= BUCKET_COUNT,
            routing.wf(),
            out@ == stale_buckets_upto(routing.activity(), routing.refreshed(), now, interval_secs, b as nat),
        decreases BUCKET_COUNT - b,
    {
        let act = routing.bucket_last_activity(b);
        let refr = routing.bucket_last_refresh(b);
        let idle = idle_secs(act, now);
        let age = idle_secs(refr, now);
        if idle >= interval_secs && age >= interval_secs / 2 {
            let mut p: usize = out.len();
            while p > 0 && out[p - 1].1 < idle
                invariant
                    p <= out@.len(),
                    forall|k: int| p <= k < out@.len() ==> (#[trigger] out@[k]).1 < idle,
                decreases p,
            {
                p -= 1;
            }
            proof {
                lemma_insert_by_idle_at(out@, (b, idle), p as int);
            }
            out.insert(p, (b, idle));
            assert(out@ =~= stale_buckets_upto(routing.activity(), routing.refreshed(), now, interval_secs, b as nat)
                .take(p as int).push((b, idle)) + stale_buckets_upto(routing.activity(), routing.refreshed(), now,
                interval_secs, b as nat).skip(p as int));
        }
        b += 1;
    }
    out
}

/// Whether `t` is a refresh lookup of `bucket` started at `now` with the
/// given override, towards a target in that bucket as seen from `me`.
pub open spec fn refresh_task(t: LookupTask, bucket: usize, alpha: Option<usize>, me: KadId, now: u64) -> bool {
    &&& t.wf()
    &&& t.kind == LookupKind::Refresh { bucket }
    &&& t.started_at == now
    &&& t.last_progress == now
    &&& t.iteration == 0
    &&& t.alpha_override == alpha
    &&& t.queried@.len() == 0
    &&& t.inflight@.len() == 0
    &&& t.known@.len() == 0
    &&& t.new_nodes == 0
    &&& exists|rand: Seq<u8>| rand.len() == 16 && t.target.0@ == #[trigger] id_in_bucket_spec(me, bucket, rand)
}

/// Refresh times after refreshing each of `picked` at `now`.
pub open spec fn refreshed_after(r: Seq<Option<u64>>, picked: Seq<(usize, u64)>, now: u64) -> Seq<Option<u64>>
    decreases picked.len(),
{
    if picked.len() == 0 {
        r
    } else {
        refreshed_after(r, picked.drop_last(), now).update(picked.last().0 as int, Some(now))
    }
}

/// The lookups waiting to run, the one running, and when buckets were last
/// refreshed by the periodic tick.
#[derive(Debug)]
pub struct Lookups {
    pub queue: Vec<LookupTask>,
    pub active: Option<LookupTask>,
    pub last_underpopulated_refresh: u64,
    pub last_refresh_tick: u64,
}

impl Lookups {
    pub open spec fn wf(&self) -> bool {
        &&& forall|i: int| 0 <= i < self.queue@.len() ==> (#[trigger] self.queue@[i]).wf()
        &&& (self.active matches Some(t) ==> t.wf())
    }

    /// Nothing queued or running; both refresh clocks start at `now`.
    pub fn new(now: u64) -> (r: Lookups)
        ensures
            r.wf(),
            r.queue@.len() == 0,
            r.active is None,
            r.last_underpopulated_refresh == now,
            r.last_refresh_tick == now,
    {
        Lookups { queue: Vec::new(), active: None, last_underpopulated_refresh: now, last_refresh_tick: now }
    }

    /// Queues a new lookup towards `target`.
    pub fn start_lookup(&mut self, target: KadId, kind: LookupKind, alpha_override: Option<usize>, now: u64)
        requires
            old(self).wf(),
        ensures
            final(self).wf(),
            final(self).queue@.len() == old(self).queue@.len() + 1,
            final(self).queue@.take(old(self).queue@.len() as int) == old(self).queue@,
            ({
                let t = final(self).queue@.last();
                &&& t.kind == kind && t.target == target && t.alpha_override == alpha_override
                &&& t.started_at == now && t.last_progress == now && t.iteration == 0 && t.new_nodes == 0
                &&& t.queried@.len() == 0 && t.inflight@.len() == 0 && t.known@.len() == 0
            }),
            final(self).active == old(self).active,
            final(self).last_underpopulated_refresh == old(self).last_underpopulated_refresh,
            final(self).last_refresh_tick == old(self).last_refresh_tick,
    {
        let t = LookupTask::new(kind, target, alpha_override, now);
        self.queue.push(t);
        assert(self.queue@.take(old(self).queue@.len() as int) =~= old(self).queue@);
    }

    /// Makes the first queued lookup the running one when none runs.
    pub fn activate_next(&mut self)
        requires
            old(self).wf(),
        ensures
            final(self).wf(),
            old(self).active is Some ==> *final(self) == *old(self),
            old(self).active is None && old(self).queue@.len() == 0 ==> *final(self) == *old(self),
            old(self).active is None && old(self).queue@.len() > 0 ==> {
                &&& final(self).active == Some(old(self).queue@[0])
                &&& final(self).queue@ == old(self).queue@.drop_first()
            },
            final(self).last_underpopulated_refresh == old(self).last_underpopulated_refresh,
            final(self).last_refresh_tick == old(self).last_refresh_tick,
    {
        if self.active.is_none() && self.queue.len() > 0 {
            let t = self.queue.remove(0);
            self.active = Some(t);
            assert(self.queue@ =~= old(self).queue@.drop_first());
        }
    }

    /// Hands an answer for `target` to the running lookup, if it is the one
    /// towards `target`.
    pub fn handle_lookup_response(&mut self, routing: &RoutingTable, now: u64, target: KadId, from_dest: &str,
        contacts: &[KadId], inserted: u64)
        requires
            old(self).wf(),
            routing.wf(),
        ensures
            final(self).wf(),
            final(self).queue@ == old(self).queue@,
            final(self).last_underpopulated_refresh == old(self).last_underpopulated_refresh,
            final(self).last_refresh_tick == old(self).last_refresh_tick,
            old(self).active is None ==> final(self).active is None,
            old(self).active matches Some(t) ==> (t.target.0@ != target.0@ ==> final(self).active == old(self).active),
            old(self).active matches Some(t) ==> (t.target.0@ == target.0@ ==> (final(self).active matches Some(u)
                && answered(t, u, from_dest@, contacts@, inserted, routing.by_id_map(), now))),
    {
        if let Some(mut t) = self.active.take() {
            if t.target == target {
                t.on_response(routing, now, from_dest, contacts, inserted);
            }
            self.active = Some(t);
        }
    }

    /// Starts a lookup round: makes the next queued lookup the running one
    /// when none runs, seeds an empty running lookup with the 64 closest
    /// nodes of version 2 or later, and returns those nodes as the round's
    /// candidates (none when no lookup runs).
    pub fn prepare_round(&mut self, routing: &RoutingTable) -> (cands: Option<Vec<ImuleNode>>)
        requires
            old(self).wf(),
        ensures
            final(self).wf(),
            final(self).last_underpopulated_refresh == old(self).last_underpopulated_refresh,
            final(self).last_refresh_tick == old(self).last_refresh_tick,
            ({
                let (q, a) = if old(self).active is None && old(self).queue@.len() > 0 {
                    (old(self).queue@.drop_first(), Some(old(self).queue@[0]))
                } else {
                    (old(self).queue@, old(self).active)
                };
                &&& final(self).queue@ == q
                &&& match a {
                    None => final(self).active is None && cands is None,
                    Some(t) => {
                        let near = first_n(at_least_version(first_by_key(
                            keyed(routing.nodes(), |st: NodeModel| closest_key(st, t.target, 0)), 128), 2), 64);
                        &&& final(self).active matches Some(u)
                        &&& cands matches Some(c) && nodes_of(c@) == near
                        &&& u.kind == t.kind && u.target == t.target && u.started_at == t.started_at
                        &&& u.last_progress == t.last_progress && u.iteration == t.iteration
                        &&& u.alpha_override == t.alpha_override && u.queried@ == t.queried@
                        &&& u.inflight@ == t.inflight@ && u.new_nodes == t.new_nodes
                        &&& nodes_of(u.known@) == (if t.known@.len() == 0 { add_all_new(nodes_of(t.known@), near) } else { nodes_of(t.known@) })
                    },
                }
            }),
    {
        self.activate_next();
        if let Some(mut t) = self.active.take() {
            if t.known.len() == 0 {
                let seed = closest_peers_by_distance(routing, t.target, 64, 2, 0);
                t.seed_known(seed);
            }
            let cands = closest_peers_by_distance(routing, t.target, 64, 2, 0);
            self.active = Some(t);
            Some(cands)
        } else {
            None
        }
    }

    fn refresh_picked(&mut self, routing: &mut RoutingTable, stale: &Vec<(usize, u64)>, n: usize,
        alpha: Option<usize>, now: u64) -> (picked: usize)
        requires
            old(self).wf(),
            old(routing).wf(),
            forall|k: int| 0 <= k < stale@.len() ==> (#[trigger] stale@[k]).0 < BUCKET_COUNT,
        ensures
            final(self).wf(),
            final(routing).wf(),
            picked == first_n(stale@, n as int).len(),
            final(routing).nodes() == old(routing).nodes(),
            final(routing).dest_table() == old(routing).dest_table(),
            final(routing).me() == old(routing).me(),
            final(routing).activity() == old(routing).activity(),
            final(routing).refreshed() == refreshed_after(old(routing).refreshed(), first_n(stale@, n as int), now),
            final(self).queue@.len() == old(self).queue@.len() + picked,
            final(self).queue@.take(old(self).queue@.len() as int) == old(self).queue@,
            forall|k: int| 0 <= k < picked ==> refresh_task(#[trigger] final(self).queue@[old(self).queue@.len() + k],
                stale@[k].0, alpha, old(routing).me(), now),
            final(self).active == old(self).active,
            final(self).last_underpopulated_refresh == old(self).last_underpopulated_refresh,
            final(self).last_refresh_tick == old(self).last_refresh_tick,
    {
        let ghost picks = first_n(stale@, n as int);
        let ghost q0 = self.queue@;
        let ghost r0 = routing.refreshed();
        let me = routing.my_id();
        let mut k: usize = 0;
        while k < stale.len() && k < n
            invariant
                k <= stale@.len(),
                k <= n,
                picks == first_n(stale@, n as int),
                forall|j: int| 0 <= j < stale@.len() ==> (#[trigger] stale@[j]).0 < BUCKET_COUNT,
                self.wf(),
                routing.wf(),
                me == old(routing).me(),
                routing.nodes() == old(routing).nodes(),
                routing.dest_table() == old(routing).dest_table(),
                routing.me() == old(routing).me(),
                routing.activity() == old(routing).activity(),
                routing.refreshed() == refreshed_after(r0, stale@.take(k as int), now),
                self.queue@.len() == q0.len() + k,
                self.queue@.take(q0.len() as int) == q0,
                forall|j: int| 0 <= j < k ==> refresh_task(#[trigger] self.queue@[q0.len() + j], stale@[j].0, alpha, me, now),
                self.active == old(self).active,
                self.last_underpopulated_refresh == old(self).last_underpopulated_refresh,
                self.last_refresh_tick == old(self).last_refresh_tick,
            decreases stale@.len() - k,
        {
            let bucket = stale[k].0;
            let target = random_id_in_bucket(me, bucket);
            routing.mark_bucket_refreshed(bucket, now);
            assert(stale@.take(k + 1).drop_last() =~= stale@.take(k as int));
            let ghost before = self.queue@;
            self.start_lookup(target, LookupKind::Refresh { bucket }, alpha, now);
            assert forall|j: int| 0 <= j < k + 1 implies refresh_task(#[trigger] self.queue@[q0.len() + j], stale@[j].0, alpha, me, now) by {
                if j < k {
                    assert(self.queue@[q0.len() + j] == before[q0.len() + j]);
                }
            }
            assert(self.queue@.take(q0.len() as int) =~= q0) by {
                assert forall|j: int| 0 <= j < q0.len() implies self.queue@[j] == q0[j] by {
                    assert(self.queue@[j] == before[j]);
                    assert(before.take(q0.len() as int)[j] == q0[j]);
                }
            }
            k += 1;
        }
        assert(stale@.take(k as int) =~= picks);
        k
    }

    /// The periodic bucket refresh. When the table holds fewer than
    /// `refresh_underpopulated_min_contacts` nodes and the underpopulated
    /// period has passed, the first `refresh_underpopulated_buckets_per_tick`
    /// stale buckets get a lookup with the underpopulated `alpha`; then, at
    /// most once a second, the first `refresh_buckets_per_tick` of the same
    /// list get one with the default `alpha`. Each refreshed bucket is
    /// marked, and a clock moves to `now` when its step refreshed anything.
    pub fn tick_refresh(&mut self, routing: &mut RoutingTable, cfg: &KadServiceConfig, now: u64)
        requires
            old(self).wf(),
            old(routing).wf(),
        ensures
            final(self).wf(),
            final(routing).wf(),
            final(routing).nodes() == old(routing).nodes(),
            final(routing).dest_table() == old(routing).dest_table(),
            final(routing).me() == old(routing).me(),
            final(routing).activity() == old(routing).activity(),
            final(self).active == old(self).active,
            ({
                let stale = stale_buckets_spec(*old(routing), now, cfg.refresh_interval_secs);
                let under = old(routing).nodes().len() < cfg.refresh_underpopulated_min_contacts
                    && secs_since(now, old(self).last_underpopulated_refresh) >= cfg.refresh_underpopulated_every_secs;
                let first = if under { first_n(stale, cfg.refresh_underpopulated_buckets_per_tick as int) } else { Seq::empty() };
                let tick = secs_since(now, old(self).last_refresh_tick) >= 1;
                let second = if tick { first_n(stale, cfg.refresh_buckets_per_tick as int) } else { Seq::empty() };
                let ua: usize = if cfg.refresh_underpopulated_alpha >= 1 { cfg.refresh_underpopulated_alpha } else { 1 };
                let q0 = old(self).queue@.len();
                let q = final(self).queue@;
                &&& final(routing).refreshed() == refreshed_after(refreshed_after(old(routing).refreshed(), first, now), second, now)
                &&& q.len() == q0 + first.len() + second.len()
                &&& q.take(q0 as int) == old(self).queue@
                &&& forall|k: int| 0 <= k < first.len() ==> refresh_task(#[trigger] q[q0 + k], first[k].0, Some(ua), old(routing).me(), now)
                &&& forall|k: int| 0 <= k < second.len() ==> refresh_task(#[trigger] q[q0 + first.len() + k], second[k].0, None, old(routing).me(), now)
                &&& final(self).last_underpopulated_refresh == (if first.len() > 0 { now } else { old(self).last_underpopulated_refresh })
                &&& final(self).last_refresh_tick == (if second.len() > 0 { now } else { old(self).last_refresh_tick })
            }),
    {
        let stale = stale_buckets(routing, now, cfg.refresh_interval_secs);
        proof {
            lemma_stale_buckets_in_range(routing.activity(), routing.refreshed(), now, cfg.refresh_interval_secs, BUCKET_COUNT as nat);
        }
        let ghost q0 = self.queue@;
        let ghost r0 = routing.refreshed();
        let under = routing.len() < cfg.refresh_underpopulated_min_contacts
            && now.saturating_sub(self.last_underpopulated_refresh) / NANOS_PER_SEC >= cfg.refresh_underpopulated_every_secs;
        let mut first_count: usize = 0;
        if under {
            let ua: usize = if cfg.refresh_underpopulated_alpha >= 1 { cfg.refresh_underpopulated_alpha } else { 1 };
            first_count = self.refresh_picked(routing, &stale, cfg.refresh_underpopulated_buckets_per_tick, Some(ua), now);
            if first_count > 0 {
                self.last_underpopulated_refresh = now;
            }
        }
        let ghost q1 = self.queue@;
        if now.saturating_sub(self.last_refresh_tick) / NANOS_PER_SEC >= 1 {
            let picked = self.refresh_picked(routing, &stale, cfg.refresh_buckets_per_tick, None, now);
            if picked > 0 {
                self.last_refresh_tick = now;
            }
            assert forall|k: int| 0 <= k < first_count implies #[trigger] self.queue@[q0.len() + k] == q1[q0.len() + k] by {
                assert(self.queue@.take(q1.len() as int)[q0.len() + k] == q1[q0.len() + k]);
            }
            assert(self.queue@.take(q0.len() as int) =~= q0) by {
                assert forall|j: int| 0 <= j < q0.len() implies self.queue@[j] == q0[j] by {
                    assert(self.queue@.take(q1.len() as int)[j] == q1[j]);
                    assert(q1.take(q0.len() as int)[j] == q0[j]);
                }
            }
        }
        assert(refreshed_after(r0, Seq::<(usize, u64)>::empty(), now) == r0);
        assert(refreshed_after(routing.refreshed(), Seq::<(usize, u64)>::empty(), now) == routing.refreshed());
    }
}

proof fn lemma_insert_by_idle_elems(s: Seq<(usize, u64)>, x: (usize, u64), k: int)
    requires
        0 <= k < insert_by_idle(s, x).len(),
    ensures
        insert_by_idle(s, x).len() == s.len() + 1,
        insert_by_idle(s, x)[k] == x || exists|j: int| 0 <= j < s.len() && s[j] == insert_by_idle(s, x)[k],
    decreases s.len(),
{
    if s.len() > 0 && s.last().1 < x.1 {
        let t = s.drop_last();
        if k < insert_by_idle(t, x).len() {
            lemma_insert_by_idle_elems(t, x, k);
            if insert_by_idle(s, x)[k] != x {
                let j = choose|j: int| 0 <= j < t.len() && t[j] == insert_by_idle(t, x)[k];
                assert(s[j] == t[j]);
            }
        } else {
            lemma_insert_by_idle_elems(t, x, 0);
            assert(s[s.len() - 1] == insert_by_idle(s, x)[k]);
        }
    } else if s.len() > 0 {
        if k < s.len() {
            assert(s[k] == insert_by_idle(s, x)[k]);
        }
    }
}

proof fn lemma_stale_buckets_in_range(act: Seq<Option<u64>>, refr: Seq<Option<u64>>, now: u64, interval: u64, n: nat)
    requires
        n <= BUCKET_COUNT,
    ensures
        forall|k: int| 0 <= k < stale_buckets_upto(act, refr, now, interval, n).len()
            ==> (#[trigger] stale_buckets_upto(act, refr, now, interval, n)[k]).0 < n,
    decreases n,
{
    if n > 0 {
        lemma_stale_buckets_in_range(act, refr, now, interval, (n - 1) as nat);
        let p = stale_buckets_upto(act, refr, now, interval, (n - 1) as nat);
        let b = (n - 1) as int;
        if is_stale(act[b], refr[b], now, interval) {
            let x = ((n - 1) as usize, idle_of(act[b], now));
            assert forall|k: int| 0 <= k < insert_by_idle(p, x).len() implies (#[trigger] insert_by_idle(p, x)[k]).0 < n by {
                lemma_insert_by_idle_elems(p, x, k);
                if insert_by_idle(p, x)[k] != x {
                    let j = choose|j: int| 0 <= j < p.len() && p[j] == insert_by_idle(p, x)[k];
                    assert(p[j].0 < n - 1);
                }
            }
        }
    }
}


/// The refresh order: `a` idle longer than `b`, or as long and a lower
/// bucket.
pub open spec fn idle_before(a: (usize, u64), b: (usize, u64)) -> bool {
    a.1 > b.1 || (a.1 == b.1 && a.0 < b.0)
}

pub open spec fn idle_sorted(s: Seq<(usize, u64)>) -> bool {
    forall|i: int, j: int| 0 <= i < j < s.len() ==> idle_before(#[trigger] s[i], #[trigger] s[j])
}

proof fn lemma_insert_by_idle_sorted(s: Seq<(usize, u64)>, x: (usize, u64))
    requires
        idle_sorted(s),
        forall|k: int| 0 <= k < s.len() ==> (#[trigger] s[k]).0 < x.0,
    ensures
        idle_sorted(insert_by_idle(s, x)),
        forall|y: (usize, u64)| #[trigger] insert_by_idle(s, x).contains(y) <==> (y == x || s.contains(y)),
    decreases s.len(),
{
    let r = insert_by_idle(s, x);
    if s.len() == 0 {
        assert(r =~= seq![x]);
        assert forall|y: (usize, u64)| r.contains(y) <==> (y == x || s.contains(y)) by {
            if y == x {
                assert(r[0] == y);
            }
        }
    } else if s.last().1 >= x.1 {
        assert forall|i: int, j: int| 0 <= i < j < r.len() implies idle_before(#[trigger] r[i], #[trigger] r[j]) by {
            if j == s.len() {
                if i < s.len() - 1 {
                    assert(idle_before(s[i], s[s.len() - 1]));
                }
            }
        }
        assert forall|y: (usize, u64)| r.contains(y) <==> (y == x || s.contains(y)) by {
            if r.contains(y) {
                let k = choose|k: int| 0 <= k < r.len() && r[k] == y;
                if k < s.len() {
                    assert(s[k] == y);
                }
            }
            if y == x {
                assert(r[s.len() as int] == y);
            }
            if s.contains(y) {
                let k = choose|k: int| 0 <= k < s.len() && s[k] == y;
                assert(r[k] == y);
            }
        }
    } else {
        let t = s.drop_last();
        let last = s.last();
        assert forall|i: int, j: int| 0 <= i < j < t.len() implies idle_before(#[trigger] t[i], #[trigger] t[j]) by {
            assert(t[i] == s[i] && t[j] == s[j]);
        }
        assert forall|k: int| 0 <= k < t.len() implies (#[trigger] t[k]).0 < x.0 by {
            assert(t[k] == s[k]);
        }
        lemma_insert_by_idle_sorted(t, x);
        let rt = insert_by_idle(t, x);
        assert(r == rt.push(last));
        assert forall|i: int, j: int| 0 <= i < j < r.len() implies idle_before(#[trigger] r[i], #[trigger] r[j]) by {
            if j == r.len() - 1 {
                assert(r[i] == rt[i]);
                assert(rt.contains(r[i]));
                if r[i] != x {
                    assert(t.contains(r[i]));
                    let k = choose|k: int| 0 <= k < t.len() && t[k] == r[i];
                    assert(s[k] == t[k]);
                    assert(idle_before(s[k], s[s.len() - 1]));
                }
            } else {
                assert(r[i] == rt[i] && r[j] == rt[j]);
            }
        }
        assert forall|y: (usize, u64)| r.contains(y) <==> (y == x || s.contains(y)) by {
            if r.contains(y) {
                let k = choose|k: int| 0 <= k < r.len() && r[k] == y;
                if k < rt.len() {
                    assert(rt[k] == y);
                    assert(rt.contains(y));
                    if y != x {
                        assert(t.contains(y));
                        let m = choose|m: int| 0 <= m < t.len() && t[m] == y;
                        assert(s[m] == y);
                    }
                } else {
                    assert(s[s.len() - 1] == y);
                }
            }
            if y == x {
                assert(rt.contains(y));
                let k = choose|k: int| 0 <= k < rt.len() && rt[k] == y;
                assert(r[k] == y);
            }
            if s.contains(y) {
                let k = choose|k: int| 0 <= k < s.len() && s[k] == y;
                if k < t.len() {
                    assert(t[k] == y);
                    assert(rt.contains(y));
                    let m = choose|m: int| 0 <= m < rt.len() && rt[m] == y;
                    assert(r[m] == y);
                } else {
                    assert(r[r.len() - 1] == y);
                }
            }
        }
    }
}

proof fn lemma_stale_upto_ordered(act: Seq<Option<u64>>, refr: Seq<Option<u64>>, now: u64, interval: u64, n: nat)
    requires
        n <= BUCKET_COUNT,
    ensures
        idle_sorted(stale_buckets_upto(act, refr, now, interval, n)),
        forall|y: (usize, u64)| stale_buckets_upto(act, refr, now, interval, n).contains(y) <==> (y.0 < n
            && is_stale(act[y.0 as int], refr[y.0 as int], now, interval) && y.1 == idle_of(act[y.0 as int], now)),
    decreases n,
{
    if n > 0 {
        let m = (n - 1) as nat;
        lemma_stale_upto_ordered(act, refr, now, interval, m);
        let p = stale_buckets_upto(act, refr, now, interval, m);
        let b = m as int;
        if is_stale(act[b], refr[b], now, interval) {
            let x = (m as usize, idle_of(act[b], now));
            assert forall|k: int| 0 <= k < p.len() implies (#[trigger] p[k]).0 < x.0 by {
                assert(p.contains(p[k]));
            }
            lemma_insert_by_idle_sorted(p, x);
        }
        let r = stale_buckets_upto(act, refr, now, interval, n);
        assert forall|y: (usize, u64)| r.contains(y) <==> (y.0 < n
            && is_stale(act[y.0 as int], refr[y.0 as int], now, interval) && y.1 == idle_of(act[y.0 as int], now)) by {
            if p.contains(y) {
                assert(y.0 < m);
            }
        }
    }
}

/// The refresh order lists exactly the stale buckets, each once with its
/// idle seconds, the longest idle first and the lower bucket first on a tie.
pub proof fn law_stale_buckets_ordered(routing: RoutingTable, now: u64, interval: u64)
    ensures
        idle_sorted(stale_buckets_spec(routing, now, interval)),
        forall|b: usize, idle: u64| stale_buckets_spec(routing, now, interval).contains((b, idle)) <==> (b < BUCKET_COUNT
            && is_stale(routing.activity()[b as int], routing.refreshed()[b as int], now, interval)
            && idle == idle_of(routing.activity()[b as int], now)),
{
    lemma_stale_upto_ordered(routing.activity(), routing.refreshed(), now, interval, BUCKET_COUNT as nat);
}


/// The order key of the fallback selection: the node's health rank (an
/// unknown destination ranks as `Unknown`), then its distance to `target`.
pub open spec fn fallback_key(routing: RoutingTable, n: ImuleNodeView, target: KadId, now: u64) -> Seq<u128> {
    let class = match routing.node_for_dest(b64_spec(n.udp_dest)) {
        Some(st) => health_spec(st, now),
        None => PeerHealthClass::Unknown,
    };
    seq![health_rank(class) as u128] + distance_key(n.client_id, target)
}

pub open spec fn fallback_keyed(routing: RoutingTable, s: Seq<ImuleNodeView>, target: KadId, now: u64)
    -> Seq<(Seq<u128>, ImuleNodeView)>
{
    s.map_values(|n: ImuleNodeView| (fallback_key(routing, n, target, now), n))
}

/// The nodes `closest_peers_with_fallback` gives.
pub open spec fn fallback_peers(routing: RoutingTable, target: KadId, max: usize, min_kad_version: u8,
    exclude_dest_hash: u32, now: u64) -> Seq<ImuleNodeView>
{
    let near = at_least_version(first_by_key(
        keyed(routing.nodes(), |st: NodeModel| closest_key(st, target, exclude_dest_hash)), (4 * max) as usize),
        min_kad_version);
    first_by_key(fallback_keyed(routing, near, target, now), near.len() as usize)
}

/// The `4 * max` nodes nearest to `target` that have at least version
/// `min_kad_version`, healthiest first and nearest first within a health
/// class (not cut to `max`).
pub fn closest_peers_with_fallback(routing: &RoutingTable, target: KadId, max: usize, min_kad_version: u8,
    exclude_dest_hash: u32, now: u64) -> (out: Vec<ImuleNode>)
    requires
        routing.wf(),
        max <= usize::MAX / 4,
    ensures
        nodes_of(out@) == fallback_peers(*routing, target, max, min_kad_version, exclude_dest_hash, now),
{
    let peers = routing.closest_to(target, max * 4, exclude_dest_hash);
    assert(nodes_of(peers@) =~= peers@.map_values(|n: ImuleNode| n@));
    let kept = keep_version(&peers, min_kad_version);
    let ghost ks = nodes_of(kept@);
    let mut cands: Vec<(Vec<u128>, ImuleNode)> = Vec::new();
    let mut i: usize = 0;
    while i < kept.len()
        invariant
            i <= kept@.len(),
            routing.wf(),
            ks == nodes_of(kept@),
            keyed_view(cands@) == fallback_keyed(*routing, ks.take(i as int), target, now),
        decreases kept@.len() - i,
    {
        let p = &kept[i];
        let dest = p.udp_dest_b64();
        let class = match routing.peer_health_class_by_dest(&dest, now) {
            Some(c) => c,
            None => PeerHealthClass::Unknown,
        };
        let mut key: Vec<u128> = Vec::new();
        key.push(peer_health_rank(class) as u128);
        push_distance(&mut key, &p.client_id, &target);
        let ghost before = keyed_view(cands@);
        cands.push((key, copy_node(p)));
        proof {
            assert(key@ =~= fallback_key(*routing, ks[i as int], target, now));
            assert(ks.take(i + 1) =~= ks.take(i as int).push(ks[i as int]));
            assert(keyed_view(cands@) =~= before.push((key@, ks[i as int])));
            assert(fallback_keyed(*routing, ks.take(i + 1), target, now)
                =~= fallback_keyed(*routing, ks.take(i as int), target, now).push((key@, ks[i as int])));
        }
        i += 1;
    }
    assert(ks.take(ks.len() as int) =~= ks);
    let n = cands.len();
    select_first_by_key(cands, n)
}

} // verus!
