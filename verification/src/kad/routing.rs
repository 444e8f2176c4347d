//! The routing table: known nodes by identifier, the destination index,
//! per-bucket activity, and the rules for admitting, updating, choosing and
//! evicting nodes. Times are nanoseconds on one clock; durations likewise.

use vstd::prelude::*;
use crate::i2p::b64::{b64_spec, encode as b64_encode};
use crate::kad::codec::le32;
use crate::kad::id::{KadId, xor_distance, xor_distance_spec};
use crate::nodes::imule::{ImuleNode, ImuleNodeView};
use crate::table::{keys_distinct, table_map, lemma_table_insert, lemma_table_map_at, lemma_table_map_dom,
    lemma_table_map_update, lemma_table_push, lemma_table_remove};

verus! {

pub const BUCKET_COUNT: usize = 128;
pub const STABLE_RECENT_WINDOW_NANOS: u64 = 600_000_000_000;
pub const UNRELIABLE_FAILURE_THRESHOLD: u32 = 3;
pub const BACKOFF_CAP_NANOS: u64 = 86_400_000_000_000;

#[derive(Debug, Clone, Copy, PartialEq, Eq, Structural)]
pub enum UpsertOutcome {
    Inserted,
    Updated,
    IgnoredZeroId,
    IgnoredSelf,
}

#[derive(Debug, Clone, Copy, PartialEq, Eq, Structural)]
pub enum PeerHealthClass {
    Unknown,
    Verified,
    Stable,
    Unreliable,
}

#[derive(Debug, Clone, Copy, PartialEq, Eq, Structural)]
pub struct PeerHealthCounts {
    pub unknown: usize,
    pub verified: usize,
    pub stable: usize,
    pub unreliable: usize,
}

impl Default for PeerHealthCounts {
    fn default() -> (r: Self)
        ensures
            r == (PeerHealthCounts { unknown: 0, verified: 0, stable: 0, unreliable: 0 }),
    {
        PeerHealthCounts { unknown: 0, verified: 0, stable: 0, unreliable: 0 }
    }
}

pub open spec fn age(now: u64, t: u64) -> int {
    if now >= t {
        now - t
    } else {
        0
    }
}

/// Leading zero bits of a byte.
pub open spec fn clz8(x: u8) -> nat {
    if x >= 128 { 0 } else if x >= 64 { 1 } else if x >= 32 { 2 } else if x >= 16 { 3 }
    else if x >= 8 { 4 } else if x >= 4 { 5 } else if x >= 2 { 6 } else if x >= 1 { 7 } else { 8 }
}

/// Leading zero bits of a big-endian byte string.
pub open spec fn leading_zeros(b: Seq<u8>) -> nat
    decreases b.len(),
{
    if b.len() == 0 {
        0
    } else if b[0] == 0 {
        8 + leading_zeros(b.drop_first())
    } else {
        clz8(b[0])
    }
}

fn clz8_exec(x: u8) -> (r: u32)
    ensures
        r == clz8(x),
{
    if x >= 128 { 0 } else if x >= 64 { 1 } else if x >= 32 { 2 } else if x >= 16 { 3 }
    else if x >= 8 { 4 } else if x >= 4 { 5 } else if x >= 2 { 6 } else if x >= 1 { 7 } else { 8 }
}

pub fn leading_zeros_128(bytes: &[u8; 16]) -> (r: u32)
    ensures
        r == leading_zeros(bytes@),
        r <= 128,
{
    let mut count: u32 = 0;
    let mut i: usize = 0;
    assert(bytes@.subrange(0, 16) =~= bytes@);
    while i < 16
        invariant
            i <= 16,
            count == 8 * i,
            leading_zeros(bytes@) == count + leading_zeros(bytes@.subrange(i as int, 16)),
        decreases 16 - i,
    {
        proof {
            let rest = bytes@.subrange(i as int, 16);
            assert(rest.drop_first() =~= bytes@.subrange(i + 1, 16));
            assert(rest[0] == bytes@[i as int]);
        }
        if bytes[i] != 0 {
            return count + clz8_exec(bytes[i]);
        }
        count += 8;
        i += 1;
    }
    assert(bytes@.subrange(16, 16) =~= Seq::<u8>::empty());
    count
}

/// The bucket of `other` as seen from `my_id`: the number of leading zero
/// bits of their distance; none for ourselves and the zero identifier.
pub open spec fn bucket_index_spec(my_id: KadId, other: KadId) -> Option<usize> {
    bucket_for(my_id.0@, other.0@)
}

/// The same over identifier bytes.
pub open spec fn bucket_for(me: Seq<u8>, other: Seq<u8>) -> Option<usize> {
    if other == me || (forall|i: int| 0 <= i < 16 ==> other[i] == 0) {
        None
    } else {
        let lz = leading_zeros(Seq::new(16, |i: int| me[i] ^ other[i]));
        if lz >= 128 { None } else { Some(lz as usize) }
    }
}

pub fn bucket_index(my_id: KadId, other: KadId) -> (r: Option<usize>)
    ensures
        r == bucket_index_spec(my_id, other),
{
    if other == my_id || other.is_zero() {
        return None;
    }
    let dist = xor_distance(my_id, other);
    let lz = leading_zeros_128(&dist);
    if lz >= 128 {
        return None;
    }
    Some(lz as usize)
}

/// `base` times 2^min(failures, 8), or a day when that overflows.
pub open spec fn backoff_spec(base: u64, failures: u32, max_pow: u32) -> u64 {
    let pow: u32 = if failures < max_pow { failures } else { max_pow };
    let mul: int = vstd::arithmetic::power2::pow2(pow as nat) as int;
    if base * mul > u64::MAX { BACKOFF_CAP_NANOS } else { (base * mul) as u64 }
}

fn scaled_backoff(base: u64, failures: u32, max_pow: u32) -> (r: u64)
    requires
        max_pow <= 8,
    ensures
        r == backoff_spec(base, failures, max_pow),
{
    let pow: u32 = if failures < max_pow { failures } else { max_pow };
    let mut mul: u64 = 1;
    let mut k: u32 = 0;
    proof {
        vstd::arithmetic::power2::lemma2_to64();
    }
    while k < pow
        invariant
            k <= pow,
            pow <= 8,
            mul == vstd::arithmetic::power2::pow2(k as nat),
        decreases pow - k,
    {
        proof {
            vstd::arithmetic::power2::lemma_pow2_unfold((k + 1) as nat);
            vstd::arithmetic::power2::lemma2_to64();
        }
        mul = mul * 2;
        k += 1;
    }
    match base.checked_mul(mul) {
        Some(v) => v,
        None => BACKOFF_CAP_NANOS,
    }
}

/// Exponential backoff for queries and greetings: doubling per failure up
/// to eight failures, a day when that overflows.
pub fn backoff_interval(base: u64, failures: u32) -> (r: u64)
    ensures
        r == backoff_spec(base, failures, 8),
{
    scaled_backoff(base, failures, 8)
}

/// Bootstrap backoff, bounded at two doublings.
pub fn bootstrap_backoff_interval(base: u64, failures: u32) -> (r: u64)
    ensures
        r == backoff_spec(base, failures, 2),
{
    scaled_backoff(base, failures, 2)
}

/// Stable peers first, unreliable ones last.
pub open spec fn health_rank(class: PeerHealthClass) -> u8 {
    match class {
        PeerHealthClass::Stable => 0u8,
        PeerHealthClass::Verified => 1u8,
        PeerHealthClass::Unknown => 2u8,
        PeerHealthClass::Unreliable => 3u8,
    }
}

pub fn peer_health_rank(class: PeerHealthClass) -> (r: u8)
    ensures
        r == health_rank(class),
{
    match class {
        PeerHealthClass::Stable => 0,
        PeerHealthClass::Verified => 1,
        PeerHealthClass::Unknown => 2,
        PeerHealthClass::Unreliable => 3,
    }
}


/// Lexicographic order of byte strings (the order of identifiers).
pub open spec fn bytes_lt(a: Seq<u8>, b: Seq<u8>) -> bool
    decreases a.len(),
{
    if a.len() == 0 {
        b.len() > 0
    } else if b.len() == 0 {
        false
    } else if a[0] < b[0] {
        true
    } else if a[0] == b[0] {
        bytes_lt(a.drop_first(), b.drop_first())
    } else {
        false
    }
}

pub proof fn lemma_bytes_lt_irreflexive(a: Seq<u8>)
    ensures
        !bytes_lt(a, a),
    decreases a.len(),
{
    if a.len() > 0 {
        lemma_bytes_lt_irreflexive(a.drop_first());
    }
}

pub proof fn lemma_bytes_lt_transitive(a: Seq<u8>, b: Seq<u8>, c: Seq<u8>)
    requires
        bytes_lt(a, b),
        bytes_lt(b, c),
    ensures
        bytes_lt(a, c),
    decreases a.len(),
{
    if a.len() > 0 && b.len() > 0 && c.len() > 0 {
        if a[0] == b[0] && b[0] == c[0] {
            lemma_bytes_lt_transitive(a.drop_first(), b.drop_first(), c.drop_first());
        }
    }
}

pub proof fn lemma_bytes_lt_total(a: Seq<u8>, b: Seq<u8>)
    ensures
        a == b || bytes_lt(a, b) || bytes_lt(b, a),
    decreases a.len(),
{
    if a.len() > 0 && b.len() > 0 {
        if a[0] == b[0] {
            lemma_bytes_lt_total(a.drop_first(), b.drop_first());
            if a.drop_first() == b.drop_first() {
                assert(a =~= seq![a[0]] + a.drop_first());
                assert(b =~= seq![b[0]] + b.drop_first());
            }
        }
    } else if a.len() == 0 && b.len() == 0 {
        assert(a =~= b);
    }
}

pub(crate) fn id_lt(a: &[u8; 16], b: &[u8; 16]) -> (r: bool)
    ensures
        r == bytes_lt(a@, b@),
{
    let mut i: usize = 0;
    assert(a@.subrange(0, 16) =~= a@);
    assert(b@.subrange(0, 16) =~= b@);
    while i < 16
        invariant
            i <= 16,
            bytes_lt(a@, b@) == bytes_lt(a@.subrange(i as int, 16), b@.subrange(i as int, 16)),
        decreases 16 - i,
    {
        let ghost sa = a@.subrange(i as int, 16);
        let ghost sb = b@.subrange(i as int, 16);
        assert(sa[0] == a@[i as int] && sb[0] == b@[i as int]);
        if a[i] < b[i] {
            return true;
        }
        if a[i] != b[i] {
            return false;
        }
        assert(sa.drop_first() =~= a@.subrange(i + 1, 16));
        assert(sb.drop_first() =~= b@.subrange(i + 1, 16));
        i += 1;
    }
    proof {
        lemma_bytes_lt_irreflexive(a@.subrange(16, 16));
        assert(a@.subrange(16, 16) =~= b@.subrange(16, 16));
    }
    false
}

pub struct NodeModel {
    pub node: ImuleNodeView,
    pub dest: Seq<char>,
    pub last_seen: u64,
    pub peer_agent: Option<Seq<char>>,
    pub last_inbound: Option<u64>,
    pub last_queried: Option<u64>,
    pub last_bootstrap: Option<u64>,
    pub last_hello: Option<u64>,
    pub received_hello: bool,
    pub needs_hello: bool,
    pub failures: u32,
}

pub open spec fn opt_str_view(o: Option<String>) -> Option<Seq<char>> {
    match o {
        Some(s) => Some(s@),
        None => None,
    }
}

/// What the table knows of a node.
#[derive(Debug, Clone)]
pub struct NodeState {
    pub node: ImuleNode,
    pub dest_b64: String,
    pub last_seen: u64,
    /// Vendor/agent string learned from Kad2 HELLO tags (not persisted).
    pub peer_agent: Option<String>,
    /// Last time any packet arrived from this destination.
    pub last_inbound: Option<u64>,
    pub last_queried: Option<u64>,
    pub last_bootstrap: Option<u64>,
    pub last_hello: Option<u64>,
    pub received_hello: bool,
    pub needs_hello: bool,
    pub failures: u32,
}

impl View for NodeState {
    type V = NodeModel;

    open spec fn view(&self) -> NodeModel {
        NodeModel {
            node: self.node@,
            dest: self.dest_b64@,
            last_seen: self.last_seen,
            peer_agent: opt_str_view(self.peer_agent),
            last_inbound: self.last_inbound,
            last_queried: self.last_queried,
            last_bootstrap: self.last_bootstrap,
            last_hello: self.last_hello,
            received_hello: self.received_hello,
            needs_hello: self.needs_hello,
            failures: self.failures,
        }
    }
}

pub open spec fn recent_inbound(st: NodeModel, now: u64, window: u64) -> bool {
    match st.last_inbound {
        Some(t) => age(now, t) <= window,
        None => false,
    }
}

pub fn is_recent_inbound(st: &NodeState, now: u64, window: u64) -> (r: bool)
    ensures
        r == recent_inbound(st@, now, window),
{
    match st.last_inbound {
        Some(t) => now.saturating_sub(t) <= window,
        None => false,
    }
}

/// Three or more failures: unreliable; never verified: unknown; heard from
/// in the last ten minutes without failures: stable; otherwise verified.
pub open spec fn health_spec(st: NodeModel, now: u64) -> PeerHealthClass {
    if st.failures >= UNRELIABLE_FAILURE_THRESHOLD {
        PeerHealthClass::Unreliable
    } else if !st.node.verified {
        PeerHealthClass::Unknown
    } else if recent_inbound(st, now, STABLE_RECENT_WINDOW_NANOS) && st.failures == 0 {
        PeerHealthClass::Stable
    } else {
        PeerHealthClass::Verified
    }
}

pub fn classify_peer_health(st: &NodeState, now: u64) -> (c: PeerHealthClass)
    ensures
        c == health_spec(st@, now),
{
    if st.failures >= UNRELIABLE_FAILURE_THRESHOLD {
        return PeerHealthClass::Unreliable;
    }
    if !st.node.verified {
        return PeerHealthClass::Unknown;
    }
    if is_recent_inbound(st, now, STABLE_RECENT_WINDOW_NANOS) && st.failures == 0 {
        PeerHealthClass::Stable
    } else {
        PeerHealthClass::Verified
    }
}

pub open spec fn nodes_view(v: Seq<NodeState>) -> Seq<NodeModel> {
    v.map_values(|n: NodeState| n@)
}

/// Nodes keyed by identifier bytes.
pub open spec fn id_table(s: Seq<NodeModel>) -> Seq<(Seq<u8>, NodeModel)> {
    s.map_values(|n: NodeModel| (n.node.client_id, n))
}

pub open spec fn ids_sorted(s: Seq<NodeModel>) -> bool {
    forall|i: int, j: int| 0 <= i < j < s.len() ==> bytes_lt(s[i].node.client_id, s[j].node.client_id)
}

pub struct DestEntry {
    dest: String,
    id: KadId,
}

/// Minimal Kademlia routing table: known nodes in identifier order, an
/// index from destination to identifier, and per-bucket activity.
pub struct RoutingTable {
    my_id: KadId,
    by_id: Vec<NodeState>,
    by_dest: Vec<DestEntry>,
    bucket_activity: Vec<Option<u64>>,
    bucket_last_refresh: Vec<Option<u64>>,
}

impl RoutingTable {
    pub closed spec fn me(&self) -> KadId {
        self.my_id
    }

    /// The nodes, in ascending identifier order.
    pub closed spec fn nodes(&self) -> Seq<NodeModel> {
        nodes_view(self.by_id@)
    }

    /// Destination to identifier bytes.
    pub closed spec fn dest_table(&self) -> Seq<(Seq<char>, Seq<u8>)> {
        self.by_dest@.map_values(|e: DestEntry| (e.dest@, e.id.0@))
    }

    pub closed spec fn activity(&self) -> Seq<Option<u64>> {
        self.bucket_activity@
    }

    pub closed spec fn refreshed(&self) -> Seq<Option<u64>> {
        self.bucket_last_refresh@
    }

    pub open spec fn by_id_map(&self) -> Map<Seq<u8>, NodeModel> {
        table_map(id_table(self.nodes()))
    }

    pub open spec fn by_dest_map(&self) -> Map<Seq<char>, Seq<u8>> {
        table_map(self.dest_table())
    }

    pub closed spec fn wf(&self) -> bool {
        &&& ids_sorted(self.nodes())
        &&& keys_distinct(self.dest_table())
        &&& self.bucket_activity@.len() == BUCKET_COUNT
        &&& self.bucket_last_refresh@.len() == BUCKET_COUNT
    }

    pub fn new(my_id: KadId) -> (r: Self)
        ensures
            r.wf(),
            r.me() == my_id,
            r.nodes() == Seq::<NodeModel>::empty(),
            r.dest_table() == Seq::<(Seq<char>, Seq<u8>)>::empty(),
            r.activity() == Seq::new(128, |i: int| None::<u64>),
            r.refreshed() == Seq::new(128, |i: int| None::<u64>),
    {
        let mut a: Vec<Option<u64>> = Vec::new();
        let mut b: Vec<Option<u64>> = Vec::new();
        let mut i: usize = 0;
        while i < BUCKET_COUNT
            invariant
                i <= BUCKET_COUNT,
                a@ == Seq::new(i as nat, |k: int| None::<u64>),
                b@ == Seq::new(i as nat, |k: int| None::<u64>),
            decreases BUCKET_COUNT - i,
        {
            a.push(None);
            b.push(None);
            i += 1;
            assert(a@ =~= Seq::new(i as nat, |k: int| None::<u64>));
            assert(b@ =~= Seq::new(i as nat, |k: int| None::<u64>));
        }
        let r = RoutingTable { my_id, by_id: Vec::new(), by_dest: Vec::new(), bucket_activity: a, bucket_last_refresh: b };
        assert(r.nodes() =~= Seq::<NodeModel>::empty());
        assert(r.dest_table() =~= Seq::<(Seq<char>, Seq<u8>)>::empty());
        r
    }

    pub fn len(&self) -> (n: usize)
        ensures
            n == self.nodes().len(),
    {
        self.by_id.len()
    }

    pub fn is_empty(&self) -> (b: bool)
        ensures
            b == (self.nodes().len() == 0),
    {
        self.by_id.len() == 0
    }

    pub fn my_id(&self) -> (id: KadId)
        ensures
            id == self.me(),
    {
        self.my_id
    }

    pub fn bucket_count(&self) -> (n: usize)
        ensures
            n == BUCKET_COUNT,
    {
        BUCKET_COUNT
    }

    pub fn bucket_index_for(&self, id: KadId) -> (r: Option<usize>)
        ensures
            r == bucket_index_spec(self.me(), id),
    {
        bucket_index(self.my_id, id)
    }

    pub fn bucket_last_activity(&self, bucket: usize) -> (r: Option<u64>)
        requires
            self.wf(),
        ensures
            r == if bucket < BUCKET_COUNT { self.activity()[bucket as int] } else { None },
    {
        if bucket < self.bucket_activity.len() {
            self.bucket_activity[bucket]
        } else {
            None
        }
    }

    pub fn bucket_last_refresh(&self, bucket: usize) -> (r: Option<u64>)
        requires
            self.wf(),
        ensures
            r == if bucket < BUCKET_COUNT { self.refreshed()[bucket as int] } else { None },
    {
        if bucket < self.bucket_last_refresh.len() {
            self.bucket_last_refresh[bucket]
        } else {
            None
        }
    }

    pub fn mark_bucket_refreshed(&mut self, bucket: usize, now: u64)
        requires
            old(self).wf(),
        ensures
            final(self).wf(),
            final(self).nodes() == old(self).nodes(),
            final(self).dest_table() == old(self).dest_table(),
            final(self).me() == old(self).me(),
            final(self).activity() == old(self).activity(),
            final(self).refreshed() == if bucket < BUCKET_COUNT {
                old(self).refreshed().update(bucket as int, Some(now))
            } else {
                old(self).refreshed()
            },
    {
        if bucket < self.bucket_last_refresh.len() {
            self.bucket_last_refresh.set(bucket, Some(now));
        }
    }

    /// Records activity in the bucket of `id` (none for ourselves or zero).
    fn touch_bucket_by_id(&mut self, id: KadId, now: u64)
        requires
            old(self).wf(),
        ensures
            final(self).wf(),
            final(self).nodes() == old(self).nodes(),
            final(self).dest_table() == old(self).dest_table(),
            final(self).me() == old(self).me(),
            final(self).refreshed() == old(self).refreshed(),
            final(self).activity() == match bucket_index_spec(old(self).me(), id) {
                Some(i) => old(self).activity().update(i as int, Some(now)),
                None => old(self).activity(),
            },
    {
        match bucket_index(self.my_id, id) {
            Some(idx) => {
                if idx < self.bucket_activity.len() {
                    self.bucket_activity.set(idx, Some(now));
                }
            },
            None => {},
        }
    }

    /// Position of the node with identifier `id`.
    fn find_id(&self, id: &[u8; 16]) -> (r: Option<usize>)
        ensures
            match r {
                Some(i) => i < self.nodes().len() && self.nodes()[i as int].node.client_id == id@,
                None => forall|i: int| 0 <= i < self.nodes().len() ==> (#[trigger] self.nodes()[i]).node.client_id != id@,
            },
    {
        let mut i: usize = 0;
        while i < self.by_id.len()
            invariant
                i <= self.by_id@.len(),
                forall|j: int| 0 <= j < i ==> (#[trigger] self.nodes()[j]).node.client_id != id@,
            decreases self.by_id@.len() - i,
        {
            assert(self.nodes()[i as int] == self.by_id@[i as int]@);
            if KadId(self.by_id[i].node.client_id) == KadId(*id) {
                return Some(i);
            }
            i += 1;
        }
        None
    }
}


pub open spec fn count_live(s: Seq<NodeModel>) -> nat
    decreases s.len(),
{
    if s.len() == 0 {
        0
    } else {
        count_live(s.drop_last()) + if s.last().last_inbound is Some { 1nat } else { 0nat }
    }
}

pub open spec fn count_recent(s: Seq<NodeModel>, now: u64, window: u64) -> nat
    decreases s.len(),
{
    if s.len() == 0 {
        0
    } else {
        count_recent(s.drop_last(), now, window) + if recent_inbound(s.last(), now, window) { 1nat } else { 0nat }
    }
}

pub open spec fn count_class(s: Seq<NodeModel>, now: u64, c: PeerHealthClass) -> nat
    decreases s.len(),
{
    if s.len() == 0 {
        0
    } else {
        count_class(s.drop_last(), now, c) + if health_spec(s.last(), now) == c { 1nat } else { 0nat }
    }
}

impl RoutingTable {
    /// The node a destination maps to, if both are known.
    pub open spec fn node_for_dest(&self, dest: Seq<char>) -> Option<NodeModel> {
        if self.by_dest_map().dom().contains(dest) && self.by_id_map().dom().contains(self.by_dest_map()[dest]) {
            Some(self.by_id_map()[self.by_dest_map()[dest]])
        } else {
            None
        }
    }

    proof fn lemma_ids_distinct(&self)
        requires
            self.wf(),
        ensures
            keys_distinct(id_table(self.nodes())),
    {
        let t = id_table(self.nodes());
        assert forall|i: int, j: int| 0 <= i < j < t.len() implies t[i].0 != t[j].0 by {
            assert(t[i].0 == self.nodes()[i].node.client_id);
            assert(t[j].0 == self.nodes()[j].node.client_id);
            lemma_bytes_lt_irreflexive(t[i].0);
        }
    }

    /// A node filed under an identifier carries that identifier.
    pub proof fn lemma_by_id_key(&self, id: Seq<u8>)
        requires
            self.wf(),
            self.by_id_map().dom().contains(id),
        ensures
            self.by_id_map()[id].node.client_id == id,
    {
        let t = id_table(self.nodes());
        self.lemma_ids_distinct();
        lemma_table_map_dom(t, id);
        let i = choose|i: int| 0 <= i < t.len() && t[i].0 == id;
        lemma_table_map_at(t, i);
    }

    fn find_dest(&self, dest: &str) -> (r: Option<usize>)
        ensures
            match r {
                Some(i) => i < self.dest_table().len() && self.dest_table()[i as int].0 == dest@,
                None => forall|i: int| 0 <= i < self.dest_table().len() ==> (#[trigger] self.dest_table()[i]).0 != dest@,
            },
    {
        let d = String::from_str(dest);
        let mut i: usize = 0;
        while i < self.by_dest.len()
            invariant
                i <= self.by_dest@.len(),
                d@ == dest@,
                forall|j: int| 0 <= j < i ==> (#[trigger] self.dest_table()[j]).0 != dest@,
            decreases self.by_dest@.len() - i,
        {
            assert(self.dest_table()[i as int] == (self.by_dest@[i as int].dest@, self.by_dest@[i as int].id.0@));
            if self.by_dest[i].dest == d {
                return Some(i);
            }
            i += 1;
        }
        None
    }

    pub fn contains_id(&self, id: KadId) -> (b: bool)
        requires
            self.wf(),
        ensures
            b == self.by_id_map().dom().contains(id.0@),
    {
        let r = self.find_id(&id.0);
        proof {
            lemma_table_map_dom(id_table(self.nodes()), id.0@);
            if r is None && self.by_id_map().dom().contains(id.0@) {
                let i = choose|i: int| 0 <= i < id_table(self.nodes()).len() && id_table(self.nodes())[i].0 == id.0@;
                assert(self.nodes()[i].node.client_id == id.0@);
            }
            if let Some(i) = r {
                assert(id_table(self.nodes())[i as int].0 == id.0@);
            }
        }
        r.is_some()
    }

    pub fn get_by_id(&self, id: KadId) -> (r: Option<&NodeState>)
        requires
            self.wf(),
        ensures
            match r {
                Some(st) => self.by_id_map().dom().contains(id.0@) && self.by_id_map()[id.0@] == st@,
                None => !self.by_id_map().dom().contains(id.0@),
            },
    {
        proof {
            self.lemma_ids_distinct();
            lemma_table_map_dom(id_table(self.nodes()), id.0@);
        }
        match self.find_id(&id.0) {
            Some(i) => {
                proof {
                    lemma_table_map_at(id_table(self.nodes()), i as int);
                }
                Some(&self.by_id[i])
            },
            None => {
                proof {
                    if self.by_id_map().dom().contains(id.0@) {
                        let i = choose|i: int| 0 <= i < id_table(self.nodes()).len() && id_table(self.nodes())[i].0 == id.0@;
                        assert(self.nodes()[i].node.client_id == id.0@);
                    }
                }
                None
            },
        }
    }

    pub fn id_for_dest(&self, dest_b64: &str) -> (r: Option<KadId>)
        requires
            self.wf(),
        ensures
            match r {
                Some(id) => self.by_dest_map().dom().contains(dest_b64@) && self.by_dest_map()[dest_b64@] == id.0@,
                None => !self.by_dest_map().dom().contains(dest_b64@),
            },
    {
        proof {
            lemma_table_map_dom(self.dest_table(), dest_b64@);
        }
        match self.find_dest(dest_b64) {
            Some(i) => {
                proof {
                    lemma_table_map_at(self.dest_table(), i as int);
                }
                Some(self.by_dest[i].id)
            },
            None => {
                proof {
                    if self.by_dest_map().dom().contains(dest_b64@) {
                        let i = choose|i: int| 0 <= i < self.dest_table().len() && self.dest_table()[i].0 == dest_b64@;
                    }
                }
                None
            },
        }
    }

    pub fn get_by_dest(&self, dest_b64: &str) -> (r: Option<&NodeState>)
        requires
            self.wf(),
        ensures
            match r {
                Some(st) => self.node_for_dest(dest_b64@) == Some(st@),
                None => self.node_for_dest(dest_b64@) is None,
            },
    {
        match self.id_for_dest(dest_b64) {
            Some(id) => self.get_by_id(id),
            None => None,
        }
    }

    /// Nodes we have heard from at all.
    pub fn live_count(&self) -> (n: usize)
        ensures
            n == count_live(self.nodes()),
    {
        let ghost s = self.nodes();
        let mut n: usize = 0;
        let mut i: usize = 0;
        while i < self.by_id.len()
            invariant
                i <= self.by_id@.len(),
                s == self.nodes(),
                n == count_live(s.take(i as int)),
                n <= i,
            decreases self.by_id@.len() - i,
        {
            assert(s.take(i + 1).drop_last() =~= s.take(i as int));
            assert(s.take(i + 1).last() == self.by_id@[i as int]@);
            if self.by_id[i].last_inbound.is_some() {
                n += 1;
            }
            i += 1;
        }
        assert(s.take(s.len() as int) =~= s);
        n
    }

    /// Nodes heard from within `window` of `now`.
    pub fn live_count_recent(&self, now: u64, window: u64) -> (n: usize)
        ensures
            n == count_recent(self.nodes(), now, window),
    {
        let ghost s = self.nodes();
        let mut n: usize = 0;
        let mut i: usize = 0;
        while i < self.by_id.len()
            invariant
                i <= self.by_id@.len(),
                s == self.nodes(),
                n == count_recent(s.take(i as int), now, window),
                n <= i,
            decreases self.by_id@.len() - i,
        {
            assert(s.take(i + 1).drop_last() =~= s.take(i as int));
            assert(s.take(i + 1).last() == self.by_id@[i as int]@);
            if is_recent_inbound(&self.by_id[i], now, window) {
                n += 1;
            }
            i += 1;
        }
        assert(s.take(s.len() as int) =~= s);
        n
    }

    /// How many nodes fall in each health class at `now`.
    pub fn peer_health_counts(&self, now: u64) -> (c: PeerHealthCounts)
        ensures
            c.unknown == count_class(self.nodes(), now, PeerHealthClass::Unknown),
            c.verified == count_class(self.nodes(), now, PeerHealthClass::Verified),
            c.stable == count_class(self.nodes(), now, PeerHealthClass::Stable),
            c.unreliable == count_class(self.nodes(), now, PeerHealthClass::Unreliable),
    {
        let ghost s = self.nodes();
        let mut c = PeerHealthCounts::default();
        let mut i: usize = 0;
        while i < self.by_id.len()
            invariant
                i <= self.by_id@.len(),
                s == self.nodes(),
                c.unknown == count_class(s.take(i as int), now, PeerHealthClass::Unknown),
                c.verified == count_class(s.take(i as int), now, PeerHealthClass::Verified),
                c.stable == count_class(s.take(i as int), now, PeerHealthClass::Stable),
                c.unreliable == count_class(s.take(i as int), now, PeerHealthClass::Unreliable),
                c.unknown + c.verified + c.stable + c.unreliable == i,
            decreases self.by_id@.len() - i,
        {
            assert(s.take(i + 1).drop_last() =~= s.take(i as int));
            assert(s.take(i + 1).last() == self.by_id@[i as int]@);
            match classify_peer_health(&self.by_id[i], now) {
                PeerHealthClass::Unknown => c.unknown += 1,
                PeerHealthClass::Verified => c.verified += 1,
                PeerHealthClass::Stable => c.stable += 1,
                PeerHealthClass::Unreliable => c.unreliable += 1,
            }
            i += 1;
        }
        assert(s.take(s.len() as int) =~= s);
        c
    }

    pub fn peer_health_class_by_dest(&self, dest_b64: &str, now: u64) -> (r: Option<PeerHealthClass>)
        requires
            self.wf(),
        ensures
            r == match self.node_for_dest(dest_b64@) {
                Some(st) => Some(health_spec(st, now)),
                None => None,
            },
    {
        match self.get_by_dest(dest_b64) {
            Some(st) => Some(classify_peer_health(st, now)),
            None => None,
        }
    }
}


/// What `upsert` of a node seen at `now` does: a zero identifier or our own
/// is ignored; an update the known entry refuses (see `admit_update`)
/// changes nothing; otherwise the node is inserted or merged into its entry,
/// its destination re-pointed, and its bucket touched.
#[verifier::opaque]
pub open spec fn upsert_effect(a: RoutingTable, b: RoutingTable, n: ImuleNodeView, now: u64, r: UpsertOutcome) -> bool {
    &&& b.me() == a.me()
    &&& b.refreshed() == a.refreshed()
    &&& ({
        let dest = b64_spec(n.udp_dest);
        let by_id = a.by_id_map();
        let known = by_id.dom().contains(n.client_id);
        if forall|i: int| 0 <= i < 16 ==> n.client_id[i] == 0 {
            r == UpsertOutcome::IgnoredZeroId && b == a
        } else if n.client_id == a.me().0@ {
            r == UpsertOutcome::IgnoredSelf && b == a
        } else if known && admit_update(by_id[n.client_id], n, dest) is None {
            r == UpsertOutcome::Updated && b == a
        } else {
            let dests = if known && by_id[n.client_id].dest != dest {
                a.by_dest_map().remove(by_id[n.client_id].dest)
            } else {
                a.by_dest_map()
            };
            &&& b.by_dest_map() == dests.insert(dest, n.client_id)
            &&& b.by_id_map() == by_id.insert(
                n.client_id,
                if known {
                    merged(by_id[n.client_id], n, now, admit_update(by_id[n.client_id], n, dest)->Some_0)
                } else {
                    fresh_node(n, dest, now)
                },
            )
            &&& b.activity() == touched(a.activity(), bucket_for(a.me().0@, n.client_id), now)
            &&& r == if known { UpsertOutcome::Updated } else { UpsertOutcome::Inserted }
        }
    })
}

/// Whether an update from `n` (arriving from `dest`) is admitted for a known
/// node: `None` when refused (a verified node changing destination, a lower
/// Kad version changing destination, a different UDP key, or a legacy
/// contact that already said HELLO changing destination or version); else
/// whether only its timers may be refreshed.
pub open spec fn admit_update(o: NodeModel, n: ImuleNodeView, dest: Seq<char>) -> Option<bool> {
    if o.node.verified && o.dest != dest {
        None
    } else if o.dest != dest && n.kad_version < o.node.kad_version {
        None
    } else if o.node.udp_key != 0 && n.udp_key != 0 && o.node.udp_key != n.udp_key {
        None
    } else if 1 <= o.node.kad_version < 6 && o.received_hello {
        if o.dest != dest || o.node.kad_version != n.kad_version {
            None
        } else {
            Some(true)
        }
    } else {
        Some(false)
    }
}

/// A known node after an admitted update seen at `now`.
pub open spec fn merged(o: NodeModel, n: ImuleNodeView, now: u64, refresh_only: bool) -> NodeModel {
    let node = if refresh_only {
        o.node
    } else {
        let kv = if n.kad_version > o.node.kad_version { n.kad_version } else { o.node.kad_version };
        let take_key = (n.udp_key != 0 && o.node.udp_key != n.udp_key) || (o.node.udp_key == 0 && n.udp_key != 0);
        ImuleNodeView {
            kad_version: kv,
            udp_key: if take_key { n.udp_key } else { o.node.udp_key },
            udp_key_ip: if take_key { n.udp_key_ip } else { o.node.udp_key_ip },
            verified: o.node.verified || n.verified,
            ..o.node
        }
    };
    NodeModel { node, last_seen: now, failures: 0, ..o }
}

/// A node seen for the first time.
pub open spec fn fresh_node(n: ImuleNodeView, dest: Seq<char>, now: u64) -> NodeModel {
    NodeModel {
        node: n,
        dest,
        last_seen: now,
        peer_agent: None,
        last_inbound: None,
        last_queried: None,
        last_bootstrap: None,
        last_hello: None,
        received_hello: false,
        needs_hello: true,
        failures: 0,
    }
}

pub open spec fn touched(a: Seq<Option<u64>>, b: Option<usize>, now: u64) -> Seq<Option<u64>> {
    match b {
        Some(i) => a.update(i as int, Some(now)),
        None => a,
    }
}

fn clone_opt_string(o: &Option<String>) -> (r: Option<String>)
    ensures
        opt_str_view(r) == opt_str_view(*o),
{
    match o {
        Some(x) => Some(x.clone()),
        None => None,
    }
}

pub(crate) fn copy_state(st: &NodeState) -> (c: NodeState)
    ensures
        c@ == st@,
{
    NodeState {
        node: ImuleNode {
            kad_version: st.node.kad_version,
            client_id: st.node.client_id,
            udp_dest: st.node.udp_dest,
            udp_key: st.node.udp_key,
            udp_key_ip: st.node.udp_key_ip,
            verified: st.node.verified,
        },
        dest_b64: st.dest_b64.clone(),
        last_seen: st.last_seen,
        peer_agent: clone_opt_string(&st.peer_agent),
        last_inbound: st.last_inbound,
        last_queried: st.last_queried,
        last_bootstrap: st.last_bootstrap,
        last_hello: st.last_hello,
        received_hello: st.received_hello,
        needs_hello: st.needs_hello,
        failures: st.failures,
    }
}

pub(crate) fn copy_node(n: &ImuleNode) -> (c: ImuleNode)
    ensures
        c@ == n@,
{
    ImuleNode {
        kad_version: n.kad_version,
        client_id: n.client_id,
        udp_dest: n.udp_dest,
        udp_key: n.udp_key,
        udp_key_ip: n.udp_key_ip,
        verified: n.verified,
    }
}

impl RoutingTable {
    /// Points `dest` at `id`.
    fn set_dest(&mut self, dest: &String, id: KadId)
        requires
            old(self).wf(),
        ensures
            final(self).wf(),
            final(self).by_dest_map() == old(self).by_dest_map().insert(dest@, id.0@),
            final(self).nodes() == old(self).nodes(),
            final(self).me() == old(self).me(),
            final(self).activity() == old(self).activity(),
            final(self).refreshed() == old(self).refreshed(),
    {
        let ghost t0 = self.dest_table();
        match self.find_dest(dest.as_str()) {
            Some(i) => {
                self.by_dest.set(i, DestEntry { dest: dest.clone(), id });
                proof {
                    assert(self.dest_table() =~= t0.update(i as int, (t0[i as int].0, id.0@)));
                    lemma_table_map_update(t0, i as int, id.0@);
                }
            },
            None => {
                proof {
                    lemma_table_map_dom(t0, dest@);
                }
                self.by_dest.push(DestEntry { dest: dest.clone(), id });
                proof {
                    assert(self.dest_table() =~= t0.push((dest@, id.0@)));
                    lemma_table_push(t0, dest@, id.0@);
                }
            },
        }
    }

    /// Forgets where `dest` points.
    fn unset_dest(&mut self, dest: &String)
        requires
            old(self).wf(),
        ensures
            final(self).wf(),
            final(self).by_dest_map() == old(self).by_dest_map().remove(dest@),
            final(self).nodes() == old(self).nodes(),
            final(self).me() == old(self).me(),
            final(self).activity() == old(self).activity(),
            final(self).refreshed() == old(self).refreshed(),
    {
        let ghost t0 = self.dest_table();
        match self.find_dest(dest.as_str()) {
            Some(i) => {
                self.by_dest.remove(i);
                proof {
                    assert(self.dest_table() =~= t0.remove(i as int));
                    lemma_table_remove(t0, i as int);
                }
            },
            None => {
                proof {
                    lemma_table_map_dom(t0, dest@);
                    assert(table_map(t0).remove(dest@) =~= table_map(t0));
                }
            },
        }
    }

    /// Puts a state for a new identifier at its place in identifier order.
    fn insert_state(&mut self, st: NodeState)
        requires
            old(self).wf(),
            !old(self).by_id_map().dom().contains(st@.node.client_id),
        ensures
            final(self).wf(),
            final(self).by_id_map() == old(self).by_id_map().insert(st@.node.client_id, st@),
            final(self).dest_table() == old(self).dest_table(),
            final(self).me() == old(self).me(),
            final(self).activity() == old(self).activity(),
            final(self).refreshed() == old(self).refreshed(),
    {
        let ghost s0 = self.nodes();
        let ghost k = st@.node.client_id;
        proof {
            self.lemma_ids_distinct();
            lemma_table_map_dom(id_table(s0), k);
        }
        let mut p: usize = 0;
        while p < self.by_id.len() && id_lt(&self.by_id[p].node.client_id, &st.node.client_id)
            invariant
                p <= self.by_id@.len(),
                s0 == self.nodes(),
                k == st@.node.client_id,
                forall|q: int| 0 <= q < p ==> bytes_lt(#[trigger] s0[q].node.client_id, k),
            decreases self.by_id@.len() - p,
        {
            assert(s0[p as int] == self.by_id@[p as int]@);
            p += 1;
        }
        proof {
            if p < s0.len() {
                assert(s0[p as int] == self.by_id@[p as int]@);
                assert(!bytes_lt(s0[p as int].node.client_id, k));
                assert(s0[p as int].node.client_id != k) by {
                    assert(id_table(s0)[p as int].0 == s0[p as int].node.client_id);
                }
                lemma_bytes_lt_total(s0[p as int].node.client_id, k);
            }
        }
        let ghost v = st@;
        self.by_id.insert(p, st);
        proof {
            let s1 = self.nodes();
            assert(s1 =~= s0.insert(p as int, v));
            assert(id_table(s1) =~= id_table(s0).insert(p as int, (k, v)));
            lemma_table_insert(id_table(s0), p as int, k, v);
            assert forall|i: int, j: int| 0 <= i < j < s1.len() implies bytes_lt(s1[i].node.client_id, s1[j].node.client_id) by {
                if j < p {
                } else if j == p {
                } else if i < p {
                    assert(s1[j] == s0[j - 1]);
                    if j - 1 > p {
                        lemma_bytes_lt_transitive(k, s0[p as int].node.client_id, s0[j - 1].node.client_id);
                    }
                    lemma_bytes_lt_transitive(s0[i].node.client_id, k, s0[j - 1].node.client_id);
                } else if i == p {
                    assert(s1[j] == s0[j - 1]);
                    if j - 1 > p {
                        lemma_bytes_lt_transitive(k, s0[p as int].node.client_id, s0[j - 1].node.client_id);
                    }
                } else {
                    assert(s1[i] == s0[i - 1] && s1[j] == s0[j - 1]);
                }
            }
        }
    }

    /// Replaces the state at position `i` by one with the same identifier.
    fn replace_state(&mut self, i: usize, st: NodeState)
        requires
            old(self).wf(),
            i < old(self).nodes().len(),
            st@.node.client_id == old(self).nodes()[i as int].node.client_id,
        ensures
            final(self).wf(),
            final(self).by_id_map() == old(self).by_id_map().insert(st@.node.client_id, st@),
            final(self).nodes() == old(self).nodes().update(i as int, st@),
            final(self).dest_table() == old(self).dest_table(),
            final(self).me() == old(self).me(),
            final(self).activity() == old(self).activity(),
            final(self).refreshed() == old(self).refreshed(),
    {
        let ghost s0 = self.nodes();
        proof {
            self.lemma_ids_distinct();
        }
        let ghost v = st@;
        self.by_id.set(i, st);
        proof {
            assert(self.nodes() =~= s0.update(i as int, v));
            assert(id_table(self.nodes()) =~= id_table(s0).update(i as int, (id_table(s0)[i as int].0, v)));
            lemma_table_map_update(id_table(s0), i as int, v);
            let s1 = self.nodes();
            assert forall|a: int, b: int| 0 <= a < b < s1.len() implies bytes_lt(s1[a].node.client_id, s1[b].node.client_id) by {
                assert(s1[a].node.client_id == s0[a].node.client_id);
                assert(s1[b].node.client_id == s0[b].node.client_id);
            }
        }
    }

    /// Admits or refreshes a node seen at `now`; see `admit_update` for the
    /// updates a known node refuses.
    pub fn upsert(&mut self, node: ImuleNode, now: u64) -> (r: UpsertOutcome)
        requires
            old(self).wf(),
        ensures
            final(self).wf(),
            upsert_effect(*old(self), *final(self), node@, now, r),
    {
        proof {
            reveal(upsert_effect);
        }
        let id = KadId(node.client_id);
        if id.is_zero() {
            return UpsertOutcome::IgnoredZeroId;
        }
        if id == self.my_id {
            return UpsertOutcome::IgnoredSelf;
        }
        let dest_b64 = node.udp_dest_b64();
        proof {
            self.lemma_ids_distinct();
            lemma_table_map_dom(id_table(self.nodes()), node.client_id@);
        }
        let existing = self.find_id(&node.client_id);
        let mut refresh_only = false;
        match existing {
            Some(i) => {
                proof {
                    lemma_table_map_at(id_table(self.nodes()), i as int);
                    assert(id_table(self.nodes())[i as int].0 == node.client_id@);
                }
                let o = &self.by_id[i];
                let same_dest = o.dest_b64 == dest_b64;
                if o.node.verified && !same_dest {
                    return UpsertOutcome::Updated;
                }
                if !same_dest && node.kad_version < o.node.kad_version {
                    return UpsertOutcome::Updated;
                }
                if o.node.udp_key != 0 && node.udp_key != 0 && o.node.udp_key != node.udp_key {
                    return UpsertOutcome::Updated;
                }
                if 1 <= o.node.kad_version && o.node.kad_version < 6 && o.received_hello {
                    if !same_dest || o.node.kad_version != node.kad_version {
                        return UpsertOutcome::Updated;
                    }
                    refresh_only = true;
                }
                if !same_dest {
                    let old_dest = o.dest_b64.clone();
                    self.unset_dest(&old_dest);
                }
            },
            None => {
                proof {
                    if self.by_id_map().dom().contains(node.client_id@) {
                        let j = choose|j: int| 0 <= j < id_table(self.nodes()).len() && id_table(self.nodes())[j].0 == node.client_id@;
                        assert(self.nodes()[j].node.client_id == node.client_id@);
                    }
                }
            },
        }
        self.set_dest(&dest_b64, id);
        let outcome = match existing {
            Some(i) => {
                let mut st = copy_state(&self.by_id[i]);
                if !refresh_only {
                    if node.kad_version > st.node.kad_version {
                        st.node.kad_version = node.kad_version;
                    }
                    if node.udp_key != 0 && st.node.udp_key != node.udp_key {
                        st.node.udp_key = node.udp_key;
                        st.node.udp_key_ip = node.udp_key_ip;
                    }
                    if st.node.udp_key == 0 && node.udp_key != 0 {
                        st.node.udp_key = node.udp_key;
                        st.node.udp_key_ip = node.udp_key_ip;
                    }
                    if node.verified {
                        st.node.verified = true;
                    }
                }
                st.last_seen = now;
                st.failures = 0;
                self.replace_state(i, st);
                UpsertOutcome::Updated
            },
            None => {
                let st = NodeState {
                    node: copy_node(&node),
                    dest_b64,
                    last_seen: now,
                    peer_agent: None,
                    last_inbound: None,
                    last_queried: None,
                    last_bootstrap: None,
                    last_hello: None,
                    received_hello: false,
                    needs_hello: true,
                    failures: 0,
                };
                self.insert_state(st);
                UpsertOutcome::Inserted
            },
        };
        self.touch_bucket_by_id(id, now);
        outcome
    }
}


pub open spec fn seen(st: NodeModel, now: u64) -> NodeModel {
    NodeModel { last_seen: now, last_inbound: Some(now), failures: 0, ..st }
}

pub open spec fn greeted_by(st: NodeModel, now: u64) -> NodeModel {
    NodeModel { received_hello: true, needs_hello: false, last_seen: now, last_inbound: Some(now), failures: 0, ..st }
}

/// What hearing from `dest` does to the table: a known node is marked seen
/// (see `seen`) and its bucket touched; an unknown destination changes nothing.
pub open spec fn seen_marked(a: RoutingTable, b: RoutingTable, dest: Seq<char>, now: u64) -> bool {
    &&& b.me() == a.me()
    &&& b.refreshed() == a.refreshed()
    &&& b.dest_table() == a.dest_table()
    &&& match a.node_for_dest(dest) {
        Some(st) => b.by_id_map() == a.by_id_map().insert(st.node.client_id, seen(st, now))
            && b.activity() == touched(a.activity(), bucket_for(a.me().0@, st.node.client_id), now),
        None => b == a,
    }
}

/// What hearing from `dest` with a sender key does to the table: a known
/// node is refreshed (see `with_sender_key`) and its bucket touched; an
/// unknown destination changes nothing.
#[verifier::opaque]
pub open spec fn sender_keys_updated(
    a: RoutingTable,
    b: RoutingTable,
    dest: Seq<char>,
    now: u64,
    sender_verify_key: u32,
    my_dest_hash: u32,
    verified: bool,
) -> bool {
    &&& b.me() == a.me()
    &&& b.refreshed() == a.refreshed()
    &&& b.dest_table() == a.dest_table()
    &&& (!a.by_dest_map().dom().contains(dest) ==> b == a)
    &&& (a.by_dest_map().dom().contains(dest) ==> ({
        let id = a.by_dest_map()[dest];
        &&& b.activity() == touched(a.activity(), bucket_for(a.me().0@, id), now)
        &&& b.by_id_map() == match a.node_for_dest(dest) {
            Some(st) => a.by_id_map().insert(st.node.client_id, with_sender_key(st, now, sender_verify_key, my_dest_hash, verified)),
            None => a.by_id_map(),
        }
    }))
}

pub open spec fn with_sender_key(st: NodeModel, now: u64, key: u32, my_dest_hash: u32, verified: bool) -> NodeModel {
    let take = key != 0 && st.node.udp_key != key;
    NodeModel {
        last_seen: now,
        last_inbound: Some(now),
        failures: 0,
        node: ImuleNodeView {
            udp_key: if take { key } else { st.node.udp_key },
            udp_key_ip: if take { my_dest_hash } else { st.node.udp_key_ip },
            verified: st.node.verified || verified,
            ..st.node
        },
        ..st
    }
}

impl RoutingTable {
    fn index_for_dest(&self, dest_b64: &str) -> (r: Option<usize>)
        requires
            self.wf(),
        ensures
            match r {
                Some(i) => i < self.nodes().len() && self.node_for_dest(dest_b64@) == Some(self.nodes()[i as int]),
                None => self.node_for_dest(dest_b64@) is None,
            },
    {
        proof {
            self.lemma_ids_distinct();
        }
        match self.id_for_dest(dest_b64) {
            Some(id) => {
                proof {
                    lemma_table_map_dom(id_table(self.nodes()), id.0@);
                }
                match self.find_id(&id.0) {
                    Some(i) => {
                        proof {
                            lemma_table_map_at(id_table(self.nodes()), i as int);
                        }
                        Some(i)
                    },
                    None => {
                        proof {
                            if self.by_id_map().dom().contains(id.0@) {
                                let j = choose|j: int| 0 <= j < id_table(self.nodes()).len() && id_table(self.nodes())[j].0 == id.0@;
                                assert(self.nodes()[j].node.client_id == id.0@);
                            }
                        }
                        None
                    },
                }
            },
            None => None,
        }
    }

    /// Any packet arrived from `dest_b64` at `now`.
    pub fn mark_seen_by_dest(&mut self, dest_b64: &str, now: u64)
        requires
            old(self).wf(),
        ensures
            final(self).wf(),
            seen_marked(*old(self), *final(self), dest_b64@, now),
    {
        match self.index_for_dest(dest_b64) {
            Some(i) => {
                let mut st = copy_state(&self.by_id[i]);
                st.last_seen = now;
                st.last_inbound = Some(now);
                st.failures = 0;
                let id = KadId(st.node.client_id);
                self.replace_state(i, st);
                self.touch_bucket_by_id(id, now);
            },
            None => {},
        }
    }
}


impl RoutingTable {
    /// A query was sent to `dest_b64` at `now`.
    pub fn mark_queried_by_dest(&mut self, dest_b64: &str, now: u64)
        requires
            old(self).wf(),
        ensures
            final(self).wf(),
            final(self).me() == old(self).me(),
            final(self).refreshed() == old(self).refreshed(),
            final(self).dest_table() == old(self).dest_table(),
            match old(self).node_for_dest(dest_b64@) {
                Some(st) => final(self).by_id_map() == old(self).by_id_map().insert(st.node.client_id, NodeModel { last_queried: Some(now), ..st })
                    && final(self).activity() == old(self).activity(),
                None => *final(self) == *old(self),
            },
    {
        match self.index_for_dest(dest_b64) {
            Some(i) => {
                let mut st = copy_state(&self.by_id[i]);
                st.last_queried = Some(now);
                self.replace_state(i, st);
            },
            None => {},
        }
    }

    /// A bootstrap request was sent to `dest_b64` at `now`.
    pub fn mark_bootstrap_sent_by_dest(&mut self, dest_b64: &str, now: u64)
        requires
            old(self).wf(),
        ensures
            final(self).wf(),
            final(self).me() == old(self).me(),
            final(self).refreshed() == old(self).refreshed(),
            final(self).dest_table() == old(self).dest_table(),
            match old(self).node_for_dest(dest_b64@) {
                Some(st) => final(self).by_id_map() == old(self).by_id_map().insert(st.node.client_id, NodeModel { last_bootstrap: Some(now), ..st })
                    && final(self).activity() == old(self).activity(),
                None => *final(self) == *old(self),
            },
    {
        match self.index_for_dest(dest_b64) {
            Some(i) => {
                let mut st = copy_state(&self.by_id[i]);
                st.last_bootstrap = Some(now);
                self.replace_state(i, st);
            },
            None => {},
        }
    }

    /// A HELLO was sent to `dest_b64` at `now`.
    pub fn mark_hello_sent_by_dest(&mut self, dest_b64: &str, now: u64)
        requires
            old(self).wf(),
        ensures
            final(self).wf(),
            final(self).me() == old(self).me(),
            final(self).refreshed() == old(self).refreshed(),
            final(self).dest_table() == old(self).dest_table(),
            match old(self).node_for_dest(dest_b64@) {
                Some(st) => final(self).by_id_map() == old(self).by_id_map().insert(st.node.client_id, NodeModel { last_hello: Some(now), needs_hello: false, ..st })
                    && final(self).activity() == old(self).activity(),
                None => *final(self) == *old(self),
            },
    {
        match self.index_for_dest(dest_b64) {
            Some(i) => {
                let mut st = copy_state(&self.by_id[i]);
                st.last_hello = Some(now);
                st.needs_hello = false;
                self.replace_state(i, st);
            },
            None => {},
        }
    }

    /// A HELLO arrived from `dest_b64` at `now`.
    pub fn mark_received_hello_by_dest(&mut self, dest_b64: &str, now: u64)
        requires
            old(self).wf(),
        ensures
            final(self).wf(),
            final(self).me() == old(self).me(),
            final(self).refreshed() == old(self).refreshed(),
            final(self).dest_table() == old(self).dest_table(),
            match old(self).node_for_dest(dest_b64@) {
                Some(st) => final(self).by_id_map() == old(self).by_id_map().insert(st.node.client_id, greeted_by(st, now))
                    && final(self).activity() == touched(old(self).activity(), bucket_for(old(self).me().0@, st.node.client_id), now),
                None => *final(self) == *old(self),
            },
    {
        match self.index_for_dest(dest_b64) {
            Some(i) => {
                let mut st = copy_state(&self.by_id[i]);
                st.received_hello = true;
                st.needs_hello = false;
                st.last_seen = now;
                st.last_inbound = Some(now);
                st.failures = 0;
                let id = KadId(st.node.client_id);
                self.replace_state(i, st);
                self.touch_bucket_by_id(id, now);
            },
            None => {},
        }
    }

    /// A request to `dest_b64` failed.
    pub fn mark_failure_by_dest(&mut self, dest_b64: &str)
        requires
            old(self).wf(),
        ensures
            final(self).wf(),
            final(self).me() == old(self).me(),
            final(self).refreshed() == old(self).refreshed(),
            final(self).dest_table() == old(self).dest_table(),
            match old(self).node_for_dest(dest_b64@) {
                Some(st) => final(self).by_id_map() == old(self).by_id_map().insert(st.node.client_id, NodeModel { failures: if st.failures == u32::MAX { st.failures } else { (st.failures + 1) as u32 }, ..st })
                    && final(self).activity() == old(self).activity(),
                None => *final(self) == *old(self),
            },
    {
        match self.index_for_dest(dest_b64) {
            Some(i) => {
                let mut st = copy_state(&self.by_id[i]);
                st.failures = st.failures.saturating_add(1);
                self.replace_state(i, st);
            },
            None => {},
        }
    }

    /// Records the agent a node announced, unless one is already known.
    pub fn set_peer_agent_if_unset_by_dest(&mut self, dest_b64: &str, agent: &str)
        requires
            old(self).wf(),
        ensures
            final(self).wf(),
            final(self).me() == old(self).me(),
            final(self).refreshed() == old(self).refreshed(),
            final(self).dest_table() == old(self).dest_table(),
            match old(self).node_for_dest(dest_b64@) {
                Some(st) => final(self).by_id_map() == old(self).by_id_map().insert(st.node.client_id, NodeModel { peer_agent: if st.peer_agent is None { Some(agent@) } else { st.peer_agent }, ..st })
                    && final(self).activity() == old(self).activity(),
                None => *final(self) == *old(self),
            },
    {
        match self.index_for_dest(dest_b64) {
            Some(i) => {
                let mut st = copy_state(&self.by_id[i]);
                if st.peer_agent.is_none() {
                    st.peer_agent = Some(String::from_str(agent));
                }
                self.replace_state(i, st);
            },
            None => {},
        }
    }

    /// A packet from `dest_b64` at `now` carried `sender_verify_key`; a
    /// non-zero key replaces a different one (bound to `my_dest_hash`), and
    /// a valid receiver key marks the node verified. The bucket of the
    /// destination's identifier is touched even when the node is gone.
    pub fn update_sender_keys_by_dest(
        &mut self,
        dest_b64: &str,
        now: u64,
        sender_verify_key: u32,
        my_dest_hash: u32,
        verified: bool,
    )
        requires
            old(self).wf(),
        ensures
            final(self).wf(),
            sender_keys_updated(*old(self), *final(self), dest_b64@, now, sender_verify_key, my_dest_hash, verified),
    {
        proof {
            reveal(sender_keys_updated);
        }
        let id = match self.id_for_dest(dest_b64) {
            Some(id) => id,
            None => return,
        };
        match self.index_for_dest(dest_b64) {
            Some(i) => {
                let mut st = copy_state(&self.by_id[i]);
                st.last_seen = now;
                st.last_inbound = Some(now);
                st.failures = 0;
                if sender_verify_key != 0 && st.node.udp_key != sender_verify_key {
                    st.node.udp_key = sender_verify_key;
                    st.node.udp_key_ip = my_dest_hash;
                }
                if verified {
                    st.node.verified = true;
                }
                self.replace_state(i, st);
            },
            None => {},
        }
        self.touch_bucket_by_id(id, now);
    }
}


/// Lexicographic order of sort keys.
pub open spec fn lex_lt(a: Seq<u128>, b: Seq<u128>) -> bool
    decreases a.len(),
{
    if a.len() == 0 {
        b.len() > 0
    } else if b.len() == 0 {
        false
    } else if a[0] < b[0] {
        true
    } else if a[0] == b[0] {
        lex_lt(a.drop_first(), b.drop_first())
    } else {
        false
    }
}

pub(crate) fn lex_lt_exec(a: &Vec<u128>, b: &Vec<u128>) -> (r: bool)
    ensures
        r == lex_lt(a@, b@),
{
    let mut i: usize = 0;
    assert(a@.subrange(0, a@.len() as int) =~= a@);
    assert(b@.subrange(0, b@.len() as int) =~= b@);
    while i < a.len() && i < b.len()
        invariant
            i <= a@.len(),
            i <= b@.len(),
            lex_lt(a@, b@) == lex_lt(a@.subrange(i as int, a@.len() as int), b@.subrange(i as int, b@.len() as int)),
        decreases a@.len() - i,
    {
        let ghost sa = a@.subrange(i as int, a@.len() as int);
        let ghost sb = b@.subrange(i as int, b@.len() as int);
        assert(sa[0] == a@[i as int] && sb[0] == b@[i as int]);
        if a[i] < b[i] {
            return true;
        }
        if a[i] != b[i] {
            return false;
        }
        assert(sa.drop_first() =~= a@.subrange(i + 1, a@.len() as int));
        assert(sb.drop_first() =~= b@.subrange(i + 1, b@.len() as int));
        i += 1;
    }
    i < b.len() && i == a.len()
}

/// Inserts after every element whose key is not greater (so equal keys keep
/// their order).
pub open spec fn insert_stable<T>(s: Seq<(Seq<u128>, T)>, x: (Seq<u128>, T)) -> Seq<(Seq<u128>, T)>
    decreases s.len(),
{
    if s.len() == 0 {
        seq![x]
    } else if lex_lt(x.0, s[0].0) {
        seq![x] + s
    } else {
        seq![s[0]] + insert_stable(s.drop_first(), x)
    }
}

/// The stable sort by key (the order of `slice::sort_by_key`).
pub open spec fn stable_sort<T>(s: Seq<(Seq<u128>, T)>) -> Seq<(Seq<u128>, T)>
    decreases s.len(),
{
    if s.len() == 0 {
        Seq::empty()
    } else {
        insert_stable(stable_sort(s.drop_last()), s.last())
    }
}

pub proof fn lemma_insert_stable_at<T>(s: Seq<(Seq<u128>, T)>, x: (Seq<u128>, T), p: int)
    requires
        0 <= p <= s.len(),
        forall|q: int| 0 <= q < p ==> !lex_lt(x.0, #[trigger] s[q].0),
        p < s.len() ==> lex_lt(x.0, s[p].0),
    ensures
        insert_stable(s, x) == s.insert(p, x),
    decreases s.len(),
{
    if s.len() == 0 {
        assert(s.insert(p, x) =~= seq![x]);
    } else if p == 0 {
        assert(s.insert(0, x) =~= seq![x] + s);
    } else {
        let r = s.drop_first();
        assert forall|q: int| 0 <= q < p - 1 implies !lex_lt(x.0, #[trigger] r[q].0) by {
            assert(r[q] == s[q + 1]);
        }
        if p - 1 < r.len() {
            assert(r[p - 1] == s[p]);
        }
        lemma_insert_stable_at(r, x, p - 1);
        assert(s.insert(p, x) =~= seq![s[0]] + r.insert(p - 1, x));
    }
}

pub open spec fn keyed_view(v: Seq<(Vec<u128>, ImuleNode)>) -> Seq<(Seq<u128>, ImuleNodeView)> {
    v.map_values(|p: (Vec<u128>, ImuleNode)| (p.0@, p.1@))
}

/// The first `max` nodes in stable key order.
pub open spec fn first_by_key(c: Seq<(Seq<u128>, ImuleNodeView)>, max: usize) -> Seq<ImuleNodeView> {
    let sorted = stable_sort(c);
    sorted.take(if max < sorted.len() { max as int } else { sorted.len() as int }).map_values(|p: (Seq<u128>, ImuleNodeView)| p.1)
}

pub proof fn lemma_insert_stable_len<T>(s: Seq<(Seq<u128>, T)>, x: (Seq<u128>, T))
    ensures
        insert_stable(s, x).len() == s.len() + 1,
    decreases s.len(),
{
    if s.len() > 0 && !lex_lt(x.0, s[0].0) {
        lemma_insert_stable_len(s.drop_first(), x);
    }
}

pub proof fn lemma_stable_sort_len<T>(s: Seq<(Seq<u128>, T)>)
    ensures
        stable_sort(s).len() == s.len(),
    decreases s.len(),
{
    if s.len() > 0 {
        lemma_stable_sort_len(s.drop_last());
        lemma_insert_stable_len(stable_sort(s.drop_last()), s.last());
    }
}

pub(crate) fn select_first_by_key(cands: Vec<(Vec<u128>, ImuleNode)>, max: usize) -> (out: Vec<ImuleNode>)
    ensures
        out@.map_values(|n: ImuleNode| n@) == first_by_key(keyed_view(cands@), max),
{
    let ghost c = keyed_view(cands@);
    let mut sorted: Vec<(Vec<u128>, ImuleNode)> = Vec::new();
    let mut i: usize = 0;
    let n = cands.len();
    assert(c.take(0) =~= Seq::<(Seq<u128>, ImuleNodeView)>::empty());
    assert(keyed_view(sorted@) =~= stable_sort(c.take(0)));
    while i < n
        invariant
            i <= n,
            n == cands@.len(),
            c == keyed_view(cands@),
            keyed_view(sorted@) == stable_sort(c.take(i as int)),
        decreases n - i,
    {
        let x = (cands[i].0.clone(), copy_node(&cands[i].1));
        let ghost xv = (x.0@, x.1@);
        assert(xv == c[i as int]);
        let ghost sv = keyed_view(sorted@);
        let mut p: usize = 0;
        while p < sorted.len() && !lex_lt_exec(&x.0, &sorted[p].0)
            invariant
                p <= sorted@.len(),
                sv == keyed_view(sorted@),
                xv == (x.0@, x.1@),
                forall|q: int| 0 <= q < p ==> !lex_lt(xv.0, #[trigger] sv[q].0),
            decreases sorted@.len() - p,
        {
            assert(sv[p as int].0 == sorted@[p as int].0@);
            p += 1;
        }
        proof {
            if p < sorted@.len() {
                assert(sv[p as int].0 == sorted@[p as int].0@);
            }
            lemma_insert_stable_at(sv, xv, p as int);
            assert(c.take(i + 1).drop_last() =~= c.take(i as int));
            assert(c.take(i + 1).last() == xv);
        }
        sorted.insert(p, x);
        assert(keyed_view(sorted@) =~= sv.insert(p as int, xv));
        i += 1;
    }
    assert(c.take(n as int) =~= c);
    let ghost sv = keyed_view(sorted@);
    proof {
        lemma_stable_sort_len(c);
    }
    let limit: usize = if max < sorted.len() { max } else { sorted.len() };
    let mut out: Vec<ImuleNode> = Vec::new();
    let mut k: usize = 0;
    while k < limit
        invariant
            k <= limit,
            limit <= sorted@.len(),
            sv == keyed_view(sorted@),
            out@.map_values(|n: ImuleNode| n@) == sv.take(k as int).map_values(|p: (Seq<u128>, ImuleNodeView)| p.1),
        decreases limit - k,
    {
        let ghost b = out@;
        let item = copy_node(&sorted[k].1);
        assert(item@ == sv[k as int].1);
        out.push(item);
        proof {
            let lhs = out@.map_values(|n: ImuleNode| n@);
            let rhs = sv.take(k + 1).map_values(|p: (Seq<u128>, ImuleNodeView)| p.1);
            let old_lhs = b.map_values(|n: ImuleNode| n@);
            let old_rhs = sv.take(k as int).map_values(|p: (Seq<u128>, ImuleNodeView)| p.1);
            assert(old_lhs == old_rhs);
            assert(sv.len() == sorted@.len());
            assert(old_rhs.len() == k);
            assert(b.len() == k);
            assert(lhs.len() == rhs.len());
            assert forall|j: int| 0 <= j < lhs.len() implies lhs[j] == rhs[j] by {
                if j < k {
                    assert(out@[j] == b[j]);
                    assert(old_lhs[j] == old_rhs[j]);
                }
            }
            assert(lhs =~= rhs);
        }
        k += 1;
    }
    out
}


/// Sort key of a flag: false before true.
pub open spec fn flag(b: bool) -> u128 {
    if b { 1 } else { 0 }
}

/// Sort key of an optional time: never before any time, earlier before later.
pub open spec fn time_key(o: Option<u64>) -> u128 {
    match o {
        Some(t) => (t + 1) as u128,
        None => 0,
    }
}

/// Sort key that puts later times first.
pub open spec fn newest_first(t: u64) -> u128 {
    (u64::MAX - t) as u128
}

/// The XOR distance to `target`, byte by byte from the most significant.
pub open spec fn distance_key(id: Seq<u8>, target: KadId) -> Seq<u128> {
    Seq::new(16, |i: int| (id[i] ^ target.0@[i]) as u128)
}

/// Never done, or done at least `interval` ago.
pub open spec fn due(last: Option<u64>, now: u64, interval: u64) -> bool {
    match last {
        Some(t) => age(now, t) >= interval,
        None => true,
    }
}

/// `closest_to`: nodes with a Kad version, except the excluded destination
/// hash, nearest first.
pub open spec fn closest_key(st: NodeModel, target: KadId, exclude: u32) -> Option<Seq<u128>> {
    if st.node.kad_version != 0 && le32(st.node.udp_dest, 0) != exclude {
        Some(distance_key(st.node.client_id, target))
    } else {
        None
    }
}

/// The two "prefer live" selections: nodes of at least `min_version`,
/// except the excluded destination hash; ordered by recent inbound traffic
/// and distance (distance first when `distance_first`), then least recently
/// queried, then most recently seen.
pub open spec fn live_key(
    st: NodeModel,
    target: KadId,
    exclude: u32,
    now: u64,
    window: u64,
    min_version: u8,
    distance_first: bool,
) -> Option<Seq<u128>> {
    if st.node.kad_version >= min_version && le32(st.node.udp_dest, 0) != exclude {
        let cold = seq![flag(!recent_inbound(st, now, window))];
        let dist = distance_key(st.node.client_id, target);
        let tail = seq![time_key(st.last_queried), newest_first(st.last_seen)];
        Some(if distance_first { dist + cold + tail } else { cold + dist + tail })
    } else {
        None
    }
}

/// Snapshot order: verified first, then with a UDP key, then higher Kad
/// version, then most recently seen, then fewest failures.
pub open spec fn snapshot_key(st: NodeModel) -> Option<Seq<u128>> {
    Some(seq![
        flag(!st.node.verified),
        flag(st.node.udp_key == 0),
        (255 - st.node.kad_version) as u128,
        newest_first(st.last_seen),
        st.failures as u128,
    ])
}

/// Query candidates: Kad2 nodes under the failure limit whose backoff since
/// the last query has passed; heard-from first, then by health, then (for a
/// target) by distance, then least recently queried, then most recently seen.
pub open spec fn query_key(st: NodeModel, target: Option<KadId>, now: u64, base: u64, max_failures: u32) -> Option<Seq<u128>> {
    if st.node.kad_version >= 2 && st.failures < max_failures
        && due(st.last_queried, now, backoff_spec(base, st.failures, 8)) {
        let head = seq![flag(st.last_inbound is None), health_rank(health_spec(st, now)) as u128];
        let tail = seq![time_key(st.last_queried), newest_first(st.last_seen)];
        Some(match target {
            Some(t) => head + distance_key(st.node.client_id, t) + tail,
            None => head + tail,
        })
    } else {
        None
    }
}

/// Hello candidates: Kad2 nodes under the failure limit that need a hello or
/// whose backoff since the last one has passed; those needing one first, then
/// those never heard from, then least recently greeted, then most recently seen.
pub open spec fn hello_key(st: NodeModel, now: u64, base: u64, max_failures: u32) -> Option<Seq<u128>> {
    if st.node.kad_version >= 2 && st.failures < max_failures
        && (st.needs_hello || due(st.last_hello, now, backoff_spec(base, st.failures, 8))) {
        Some(seq![
            flag(!st.needs_hello),
            flag(st.last_inbound is Some),
            time_key(st.last_hello),
            newest_first(st.last_seen),
        ])
    } else {
        None
    }
}

/// Bootstrap candidates: Kad2 nodes whose bootstrap backoff has passed;
/// peers without recent inbound traffic first, then least recently
/// bootstrapped, then most recently seen.
pub open spec fn bootstrap_key(st: NodeModel, now: u64, base: u64, window: u64) -> Option<Seq<u128>> {
    if st.node.kad_version >= 2 && due(st.last_bootstrap, now, backoff_spec(base, st.failures, 2)) {
        Some(seq![
            flag(recent_inbound(st, now, window)),
            time_key(st.last_bootstrap),
            newest_first(st.last_seen),
        ])
    } else {
        None
    }
}

/// The candidates among `s`, in order, with their sort keys.
pub open spec fn keyed(s: Seq<NodeModel>, key: spec_fn(NodeModel) -> Option<Seq<u128>>) -> Seq<(Seq<u128>, ImuleNodeView)>
    decreases s.len(),
{
    if s.len() == 0 {
        Seq::empty()
    } else {
        let r = keyed(s.drop_last(), key);
        match key(s.last()) {
            Some(k) => r.push((k, s.last().node)),
            None => r,
        }
    }
}

#[derive(Clone, Copy)]
enum Pick {
    Closest { target: KadId, exclude: u32 },
    Live { target: KadId, exclude: u32, now: u64, window: u64, min_version: u8, distance_first: bool },
    Snapshot,
    Query { target: Option<KadId>, now: u64, base: u64, max_failures: u32 },
    Hello { now: u64, base: u64, max_failures: u32 },
    Bootstrap { now: u64, base: u64, window: u64 },
}

spec fn pick_key(p: Pick, st: NodeModel) -> Option<Seq<u128>> {
    match p {
        Pick::Closest { target, exclude } => closest_key(st, target, exclude),
        Pick::Live { target, exclude, now, window, min_version, distance_first } =>
            live_key(st, target, exclude, now, window, min_version, distance_first),
        Pick::Snapshot => snapshot_key(st),
        Pick::Query { target, now, base, max_failures } => query_key(st, target, now, base, max_failures),
        Pick::Hello { now, base, max_failures } => hello_key(st, now, base, max_failures),
        Pick::Bootstrap { now, base, window } => bootstrap_key(st, now, base, window),
    }
}

fn time_key_exec(o: Option<u64>) -> (r: u128)
    ensures
        r == time_key(o),
{
    match o {
        Some(t) => t as u128 + 1,
        None => 0,
    }
}

fn newest_first_exec(t: u64) -> (r: u128)
    ensures
        r == newest_first(t),
{
    (u64::MAX - t) as u128
}

fn flag_exec(b: bool) -> (r: u128)
    ensures
        r == flag(b),
{
    if b { 1 } else { 0 }
}

pub(crate) fn push_distance(v: &mut Vec<u128>, id: &[u8; 16], target: &KadId)
    ensures
        final(v)@ == old(v)@ + distance_key(id@, *target),
{
    let ghost v0 = v@;
    let ghost d = distance_key(id@, *target);
    let mut i: usize = 0;
    while i < 16
        invariant
            i <= 16,
            d == distance_key(id@, *target),
            v@ == v0 + d.take(i as int),
        decreases 16 - i,
    {
        v.push((id[i] ^ target.0[i]) as u128);
        assert(v0 + d.take(i + 1) =~= (v0 + d.take(i as int)).push(d[i as int]));
        i += 1;
    }
    assert(d.take(16) =~= d);
}

fn due_exec(last: Option<u64>, now: u64, interval: u64) -> (r: bool)
    ensures
        r == due(last, now, interval),
{
    match last {
        Some(t) => now.saturating_sub(t) >= interval,
        None => true,
    }
}

fn pick_key_exec(p: &Pick, st: &NodeState) -> (r: Option<Vec<u128>>)
    ensures
        match r {
            Some(v) => pick_key(*p, st@) == Some(v@),
            None => pick_key(*p, st@) is None,
        },
{
    let id = &st.node.client_id;
    match p {
        Pick::Closest { target, exclude } => {
            if st.node.kad_version != 0 && st.node.udp_dest_hash_code() != *exclude {
                let mut v: Vec<u128> = Vec::new();
                push_distance(&mut v, id, target);
                assert(v@ =~= distance_key(id@, *target));
                Some(v)
            } else {
                None
            }
        },
        Pick::Live { target, exclude, now, window, min_version, distance_first } => {
            if st.node.kad_version >= *min_version && st.node.udp_dest_hash_code() != *exclude {
                let cold = flag_exec(!is_recent_inbound(st, *now, *window));
                let mut v: Vec<u128> = Vec::new();
                if *distance_first {
                    push_distance(&mut v, id, target);
                    v.push(cold);
                } else {
                    v.push(cold);
                    push_distance(&mut v, id, target);
                }
                v.push(time_key_exec(st.last_queried));
                v.push(newest_first_exec(st.last_seen));
                proof {
                    let cs = seq![flag(!recent_inbound(st@, *now, *window))];
                    let d = distance_key(st@.node.client_id, *target);
                    let tail = seq![time_key(st@.last_queried), newest_first(st@.last_seen)];
                    if *distance_first {
                        assert(v@ =~= d + cs + tail);
                    } else {
                        assert(v@ =~= cs + d + tail);
                    }
                }
                Some(v)
            } else {
                None
            }
        },
        Pick::Snapshot => {
            let mut v: Vec<u128> = Vec::new();
            v.push(flag_exec(!st.node.verified));
            v.push(flag_exec(st.node.udp_key == 0));
            v.push((255 - st.node.kad_version) as u128);
            v.push(newest_first_exec(st.last_seen));
            v.push(st.failures as u128);
            assert(v@ =~= snapshot_key(st@)->0);
            Some(v)
        },
        Pick::Query { target, now, base, max_failures } => {
            if st.node.kad_version >= 2 && st.failures < *max_failures
                && due_exec(st.last_queried, *now, backoff_interval(*base, st.failures)) {
                let mut v: Vec<u128> = Vec::new();
                v.push(flag_exec(st.last_inbound.is_none()));
                v.push(peer_health_rank(classify_peer_health(st, *now)) as u128);
                match target {
                    Some(t) => push_distance(&mut v, id, t),
                    None => {},
                }
                v.push(time_key_exec(st.last_queried));
                v.push(newest_first_exec(st.last_seen));
                proof {
                    let head = seq![flag(st@.last_inbound is None), health_rank(health_spec(st@, *now)) as u128];
                    let tail = seq![time_key(st@.last_queried), newest_first(st@.last_seen)];
                    match *target {
                        Some(t) => {
                            assert(v@ =~= head + distance_key(st@.node.client_id, t) + tail);
                        },
                        None => {
                            assert(v@ =~= head + tail);
                        },
                    }
                }
                Some(v)
            } else {
                None
            }
        },
        Pick::Hello { now, base, max_failures } => {
            if st.node.kad_version >= 2 && st.failures < *max_failures
                && (st.needs_hello || due_exec(st.last_hello, *now, backoff_interval(*base, st.failures))) {
                let mut v: Vec<u128> = Vec::new();
                v.push(flag_exec(!st.needs_hello));
                v.push(flag_exec(st.last_inbound.is_some()));
                v.push(time_key_exec(st.last_hello));
                v.push(newest_first_exec(st.last_seen));
                assert(v@ =~= hello_key(st@, *now, *base, *max_failures)->0);
                Some(v)
            } else {
                None
            }
        },
        Pick::Bootstrap { now, base, window } => {
            if st.node.kad_version >= 2
                && due_exec(st.last_bootstrap, *now, bootstrap_backoff_interval(*base, st.failures)) {
                let mut v: Vec<u128> = Vec::new();
                v.push(flag_exec(is_recent_inbound(st, *now, *window)));
                v.push(time_key_exec(st.last_bootstrap));
                v.push(newest_first_exec(st.last_seen));
                assert(v@ =~= bootstrap_key(st@, *now, *base, *window)->0);
                Some(v)
            } else {
                None
            }
        },
    }
}

impl RoutingTable {
    /// The candidates of a selection, in identifier order, with their keys.
    fn candidates(&self, p: &Pick) -> (r: Vec<(Vec<u128>, ImuleNode)>)
        ensures
            keyed_view(r@) == keyed(self.nodes(), |st: NodeModel| pick_key(*p, st)),
    {
        let ghost key = |st: NodeModel| pick_key(*p, st);
        let ghost s = self.nodes();
        let mut out: Vec<(Vec<u128>, ImuleNode)> = Vec::new();
        let mut i: usize = 0;
        assert(s.take(0) =~= Seq::<NodeModel>::empty());
        assert(keyed_view(out@) =~= keyed(s.take(0), key));
        while i < self.by_id.len()
            invariant
                i <= self.by_id@.len(),
                s == self.nodes(),
                key == (|st: NodeModel| pick_key(*p, st)),
                keyed_view(out@) == keyed(s.take(i as int), key),
            decreases self.by_id@.len() - i,
        {
            let st = &self.by_id[i];
            assert(s[i as int] == st@);
            assert(s.take(i + 1).drop_last() =~= s.take(i as int));
            assert(s.take(i + 1).last() == st@);
            let ghost before = out@;
            match pick_key_exec(p, st) {
                Some(k) => {
                    out.push((k, copy_node(&st.node)));
                    assert(keyed_view(out@) =~= keyed_view(before).push(keyed_view(out@).last()));
                },
                None => {},
            }
            i += 1;
        }
        assert(s.take(s.len() as int) =~= s);
        out
    }

    fn choose_nodes(&self, p: Pick, max: usize) -> (out: Vec<ImuleNode>)
        ensures
            out@.map_values(|n: ImuleNode| n@) == first_by_key(keyed(self.nodes(), |st: NodeModel| pick_key(p, st)), max),
    {
        let cands = self.candidates(&p);
        select_first_by_key(cands, max)
    }

    /// Up to `max` nodes nearest to `target` in XOR distance, skipping nodes
    /// without a Kad version and the one whose destination hash is
    /// `exclude_dest_hash`.
    pub fn closest_to(&self, target: KadId, max: usize, exclude_dest_hash: u32) -> (out: Vec<ImuleNode>)
        ensures
            out@.map_values(|n: ImuleNode| n@)
                == first_by_key(keyed(self.nodes(), |st: NodeModel| closest_key(st, target, exclude_dest_hash)), max),
    {
        let p = Pick::Closest { target, exclude: exclude_dest_hash };
        let r = self.choose_nodes(p, max);
        assert((|st: NodeModel| pick_key(p, st)) =~= (|st: NodeModel| closest_key(st, target, exclude_dest_hash)));
        r
    }

    /// Like `closest_to`, but nodes heard from within `live_window` come
    /// first.
    pub fn closest_to_prefer_live(
        &self,
        target: KadId,
        max: usize,
        exclude_dest_hash: u32,
        now: u64,
        live_window: u64,
        min_kad_version: u8,
    ) -> (out: Vec<ImuleNode>)
        ensures
            out@.map_values(|n: ImuleNode| n@) == first_by_key(
                keyed(self.nodes(), |st: NodeModel| live_key(st, target, exclude_dest_hash, now, live_window, min_kad_version, false)),
                max,
            ),
    {
        let p = Pick::Live { target, exclude: exclude_dest_hash, now, window: live_window, min_version: min_kad_version, distance_first: false };
        let r = self.choose_nodes(p, max);
        assert((|st: NodeModel| pick_key(p, st)) =~= (|st: NodeModel|
            live_key(st, target, exclude_dest_hash, now, live_window, min_kad_version, false)));
        r
    }

    /// Like `closest_to`, with recent liveness only as a tiebreaker: distance
    /// is always primary, so lookups reach the nodes nearest the key.
    pub fn closest_to_distance_first_prefer_live(
        &self,
        target: KadId,
        max: usize,
        exclude_dest_hash: u32,
        now: u64,
        live_window: u64,
        min_kad_version: u8,
    ) -> (out: Vec<ImuleNode>)
        ensures
            out@.map_values(|n: ImuleNode| n@) == first_by_key(
                keyed(self.nodes(), |st: NodeModel| live_key(st, target, exclude_dest_hash, now, live_window, min_kad_version, true)),
                max,
            ),
    {
        let p = Pick::Live { target, exclude: exclude_dest_hash, now, window: live_window, min_version: min_kad_version, distance_first: true };
        let r = self.choose_nodes(p, max);
        assert((|st: NodeModel| pick_key(p, st)) =~= (|st: NodeModel|
            live_key(st, target, exclude_dest_hash, now, live_window, min_kad_version, true)));
        r
    }

    /// Up to `max` nodes in the order worth persisting.
    pub fn snapshot_nodes(&self, max: usize) -> (out: Vec<ImuleNode>)
        ensures
            out@.map_values(|n: ImuleNode| n@) == first_by_key(keyed(self.nodes(), |st: NodeModel| snapshot_key(st)), max),
    {
        let p = Pick::Snapshot;
        let r = self.choose_nodes(p, max);
        assert((|st: NodeModel| pick_key(p, st)) =~= (|st: NodeModel| snapshot_key(st)));
        r
    }

    /// Every node state, in identifier order.
    pub fn snapshot_states(&self) -> (out: Vec<NodeState>)
        ensures
            nodes_view(out@) == self.nodes(),
    {
        let mut out: Vec<NodeState> = Vec::new();
        let mut i: usize = 0;
        while i < self.by_id.len()
            invariant
                i <= self.by_id@.len(),
                nodes_view(out@) == self.nodes().take(i as int),
            decreases self.by_id@.len() - i,
        {
            let ghost before = out@;
            let c = copy_state(&self.by_id[i]);
            assert(c@ == self.nodes()[i as int]);
            out.push(c);
            assert(nodes_view(out@) =~= nodes_view(before).push(c@));
            assert(self.nodes().take(i + 1) =~= self.nodes().take(i as int).push(self.nodes()[i as int]));
            i += 1;
        }
        assert(self.nodes().take(i as int) =~= self.nodes());
        out
    }

    /// Up to `max` nodes to query next.
    pub fn select_query_candidates(&self, max: usize, now: u64, base_interval: u64, max_failures: u32) -> (out: Vec<ImuleNode>)
        ensures
            out@.map_values(|n: ImuleNode| n@) == first_by_key(
                keyed(self.nodes(), |st: NodeModel| query_key(st, None, now, base_interval, max_failures)),
                max,
            ),
    {
        let p = Pick::Query { target: None, now, base: base_interval, max_failures };
        let r = self.choose_nodes(p, max);
        assert((|st: NodeModel| pick_key(p, st)) =~= (|st: NodeModel| query_key(st, None, now, base_interval, max_failures)));
        r
    }

    /// Up to `max` nodes to query for a lookup of `target`: as
    /// `select_query_candidates`, biased by distance to `target` so that
    /// repeated crawls explore different regions.
    pub fn select_query_candidates_for_target(
        &self,
        target: KadId,
        max: usize,
        now: u64,
        base_interval: u64,
        max_failures: u32,
    ) -> (out: Vec<ImuleNode>)
        ensures
            out@.map_values(|n: ImuleNode| n@) == first_by_key(
                keyed(self.nodes(), |st: NodeModel| query_key(st, Some(target), now, base_interval, max_failures)),
                max,
            ),
    {
        let p = Pick::Query { target: Some(target), now, base: base_interval, max_failures };
        let r = self.choose_nodes(p, max);
        assert((|st: NodeModel| pick_key(p, st)) =~= (|st: NodeModel| query_key(st, Some(target), now, base_interval, max_failures)));
        r
    }

    /// Up to `max` nodes to greet next.
    pub fn select_hello_candidates(&self, max: usize, now: u64, base_interval: u64, max_failures: u32) -> (out: Vec<ImuleNode>)
        ensures
            out@.map_values(|n: ImuleNode| n@) == first_by_key(
                keyed(self.nodes(), |st: NodeModel| hello_key(st, now, base_interval, max_failures)),
                max,
            ),
    {
        let p = Pick::Hello { now, base: base_interval, max_failures };
        let r = self.choose_nodes(p, max);
        assert((|st: NodeModel| pick_key(p, st)) =~= (|st: NodeModel| hello_key(st, now, base_interval, max_failures)));
        r
    }

    /// Up to `max` nodes to send bootstrap requests to.
    pub fn select_bootstrap_candidates(&self, max: usize, now: u64, base_interval: u64, recent_live_window: u64) -> (out: Vec<ImuleNode>)
        ensures
            out@.map_values(|n: ImuleNode| n@) == first_by_key(
                keyed(self.nodes(), |st: NodeModel| bootstrap_key(st, now, base_interval, recent_live_window)),
                max,
            ),
    {
        let p = Pick::Bootstrap { now, base: base_interval, window: recent_live_window };
        let r = self.choose_nodes(p, max);
        assert((|st: NodeModel| pick_key(p, st)) =~= (|st: NodeModel| bootstrap_key(st, now, base_interval, recent_live_window)));
        r
    }
}


/// A node that has failed at least `max_failures` times and was last seen
/// at least `max_age` ago.
pub open spec fn evictable(st: NodeModel, now: u64, max_failures: u32, max_age: u64) -> bool {
    st.failures >= max_failures && age(now, st.last_seen) >= max_age
}

/// The nodes that eviction keeps, in order.
pub open spec fn survivors(s: Seq<NodeModel>, now: u64, max_failures: u32, max_age: u64) -> Seq<NodeModel>
    decreases s.len(),
{
    if s.len() == 0 {
        Seq::empty()
    } else {
        let r = survivors(s.drop_last(), now, max_failures, max_age);
        if evictable(s.last(), now, max_failures, max_age) { r } else { r.push(s.last()) }
    }
}

/// The destinations of the nodes that eviction removes.
pub open spec fn evicted_dests(s: Seq<NodeModel>, now: u64, max_failures: u32, max_age: u64) -> Set<Seq<char>> {
    Set::new(|d: Seq<char>| exists|k: int| 0 <= k < s.len() && #[trigger] evictable(s[k], now, max_failures, max_age) && s[k].dest == d)
}

proof fn lemma_survivors_len(s: Seq<NodeModel>, now: u64, max_failures: u32, max_age: u64)
    ensures
        survivors(s, now, max_failures, max_age).len() <= s.len(),
    decreases s.len(),
{
    if s.len() > 0 {
        lemma_survivors_len(s.drop_last(), now, max_failures, max_age);
    }
}

impl RoutingTable {
    /// Removes every node that has failed at least `max_failures` times and
    /// was last seen at least `max_age` ago, with its destination entry;
    /// returns how many nodes were removed.
    pub fn evict(&mut self, now: u64, max_failures: u32, max_age: u64) -> (n: usize)
        requires
            old(self).wf(),
        ensures
            final(self).wf(),
            final(self).nodes() == survivors(old(self).nodes(), now, max_failures, max_age),
            final(self).by_dest_map() == old(self).by_dest_map().remove_keys(
                evicted_dests(old(self).nodes(), now, max_failures, max_age),
            ),
            n == old(self).nodes().len() - final(self).nodes().len(),
            final(self).me() == old(self).me(),
            final(self).activity() == old(self).activity(),
            final(self).refreshed() == old(self).refreshed(),
    {
        let ghost s0 = self.nodes();
        let ghost m0 = self.by_dest_map();
        let ghost me0 = self.me();
        let ghost a0 = self.activity();
        let ghost r0 = self.refreshed();
        let before = self.by_id.len();
        let mut i: usize = 0;
        let ghost mut j: int = 0;
        assert(s0.take(0) =~= Seq::<NodeModel>::empty());
        assert(s0.skip(0) =~= s0);
        assert(evicted_dests(s0.take(0), now, max_failures, max_age) =~= Set::<Seq<char>>::empty());
        assert(m0.remove_keys(Set::<Seq<char>>::empty()) =~= m0);
        while i < self.by_id.len()
            invariant
                self.wf(),
                self.me() == me0,
                self.activity() == a0,
                self.refreshed() == r0,
                0 <= j <= s0.len(),
                before == s0.len(),
                i == survivors(s0.take(j), now, max_failures, max_age).len(),
                self.nodes() == survivors(s0.take(j), now, max_failures, max_age) + s0.skip(j),
                self.by_dest_map() == m0.remove_keys(evicted_dests(s0.take(j), now, max_failures, max_age)),
            decreases s0.len() - j,
        {
            let ghost cur = self.nodes();
            let ghost sv = survivors(s0.take(j), now, max_failures, max_age);
            assert(j < s0.len());
            assert(cur[i as int] == s0[j]);
            assert(s0.take(j + 1).drop_last() =~= s0.take(j));
            assert(s0.take(j + 1).last() == s0[j]);
            assert(cur[i as int] == self.by_id@[i as int]@);
            if self.by_id[i].failures >= max_failures && now.saturating_sub(self.by_id[i].last_seen) >= max_age {
                let st = self.by_id.remove(i);
                proof {
                    assert(self.nodes() =~= cur.remove(i as int));
                    assert(self.nodes() =~= sv + s0.skip(j + 1));
                    let c = self.nodes();
                    assert forall|a: int, b: int| 0 <= a < b < c.len() implies bytes_lt(c[a].node.client_id, c[b].node.client_id) by {
                        if b < i {
                        } else if a < i {
                            assert(c[b] == cur[b + 1]);
                        } else {
                            assert(c[a] == cur[a + 1] && c[b] == cur[b + 1]);
                        }
                    }
                }
                self.unset_dest(&st.dest_b64);
                proof {
                    let e0 = evicted_dests(s0.take(j), now, max_failures, max_age);
                    let e1 = evicted_dests(s0.take(j + 1), now, max_failures, max_age);
                    assert(evictable(s0.take(j + 1)[j], now, max_failures, max_age));
                    assert(e1 =~= e0.insert(st@.dest)) by {
                        assert forall|d: Seq<char>| e1.contains(d) implies e0.insert(st@.dest).contains(d) by {
                            let k = choose|k: int| 0 <= k < j + 1 && #[trigger] evictable(s0.take(j + 1)[k], now, max_failures, max_age) && s0.take(j + 1)[k].dest == d;
                            if k < j {
                                assert(s0.take(j)[k] == s0.take(j + 1)[k]);
                            }
                        }
                        assert forall|d: Seq<char>| e0.contains(d) implies e1.contains(d) by {
                            let k = choose|k: int| 0 <= k < j && #[trigger] evictable(s0.take(j)[k], now, max_failures, max_age) && s0.take(j)[k].dest == d;
                            assert(s0.take(j)[k] == s0.take(j + 1)[k]);
                        }
                        assert(e1.contains(st@.dest));
                    }
                    assert(m0.remove_keys(e0).remove(st@.dest) =~= m0.remove_keys(e1));
                }
            } else {
                proof {
                    assert(sv.push(s0[j]) + s0.skip(j + 1) =~= cur);
                    let e0 = evicted_dests(s0.take(j), now, max_failures, max_age);
                    let e1 = evicted_dests(s0.take(j + 1), now, max_failures, max_age);
                    assert(e1 =~= e0) by {
                        assert forall|d: Seq<char>| e1.contains(d) implies e0.contains(d) by {
                            let k = choose|k: int| 0 <= k < j + 1 && #[trigger] evictable(s0.take(j + 1)[k], now, max_failures, max_age) && s0.take(j + 1)[k].dest == d;
                            assert(k != j);
                            assert(s0.take(j)[k] == s0.take(j + 1)[k]);
                        }
                        assert forall|d: Seq<char>| e0.contains(d) implies e1.contains(d) by {
                            let k = choose|k: int| 0 <= k < j && #[trigger] evictable(s0.take(j)[k], now, max_failures, max_age) && s0.take(j)[k].dest == d;
                            assert(s0.take(j)[k] == s0.take(j + 1)[k]);
                        }
                    }
                }
                i += 1;
            }
            proof {
                j = j + 1;
            }
        }
        proof {
            lemma_survivors_len(s0.take(j), now, max_failures, max_age);
            assert(j == s0.len());
            assert(s0.take(j) =~= s0);
            assert(self.nodes() =~= survivors(s0, now, max_failures, max_age));
        }
        before - self.by_id.len()
    }
}


proof fn lemma_lex_lt_irreflexive(a: Seq<u128>)
    ensures
        !lex_lt(a, a),
    decreases a.len(),
{
    if a.len() > 0 {
        lemma_lex_lt_irreflexive(a.drop_first());
    }
}

proof fn lemma_lex_lt_transitive(a: Seq<u128>, b: Seq<u128>, c: Seq<u128>)
    requires
        lex_lt(a, b),
        lex_lt(b, c),
    ensures
        lex_lt(a, c),
    decreases a.len(),
{
    if a.len() > 0 && b.len() > 0 && c.len() > 0 {
        if a[0] == b[0] && b[0] == c[0] {
            lemma_lex_lt_transitive(a.drop_first(), b.drop_first(), c.drop_first());
        }
    }
}

/// Where `insert_stable` puts `x`: after every key not greater than its own.
spec fn insert_pos<T>(s: Seq<(Seq<u128>, T)>, x: (Seq<u128>, T)) -> int
    decreases s.len(),
{
    if s.len() == 0 || lex_lt(x.0, s[0].0) {
        0
    } else {
        1 + insert_pos(s.drop_first(), x)
    }
}

proof fn lemma_insert_pos<T>(s: Seq<(Seq<u128>, T)>, x: (Seq<u128>, T))
    ensures
        0 <= insert_pos(s, x) <= s.len(),
        forall|q: int| 0 <= q < insert_pos(s, x) ==> !lex_lt(x.0, #[trigger] s[q].0),
        insert_pos(s, x) < s.len() ==> lex_lt(x.0, s[insert_pos(s, x)].0),
    decreases s.len(),
{
    if s.len() > 0 && !lex_lt(x.0, s[0].0) {
        let r = s.drop_first();
        lemma_insert_pos(r, x);
        assert forall|q: int| 0 <= q < insert_pos(s, x) implies !lex_lt(x.0, #[trigger] s[q].0) by {
            if q > 0 {
                assert(s[q] == r[q - 1]);
            }
        }
        if insert_pos(s, x) < s.len() {
            assert(s[insert_pos(s, x)] == r[insert_pos(r, x)]);
        }
    }
}

pub open spec fn key_sorted<T>(s: Seq<(Seq<u128>, T)>) -> bool {
    forall|i: int, j: int| 0 <= i < j < s.len() ==> !lex_lt(#[trigger] s[j].0, #[trigger] s[i].0)
}

pub proof fn lemma_stable_sort_props<T>(s: Seq<(Seq<u128>, T)>)
    ensures
        key_sorted(stable_sort(s)),
        stable_sort(s).to_multiset() == s.to_multiset(),
    decreases s.len(),
{
    broadcast use vstd::seq_lib::to_multiset_build, vstd::seq_lib::to_multiset_insert;
    if s.len() == 0 {
        assert(stable_sort(s) =~= s);
    } else {
        let p = stable_sort(s.drop_last());
        let x = s.last();
        lemma_stable_sort_props(s.drop_last());
        lemma_insert_pos(p, x);
        let k = insert_pos(p, x);
        lemma_insert_stable_at(p, x, k);
        let t = p.insert(k, x);
        assert(stable_sort(s) == t);
        assert(s.drop_last().push(x) =~= s);
        assert forall|i: int, j: int| 0 <= i < j < t.len() implies !lex_lt(#[trigger] t[j].0, #[trigger] t[i].0) by {
            if j < k {
            } else if j == k {
                assert(t[i] == p[i]);
            } else if i < k {
                assert(t[i] == p[i] && t[j] == p[j - 1]);
            } else if i == k {
                assert(t[j] == p[j - 1]);
                if lex_lt(p[j - 1].0, x.0) {
                    lemma_lex_lt_transitive(p[j - 1].0, x.0, p[k].0);
                    if j - 1 == k {
                        lemma_lex_lt_irreflexive(p[k].0);
                    }
                }
            } else {
                assert(t[i] == p[i - 1] && t[j] == p[j - 1]);
            }
        }
    }
}

/// Every selection of the table gives the first `max` of its candidates in
/// key order: the candidates are reordered (nothing added or lost) into
/// ascending key order, and at most `max` of them are taken from the front.
pub proof fn law_selection_in_key_order(c: Seq<(Seq<u128>, ImuleNodeView)>, max: usize)
    ensures
        stable_sort(c).to_multiset() == c.to_multiset(),
        key_sorted(stable_sort(c)),
        first_by_key(c, max).len() == if max < c.len() { max as int } else { c.len() as int },
        forall|i: int| 0 <= i < first_by_key(c, max).len() ==> #[trigger] first_by_key(c, max)[i] == stable_sort(c)[i].1,
{
    lemma_stable_sort_props(c);
    lemma_stable_sort_len(c);
}

/// Eviction removes exactly the evictable nodes: none of the survivors is
/// evictable, and every node that is not evictable survives.
pub proof fn law_evict_removes_exactly_the_evictable(s: Seq<NodeModel>, now: u64, max_failures: u32, max_age: u64)
    ensures
        forall|i: int| 0 <= i < survivors(s, now, max_failures, max_age).len()
            ==> !evictable(#[trigger] survivors(s, now, max_failures, max_age)[i], now, max_failures, max_age),
        forall|k: int| 0 <= k < s.len() && !evictable(#[trigger] s[k], now, max_failures, max_age)
            ==> survivors(s, now, max_failures, max_age).contains(s[k]),
    decreases s.len(),
{
    if s.len() > 0 {
        let p = s.drop_last();
        law_evict_removes_exactly_the_evictable(p, now, max_failures, max_age);
        let r = survivors(p, now, max_failures, max_age);
        assert forall|k: int| 0 <= k < s.len() && !evictable(#[trigger] s[k], now, max_failures, max_age)
            implies survivors(s, now, max_failures, max_age).contains(s[k]) by {
            if k < s.len() - 1 {
                assert(p[k] == s[k]);
                let w = choose|w: int| 0 <= w < r.len() && r[w] == p[k];
                if !evictable(s.last(), now, max_failures, max_age) {
                    assert(r.push(s.last())[w] == s[k]);
                }
            } else {
                assert(r.push(s.last())[r.len() as int] == s[k]);
            }
        }
    }
}

/// Verification is never lost and never made up by `upsert`: a node that was
/// verified stays verified, and a node comes out verified only if it was
/// verified before or the sighting was.
pub proof fn law_upsert_keeps_verification(a: RoutingTable, b: RoutingTable, n: ImuleNodeView, now: u64,
    r: UpsertOutcome, id: Seq<u8>)
    requires
        upsert_effect(a, b, n, now, r),
    ensures
        a.by_id_map().dom().contains(id) && a.by_id_map()[id].node.verified
            ==> b.by_id_map().dom().contains(id) && b.by_id_map()[id].node.verified,
        b.by_id_map().dom().contains(id) && b.by_id_map()[id].node.verified
            ==> (a.by_id_map().dom().contains(id) && a.by_id_map()[id].node.verified)
                || (id == n.client_id && n.verified),
{
    reveal(upsert_effect);
}

/// Three failures make a peer unreliable, whatever else is known of it; an
/// unverified peer below that is unknown; stable and verified peers are
/// verified ones below it.
pub proof fn law_health_classes(st: NodeModel, now: u64)
    ensures
        st.failures >= UNRELIABLE_FAILURE_THRESHOLD ==> health_spec(st, now) == PeerHealthClass::Unreliable,
        health_spec(st, now) == PeerHealthClass::Unreliable ==> st.failures >= UNRELIABLE_FAILURE_THRESHOLD,
        st.failures < UNRELIABLE_FAILURE_THRESHOLD && !st.node.verified
            ==> health_spec(st, now) == PeerHealthClass::Unknown,
        health_spec(st, now) == PeerHealthClass::Stable || health_spec(st, now) == PeerHealthClass::Verified
            ==> st.node.verified && st.failures < UNRELIABLE_FAILURE_THRESHOLD,
        health_spec(st, now) == PeerHealthClass::Stable ==> st.failures == 0,
{
}

} // verus!
