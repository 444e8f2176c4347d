//! Rolling byte counters over 5 and 30 second windows.
//!
//! Times are nanoseconds on one monotonic clock (see `text::nanos_since`); a sample's
//! age is `now - at`, or zero for samples stamped after `now`.

use vstd::prelude::*;
use crate::text::{monotonic_now, nanos_since};

verus! {

pub const WINDOW_5S_NANOS: u64 = 5_000_000_000;
pub const WINDOW_30S_NANOS: u64 = 30_000_000_000;

#[derive(Debug, Clone, Copy, PartialEq, Eq, Structural)]
pub struct TransferRateSnapshot {
    pub rate_bps_5s: u64,
    pub rate_bps_30s: u64,
}

impl Default for TransferRateSnapshot {
    fn default() -> (r: Self)
        ensures
            r.rate_bps_5s == 0 && r.rate_bps_30s == 0,
    {
        TransferRateSnapshot { rate_bps_5s: 0, rate_bps_30s: 0 }
    }
}

/// A byte count observed at a time.
#[derive(Debug, Clone, Copy)]
pub struct ByteSample {
    pub at: u64,
    pub bytes: u64,
}

#[derive(Debug, Clone)]
pub struct RollingTransferRate {
    samples: Vec<ByteSample>,
    /// Where this rate's own clock readings count from.
    origin: std::time::Instant,
}

pub open spec fn age(now: u64, at: u64) -> int {
    if now >= at {
        now - at
    } else {
        0
    }
}

/// Drops samples from the front while they are older than 30 seconds.
pub open spec fn prune_spec(s: Seq<(u64, u64)>, now: u64) -> Seq<(u64, u64)>
    decreases s.len(),
{
    if s.len() > 0 && age(now, s[0].0) > WINDOW_30S_NANOS {
        prune_spec(s.drop_first(), now)
    } else {
        s
    }
}

/// Bytes of the samples at most `window` old.
pub open spec fn window_bytes(s: Seq<(u64, u64)>, now: u64, window: u64) -> int
    decreases s.len(),
{
    if s.len() == 0 {
        0
    } else {
        window_bytes(s.drop_last(), now, window) + if age(now, s.last().0) <= window {
            s.last().1 as int
        } else {
            0
        }
    }
}

/// Bytes per second over the window, saturating at `u64::MAX`.
pub open spec fn window_rate(s: Seq<(u64, u64)>, now: u64, window: u64) -> u64 {
    let r = window_bytes(s, now, window) / (window / 1_000_000_000) as int;
    if r > u64::MAX {
        u64::MAX
    } else {
        r as u64
    }
}

impl RollingTransferRate {
    /// The samples kept, oldest first, as (time, bytes).
    pub closed spec fn samples(&self) -> Seq<(u64, u64)> {
        self.samples@.map_values(|x: ByteSample| (x.at, x.bytes))
    }

    pub fn new() -> (r: Self)
        ensures
            r.samples() == Seq::<(u64, u64)>::empty(),
    {
        let r = RollingTransferRate { samples: Vec::new(), origin: monotonic_now() };
        assert(r.samples() =~= Seq::<(u64, u64)>::empty());
        r
    }

    /// Records `bytes` (nothing for zero) at the current clock time.
    pub fn note_bytes(&mut self, bytes: u64)
        ensures
            bytes == 0 ==> final(self).samples() == old(self).samples(),
            bytes != 0 ==> exists|t: u64| final(self).samples() == prune_spec(old(self).samples().push((t, bytes)), t),
    {
        let now = nanos_since(&self.origin);
        self.note_bytes_at(now, bytes);
    }

    /// Records `bytes` (nothing for zero) observed at `at`, then drops what
    /// is older than 30 seconds at `at`.
    pub fn note_bytes_at(&mut self, at: u64, bytes: u64)
        ensures
            bytes == 0 ==> final(self).samples() == old(self).samples(),
            bytes != 0 ==> final(self).samples() == prune_spec(old(self).samples().push((at, bytes)), at),
    {
        if bytes == 0 {
            return;
        }
        let ghost before = self.samples@;
        self.samples.push(ByteSample { at, bytes });
        assert(self.samples() =~= before.map_values(|x: ByteSample| (x.at, x.bytes)).push((at, bytes)));
        self.prune(at);
    }

    /// The rates at the current clock time.
    pub fn snapshot(&mut self) -> (r: TransferRateSnapshot)
        ensures
            exists|t: u64| ({
                &&& final(self).samples() == prune_spec(old(self).samples(), t)
                &&& r.rate_bps_5s == window_rate(final(self).samples(), t, WINDOW_5S_NANOS)
                &&& r.rate_bps_30s == window_rate(final(self).samples(), t, WINDOW_30S_NANOS)
            }),
    {
        let now = nanos_since(&self.origin);
        self.snapshot_at(now)
    }

    /// Drops samples older than 30 seconds at `now`, then reports bytes per
    /// second over the last 5 and 30 seconds.
    pub fn snapshot_at(&mut self, now: u64) -> (r: TransferRateSnapshot)
        ensures
            final(self).samples() == prune_spec(old(self).samples(), now),
            r.rate_bps_5s == window_rate(final(self).samples(), now, WINDOW_5S_NANOS),
            r.rate_bps_30s == window_rate(final(self).samples(), now, WINDOW_30S_NANOS),
    {
        self.prune(now);
        TransferRateSnapshot {
            rate_bps_5s: rate_for_window(&self.samples, now, WINDOW_5S_NANOS),
            rate_bps_30s: rate_for_window(&self.samples, now, WINDOW_30S_NANOS),
        }
    }

    fn prune(&mut self, now: u64)
        ensures
            final(self).samples() == prune_spec(old(self).samples(), now),
    {
        let ghost s0 = self.samples();
        let mut k: usize = 0;
        assert(s0.subrange(0, s0.len() as int) =~= s0);
        while k < self.samples.len()
            invariant
                k <= self.samples@.len(),
                self.samples() == s0,
                s0.len() == self.samples@.len(),
                prune_spec(s0, now) == prune_spec(s0.subrange(k as int, s0.len() as int), now),
            ensures
                k <= self.samples@.len(),
                self.samples() == s0,
                prune_spec(s0, now) == s0.subrange(k as int, s0.len() as int),
            decreases self.samples@.len() - k,
        {
            let at = self.samples[k].at;
            let old_enough = if now >= at { now - at > WINDOW_30S_NANOS } else { false };
            proof {
                let rest = s0.subrange(k as int, s0.len() as int);
                assert(rest[0] == s0[k as int]);
                assert(rest.drop_first() =~= s0.subrange(k + 1, s0.len() as int));
            }
            if !old_enough {
                break;
            }
            k += 1;
            proof {
                if k == s0.len() {
                    assert(s0.subrange(k as int, s0.len() as int) =~= Seq::<(u64, u64)>::empty());
                }
            }
        }
        let kept = self.samples.split_off(k);
        self.samples = kept;
        proof {
            assert(self.samples() =~= s0.subrange(k as int, s0.len() as int));
        }
    }
}

impl Default for RollingTransferRate {
    fn default() -> (r: Self)
        ensures
            r.samples() == Seq::<(u64, u64)>::empty(),
    {
        Self::new()
    }
}

fn rate_for_window(samples: &Vec<ByteSample>, now: u64, window: u64) -> (r: u64)
    requires
        window == WINDOW_5S_NANOS || window == WINDOW_30S_NANOS,
    ensures
        r == window_rate(samples@.map_values(|x: ByteSample| (x.at, x.bytes)), now, window),
{
    let ghost s = samples@.map_values(|x: ByteSample| (x.at, x.bytes));
    let mut total: u128 = 0;
    let mut i: usize = 0;
    while i < samples.len()
        invariant
            i <= samples@.len(),
            s == samples@.map_values(|x: ByteSample| (x.at, x.bytes)),
            total == window_bytes(s.subrange(0, i as int), now, window),
            total <= i * 0x1_0000_0000_0000_0000,
        decreases samples@.len() - i,
    {
        let x = samples[i];
        proof {
            assert(s.subrange(0, i + 1).drop_last() =~= s.subrange(0, i as int));
        }
        let a: u64 = if now >= x.at { now - x.at } else { 0 };
        if a <= window {
            total = total + x.bytes as u128;
        }
        i += 1;
    }
    assert(s.subrange(0, samples@.len() as int) =~= s);
    let secs: u128 = (window / 1_000_000_000) as u128;
    let q = total / secs;
    if q > 0xFFFF_FFFF_FFFF_FFFF {
        u64::MAX
    } else {
        q as u64
    }
}

} // verus!
