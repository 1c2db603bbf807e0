//! Which missing experts are read ahead in the background.

use vstd::prelude::*;
use std::collections::{HashMap, HashSet};
use crate::pool;
use crate::pool::key_of;

verus! {

broadcast use vstd::std_specs::hash::group_hash_axioms;

/// Reads that may be in flight or wait for admission.
pub const PREFETCH_INFLIGHT_MAX: usize = 64;

/// State of the read-ahead.
#[verifier::ext_equal]
pub struct PrefetchState {
    /// Misses of each expert so far.
    pub touches: Map<u64, u8>,
    /// Experts that are queued, or read and not admitted.
    pub pending: Set<u64>,
    /// Misses before an expert is read ahead.
    pub min_touch: u8,
    pub queued: u64,
    pub admitted: u64,
    pub dropped_full: u64,
    pub admit_ns: u64,
}

impl PrefetchState {
    pub open spec fn wf(self) -> bool {
        self.pending.finite() && self.pending.len() <= PREFETCH_INFLIGHT_MAX
    }

    /// Misses of an expert, this one included.
    pub open spec fn next_touch(self, k: u64) -> u8 {
        let t = if self.touches.contains_key(k) { self.touches[k] } else { 0 };
        if t == 255 { 255 } else { (t + 1) as u8 }
    }

    /// The state after a hint, and whether the expert is to be read ahead.
    pub open spec fn hinted(self, resident: bool, k: u64) -> (PrefetchState, bool) {
        if resident || self.pending.contains(k) {
            (self, false)
        } else {
            let s = PrefetchState { touches: self.touches.insert(k, self.next_touch(k)), ..self };
            if self.next_touch(k) < self.min_touch {
                (s, false)
            } else if self.pending.len() >= PREFETCH_INFLIGHT_MAX {
                (PrefetchState { dropped_full: self.dropped_full.wrapping_add(1), ..s }, false)
            } else {
                (
                    PrefetchState {
                        pending: self.pending.insert(k),
                        queued: self.queued.wrapping_add(1),
                        ..s
                    },
                    true,
                )
            }
        }
    }
}

/// The read-ahead's bookkeeping.
pub struct Prefetcher {
    touches: HashMap<u64, u8>,
    pending: HashSet<u64>,
    min_touch: u8,
    queued: u64,
    admitted: u64,
    dropped_full: u64,
    admit_ns: u64,
}

impl View for Prefetcher {
    type V = PrefetchState;

    closed spec fn view(&self) -> PrefetchState {
        PrefetchState {
            touches: self.touches@,
            pending: self.pending@,
            min_touch: self.min_touch,
            queued: self.queued,
            admitted: self.admitted,
            dropped_full: self.dropped_full,
            admit_ns: self.admit_ns,
        }
    }
}

impl Prefetcher {
    /// Nothing queued; an expert is read ahead at its miss number `min_touch`.
    pub fn new(min_touch: u8) -> (r: Self)
        ensures
            r@.wf(),
            r@ == (PrefetchState {
                touches: Map::empty(),
                pending: Set::empty(),
                min_touch,
                queued: 0,
                admitted: 0,
                dropped_full: 0,
                admit_ns: 0,
            }),
    {
        Prefetcher {
            touches: HashMap::new(),
            pending: HashSet::new(),
            min_touch,
            queued: 0,
            admitted: 0,
            dropped_full: 0,
            admit_ns: 0,
        }
    }

    /// Takes note of a miss of expert `id` of `layer`. Returns whether to queue
    /// its read.
    pub fn hint(&mut self, resident: bool, layer: i32, id: u32) -> (r: bool)
        requires
            old(self)@.wf(),
        ensures
            final(self)@.wf(),
            (final(self)@, r) == old(self)@.hinted(resident, pool::expert_key(layer, id)),
    {
        let k: u64 = key_of(layer, id);
        if resident || self.pending.contains(&k) {
            return false;
        }
        let before: u8 = match self.touches.get(&k) {
            Some(t) => *t,
            None => 0,
        };
        let t: u8 = if before == 255 { 255 } else { before + 1 };
        self.touches.insert(k, t);
        if t < self.min_touch {
            return false;
        }
        if self.pending.len() >= PREFETCH_INFLIGHT_MAX {
            self.dropped_full = self.dropped_full.wrapping_add(1);
            return false;
        }
        self.pending.insert(k);
        self.queued = self.queued.wrapping_add(1);
        true
    }

    /// Takes note that the read of an expert has come back.
    pub fn arrived(&mut self, layer: i32, id: u32)
        requires
            old(self)@.wf(),
        ensures
            final(self)@.wf(),
            final(self)@ == (PrefetchState {
                pending: old(self)@.pending.remove(pool::expert_key(layer, id)),
                ..old(self)@
            }),
    {
        let k: u64 = key_of(layer, id);
        let _was: bool = self.pending.remove(&k);
        assert(self@.pending =~= old(self)@.pending.remove(k));
    }

    /// Adds `n` admissions that took `ns` nanoseconds.
    pub fn note_admitted(&mut self, n: usize, ns: u64)
        ensures
            final(self)@ == (PrefetchState {
                admitted: old(self)@.admitted.wrapping_add(n as u64),
                admit_ns: old(self)@.admit_ns.wrapping_add(ns),
                ..old(self)@
            }),
    {
        self.admitted = self.admitted.wrapping_add(n as u64);
        self.admit_ns = self.admit_ns.wrapping_add(ns);
    }

    /// Reads queued, experts admitted, hints dropped because too much was in
    /// flight, and milliseconds spent on admission.
    pub fn prefetch_stats(&self) -> (r: (u64, u64, u64, u64))
        ensures
            r == (
                self@.queued,
                self@.admitted,
                self@.dropped_full,
                (self@.admit_ns / 1_000_000) as u64,
            ),
    {
        (self.queued, self.admitted, self.dropped_full, self.admit_ns / 1_000_000)
    }
}

/// An expert is not queued a second time before its read has come back.
pub proof fn a_pending_expert_is_not_queued_again(s: PrefetchState, k: u64)
    requires
        s.pending.contains(k),
    ensures
        s.hinted(false, k) == (s, false),
{
}

/// An expert is queued at the earliest at its miss number `min_touch`.
pub proof fn a_rare_expert_is_not_queued(s: PrefetchState, k: u64)
    requires
        s.next_touch(k) < s.min_touch,
    ensures
        !s.hinted(false, k).1,
        s.hinted(false, k).0.pending == s.pending,
{
}

} // verus!
