//! Mathematical model of the expert pool and of every step on it.

use vstd::prelude::*;
use crate::config::N_EXPERT;
use crate::windows::WindowLayout;

verus! {

/// One number for an expert of a layer.
pub open spec fn expert_key(layer: i32, e: u32) -> u64 {
    (((layer as u32) as u64) << 32u64) | (e as u64)
}

/// Layer of a key.
pub open spec fn key_layer(k: u64) -> i32 {
    ((k >> 32u64) as u32) as i32
}

/// Expert of a key.
pub open spec fn key_expert(k: u64) -> u32 {
    (k & 0xffff_ffffu64) as u32
}

/// A key holds the layer and the expert that it was made of, and so two experts
/// never share one.
pub proof fn expert_key_round_trip(layer: i32, e: u32)
    ensures
        key_layer(expert_key(layer, e)) == layer,
        key_expert(expert_key(layer, e)) == e,
{
    let k = expert_key(layer, e);
    assert(((((((layer as u32) as u64) << 32u64) | (e as u64)) >> 32u64) as u32) as i32 == layer)
        by (bit_vector);
    assert((((((layer as u32) as u64) << 32u64) | (e as u64)) & 0xffff_ffffu64) as u32 == e)
        by (bit_vector);
}

/// The key of an expert of a layer.
pub fn key_of(layer: i32, e: u32) -> (k: u64)
    ensures
        k == expert_key(layer, e),
{
    (((layer as u32) as u64) << 32u64) | (e as u64)
}

/// Counters of the paging work, by phase.
#[derive(Debug, Clone, Copy, PartialEq, Eq, Structural)]
pub struct PagerCounters {
    pub prefill_requests: u64,
    pub prefill_misses: u64,
    pub prefill_read_ns: u64,
    pub prefill_h2d_ns: u64,
    pub decode_requests: u64,
    pub decode_misses: u64,
    pub decode_read_ns: u64,
    pub decode_h2d_ns: u64,
    pub decode_alloc_ns: u64,
    pub decode_pread_ns: u64,
    pub decode_repack_ns: u64,
    pub decode_pread_bytes: u64,
}

impl PagerCounters {
    /// No counter is below that of an earlier snapshot.
    pub open spec fn not_before(self, o: PagerCounters) -> bool {
        &&& self.prefill_requests >= o.prefill_requests
        &&& self.prefill_misses >= o.prefill_misses
        &&& self.prefill_read_ns >= o.prefill_read_ns
        &&& self.prefill_h2d_ns >= o.prefill_h2d_ns
        &&& self.decode_requests >= o.decode_requests
        &&& self.decode_misses >= o.decode_misses
        &&& self.decode_read_ns >= o.decode_read_ns
        &&& self.decode_h2d_ns >= o.decode_h2d_ns
        &&& self.decode_alloc_ns >= o.decode_alloc_ns
        &&& self.decode_pread_ns >= o.decode_pread_ns
        &&& self.decode_repack_ns >= o.decode_repack_ns
        &&& self.decode_pread_bytes >= o.decode_pread_bytes
    }
}

impl Default for PagerCounters {
    /// Nothing was counted.
    fn default() -> (r: Self)
        ensures
            r.prefill_requests == 0,
            r.prefill_misses == 0,
            r.prefill_read_ns == 0,
            r.prefill_h2d_ns == 0,
            r.decode_requests == 0,
            r.decode_misses == 0,
            r.decode_read_ns == 0,
            r.decode_h2d_ns == 0,
            r.decode_alloc_ns == 0,
            r.decode_pread_ns == 0,
            r.decode_repack_ns == 0,
            r.decode_pread_bytes == 0,
    {
        PagerCounters {
            prefill_requests: 0,
            prefill_misses: 0,
            prefill_read_ns: 0,
            prefill_h2d_ns: 0,
            decode_requests: 0,
            decode_misses: 0,
            decode_read_ns: 0,
            decode_h2d_ns: 0,
            decode_alloc_ns: 0,
            decode_pread_ns: 0,
            decode_repack_ns: 0,
            decode_pread_bytes: 0,
        }
    }
}

/// What was counted since an earlier snapshot.
impl core::ops::Sub for PagerCounters {
    type Output = PagerCounters;

    fn sub(self, o: PagerCounters) -> PagerCounters {
        PagerCounters {
            prefill_requests: self.prefill_requests - o.prefill_requests,
            prefill_misses: self.prefill_misses - o.prefill_misses,
            prefill_read_ns: self.prefill_read_ns - o.prefill_read_ns,
            prefill_h2d_ns: self.prefill_h2d_ns - o.prefill_h2d_ns,
            decode_requests: self.decode_requests - o.decode_requests,
            decode_misses: self.decode_misses - o.decode_misses,
            decode_read_ns: self.decode_read_ns - o.decode_read_ns,
            decode_h2d_ns: self.decode_h2d_ns - o.decode_h2d_ns,
            decode_alloc_ns: self.decode_alloc_ns - o.decode_alloc_ns,
            decode_pread_ns: self.decode_pread_ns - o.decode_pread_ns,
            decode_repack_ns: self.decode_repack_ns - o.decode_repack_ns,
            decode_pread_bytes: self.decode_pread_bytes - o.decode_pread_bytes,
        }
    }
}

impl vstd::std_specs::ops::SubSpecImpl for PagerCounters {
    open spec fn obeys_sub_spec() -> bool {
        true
    }

    open spec fn sub_req(self, o: PagerCounters) -> bool {
        self.not_before(o)
    }

    open spec fn sub_spec(self, o: PagerCounters) -> PagerCounters {
        PagerCounters {
            prefill_requests: (self.prefill_requests - o.prefill_requests) as u64,
            prefill_misses: (self.prefill_misses - o.prefill_misses) as u64,
            prefill_read_ns: (self.prefill_read_ns - o.prefill_read_ns) as u64,
            prefill_h2d_ns: (self.prefill_h2d_ns - o.prefill_h2d_ns) as u64,
            decode_requests: (self.decode_requests - o.decode_requests) as u64,
            decode_misses: (self.decode_misses - o.decode_misses) as u64,
            decode_read_ns: (self.decode_read_ns - o.decode_read_ns) as u64,
            decode_h2d_ns: (self.decode_h2d_ns - o.decode_h2d_ns) as u64,
            decode_alloc_ns: (self.decode_alloc_ns - o.decode_alloc_ns) as u64,
            decode_pread_ns: (self.decode_pread_ns - o.decode_pread_ns) as u64,
            decode_repack_ns: (self.decode_repack_ns - o.decode_repack_ns) as u64,
            decode_pread_bytes: (self.decode_pread_bytes - o.decode_pread_bytes) as u64,
        }
    }
}

/// State of the pool.
#[verifier::ext_equal]
pub struct PoolState {
    pub layout: WindowLayout,
    /// Slot of each resident expert.
    pub slot_of: Map<u64, u32>,
    /// Expert that each slot holds.
    pub slot_key: Seq<Option<u64>>,
    /// Slots in the order of their last use, the oldest first.
    pub lru: Seq<u32>,
    /// Slot of each expert of the current layer as the kernels read it: `-slot - 1`
    /// for an expert of this device, 0 or above for another device's.
    pub remap: Seq<i32>,
    pub cur_layer: i32,
    /// Layer that each window holds.
    pub window_layer: Seq<Option<i32>>,
    /// Windows that hold every expert of their layer.
    pub window_dense: Seq<bool>,
    /// Slots that a miss may take while set.
    pub scan_window: Option<(usize, usize)>,
    pub count_as_prefill: bool,
    pub counters: PagerCounters,
    /// Requests for a union of experts, and the sum, the largest and the smallest
    /// of their sizes.
    pub union_calls: u64,
    pub union_sum: u64,
    pub union_max: u32,
    pub union_min: u32,
    /// Requests by union size, in buckets of 64; the last holds everything above.
    pub union_hist: Seq<u64>,
    /// Misses of each expert of each layer, where they are recorded.
    pub miss_hist: Option<Seq<u32>>,
    /// Experts that the staging buffers hold.
    pub read_batch: usize,
}

/// First free slot of `lo..hi`.
pub open spec fn first_free(keys: Seq<Option<u64>>, lo: int, hi: int) -> Option<int>
    decreases hi - lo,
{
    if lo >= hi {
        None
    } else if keys[lo] is None {
        Some(lo)
    } else {
        first_free(keys, lo + 1, hi)
    }
}

/// Position, at or after `i`, of `slot`.
pub open spec fn position_of(lru: Seq<u32>, slot: u32, i: int) -> Option<int>
    decreases lru.len() - i,
{
    if i >= lru.len() {
        None
    } else if lru[i] == slot {
        Some(i)
    } else {
        position_of(lru, slot, i + 1)
    }
}

/// The order of use without `slot`.
pub open spec fn without(lru: Seq<u32>, slot: u32) -> Seq<u32> {
    match position_of(lru, slot, 0) {
        Some(p) => lru.remove(p),
        None => lru,
    }
}

/// Number of distinct experts of the model in `ids`.
pub open spec fn distinct_experts(ids: Seq<u32>) -> nat
    decreases ids.len(),
{
    if ids.len() == 0 {
        0
    } else {
        let n = distinct_experts(ids.drop_last());
        if ids.last() < N_EXPERT && !ids.drop_last().contains(ids.last()) {
            n + 1
        } else {
            n
        }
    }
}

/// Free slots of `lo..hi` in ascending order.
pub open spec fn free_slots(keys: Seq<Option<u64>>, lo: int, hi: int) -> Seq<int>
    decreases hi - lo,
{
    if lo >= hi {
        Seq::empty()
    } else if keys[lo] is None {
        seq![lo] + free_slots(keys, lo + 1, hi)
    } else {
        free_slots(keys, lo + 1, hi)
    }
}

/// No slot stands twice in the order of use.
pub open spec fn no_dup(lru: Seq<u32>) -> bool {
    forall|i: int, j: int| 0 <= i < j < lru.len() ==> lru[i] != lru[j]
}

/// The remap entry of a slot of this device.
pub open spec fn own(slot: int) -> i32 {
    (-slot - 1) as i32
}

impl PoolState {
    /// What every operation keeps: an expert's slot holds that expert, slots lie
    /// in the pool, and no slot stands twice in the order of use.
    pub open spec fn wf(self) -> bool {
        &&& self.layout.wf()
        &&& self.slot_key.len() == self.layout.n_slots
        &&& self.remap.len() == N_EXPERT
        &&& self.window_layer.len() == self.window_dense.len()
        &&& self.window_layer.len() >= self.layout.dense_windows
        &&& forall|k: u64| #[trigger]
            self.slot_of.contains_key(k) ==> {
                &&& self.slot_of[k] < self.layout.n_slots
                &&& self.slot_key[self.slot_of[k] as int] == Some(k)
            }
        &&& forall|i: int| 0 <= i < self.lru.len() ==> #[trigger] self.lru[i] < self.layout.n_slots
        &&& no_dup(self.lru)
        &&& self.union_hist.len() == 6
        &&& self.miss_hist matches Some(h) ==> h.len() == 15360
    }

    /// Slot number `e` of window `w` holds expert `e` of `layer`.
    pub open spec fn in_place(self, w: int, layer: i32, e: u32) -> bool {
        self.slot_key[self.layout.base(w) + e] == Some(expert_key(layer, e))
    }

    /// Window `w` holds every expert of the layer that it stands for, expert `e`
    /// in its slot number `e`.
    pub open spec fn complete(self, w: int) -> bool {
        self.window_layer[w] matches Some(layer) ==> {
            &&& self.layout.width(w) == N_EXPERT
            &&& self.layout.base(w) + N_EXPERT <= self.layout.n_slots
            &&& forall|e: u32| e < N_EXPERT ==> #[trigger] self.in_place(w, layer, e)
        }
    }

    /// Every window that is flagged as holding its whole layer does.
    pub open spec fn dense_windows_faithful(self) -> bool {
        forall|w: int|
            0 <= w < self.layout.dense_windows && #[trigger] self.window_dense[w] ==> self.complete(w)
    }

    /// Slots that a miss of `ensure` may take.
    pub open spec fn alloc_range(self) -> (int, int) {
        let n = self.layout.n_slots as int;
        match self.scan_window {
            Some((lo, hi)) if lo < hi && lo < n => (
                lo as int,
                if hi < n { hi as int } else { n },
            ),
            _ => (self.layout.lru_floor(), n),
        }
    }

    pub open spec fn counted_request(self) -> PoolState {
        let c = self.counters;
        PoolState {
            counters: if self.count_as_prefill {
                PagerCounters { prefill_requests: c.prefill_requests.wrapping_add(1), ..c }
            } else {
                PagerCounters { decode_requests: c.decode_requests.wrapping_add(1), ..c }
            },
            ..self
        }
    }

    /// Index of an expert of a layer in the miss histogram; layers outside of
    /// the model count as the nearest one.
    pub open spec fn hist_index(layer: i32, e: u32) -> int {
        (if layer < 0 { 0 } else if layer > 39 { 39 } else { layer as int }) * N_EXPERT + e
    }

    pub open spec fn counted_miss(self, layer: i32, e: u32) -> PoolState {
        let c = self.counters;
        PoolState {
            counters: if self.count_as_prefill {
                PagerCounters { prefill_misses: c.prefill_misses.wrapping_add(1), ..c }
            } else {
                PagerCounters { decode_misses: c.decode_misses.wrapping_add(1), ..c }
            },
            miss_hist: match self.miss_hist {
                Some(h) => Some(
                    h.update(
                        Self::hist_index(layer, e),
                        h[Self::hist_index(layer, e)].wrapping_add(1),
                    ),
                ),
                None => None,
            },
            ..self
        }
    }

    /// `slot` becomes the most recently used one.
    pub open spec fn touched(self, slot: u32) -> PoolState {
        PoolState { lru: without(self.lru, slot).push(slot), ..self }
    }

    /// A request for an expert that is resident.
    pub open spec fn hit(self, layer: i32, e: u32) -> PoolState {
        let slot = self.slot_of[expert_key(layer, e)];
        let s = self.counted_request().touched(slot);
        PoolState { remap: s.remap.update(e as int, own(slot as int)), ..s }
    }

    /// One of the experts `kept` of `layer` is resident in `slot`.
    pub open spec fn keeps(self, layer: i32, kept: Seq<u32>, slot: u32) -> bool {
        exists|j: int|
            0 <= j < kept.len() && self.sits(expert_key(layer, #[trigger] kept[j]), slot)
    }

    /// The expert with key `k` is resident in `slot`.
    pub open spec fn sits(self, k: u64, slot: u32) -> bool {
        self.slot_of.contains_key(k) && self.slot_of[k] == slot
    }

    /// Position, at or after `i`, of the least recently used slot of `lo..hi` where
    /// none of the experts `kept` of `layer` is resident.
    pub open spec fn first_evictable(self, layer: i32, kept: Seq<u32>, lo: int, hi: int, i: int) -> Option<int>
        decreases self.lru.len() - i,
    {
        if i >= self.lru.len() {
            None
        } else if lo <= self.lru[i] < hi && !self.keeps(layer, kept, self.lru[i]) {
            Some(i)
        } else {
            self.first_evictable(layer, kept, lo, hi, i + 1)
        }
    }

    /// Slot that a miss takes: the first free one of the range, else the least
    /// recently used one where none of the experts `kept` of `layer` is resident.
    pub open spec fn miss_slot(self, layer: i32, kept: Seq<u32>, lo: int, hi: int) -> Option<u32> {
        match first_free(self.slot_key, lo, hi) {
            Some(i) => Some(i as u32),
            None => match self.first_evictable(layer, kept, lo, hi, 0) {
                Some(p) => Some(self.lru[p]),
                None => None,
            },
        }
    }

    /// `slot` is made free. The expert that is resident in it, if any, leaves the
    /// pool; one that the slot holds an old copy of stays where it is resident.
    pub open spec fn vacated(self, slot: u32) -> PoolState {
        match self.slot_key[slot as int] {
            Some(k) => PoolState {
                slot_of: if self.sits(k, slot) { self.slot_of.remove(k) } else { self.slot_of },
                slot_key: self.slot_key.update(slot as int, None),
                ..self
            },
            None => self,
        }
    }

    /// The window that `slot` lies in no longer stands for a layer.
    pub open spec fn window_invalidated(self, slot: u32) -> PoolState {
        if slot < self.layout.dense_end() {
            let w = self.layout.slot_window(slot as int);
            PoolState {
                window_layer: self.window_layer.update(w, None),
                window_dense: self.window_dense.update(w, false),
                ..self
            }
        } else {
            self
        }
    }

    /// `slot` is made ready for another expert: a free one as it is, a used one
    /// after its expert has left.
    pub open spec fn allocated(self, slot: u32) -> PoolState {
        let s = if self.slot_key[slot as int] is Some {
            let v = self.vacated(slot);
            PoolState { lru: without(v.lru, slot), ..v }
        } else {
            self
        };
        s.window_invalidated(slot)
    }

    /// Expert `e` of `layer` has been read into `slot`.
    pub open spec fn paged_in(self, layer: i32, e: u32, slot: u32) -> PoolState {
        let k = expert_key(layer, e);
        let s = PoolState {
            slot_of: self.slot_of.insert(k, slot),
            slot_key: self.slot_key.update(slot as int, Some(k)),
            ..self
        }.touched(slot);
        PoolState { remap: s.remap.update(e as int, own(slot as int)), ..s }
    }

    /// Each of `ids[..n]` of `layer` is resident, in the slot that the remap names.
    pub open spec fn serves(self, layer: i32, ids: Seq<u32>, n: int) -> bool {
        forall|j: int| #![trigger ids[j]]
            0 <= j < n ==> {
                let k = expert_key(layer, ids[j]);
                &&& self.slot_of.contains_key(k)
                &&& self.slot_of[k] < self.layout.n_slots
                &&& self.slot_key[self.slot_of[k] as int] == Some(k)
                &&& self.remap[ids[j] as int] == own(self.slot_of[k] as int)
            }
    }

    /// Each of `ids` of `layer` is resident in a slot of its own, which the remap
    /// names.
    pub open spec fn settles(self, layer: i32, ids: Seq<u32>) -> bool {
        &&& self.serves(layer, ids, ids.len() as int)
        &&& forall|i: int, j: int| #![trigger ids[i], ids[j]]
            0 <= i < ids.len() && 0 <= j < ids.len() && ids[i] != ids[j] ==> self.slot_of[expert_key(
                layer,
                ids[i],
            )] != self.slot_of[expert_key(layer, ids[j])]
    }

    /// The pool without any expert. No window stands for a layer.
    pub open spec fn emptied(self) -> PoolState {
        PoolState {
            slot_of: Map::empty(),
            slot_key: Seq::new(self.slot_key.len(), |i: int| None::<u64>),
            lru: Seq::empty(),
            window_layer: Seq::new(self.window_layer.len(), |i: int| None::<i32>),
            window_dense: Seq::new(self.window_dense.len(), |i: int| false),
            ..self
        }
    }

    /// The remap of a layer before any of its experts is asked for: every expert
    /// at the slot of its own number.
    pub open spec fn remap_reset(self, layer: i32) -> PoolState {
        PoolState {
            cur_layer: layer,
            remap: Seq::new(N_EXPERT as nat, |e: int| own(e)),
            ..self
        }
    }

    /// `slot` is kept for expert `e` of `layer` until it has been read: it is not
    /// free, and no later miss can evict it.
    pub open spec fn claimed(self, layer: i32, e: u32, slot: u32) -> PoolState {
        let s = self.allocated(slot);
        PoolState {
            slot_key: s.slot_key.update(slot as int, Some(expert_key(layer, e))),
            lru: without(s.lru, slot),
            ..s
        }
    }

    /// The state after the requests of `ids[i..]`, the misses with their slots,
    /// and whether every miss got one.
    pub open spec fn classified(
        self,
        layer: i32,
        ids: Seq<u32>,
        i: int,
        misses: Seq<(u32, u32)>,
    ) -> (PoolState, Seq<(u32, u32)>, bool)
        decreases ids.len() - i,
    {
        if i >= ids.len() {
            (self, misses, true)
        } else if self.slot_of.contains_key(expert_key(layer, ids[i])) {
            self.hit(layer, ids[i]).classified(layer, ids, i + 1, misses)
        } else {
            let m = self.missed(layer, ids[i]);
            match m.miss_slot(layer, ids.take(i), m.layout.lru_floor(), m.layout.n_slots as int) {
                None => (m, misses, false),
                Some(slot) => m.claimed(layer, ids[i], slot).classified(
                    layer,
                    ids,
                    i + 1,
                    misses.push((ids[i], slot)),
                ),
            }
        }
    }

    /// The slots `lo..hi` after their experts have left the pool.
    pub open spec fn vacated_range(self, lo: int, hi: int) -> PoolState
        decreases hi - lo,
    {
        if lo >= hi {
            self
        } else {
            self.vacated(lo as u32).vacated_range(lo + 1, hi)
        }
    }

    /// Expert `e` of `layer` has been read into a slot of the layer's window.
    pub open spec fn placed(self, layer: i32, e: u32, slot: int) -> PoolState {
        PoolState {
            slot_of: self.slot_of.insert(expert_key(layer, e), slot as u32),
            slot_key: self.slot_key.update(slot, Some(expert_key(layer, e))),
            ..self
        }
    }

    /// The first `n` experts of `chunk` have been read into their slots.
    pub open spec fn placed_all(self, layer: i32, chunk: Seq<(u32, usize)>, n: int) -> PoolState
        decreases n,
    {
        if n <= 0 {
            self
        } else {
            self.placed_all(layer, chunk, n - 1).placed(layer, chunk[n - 1].0, chunk[n - 1].1 as int)
        }
    }

    pub open spec fn counted_prefill(self, requests: int, misses: int) -> PoolState {
        let c = self.counters;
        PoolState {
            counters: PagerCounters {
                prefill_requests: c.prefill_requests.wrapping_add(requests as u64),
                prefill_misses: c.prefill_misses.wrapping_add(misses as u64),
                ..c
            },
            ..self
        }
    }

    /// Expert `e` of `layer` is resident in window `w`.
    pub open spec fn resident_in(self, layer: i32, e: u32, w: int) -> bool {
        let k = expert_key(layer, e);
        self.slot_of.contains_key(k) && self.layout.in_window(w, self.slot_of[k] as int)
    }

    /// Expert `e` of `layer` is where window `w` is to hold it: in the window's slot
    /// number `e` if it has one for every expert, else in any of its slots.
    pub open spec fn held_in(self, layer: i32, e: u32, w: int) -> bool {
        if self.layout.width(w) == N_EXPERT {
            let k = expert_key(layer, e);
            self.slot_of.contains_key(k) && self.slot_of[k] == self.layout.base(w) + e
        } else {
            self.resident_in(layer, e, w)
        }
    }

    /// The distinct experts of `ids` that window `w` lacks, in order of first request.
    pub open spec fn lacking(self, layer: i32, ids: Seq<u32>, w: int) -> Seq<u32>
        decreases ids.len(),
    {
        if ids.len() == 0 {
            Seq::empty()
        } else {
            let before = self.lacking(layer, ids.drop_last(), w);
            if ids.drop_last().contains(ids.last()) || self.held_in(layer, ids.last(), w) {
                before
            } else {
                before.push(ids.last())
            }
        }
    }

    /// The slots of window `w` for the experts `lack`, in this order: each expert's
    /// own if the window has one for every expert, else the free ones in ascending
    /// order.
    pub open spec fn slots_for(self, lack: Seq<u32>, w: int) -> Seq<int> {
        let base = self.layout.base(w);
        if self.layout.width(w) == N_EXPERT {
            Seq::new(lack.len(), |j: int| base + lack[j])
        } else {
            free_slots(self.slot_key, base, base + self.layout.width(w))
        }
    }

    /// The slots of `need[..n]` are ready for their experts of `layer`: one that
    /// holds another expert has been made free.
    pub open spec fn room_made(self, layer: i32, need: Seq<(u32, usize)>, n: int) -> PoolState
        decreases n,
    {
        if n <= 0 {
            self
        } else {
            let s = self.room_made(layer, need, n - 1);
            let (e, slot) = need[n - 1];
            if s.slot_key[slot as int] == Some(expert_key(layer, e)) {
                s
            } else {
                s.vacated(slot as u32)
            }
        }
    }

    /// Window `w` set aside for `layer`: if it stood for another layer, its
    /// experts leave the pool.
    pub open spec fn window_taken(self, layer: i32, w: int) -> PoolState {
        if self.window_layer[w] == Some(layer) {
            self
        } else {
            let base = self.layout.base(w);
            let s = PoolState { window_dense: self.window_dense.update(w, false), ..self };
            let s = s.vacated_range(base, base + self.layout.width(w));
            PoolState { window_layer: s.window_layer.update(w, Some(layer)), ..s }
        }
    }

    /// A request for the experts `ids` has been counted.
    pub open spec fn union_counted(self, ids: Seq<u32>) -> PoolState {
        let u = distinct_experts(ids) as u32;
        let b = if u < 320 { u as int / 64 } else { 5 };
        PoolState {
            union_calls: self.union_calls.wrapping_add(1),
            union_sum: self.union_sum.wrapping_add(u as u64),
            union_max: if self.union_max >= u { self.union_max } else { u },
            union_min: if self.union_min <= u { self.union_min } else { u },
            union_hist: self.union_hist.update(b, self.union_hist[b].wrapping_add(1)),
            ..self
        }
    }

    /// A request for an expert that is not resident, up to the choice of its slot.
    pub open spec fn missed(self, layer: i32, e: u32) -> PoolState {
        self.counted_request().counted_miss(layer, e)
    }

    /// The state after the requests of `ids[from..]` up to the first that is not
    /// resident, and the index of that one.
    pub open spec fn run_hits(self, layer: i32, ids: Seq<u32>, from: int) -> (PoolState, int)
        decreases ids.len() - from,
    {
        if from >= ids.len() {
            (self, from)
        } else if self.slot_of.contains_key(expert_key(layer, ids[from])) {
            self.hit(layer, ids[from]).run_hits(layer, ids, from + 1)
        } else {
            (self, from)
        }
    }
}


pub proof fn lemma_first_free(keys: Seq<Option<u64>>, lo: int, hi: int)
    requires
        0 <= lo,
        hi <= keys.len(),
    ensures
        first_free(keys, lo, hi) matches Some(i) ==> lo <= i < hi && keys[i] is None && forall|j: int|
            lo <= j < i ==> (#[trigger] keys[j]) is Some,
        first_free(keys, lo, hi) is None ==> forall|j: int| lo <= j < hi ==> (#[trigger] keys[j]) is Some,
    decreases hi - lo,
{
    if lo < hi && keys[lo] is Some {
        lemma_first_free(keys, lo + 1, hi);
    }
}

pub proof fn lemma_first_evictable(s: PoolState, layer: i32, kept: Seq<u32>, lo: int, hi: int, i: int)
    requires
        0 <= i,
    ensures
        s.first_evictable(layer, kept, lo, hi, i) matches Some(p) ==> i <= p < s.lru.len() && lo <= s.lru[p]
            < hi && !s.keeps(layer, kept, s.lru[p]) && forall|j: int|
            i <= j < p ==> !(lo <= #[trigger] s.lru[j] < hi) || s.keeps(layer, kept, s.lru[j]),
        s.first_evictable(layer, kept, lo, hi, i) is None ==> forall|j: int|
            i <= j < s.lru.len() ==> !(lo <= #[trigger] s.lru[j] < hi) || s.keeps(layer, kept, s.lru[j]),
    decreases s.lru.len() - i,
{
    if i < s.lru.len() && !(lo <= s.lru[i] < hi && !s.keeps(layer, kept, s.lru[i])) {
        lemma_first_evictable(s, layer, kept, lo, hi, i + 1);
    }
}

pub proof fn lemma_position_of(lru: Seq<u32>, slot: u32, i: int)
    requires
        0 <= i,
    ensures
        position_of(lru, slot, i) matches Some(p) ==> i <= p < lru.len() && lru[p] == slot && forall|j: int|
            i <= j < p ==> #[trigger] lru[j] != slot,
        position_of(lru, slot, i) is None ==> forall|j: int| i <= j < lru.len() ==> #[trigger] lru[j] != slot,
    decreases lru.len() - i,
{
    if i < lru.len() && lru[i] != slot {
        lemma_position_of(lru, slot, i + 1);
    }
}

/// Taking a slot out of an order of use leaves the others, each once.
pub proof fn lemma_without(lru: Seq<u32>, slot: u32)
    requires
        no_dup(lru),
    ensures
        no_dup(without(lru, slot)),
        !without(lru, slot).contains(slot),
        forall|x: u32| x != slot ==> (#[trigger] without(lru, slot).contains(x) <==> lru.contains(x)),
        without(lru, slot).len() <= lru.len(),
{
    lemma_position_of(lru, slot, 0);
    match position_of(lru, slot, 0) {
        Some(p) => {
            let r = lru.remove(p);
            assert forall|i: int| 0 <= i < r.len() implies #[trigger] r[i] == lru[if i < p { i } else { i + 1 }] by {}
            assert forall|x: u32| x != slot implies (#[trigger] r.contains(x) <==> lru.contains(x)) by {
                if lru.contains(x) {
                    let j = choose|j: int| 0 <= j < lru.len() && lru[j] == x;
                    if j < p {
                        assert(r[j] == x);
                    } else {
                        assert(r[j - 1] == x);
                    }
                }
            }
        },
        None => {},
    }
}

pub proof fn lemma_touched_wf(s: PoolState, slot: u32)
    requires
        s.wf(),
        slot < s.layout.n_slots,
    ensures
        s.touched(slot).wf(),
        s.touched(slot).lru.last() == slot,
{
    lemma_without(s.lru, slot);
    let w = without(s.lru, slot);
    let t = w.push(slot);
    assert forall|i: int| 0 <= i < t.len() implies #[trigger] t[i] < s.layout.n_slots by {
        if i < w.len() {
            assert(w.contains(w[i]));
            assert(s.lru.contains(w[i]));
        }
    }
    assert forall|i: int, j: int| 0 <= i < j < t.len() implies t[i] != t[j] by {
        assert(w.contains(w[i]));
    }
}

pub proof fn lemma_hit_wf(s: PoolState, layer: i32, e: u32)
    requires
        s.wf(),
        s.slot_of.contains_key(expert_key(layer, e)),
        e < N_EXPERT,
    ensures
        s.hit(layer, e).wf(),
{
    lemma_touched_wf(s.counted_request(), s.slot_of[expert_key(layer, e)]);
}

pub proof fn lemma_vacated_wf(s: PoolState, slot: u32)
    requires
        s.wf(),
        slot < s.layout.n_slots,
    ensures
        s.vacated(slot).wf(),
        s.vacated(slot).slot_key[slot as int] is None,
        forall|k: u64| #[trigger] s.slot_of.contains_key(k) && s.slot_of[k] != slot ==> s.vacated(
            slot,
        ).slot_of.contains_key(k),
{
    let t = s.vacated(slot);
    assert forall|k: u64| #[trigger] t.slot_of.contains_key(k) implies t.slot_of[k] < t.layout.n_slots
        && t.slot_key[t.slot_of[k] as int] == Some(k) by {
        assert(s.slot_of.contains_key(k));
    }
}

/// The slot of a miss lies in the range, and making it ready keeps the pool
/// well formed and leaves every other slot's content alone.
pub proof fn lemma_allocated_wf(s: PoolState, slot: u32)
    requires
        s.wf(),
        slot < s.layout.n_slots,
    ensures
        s.allocated(slot).wf(),
        s.allocated(slot).slot_key == s.slot_key.update(slot as int, None),
        s.allocated(slot).slot_of.submap_of(s.slot_of),
        forall|k: u64| #[trigger] s.slot_of.contains_key(k) && s.slot_of[k] != slot ==> s.allocated(
            slot,
        ).slot_of.contains_key(k),
{
    lemma_vacated_wf(s, slot);
    lemma_without(s.lru, slot);
    let v = s.vacated(slot);
    let w = without(v.lru, slot);
    assert forall|i: int| 0 <= i < w.len() implies #[trigger] w[i] < s.layout.n_slots by {
        assert(w.contains(w[i]));
        assert(w[i] != slot);
        assert(s.lru.contains(w[i]));
    }
    assert(s.allocated(slot).slot_key =~= s.slot_key.update(slot as int, None));
    if slot < s.layout.dense_end() {
        lemma_slot_window(s.layout, slot as int);
    }
}

/// The window of a slot below the decode region is one of the layout's.
pub proof fn lemma_slot_window(l: WindowLayout, s: int)
    requires
        l.wf(),
        0 <= s < l.dense_end(),
    ensures
        0 <= l.slot_window(s) <= l.pinned(),
{
    if s < l.pinned() * l.stride {
        assert(0 <= s / l.stride as int <= l.pinned()) by (nonlinear_arith)
            requires
                0 <= s < l.pinned() * l.stride,
                1 <= l.stride,
        ;
    }
}

pub proof fn lemma_paged_in_wf(s: PoolState, layer: i32, e: u32, slot: u32)
    requires
        s.wf(),
        e < N_EXPERT,
        slot < s.layout.n_slots,
        s.slot_key[slot as int] is None || s.slot_key[slot as int] == Some(expert_key(layer, e)),
    ensures
        s.paged_in(layer, e, slot).wf(),
{
    let k = expert_key(layer, e);
    let t = PoolState {
        slot_of: s.slot_of.insert(k, slot),
        slot_key: s.slot_key.update(slot as int, Some(k)),
        ..s
    };
    assert forall|j: u64| #[trigger] t.slot_of.contains_key(j) implies t.slot_of[j] < t.layout.n_slots
        && t.slot_key[t.slot_of[j] as int] == Some(j) by {
        if j != k {
            assert(s.slot_of.contains_key(j));
        }
    }
    lemma_touched_wf(t, slot);
}


pub proof fn lemma_claimed_wf(s: PoolState, layer: i32, e: u32, slot: u32)
    requires
        s.wf(),
        slot < s.layout.n_slots,
        !s.slot_of.contains_key(expert_key(layer, e)),
    ensures
        s.claimed(layer, e, slot).wf(),
        s.claimed(layer, e, slot).slot_key == s.slot_key.update(slot as int, Some(expert_key(layer, e))),
        s.claimed(layer, e, slot).slot_of.submap_of(s.slot_of),
        !s.claimed(layer, e, slot).lru.contains(slot),
        forall|x: u32| #[trigger] s.claimed(layer, e, slot).lru.contains(x) ==> s.lru.contains(x),
{
    lemma_allocated_wf(s, slot);
    let a = s.allocated(slot);
    lemma_without(s.lru, slot);
    lemma_without(a.lru, slot);
    let c = s.claimed(layer, e, slot);
    assert(c.slot_key =~= s.slot_key.update(slot as int, Some(expert_key(layer, e))));
    assert forall|k: u64| #[trigger] c.slot_of.contains_key(k) implies c.slot_of[k] < c.layout.n_slots
        && c.slot_key[c.slot_of[k] as int] == Some(k) by {
        assert(a.slot_of.contains_key(k));
    }
    assert forall|i: int| 0 <= i < c.lru.len() implies #[trigger] c.lru[i] < c.layout.n_slots by {
        assert(c.lru.contains(c.lru[i]));
        assert(a.lru.contains(c.lru[i]));
    }
    assert forall|x: u32| #[trigger] c.lru.contains(x) implies s.lru.contains(x) by {
        assert(x != slot);
        assert(a.lru.contains(x));
    }
}

pub proof fn lemma_vacated_range(s: PoolState, lo: int, hi: int)
    requires
        s.wf(),
        0 <= lo,
        hi <= s.layout.n_slots,
    ensures
        s.vacated_range(lo, hi).wf(),
        forall|i: int| lo <= i < hi ==> (#[trigger] s.vacated_range(lo, hi).slot_key[i]) is None,
        forall|i: int|
            0 <= i < s.slot_key.len() && !(lo <= i < hi) ==> #[trigger] s.vacated_range(lo, hi).slot_key[i]
                == s.slot_key[i],
        s.vacated_range(lo, hi).slot_of.submap_of(s.slot_of),
        s.vacated_range(lo, hi) == (PoolState {
            slot_of: s.vacated_range(lo, hi).slot_of,
            slot_key: s.vacated_range(lo, hi).slot_key,
            ..s
        }),
    decreases hi - lo,
{
    if lo < hi {
        lemma_vacated_wf(s, lo as u32);
        lemma_vacated_range(s.vacated(lo as u32), lo + 1, hi);
        let v = s.vacated(lo as u32);
        assert(v.slot_of.submap_of(s.slot_of));
        let t = v.vacated_range(lo + 1, hi);
        assert forall|k: u64| #[trigger] t.slot_of.dom().contains(k) implies s.slot_of.dom().contains(k)
            && s.slot_of[k] == t.slot_of[k] by {
            assert(v.slot_of.dom().contains(k));
        }
    }
}

pub proof fn lemma_vacated_range_step(s: PoolState, lo: int, m: int, hi: int)
    requires
        lo <= m,
    ensures
        m < hi ==> s.vacated_range(lo, m).vacated(m as u32) == s.vacated_range(lo, m + 1),
    decreases m - lo,
{
    if lo < m {
        lemma_vacated_range_step(s.vacated(lo as u32), lo + 1, m, hi);
    } else {
        assert(s.vacated_range(lo, m) == s);
        assert(s.vacated(m as u32).vacated_range(m + 1, m + 1) == s.vacated(m as u32));
    }
}

pub proof fn lemma_placed_wf(s: PoolState, layer: i32, e: u32, slot: int)
    requires
        s.wf(),
        0 <= slot < s.layout.n_slots,
        s.slot_key[slot] is None || s.slot_key[slot] == Some(expert_key(layer, e)),
    ensures
        s.placed(layer, e, slot).wf(),
{
    let k = expert_key(layer, e);
    let t = s.placed(layer, e, slot);
    assert forall|j: u64| #[trigger] t.slot_of.contains_key(j) implies t.slot_of[j] < t.layout.n_slots
        && t.slot_key[t.slot_of[j] as int] == Some(j) by {
        if j != k {
            assert(s.slot_of.contains_key(j));
        }
    }
}

/// Two experts never share a key.
pub proof fn lemma_key_injective(layer: i32, a: u32, b: u32)
    requires
        expert_key(layer, a) == expert_key(layer, b),
    ensures
        a == b,
{
    expert_key_round_trip(layer, a);
    expert_key_round_trip(layer, b);
}

/// Experts that are served have slots of their own.
pub proof fn lemma_settles(s: PoolState, layer: i32, ids: Seq<u32>)
    requires
        s.serves(layer, ids, ids.len() as int),
    ensures
        s.settles(layer, ids),
{
    assert forall|i: int, j: int| #![trigger ids[i], ids[j]]
        0 <= i < ids.len() && 0 <= j < ids.len() && ids[i] != ids[j] implies s.slot_of[expert_key(layer, ids[i])]
        != s.slot_of[expert_key(layer, ids[j])] by {
        if expert_key(layer, ids[i]) == expert_key(layer, ids[j]) {
            lemma_key_injective(layer, ids[i], ids[j]);
        }
    }
}

/// A request that finds its next expert has served one more.
pub proof fn lemma_serves_hit(s: PoolState, layer: i32, ids: Seq<u32>, n: int)
    requires
        s.wf(),
        0 <= n < ids.len(),
        forall|j: int| 0 <= j < ids.len() ==> #[trigger] ids[j] < N_EXPERT,
        s.serves(layer, ids, n),
        s.slot_of.contains_key(expert_key(layer, ids[n])),
    ensures
        s.hit(layer, ids[n]).serves(layer, ids, n + 1),
{
    let t = s.hit(layer, ids[n]);
    assert forall|j: int| #![trigger ids[j]] 0 <= j < n + 1 implies {
        let k = expert_key(layer, ids[j]);
        &&& t.slot_of.contains_key(k)
        &&& t.slot_of[k] < t.layout.n_slots
        &&& t.slot_key[t.slot_of[k] as int] == Some(k)
        &&& t.remap[ids[j] as int] == own(t.slot_of[k] as int)
    } by {}
}

/// A slot that holds none of the experts served so far is made ready without
/// taking any of them away.
pub proof fn lemma_serves_allocated(s: PoolState, layer: i32, ids: Seq<u32>, n: int, slot: u32)
    requires
        s.wf(),
        0 <= n <= ids.len(),
        s.serves(layer, ids, n),
        slot < s.layout.n_slots,
        s.slot_key[slot as int] is None || !s.keeps(layer, ids.take(n), slot),
    ensures
        s.allocated(slot).serves(layer, ids, n),
        s.claimed(layer, ids[n], slot).serves(layer, ids, n),
{
    lemma_allocated_wf(s, slot);
    let a = s.allocated(slot);
    let c = s.claimed(layer, ids[n], slot);
    assert forall|j: int| #![trigger ids[j]] 0 <= j < n implies {
        let k = expert_key(layer, ids[j]);
        &&& a.slot_of.contains_key(k)
        &&& a.slot_of[k] == s.slot_of[k]
        &&& a.slot_of[k] != slot
        &&& a.slot_key[a.slot_of[k] as int] == Some(k)
    } by {
        assert(ids.take(n)[j] == ids[j]);
        let k = expert_key(layer, ids[j]);
        assert(!s.sits(k, slot));
        assert(s.slot_of[k] != slot);
    }
}

/// An expert that was read in is served.
pub proof fn lemma_serves_paged_in(s: PoolState, layer: i32, ids: Seq<u32>, n: int, slot: u32)
    requires
        s.wf(),
        0 <= n < ids.len(),
        forall|j: int| 0 <= j < ids.len() ==> #[trigger] ids[j] < N_EXPERT,
        s.serves(layer, ids, n),
        slot < s.layout.n_slots,
        s.slot_key[slot as int] is None || s.slot_key[slot as int] == Some(expert_key(layer, ids[n])),
    ensures
        s.paged_in(layer, ids[n], slot).serves(layer, ids, n + 1),
{
    let t = s.paged_in(layer, ids[n], slot);
    assert forall|j: int| #![trigger ids[j]] 0 <= j < n + 1 implies {
        let k = expert_key(layer, ids[j]);
        &&& t.slot_of.contains_key(k)
        &&& t.slot_of[k] < t.layout.n_slots
        &&& t.slot_key[t.slot_of[k] as int] == Some(k)
        &&& t.remap[ids[j] as int] == own(t.slot_of[k] as int)
    } by {
        if j < n && expert_key(layer, ids[j]) != expert_key(layer, ids[n]) {
            assert(ids[j] != ids[n]);
        } else if j < n {
            lemma_key_injective(layer, ids[j], ids[n]);
        }
    }
}

} // verus!
