//! What holds of the expert pool over many calls.

use vstd::prelude::*;
use crate::config::N_EXPERT;
use crate::counts;
use crate::expert_pager;
use crate::miss_shape;
use crate::pool;
use crate::pool::PoolState;
use crate::windows;
use crate::windows::WindowLayout;

verus! {

/// The pool after all of `ids[i..]` have been asked for and every missing expert
/// has been read in, or `None` where a miss found no slot.
pub open spec fn served(s: PoolState, layer: i32, ids: Seq<u32>, i: int) -> Option<PoolState>
    decreases ids.len() - i,
{
    if i >= ids.len() {
        Some(s)
    } else if s.slot_of.contains_key(pool::expert_key(layer, ids[i])) {
        served(s.hit(layer, ids[i]), layer, ids, i + 1)
    } else {
        let m = s.missed(layer, ids[i]);
        match m.miss_slot(layer, ids.take(i), m.alloc_range().0, m.alloc_range().1) {
            None => None,
            Some(slot) => served(
                m.allocated(slot).paged_in(layer, ids[i], slot),
                layer,
                ids,
                i + 1,
            ),
        }
    }
}

/// A miss may take slot `x`: it is free, or its last use is known.
pub open spec fn available(s: PoolState, x: int) -> bool {
    s.slot_key[x] is None || s.lru.contains(x as u32)
}

/// Number of slots of `lo..hi` that a miss may take.
pub open spec fn room(s: PoolState, lo: int, hi: int) -> nat
    decreases hi - lo,
{
    if lo >= hi {
        0
    } else {
        room(s, lo + 1, hi) + (if available(s, lo) { 1nat } else { 0nat })
    }
}

proof fn lemma_alloc_range(s: PoolState)
    requires
        s.wf(),
    ensures
        0 <= s.alloc_range().0 <= s.alloc_range().1 <= s.layout.n_slots,
{
    lemma_floor(s.layout);
}

pub proof fn lemma_floor(l: WindowLayout)
    requires
        l.wf(),
    ensures
        0 <= l.lru_floor() <= l.n_slots,
        0 <= l.dense_end() <= l.n_slots,
{
    assert(l.pinned() * l.stride >= 0) by (nonlinear_arith)
        requires
            l.pinned() >= 0,
            l.stride >= 0,
    ;
}

pub proof fn lemma_miss_slot(s: PoolState, layer: i32, kept: Seq<u32>, lo: int, hi: int)
    requires
        s.wf(),
        0 <= lo <= hi <= s.layout.n_slots,
    ensures
        s.miss_slot(layer, kept, lo, hi) matches Some(slot) ==> {
            &&& lo <= slot < hi
            &&& available(s, slot as int)
            &&& s.slot_key[slot as int] is Some ==> s.lru.contains(slot)
            &&& s.slot_key[slot as int] is None || !s.keeps(layer, kept, slot)
        },
{
    pool::lemma_first_free(s.slot_key, lo, hi);
    pool::lemma_first_evictable(s, layer, kept, lo, hi, 0);
}

/// The slot that a miss takes lies in the pool, and reading the expert in keeps
/// the pool well formed.
pub proof fn lemma_miss_wf(m: PoolState, layer: i32, kept: Seq<u32>, e: u32)
    requires
        m.wf(),
        e < N_EXPERT,
    ensures
        m.miss_slot(layer, kept, m.alloc_range().0, m.alloc_range().1) matches Some(slot) ==> {
            &&& slot < m.layout.n_slots
            &&& m.allocated(slot).wf()
            &&& m.allocated(slot).slot_key[slot as int] is None
            &&& m.allocated(slot).paged_in(layer, e, slot).wf()
        },
{
    lemma_alloc_range(m);
    let (lo, hi) = m.alloc_range();
    lemma_miss_slot(m, layer, kept, lo, hi);
    if let Some(slot) = m.miss_slot(layer, kept, lo, hi) {
        pool::lemma_allocated_wf(m, slot);
        pool::lemma_paged_in_wf(m.allocated(slot), layer, e, slot);
    }
}

/// The slot that a miss of a batched request takes lies in the pool.
pub proof fn lemma_decode_slot(m: PoolState, layer: i32, kept: Seq<u32>)
    requires
        m.wf(),
    ensures
        m.miss_slot(layer, kept, m.layout.lru_floor(), m.layout.n_slots as int) matches Some(slot) ==> slot
            < m.layout.n_slots,
{
    lemma_floor(m.layout);
    lemma_miss_slot(m, layer, kept, m.layout.lru_floor(), m.layout.n_slots as int);
}

/// A served request leaves the pool well formed, whatever it evicted.
pub proof fn serving_keeps_the_pool_well_formed(s: PoolState, layer: i32, ids: Seq<u32>, i: int)
    requires
        s.wf(),
        0 <= i <= ids.len(),
        forall|j: int| 0 <= j < ids.len() ==> #[trigger] ids[j] < N_EXPERT,
    ensures
        served(s, layer, ids, i) matches Some(t) ==> t.wf() && t.layout == s.layout,
    decreases ids.len() - i,
{
    if i < ids.len() {
        let k = pool::expert_key(layer, ids[i]);
        if s.slot_of.contains_key(k) {
            pool::lemma_hit_wf(s, layer, ids[i]);
            serving_keeps_the_pool_well_formed(s.hit(layer, ids[i]), layer, ids, i + 1);
        } else {
            let m = s.missed(layer, ids[i]);
            lemma_alloc_range(m);
            let (lo, hi) = m.alloc_range();
            lemma_miss_slot(m, layer, ids.take(i), lo, hi);
            if let Some(slot) = m.miss_slot(layer, ids.take(i), lo, hi) {
                pool::lemma_allocated_wf(m, slot);
                pool::lemma_paged_in_wf(m.allocated(slot), layer, ids[i], slot);
                serving_keeps_the_pool_well_formed(
                    m.allocated(slot).paged_in(layer, ids[i], slot),
                    layer,
                    ids,
                    i + 1,
                );
            }
        }
    }
}

/// A request takes slots of the allocation range only: every slot outside keeps
/// its expert. So a prefill that is confined to a scan window evicts nothing but
/// itself, and a decode request leaves the windows alone as long as it has a
/// region of its own.
pub proof fn a_request_stays_in_its_range(s: PoolState, layer: i32, ids: Seq<u32>, i: int)
    requires
        s.wf(),
        0 <= i <= ids.len(),
        forall|j: int| 0 <= j < ids.len() ==> #[trigger] ids[j] < N_EXPERT,
    ensures
        served(s, layer, ids, i) matches Some(t) ==> {
            &&& forall|x: int|
                0 <= x < s.slot_key.len() && !(s.alloc_range().0 <= x < s.alloc_range().1)
                    ==> #[trigger] t.slot_key[x] == s.slot_key[x]
            &&& t.alloc_range() == s.alloc_range()
            &&& s.alloc_range().0 >= s.layout.dense_end() ==> {
                &&& t.window_layer == s.window_layer
                &&& t.window_dense == s.window_dense
            }
        },
    decreases ids.len() - i,
{
    if i < ids.len() {
        let k = pool::expert_key(layer, ids[i]);
        if s.slot_of.contains_key(k) {
            pool::lemma_hit_wf(s, layer, ids[i]);
            a_request_stays_in_its_range(s.hit(layer, ids[i]), layer, ids, i + 1);
        } else {
            let m = s.missed(layer, ids[i]);
            lemma_alloc_range(m);
            let (lo, hi) = m.alloc_range();
            lemma_miss_slot(m, layer, ids.take(i), lo, hi);
            if let Some(slot) = m.miss_slot(layer, ids.take(i), lo, hi) {
                pool::lemma_allocated_wf(m, slot);
                pool::lemma_paged_in_wf(m.allocated(slot), layer, ids[i], slot);
                a_request_stays_in_its_range(
                    m.allocated(slot).paged_in(layer, ids[i], slot),
                    layer,
                    ids,
                    i + 1,
                );
            }
        }
    }
}

/// At the end of a request that was served, every expert asked for is resident, in
/// a slot of its own that the remap names: no expert of the request evicts another
/// one.
pub proof fn every_expert_of_a_served_request_is_resident(s: PoolState, layer: i32, ids: Seq<u32>)
    requires
        s.wf(),
        forall|j: int| 0 <= j < ids.len() ==> #[trigger] ids[j] < N_EXPERT,
    ensures
        served(s, layer, ids, 0) matches Some(t) ==> t.settles(layer, ids),
{
    lemma_serves(s, layer, ids, 0);
    if let Some(t) = served(s, layer, ids, 0) {
        pool::lemma_settles(t, layer, ids);
    }
}

proof fn lemma_serves(s: PoolState, layer: i32, ids: Seq<u32>, i: int)
    requires
        s.wf(),
        0 <= i <= ids.len(),
        forall|j: int| 0 <= j < ids.len() ==> #[trigger] ids[j] < N_EXPERT,
        s.serves(layer, ids, i),
    ensures
        served(s, layer, ids, i) matches Some(t) ==> t.serves(layer, ids, ids.len() as int),
    decreases ids.len() - i,
{
    if i < ids.len() {
        if s.slot_of.contains_key(pool::expert_key(layer, ids[i])) {
            pool::lemma_hit_wf(s, layer, ids[i]);
            pool::lemma_serves_hit(s, layer, ids, i);
            lemma_serves(s.hit(layer, ids[i]), layer, ids, i + 1);
        } else {
            let m = s.missed(layer, ids[i]);
            lemma_miss_wf(m, layer, ids.take(i), ids[i]);
            lemma_alloc_range(m);
            let (lo, hi) = m.alloc_range();
            lemma_miss_slot(m, layer, ids.take(i), lo, hi);
            if let Some(slot) = m.miss_slot(layer, ids.take(i), lo, hi) {
                assert(m.serves(layer, ids, i));
                pool::lemma_serves_allocated(m, layer, ids, i, slot);
                pool::lemma_serves_paged_in(m.allocated(slot), layer, ids, i, slot);
                lemma_serves(m.allocated(slot).paged_in(layer, ids[i], slot), layer, ids, i + 1);
            }
        }
    }
}

/// Expert `e` of `layer` is resident in a slot that is not of `lo..hi`.
pub open spec fn outside(s: PoolState, layer: i32, e: u32, lo: int, hi: int) -> bool {
    let k = pool::expert_key(layer, e);
    s.slot_of.contains_key(k) && !(lo <= s.slot_of[k] < hi)
}

/// How many slots of `lo..hi` the request for `ids[i..]` needs: one for each expert
/// that it asks for the first time, but for those that are resident elsewhere.
pub open spec fn demand(s: PoolState, layer: i32, ids: Seq<u32>, i: int, lo: int, hi: int) -> nat
    decreases ids.len() - i,
{
    if i >= ids.len() {
        0
    } else {
        demand(s, layer, ids, i + 1, lo, hi) + (if ids.take(i).contains(ids[i]) || outside(
            s,
            layer,
            ids[i],
            lo,
            hi,
        ) {
            0nat
        } else {
            1nat
        })
    }
}

proof fn lemma_demand(s: PoolState, t: PoolState, layer: i32, ids: Seq<u32>, i: int, lo: int, hi: int)
    requires
        forall|e: u32| #[trigger] outside(s, layer, e, lo, hi) ==> outside(t, layer, e, lo, hi),
    ensures
        demand(t, layer, ids, i, lo, hi) <= demand(s, layer, ids, i, lo, hi),
    decreases ids.len() - i,
{
    if i < ids.len() {
        lemma_demand(s, t, layer, ids, i + 1, lo, hi);
    }
}

/// A miss may take slot `x` without evicting one of `kept`.
spec fn spared(s: PoolState, layer: i32, kept: Seq<u32>, x: int) -> bool {
    available(s, x) && !s.keeps(layer, kept, x as u32)
}

/// Slots of `lo..hi` that a miss may take without evicting one of `kept`.
spec fn spare(s: PoolState, layer: i32, kept: Seq<u32>, lo: int, hi: int) -> nat
    decreases hi - lo,
{
    if lo >= hi {
        0
    } else {
        spare(s, layer, kept, lo + 1, hi) + (if spared(s, layer, kept, lo) {
            1nat
        } else {
            0nat
        })
    }
}

proof fn lemma_spare_room(s: PoolState, layer: i32, lo: int, hi: int)
    ensures
        spare(s, layer, Seq::empty(), lo, hi) == room(s, lo, hi),
    decreases hi - lo,
{
    if lo < hi {
        lemma_spare_room(s, layer, lo + 1, hi);
    }
}

/// Only slot `y` may have stopped being spare.
proof fn lemma_spare_drop(
    s: PoolState,
    t: PoolState,
    layer: i32,
    before: Seq<u32>,
    after: Seq<u32>,
    lo: int,
    hi: int,
    y: int,
)
    requires
        forall|x: int|
            lo <= x < hi && x != y && #[trigger] spared(s, layer, before, x) ==> spared(t, layer, after, x),
    ensures
        spare(t, layer, after, lo, hi) + 1 >= spare(s, layer, before, lo, hi),
        y < lo ==> spare(t, layer, after, lo, hi) >= spare(s, layer, before, lo, hi),
    decreases hi - lo,
{
    if lo < hi {
        lemma_spare_drop(s, t, layer, before, after, lo + 1, hi, y);
    }
}

proof fn lemma_spare_exists(s: PoolState, layer: i32, kept: Seq<u32>, lo: int, hi: int)
    requires
        spare(s, layer, kept, lo, hi) > 0,
    ensures
        exists|x: int| lo <= x < hi && #[trigger] spared(s, layer, kept, x),
    decreases hi - lo,
{
    if lo < hi {
        if spared(s, layer, kept, lo) {
        } else {
            lemma_spare_exists(s, layer, kept, lo + 1, hi);
        }
    }
}

/// Where a slot can be spared, a miss finds one.
proof fn lemma_spare_found(s: PoolState, layer: i32, kept: Seq<u32>, lo: int, hi: int)
    requires
        s.wf(),
        0 <= lo <= hi <= s.layout.n_slots,
        spare(s, layer, kept, lo, hi) > 0,
    ensures
        s.miss_slot(layer, kept, lo, hi) is Some,
{
    lemma_spare_exists(s, layer, kept, lo, hi);
    let y = choose|x: int| lo <= x < hi && #[trigger] spared(s, layer, kept, x);
    pool::lemma_first_free(s.slot_key, lo, hi);
    pool::lemma_first_evictable(s, layer, kept, lo, hi, 0);
    if pool::first_free(s.slot_key, lo, hi) is None {
        assert(s.slot_key[y] is Some);
        let q = choose|q: int| 0 <= q < s.lru.len() && s.lru[q] == y as u32;
        assert(lo <= s.lru[q] < hi);
    }
}

/// One more expert is kept: a slot that it is not resident in is spared as before.
proof fn lemma_keeps_step(s: PoolState, t: PoolState, layer: i32, ids: Seq<u32>, i: int, slot: u32)
    requires
        0 <= i < ids.len(),
        forall|k: u64| #[trigger] t.sits(k, slot) ==> s.sits(k, slot) || k == pool::expert_key(layer, ids[i]),
        t.sits(pool::expert_key(layer, ids[i]), slot) ==> ids.take(i).contains(ids[i]) && s.sits(
            pool::expert_key(layer, ids[i]),
            slot,
        ),
        !s.keeps(layer, ids.take(i), slot),
    ensures
        !t.keeps(layer, ids.take(i + 1), slot),
{
    let a = ids.take(i);
    let b = ids.take(i + 1);
    if t.keeps(layer, b, slot) {
        let j = choose|j: int|
            0 <= j < b.len() && t.sits(pool::expert_key(layer, #[trigger] b[j]), slot);
        if b[j] == ids[i] {
            let x = choose|x: int| 0 <= x < a.len() && a[x] == ids[i];
            assert(s.sits(pool::expert_key(layer, a[x]), slot));
        } else {
            assert(a[j] == b[j]);
            if pool::expert_key(layer, b[j]) == pool::expert_key(layer, ids[i]) {
                pool::lemma_key_injective(layer, b[j], ids[i]);
            }
            assert(s.sits(pool::expert_key(layer, a[j]), slot));
        }
    }
}

/// A slot that became the latest, and every other one, can be taken as before.
proof fn lemma_touched_available(s: PoolState, slot: u32, x: int)
    requires
        pool::no_dup(s.lru),
        0 <= x <= u32::MAX,
        available(s, x),
    ensures
        available(s.touched(slot), x),
{
    let t = s.touched(slot);
    pool::lemma_without(s.lru, slot);
    let w = pool::without(s.lru, slot);
    if s.slot_key[x] is Some {
        if x == slot {
            assert(t.lru[w.len() as int] == slot);
        } else {
            assert(w.contains(x as u32));
            let p = choose|p: int| 0 <= p < w.len() && w[p] == x as u32;
            assert(t.lru[p] == x as u32);
        }
    }
}

/// As long as a request needs no more slots of its range than it has room for, it
/// is served in full, and at its end every expert asked for is resident in a slot
/// of its own that the remap names.
pub proof fn a_request_that_fits_is_resident_at_once(s: PoolState, layer: i32, ids: Seq<u32>)
    requires
        s.wf(),
        forall|j: int| 0 <= j < ids.len() ==> #[trigger] ids[j] < N_EXPERT,
        demand(s, layer, ids, 0, s.alloc_range().0, s.alloc_range().1) <= room(
            s,
            s.alloc_range().0,
            s.alloc_range().1,
        ),
    ensures
        served(s, layer, ids, 0) matches Some(t) && t.settles(layer, ids),
{
    lemma_spare_room(s, layer, s.alloc_range().0, s.alloc_range().1);
    assert(ids.take(0) =~= Seq::<u32>::empty());
    lemma_serve_all(s, layer, ids, 0);
    every_expert_of_a_served_request_is_resident(s, layer, ids);
}

proof fn lemma_serve_all(s: PoolState, layer: i32, ids: Seq<u32>, i: int)
    requires
        s.wf(),
        0 <= i <= ids.len(),
        forall|j: int| 0 <= j < ids.len() ==> #[trigger] ids[j] < N_EXPERT,
        s.serves(layer, ids, i),
        demand(s, layer, ids, i, s.alloc_range().0, s.alloc_range().1) <= spare(
            s,
            layer,
            ids.take(i),
            s.alloc_range().0,
            s.alloc_range().1,
        ),
    ensures
        served(s, layer, ids, i) is Some,
    decreases ids.len() - i,
{
    if i < ids.len() {
        let e = ids[i];
        let k = pool::expert_key(layer, e);
        lemma_alloc_range(s);
        let (lo, hi) = s.alloc_range();
        if s.slot_of.contains_key(k) {
            let t = s.hit(layer, e);
            let slot = s.slot_of[k];
            pool::lemma_hit_wf(s, layer, e);
            pool::lemma_serves_hit(s, layer, ids, i);
            let y = if ids.take(i).contains(e) || outside(s, layer, e, lo, hi) {
                -1
            } else {
                slot as int
            };
            assert forall|x: int| lo <= x < hi && x != y && #[trigger] spared(s, layer, ids.take(i), x) implies spared(
                t,
                layer,
                ids.take(i + 1),
                x,
            ) by {
                lemma_touched_available(s.counted_request(), slot, x);
                lemma_keeps_step(s, t, layer, ids, i, x as u32);
            }
            lemma_spare_drop(s, t, layer, ids.take(i), ids.take(i + 1), lo, hi, y);
            lemma_demand(s, t, layer, ids, i + 1, lo, hi);
            lemma_serve_all(t, layer, ids, i + 1);
        } else {
            let m = s.missed(layer, e);
            let kept = ids.take(i);
            assert(m.alloc_range() == s.alloc_range());
            assert(!kept.contains(e)) by {
                if kept.contains(e) {
                    let j = choose|j: int| 0 <= j < kept.len() && kept[j] == e;
                    assert(ids[j] == e);
                }
            }
            assert(demand(s, layer, ids, i, lo, hi) >= 1);
            assert forall|x: int| lo <= x < hi && x != -1 && #[trigger] spared(s, layer, kept, x) implies spared(
                m,
                layer,
                kept,
                x,
            ) by {
                assert(m.keeps(layer, kept, x as u32) == s.keeps(layer, kept, x as u32));
            }
            lemma_spare_drop(s, m, layer, kept, kept, lo, hi, -1);
            lemma_spare_found(m, layer, kept, lo, hi);
            lemma_miss_slot(m, layer, kept, lo, hi);
            let slot = m.miss_slot(layer, kept, lo, hi).unwrap();
            let a = m.allocated(slot);
            let t = a.paged_in(layer, e, slot);
            pool::lemma_allocated_wf(m, slot);
            pool::lemma_paged_in_wf(a, layer, e, slot);
            assert(m.serves(layer, ids, i));
            pool::lemma_serves_allocated(m, layer, ids, i, slot);
            pool::lemma_serves_paged_in(a, layer, ids, i, slot);
            pool::lemma_without(m.lru, slot);
            assert forall|x: int| lo <= x < hi && x != slot && #[trigger] spared(s, layer, kept, x) implies spared(
                t,
                layer,
                ids.take(i + 1),
                x,
            ) by {
                if m.slot_key[x] is Some {
                    assert(a.lru.contains(x as u32));
                }
                let b = PoolState {
                    slot_of: a.slot_of.insert(k, slot),
                    slot_key: a.slot_key.update(slot as int, Some(k)),
                    ..a
                };
                lemma_touched_available(b, slot, x);
                assert forall|h: u64| #[trigger] t.sits(h, x as u32) implies s.sits(h, x as u32) by {
                    assert(a.slot_of.contains_key(h));
                }
                lemma_keeps_step(s, t, layer, ids, i, x as u32);
            }
            lemma_spare_drop(s, t, layer, kept, ids.take(i + 1), lo, hi, slot as int);
            assert forall|d: u32| #[trigger] outside(s, layer, d, lo, hi) implies outside(t, layer, d, lo, hi) by {
                let h = pool::expert_key(layer, d);
                assert(m.slot_of.contains_key(h));
                assert(a.slot_of.contains_key(h) && a.slot_of[h] == s.slot_of[h]);
            }
            lemma_demand(s, t, layer, ids, i + 1, lo, hi);
            lemma_serve_all(t, layer, ids, i + 1);
        }
    }
}


/// A remap entry that `set_remote_exclusion` makes for an expert of this device
/// names the slot that holds that very expert.
pub proof fn a_window_entry_names_its_expert(s: PoolState, layer: i32, e: u32)
    requires
        s.wf(),
        expert_pager::window_entry(s, layer, e) < 0,
    ensures
        s.slot_key[s.layout.base(s.layout.layer_window(layer)) + (-expert_pager::window_entry(s, layer, e) - 1)]
            == Some(pool::expert_key(layer, e)),
        0 <= -expert_pager::window_entry(s, layer, e) - 1 < s.layout.width(s.layout.layer_window(layer)),
{
}

/// A complete window stays complete when none of its slots changes.
pub proof fn lemma_complete(s: PoolState, t: PoolState, w: int)
    requires
        s.complete(w),
        t.layout == s.layout,
        t.window_layer[w] == s.window_layer[w],
        forall|x: int| s.layout.in_window(w, x) ==> #[trigger] t.slot_key[x] == s.slot_key[x],
    ensures
        t.complete(w),
{
    if let Some(layer) = t.window_layer[w] {
        assert forall|e: u32| e < N_EXPERT implies #[trigger] t.in_place(w, layer, e) by {
            assert(s.in_place(w, layer, e));
            assert(s.layout.in_window(w, s.layout.base(w) + e));
        }
    }
}

/// Reading an expert into a free slot leaves the complete windows complete.
pub proof fn reading_into_a_free_slot_keeps_windows_faithful(s: PoolState, layer: i32, e: u32, slot: u32)
    requires
        s.wf(),
        s.dense_windows_faithful(),
        slot < s.layout.n_slots,
        s.slot_key[slot as int] is None,
    ensures
        s.placed(layer, e, slot as int).dense_windows_faithful(),
        s.paged_in(layer, e, slot).dense_windows_faithful(),
{
    lemma_free_slot_changed(s, s.placed(layer, e, slot as int), slot as int);
    lemma_free_slot_changed(s, s.paged_in(layer, e, slot), slot as int);
}

proof fn lemma_free_slot_changed(s: PoolState, t: PoolState, slot: int)
    requires
        s.wf(),
        s.dense_windows_faithful(),
        0 <= slot < s.layout.n_slots,
        s.slot_key[slot] is None,
        t.layout == s.layout,
        t.window_layer == s.window_layer,
        t.window_dense == s.window_dense,
        forall|x: int|
            0 <= x < s.slot_key.len() && x != slot ==> #[trigger] t.slot_key[x] == s.slot_key[x],
    ensures
        t.dense_windows_faithful(),
{
    assert forall|w: int| 0 <= w < t.layout.dense_windows && #[trigger] t.window_dense[w] implies t.complete(w) by {
        assert(s.window_dense[w]);
        assert(s.complete(w));
        if s.window_layer[w] is Some && s.layout.in_window(w, slot) {
            let e = (slot - s.layout.base(w)) as u32;
            assert(s.in_place(w, s.window_layer[w].unwrap(), e));
        }
        if s.window_layer[w] is Some {
            lemma_base_nonneg(s.layout, w);
            lemma_complete(s, t, w);
        }
    }
}

proof fn lemma_window_in_pool(l: WindowLayout, w: int, e: int)
    requires
        l.wf(),
        0 <= w <= l.pinned(),
        0 <= e < l.width(w),
        l.n_slots >= N_EXPERT || e < l.n_slots,
    ensures
        0 <= l.base(w) + e < l.n_slots,
{
    assert(0 <= w * l.stride <= l.pinned() * l.stride) by (nonlinear_arith)
        requires
            0 <= w <= l.pinned(),
            1 <= l.stride,
    ;
    if w < l.pinned() {
        assert(w * l.stride + l.stride <= l.pinned() * l.stride) by (nonlinear_arith)
            requires
                w < l.pinned(),
                1 <= l.stride,
        ;
    }
    if l.n_slots < N_EXPERT {
        assert(l.pinned() * l.stride == 0) by (nonlinear_arith)
            requires
                l.pinned() == 0,
        ;
    }
}

/// A miss that takes a slot of a window takes away the window's standing, so the
/// windows that are still flagged as complete are.
pub proof fn allocation_keeps_windows_faithful(s: PoolState, slot: u32)
    requires
        s.wf(),
        s.dense_windows_faithful(),
        slot < s.layout.n_slots,
    ensures
        s.allocated(slot).dense_windows_faithful(),
{
    let t = s.allocated(slot);
    pool::lemma_allocated_wf(s, slot);
    if slot < s.layout.dense_end() {
        pool::lemma_slot_window(s.layout, slot as int);
    }
    assert forall|w: int| 0 <= w < t.layout.dense_windows && #[trigger] t.window_dense[w] implies t.complete(w) by {
        assert(s.window_dense[w] && s.window_layer[w] == t.window_layer[w]);
        assert(s.complete(w));
        if s.window_layer[w] is Some {
            if s.layout.in_window(w, slot as int) {
                windows::slot_window_inverts_in_window(s.layout, w, slot as int);
                lemma_floor(s.layout);
                windows::windows_lie_below_the_decode_region(s.layout, w, slot as int);
                assert(false);
            }
            lemma_complete(s, t, w);
        }
    }
}

/// Serving a request keeps the complete windows complete.
pub proof fn serving_keeps_windows_faithful(s: PoolState, layer: i32, ids: Seq<u32>, i: int)
    requires
        s.wf(),
        s.dense_windows_faithful(),
        0 <= i <= ids.len(),
        forall|j: int| 0 <= j < ids.len() ==> #[trigger] ids[j] < N_EXPERT,
    ensures
        served(s, layer, ids, i) matches Some(t) ==> t.dense_windows_faithful(),
    decreases ids.len() - i,
{
    if i < ids.len() {
        let k = pool::expert_key(layer, ids[i]);
        if s.slot_of.contains_key(k) {
            let t = s.hit(layer, ids[i]);
            pool::lemma_hit_wf(s, layer, ids[i]);
            lemma_same_slots(s, t);
            serving_keeps_windows_faithful(t, layer, ids, i + 1);
        } else {
            let m = s.missed(layer, ids[i]);
            lemma_same_slots(s, m);
            lemma_alloc_range(m);
            let (lo, hi) = m.alloc_range();
            lemma_miss_slot(m, layer, ids.take(i), lo, hi);
            if let Some(slot) = m.miss_slot(layer, ids.take(i), lo, hi) {
                pool::lemma_allocated_wf(m, slot);
                pool::lemma_paged_in_wf(m.allocated(slot), layer, ids[i], slot);
                allocation_keeps_windows_faithful(m, slot);
                reading_into_a_free_slot_keeps_windows_faithful(m.allocated(slot), layer, ids[i], slot);
                serving_keeps_windows_faithful(
                    m.allocated(slot).paged_in(layer, ids[i], slot),
                    layer,
                    ids,
                    i + 1,
                );
            }
        }
    }
}

proof fn lemma_same_slots(s: PoolState, t: PoolState)
    requires
        s.dense_windows_faithful(),
        t.layout == s.layout,
        t.window_layer == s.window_layer,
        t.window_dense == s.window_dense,
        t.slot_key == s.slot_key,
    ensures
        t.dense_windows_faithful(),
{
    assert forall|w: int| 0 <= w < t.layout.dense_windows && #[trigger] t.window_dense[w] implies t.complete(w) by {
        assert(s.complete(w));
        lemma_complete(s, t, w);
    }
}

/// Clearing keeps the pool well formed and the windows faithful: no expert is
/// resident, and no window stands for a layer, so a request for a whole layer
/// reads every expert again.
pub proof fn clearing_keeps_windows_faithful(s: PoolState)
    requires
        s.wf(),
    ensures
        s.emptied().wf(),
        s.emptied().dense_windows_faithful(),
        forall|layer: i32, e: u32| !s.emptied().slot_of.contains_key(#[trigger] pool::expert_key(layer, e)),
        forall|w: int|
            0 <= w < s.window_layer.len() ==> (#[trigger] s.emptied().window_layer[w]) is None
                && !s.emptied().window_dense[w],
{
}

/// Setting a window aside for another layer keeps the other windows' standing.
pub proof fn taking_a_window_keeps_the_others_faithful(s: PoolState, layer: i32)
    requires
        s.wf(),
        s.dense_windows_faithful(),
        s.layout.n_slots >= N_EXPERT,
    ensures
        s.window_taken(layer, s.layout.layer_window(layer)).dense_windows_faithful(),
{
    let l = s.layout;
    let v = l.layer_window(layer);
    let t = s.window_taken(layer, v);
    if s.window_layer[v] != Some(layer) {
        let b = PoolState { window_dense: s.window_dense.update(v, false), ..s };
        lemma_window_bounds(l, v);
        pool::lemma_vacated_range(b, l.base(v), l.base(v) + l.width(v));
        lemma_vacated_window(s, t, v);
    }
}

proof fn lemma_vacated_window(s: PoolState, t: PoolState, v: int)
    requires
        s.wf(),
        s.dense_windows_faithful(),
        0 <= v <= s.layout.pinned(),
        t.layout == s.layout,
        forall|w: int| 0 <= w < s.window_layer.len() && w != v ==> #[trigger] t.window_layer[w] == s.window_layer[w],
        forall|w: int| 0 <= w < s.window_dense.len() && w != v ==> #[trigger] t.window_dense[w] == s.window_dense[w],
        !t.window_dense[v] || t.window_layer[v] is None,
        forall|x: int|
            0 <= x < s.slot_key.len() && !s.layout.in_window(v, x) ==> #[trigger] t.slot_key[x] == s.slot_key[x],
    ensures
        t.dense_windows_faithful(),
{
    let l = s.layout;
    assert forall|w: int| 0 <= w < t.layout.dense_windows && #[trigger] t.window_dense[w] implies t.complete(w) by {
        if w != v {
            assert(s.window_dense[w]);
            assert(s.complete(w));
            assert(t.window_layer[w] == s.window_layer[w]);
            if s.window_layer[w] is Some {
                lemma_base_nonneg(l, w);
                assert forall|x: int| l.in_window(w, x) implies #[trigger] t.slot_key[x] == s.slot_key[x] by {
                    if l.in_window(v, x) {
                        if v < w {
                            windows::windows_are_disjoint(l, v, w, x);
                        } else {
                            windows::windows_are_disjoint(l, w, v, x);
                        }
                    }
                }
                lemma_complete(s, t, w);
            }
        }
    }
}

pub proof fn lemma_base_nonneg(l: WindowLayout, w: int)
    requires
        l.wf(),
        0 <= w,
    ensures
        l.base(w) >= 0,
{
    let k = if w <= l.pinned() { w } else { l.pinned() };
    assert(k * l.stride >= 0) by (nonlinear_arith)
        requires
            k >= 0,
            l.stride >= 0,
    ;
}

/// A layer with a window of its own keeps it: neither a union nor a dense fill of
/// another layer changes what the window stands for or any of its slots.
pub proof fn a_pinned_layer_keeps_its_window(s: PoolState, layer: i32, other: i32)
    requires
        s.wf(),
        s.layout.n_slots >= N_EXPERT,
        0 <= layer < s.layout.pinned(),
        other != layer,
    ensures
        ({
            let l = s.layout;
            let w = l.layer_window(layer);
            let v = l.layer_window(other);
            let union = s.window_taken(other, v);
            let dense = (PoolState { window_layer: s.window_layer.update(v, None), ..s }).vacated_range(
                l.base(v),
                l.base(v) + N_EXPERT,
            );
            &&& union.window_layer[w] == s.window_layer[w]
            &&& union.window_dense[w] == s.window_dense[w]
            &&& forall|x: int| l.in_window(w, x) ==> #[trigger] union.slot_key[x] == s.slot_key[x]
            &&& l.width(v) == N_EXPERT ==> {
                &&& dense.window_layer[w] == s.window_layer[w]
                &&& dense.window_dense[w] == s.window_dense[w]
                &&& forall|x: int| l.in_window(w, x) ==> #[trigger] dense.slot_key[x] == s.slot_key[x]
            }
        }),
{
    let l = s.layout;
    let w = l.layer_window(layer);
    let v = l.layer_window(other);
    lemma_window_bounds(l, v);
    lemma_window_bounds(l, w);
    let b = PoolState { window_dense: s.window_dense.update(v, false), ..s };
    pool::lemma_vacated_range(b, l.base(v), l.base(v) + l.width(v));
    let d = PoolState { window_layer: s.window_layer.update(v, None), ..s };
    if l.width(v) == N_EXPERT {
        pool::lemma_vacated_range(d, l.base(v), l.base(v) + N_EXPERT);
    }
    assert forall|x: int| l.in_window(w, x) implies !l.in_window(v, x) by {
        if l.in_window(v, x) {
            if v < w {
                windows::windows_are_disjoint(l, v, w, x);
            } else {
                windows::windows_are_disjoint(l, w, v, x);
            }
        }
    }
}

/// Asking for a whole layer, reading its experts and calling `finish_dense` makes
/// the layer's window complete and keeps the other windows' standing. A second
/// request for the layer then finds it resident.
pub proof fn a_dense_fill_completes_its_window(
    s: PoolState,
    layer: i32,
    chunk: Seq<(u32, usize)>,
    t: PoolState,
)
    requires
        s.wf(),
        s.dense_windows_faithful(),
        s.layout.n_slots >= N_EXPERT,
        s.layout.width(s.layout.layer_window(layer)) == N_EXPERT,
        chunk.len() == N_EXPERT,
        forall|e: int| #![trigger chunk[e]]
            0 <= e < N_EXPERT ==> chunk[e].0 == e && chunk[e].1 == s.layout.base(
                s.layout.layer_window(layer),
            ) + e,
        ({
            let l = s.layout;
            let w = l.layer_window(layer);
            let b = PoolState { window_layer: s.window_layer.update(w, None), ..s };
            let f = b.vacated_range(l.base(w), l.base(w) + N_EXPERT).placed_all(layer, chunk, N_EXPERT as int);
            t == (PoolState {
                window_layer: f.window_layer.update(w, Some(layer)),
                window_dense: f.window_dense.update(w, true),
                ..f
            })
        }),
    ensures
        t.dense_windows_faithful(),
        t.window_layer[t.layout.layer_window(layer)] == Some(layer),
        t.window_dense[t.layout.layer_window(layer)],
        forall|e: u32| e < N_EXPERT ==> #[trigger] t.in_place(t.layout.layer_window(layer), layer, e),
{
    let l = s.layout;
    let v = l.layer_window(layer);
    let b = PoolState { window_layer: s.window_layer.update(v, None), ..s };
    lemma_window_bounds(l, v);
    let c = b.vacated_range(l.base(v), l.base(v) + N_EXPERT);
    pool::lemma_vacated_range(b, l.base(v), l.base(v) + N_EXPERT);
    lemma_placed_all(c, layer, chunk, N_EXPERT as int, l.base(v));
    lemma_vacated_window(s, c, v);
    let f = c.placed_all(layer, chunk, N_EXPERT as int);
    assert forall|e: u32| e < N_EXPERT implies #[trigger] t.in_place(v, layer, e) by {
        assert(f.slot_key[l.base(v) + e] == Some(pool::expert_key(layer, e)));
    }
    assert forall|w: int| 0 <= w < t.layout.dense_windows && #[trigger] t.window_dense[w] implies t.complete(w) by {
        if w != v {
            assert(c.window_dense[w]);
            assert(c.complete(w));
            if c.window_layer[w] is Some {
                lemma_base_nonneg(l, w);
                assert forall|x: int| l.in_window(w, x) implies #[trigger] t.slot_key[x] == c.slot_key[x] by {
                    if l.in_window(v, x) {
                        if v < w {
                            windows::windows_are_disjoint(l, v, w, x);
                        } else {
                            windows::windows_are_disjoint(l, w, v, x);
                        }
                    }
                }
                lemma_complete(c, t, w);
            }
        }
    }
}

proof fn lemma_placed_all(s: PoolState, layer: i32, chunk: Seq<(u32, usize)>, n: int, base: int)
    requires
        0 <= n <= chunk.len(),
        0 <= base,
        base + chunk.len() <= s.slot_key.len(),
        s.slot_key.len() <= u32::MAX,
        forall|e: int| #![trigger chunk[e]]
            0 <= e < chunk.len() ==> chunk[e].0 == e && chunk[e].1 == base + e,
    ensures
        ({
            let t = s.placed_all(layer, chunk, n);
            &&& t == (PoolState { slot_of: t.slot_of, slot_key: t.slot_key, ..s })
            &&& t.slot_key.len() == s.slot_key.len()
            &&& forall|x: int|
                base <= x < base + n ==> #[trigger] t.slot_key[x] == Some(
                    pool::expert_key(layer, (x - base) as u32),
                )
            &&& forall|x: int|
                0 <= x < s.slot_key.len() && !(base <= x < base + n) ==> #[trigger] t.slot_key[x]
                    == s.slot_key[x]
        }),
    decreases n,
{
    if n > 0 {
        lemma_placed_all(s, layer, chunk, n - 1, base);
        let p = s.placed_all(layer, chunk, n - 1);
        let t = s.placed_all(layer, chunk, n);
        assert(chunk[n - 1].0 == n - 1 && chunk[n - 1].1 == base + n - 1);
        assert(t == p.placed(layer, (n - 1) as u32, base + n - 1));
    }
}

pub proof fn lemma_window_bounds(l: WindowLayout, w: int)
    requires
        l.wf(),
        l.n_slots >= N_EXPERT,
        0 <= w <= l.pinned(),
    ensures
        0 <= l.base(w),
        l.base(w) + l.width(w) <= l.n_slots,
{
    lemma_window_in_pool(l, w, 0);
    lemma_window_in_pool(l, w, l.width(w) - 1);
}

/// The reads of a batched request make each of its missing experts resident in
/// the slot it was given, which the remap names, provided that no expert was
/// asked for twice.
pub proof fn batched_reads_make_experts_resident(s: PoolState, layer: i32, misses: Seq<(u32, u32)>, n: int)
    requires
        s.wf(),
        expert_pager::claims_hold(s, layer, misses),
        0 <= n <= misses.len(),
        forall|i: int, j: int| 0 <= i < j < misses.len() ==> #[trigger] misses[i].0 != #[trigger] misses[j].0,
    ensures
        read_in(s, layer, misses, n).wf(),
        expert_pager::claims_hold(read_in(s, layer, misses, n), layer, misses),
        forall|j: int| #![trigger misses[j]]
            0 <= j < n ==> {
                let t = read_in(s, layer, misses, n);
                let k = pool::expert_key(layer, misses[j].0);
                &&& t.slot_of.contains_key(k)
                &&& t.slot_of[k] == misses[j].1
                &&& t.remap[misses[j].0 as int] == pool::own(misses[j].1 as int)
            },
    decreases n,
{
    if n > 0 {
        batched_reads_make_experts_resident(s, layer, misses, n - 1);
        let p = read_in(s, layer, misses, n - 1);
        let (e, slot) = misses[n - 1];
        assert(misses[n - 1].0 == e);
        pool::lemma_paged_in_wf(p, layer, e, slot);
        let t = p.paged_in(layer, e, slot);
        lemma_claims_read(p, layer, misses, n - 1);
        assert forall|j: int| #![trigger misses[j]] 0 <= j < n - 1 implies {
            let k = pool::expert_key(layer, misses[j].0);
            &&& t.slot_of.contains_key(k)
            &&& t.slot_of[k] == misses[j].1
            &&& t.remap[misses[j].0 as int] == pool::own(misses[j].1 as int)
        } by {
            assert(misses[j].0 != misses[n - 1].0);
            if pool::expert_key(layer, misses[j].0) == pool::expert_key(layer, e) {
                pool::lemma_key_injective(layer, misses[j].0, e);
            }
        }
    }
}

/// The pool after the first `n` reads of a batched request.
pub open spec fn read_in(s: PoolState, layer: i32, misses: Seq<(u32, u32)>, n: int) -> PoolState
    decreases n,
{
    if n <= 0 {
        s
    } else {
        read_in(s, layer, misses, n - 1).paged_in(layer, misses[n - 1].0, misses[n - 1].1)
    }
}

/// Expert `e` of `layer` is resident, in the slot that the remap names.
pub open spec fn found(s: PoolState, layer: i32, e: u32) -> bool {
    let k = pool::expert_key(layer, e);
    s.slot_of.contains_key(k) && s.remap[e as int] == pool::own(s.slot_of[k] as int)
}

/// One of `misses[n..]` is a miss of expert `e`.
pub open spec fn awaited(misses: Seq<(u32, u32)>, n: int, e: u32) -> bool {
    exists|m: int| n <= m < misses.len() && (#[trigger] misses[m]).0 == e
}

/// Each of `ids[..i]` was found resident, or waits to be read.
spec fn batch_progress(
    s: PoolState,
    layer: i32,
    ids: Seq<u32>,
    i: int,
    misses: Seq<(u32, u32)>,
    n: int,
) -> bool {
    forall|j: int| #![trigger ids[j]]
        0 <= j < i ==> found(s, layer, ids[j]) || awaited(misses, n, ids[j])
}

proof fn lemma_classified(s: PoolState, layer: i32, ids: Seq<u32>, i: int, misses: Seq<(u32, u32)>)
    requires
        s.wf(),
        0 <= i <= ids.len(),
        forall|j: int| 0 <= j < ids.len() ==> #[trigger] ids[j] < N_EXPERT,
        expert_pager::claims_hold(s, layer, misses),
        expert_pager::claims_safe(s, layer, misses),
        batch_progress(s, layer, ids, i, misses, 0),
    ensures
        ({
            let (t, ms, done) = s.classified(layer, ids, i, misses);
            done ==> {
                &&& t.wf()
                &&& expert_pager::claims_hold(t, layer, ms)
                &&& batch_progress(t, layer, ids, ids.len() as int, ms, 0)
            }
        }),
    decreases ids.len() - i,
{
    if i < ids.len() {
        let e = ids[i];
        let k = pool::expert_key(layer, e);
        if s.slot_of.contains_key(k) {
            let t = s.hit(layer, e);
            pool::lemma_hit_wf(s, layer, e);
            expert_pager::lemma_claims_hit(s, layer, e, misses);
            lemma_classified(t, layer, ids, i + 1, misses);
        } else {
            let m = s.missed(layer, e);
            let kept = ids.take(i);
            let lo = m.layout.lru_floor();
            let hi = m.layout.n_slots as int;
            lemma_floor(m.layout);
            lemma_miss_slot(m, layer, kept, lo, hi);
            if let Some(slot) = m.miss_slot(layer, kept, lo, hi) {
                let t = m.claimed(layer, e, slot);
                let ms = misses.push((e, slot));
                assert(expert_pager::claims_hold(m, layer, misses));
                assert(expert_pager::claims_safe(m, layer, misses));
                pool::lemma_claimed_wf(m, layer, e, slot);
                pool::lemma_allocated_wf(m, slot);
                expert_pager::lemma_claims_claim(m, layer, e, slot, misses);
                assert forall|j: int| #![trigger ids[j]] 0 <= j < i + 1 implies found(t, layer, ids[j]) || awaited(
                    ms,
                    0,
                    ids[j],
                ) by {
                    if j == i {
                        assert(ms[misses.len() as int].0 == e);
                    } else if found(s, layer, ids[j]) {
                        assert(kept[j] == ids[j]);
                        let h = pool::expert_key(layer, ids[j]);
                        assert(m.slot_of.contains_key(h));
                        assert(m.slot_key[m.slot_of[h] as int] == Some(h));
                        assert(!m.keeps(layer, kept, slot) ==> !m.sits(pool::expert_key(layer, kept[j]), slot));
                        assert(t.slot_of.contains_key(h));
                    } else {
                        let x = choose|x: int| 0 <= x < misses.len() && (#[trigger] misses[x]).0 == ids[j];
                        assert(ms[x].0 == ids[j]);
                    }
                }
                lemma_classified(t, layer, ids, i + 1, ms);
            }
        }
    }
}

proof fn lemma_read_in(s: PoolState, layer: i32, ids: Seq<u32>, misses: Seq<(u32, u32)>, n: int)
    requires
        s.wf(),
        expert_pager::claims_hold(s, layer, misses),
        forall|j: int| 0 <= j < ids.len() ==> #[trigger] ids[j] < N_EXPERT,
        batch_progress(s, layer, ids, ids.len() as int, misses, 0),
        0 <= n <= misses.len(),
    ensures
        read_in(s, layer, misses, n).wf(),
        read_in(s, layer, misses, n).layout == s.layout,
        expert_pager::claims_hold(read_in(s, layer, misses, n), layer, misses),
        batch_progress(read_in(s, layer, misses, n), layer, ids, ids.len() as int, misses, n),
    decreases n,
{
    if n > 0 {
        lemma_read_in(s, layer, ids, misses, n - 1);
        let p = read_in(s, layer, misses, n - 1);
        let (e, slot) = misses[n - 1];
        assert(misses[n - 1].0 == e);
        pool::lemma_paged_in_wf(p, layer, e, slot);
        let t = p.paged_in(layer, e, slot);
        lemma_claims_read(p, layer, misses, n - 1);
        assert forall|j: int| #![trigger ids[j]] 0 <= j < ids.len() implies found(t, layer, ids[j]) || awaited(
            misses,
            n,
            ids[j],
        ) by {
            if ids[j] != e {
                if pool::expert_key(layer, ids[j]) == pool::expert_key(layer, e) {
                    pool::lemma_key_injective(layer, ids[j], e);
                }
                if awaited(misses, n - 1, ids[j]) {
                    let x = choose|x: int| n - 1 <= x < misses.len() && (#[trigger] misses[x]).0 == ids[j];
                    assert(n <= x);
                }
            }
        }
    }
}

/// A read leaves the slots that are kept for others kept.
proof fn lemma_claims_read(s: PoolState, layer: i32, misses: Seq<(u32, u32)>, n: int)
    requires
        s.wf(),
        expert_pager::claims_hold(s, layer, misses),
        0 <= n < misses.len(),
    ensures
        expert_pager::claims_hold(s.paged_in(layer, misses[n].0, misses[n].1), layer, misses),
{
    let t = s.paged_in(layer, misses[n].0, misses[n].1);
    assert forall|j: int| #![trigger misses[j]] 0 <= j < misses.len() implies t.slot_key[misses[j].1 as int]
        == Some(pool::expert_key(layer, misses[j].0)) by {
        if j < n {
            assert(misses[j].1 != misses[n].1);
        } else if j > n {
            assert(misses[n].1 != misses[j].1);
        }
    }
}

/// Once the misses of a batched request have been read, every expert that it asked
/// for is resident in a slot of its own that the remap names: those that it found
/// resident as well as those that were read.
pub proof fn every_expert_of_a_batched_request_is_resident(s: PoolState, layer: i32, ids: Seq<u32>)
    requires
        s.wf(),
        forall|j: int| 0 <= j < ids.len() ==> #[trigger] ids[j] < N_EXPERT,
    ensures
        ({
            let (t, misses, done) = s.classified(layer, ids, 0, Seq::empty());
            let u = read_in(t, layer, misses, misses.len() as int);
            done ==> {
                &&& t.wf()
                &&& expert_pager::claims_hold(t, layer, misses)
                &&& u.wf()
                &&& u.settles(layer, ids)
            }
        }),
{
    let (t, misses, done) = s.classified(layer, ids, 0, Seq::empty());
    lemma_classified(s, layer, ids, 0, Seq::empty());
    if done {
        let n = misses.len() as int;
        lemma_read_in(t, layer, ids, misses, n);
        let u = read_in(t, layer, misses, n);
        assert(u.serves(layer, ids, ids.len() as int));
        pool::lemma_settles(u, layer, ids);
    }
}

/// A batched request that asks for no expert twice, and needs no more slots of the
/// decode region than it has room for, gets a slot for each of its misses.
pub proof fn a_batched_request_that_fits_gets_its_slots(s: PoolState, layer: i32, ids: Seq<u32>)
    requires
        s.wf(),
        forall|j: int| 0 <= j < ids.len() ==> #[trigger] ids[j] < N_EXPERT,
        forall|i: int, j: int| 0 <= i < j < ids.len() ==> ids[i] != ids[j],
        demand(s, layer, ids, 0, s.layout.lru_floor(), s.layout.n_slots as int) <= room(
            s,
            s.layout.lru_floor(),
            s.layout.n_slots as int,
        ),
    ensures
        s.classified(layer, ids, 0, Seq::empty()).2,
{
    lemma_spare_room(s, layer, s.layout.lru_floor(), s.layout.n_slots as int);
    assert(ids.take(0) =~= Seq::<u32>::empty());
    lemma_classify_all(s, layer, ids, 0, Seq::empty());
}

proof fn lemma_classify_all(s: PoolState, layer: i32, ids: Seq<u32>, i: int, misses: Seq<(u32, u32)>)
    requires
        s.wf(),
        0 <= i <= ids.len(),
        forall|j: int| 0 <= j < ids.len() ==> #[trigger] ids[j] < N_EXPERT,
        forall|a: int, b: int| 0 <= a < b < ids.len() ==> ids[a] != ids[b],
        demand(s, layer, ids, i, s.layout.lru_floor(), s.layout.n_slots as int) <= spare(
            s,
            layer,
            ids.take(i),
            s.layout.lru_floor(),
            s.layout.n_slots as int,
        ),
    ensures
        s.classified(layer, ids, i, misses).2,
    decreases ids.len() - i,
{
    if i < ids.len() {
        let e = ids[i];
        let k = pool::expert_key(layer, e);
        let kept = ids.take(i);
        let next = ids.take(i + 1);
        let lo = s.layout.lru_floor();
        let hi = s.layout.n_slots as int;
        lemma_floor(s.layout);
        assert(!kept.contains(e)) by {
            if kept.contains(e) {
                let j = choose|j: int| 0 <= j < kept.len() && kept[j] == e;
                assert(ids[j] == e);
            }
        }
        if s.slot_of.contains_key(k) {
            let t = s.hit(layer, e);
            let slot = s.slot_of[k];
            pool::lemma_hit_wf(s, layer, e);
            let y = if outside(s, layer, e, lo, hi) {
                -1
            } else {
                slot as int
            };
            assert forall|x: int| lo <= x < hi && x != y && #[trigger] spared(s, layer, kept, x) implies spared(
                t,
                layer,
                next,
                x,
            ) by {
                lemma_touched_available(s.counted_request(), slot, x);
                lemma_keeps_step(s, t, layer, ids, i, x as u32);
            }
            lemma_spare_drop(s, t, layer, kept, next, lo, hi, y);
            lemma_demand(s, t, layer, ids, i + 1, lo, hi);
            lemma_classify_all(t, layer, ids, i + 1, misses);
        } else {
            let m = s.missed(layer, e);
            assert(demand(s, layer, ids, i, lo, hi) >= 1);
            assert forall|x: int| lo <= x < hi && x != -1 && #[trigger] spared(s, layer, kept, x) implies spared(
                m,
                layer,
                kept,
                x,
            ) by {
                assert(m.keeps(layer, kept, x as u32) == s.keeps(layer, kept, x as u32));
            }
            lemma_spare_drop(s, m, layer, kept, kept, lo, hi, -1);
            lemma_spare_found(m, layer, kept, lo, hi);
            lemma_miss_slot(m, layer, kept, lo, hi);
            let slot = m.miss_slot(layer, kept, lo, hi).unwrap();
            let a = m.allocated(slot);
            let t = m.claimed(layer, e, slot);
            let ms = misses.push((e, slot));
            pool::lemma_allocated_wf(m, slot);
            pool::lemma_claimed_wf(m, layer, e, slot);
            pool::lemma_without(m.lru, slot);
            pool::lemma_without(a.lru, slot);
            assert forall|x: int| lo <= x < hi && x != slot && #[trigger] spared(s, layer, kept, x) implies spared(
                t,
                layer,
                next,
                x,
            ) by {
                if m.slot_key[x] is Some {
                    assert(a.lru.contains(x as u32));
                    assert(t.lru.contains(x as u32));
                }
                assert forall|h: u64| #[trigger] t.sits(h, x as u32) implies s.sits(h, x as u32) by {
                    assert(t.slot_of.dom().contains(h));
                }
                lemma_keeps_step(s, t, layer, ids, i, x as u32);
            }
            lemma_spare_drop(s, t, layer, kept, next, lo, hi, slot as int);
            assert forall|d: u32| #[trigger] outside(s, layer, d, lo, hi) implies outside(t, layer, d, lo, hi) by {
                let h = pool::expert_key(layer, d);
                assert(m.slot_of.contains_key(h));
                assert(t.slot_of.contains_key(h) && t.slot_of[h] == s.slot_of[h]);
            }
            lemma_demand(s, t, layer, ids, i + 1, lo, hi);
            lemma_classify_all(t, layer, ids, i + 1, ms);
        }
    }
}

/// The misses recorded by expert sum to the misses counted since they were last
/// taken: a miss adds one to both, and neither a hit nor a read to any.
pub proof fn recorded_misses_are_those_counted(s: PoolState, layer: i32, e: u32, slot: u32)
    requires
        s.wf(),
        s.miss_hist is Some,
        e < N_EXPERT,
        s.miss_hist->0[PoolState::hist_index(layer, e)] < u32::MAX,
    ensures
        ({
            let m = s.missed(layer, e);
            &&& m.miss_hist is Some
            &&& counts::sum(miss_shape::widened(m.miss_hist->0)) == counts::sum(
                miss_shape::widened(s.miss_hist->0),
            ) + 1
            &&& if s.count_as_prefill {
                &&& m.counters.prefill_misses == s.counters.prefill_misses.wrapping_add(1)
                &&& m.counters.decode_misses == s.counters.decode_misses
            } else {
                &&& m.counters.decode_misses == s.counters.decode_misses.wrapping_add(1)
                &&& m.counters.prefill_misses == s.counters.prefill_misses
            }
        }),
        s.hit(layer, e).miss_hist == s.miss_hist,
        s.claimed(layer, e, slot).miss_hist == s.miss_hist,
        s.paged_in(layer, e, slot).miss_hist == s.miss_hist,
{
    miss_shape::lemma_one_more(s.miss_hist->0, PoolState::hist_index(layer, e));
}

} // verus!
