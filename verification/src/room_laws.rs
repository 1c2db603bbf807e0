//! When the decode region has a slot for every expert of a request.

use vstd::prelude::*;
use crate::config::N_EXPERT;
use crate::pager_laws;
use crate::pool;
use crate::pool::PoolState;

verus! {

/// Every slot of the decode region that is in use stands in the order of use: none
/// is still kept for an expert that was not read.
pub open spec fn accounted(s: PoolState) -> bool {
    forall|x: int|
        s.layout.dense_end() <= x < s.layout.n_slots && (#[trigger] s.slot_key[x]) is Some ==> s.lru.contains(
            x as u32,
        )
}

/// Every operation keeps the slots in use accounted for, but for a batched request
/// whose misses are still to be read. An empty pool has none in use.
pub proof fn every_operation_keeps_slots_accounted(s: PoolState, layer: i32, e: u32, slot: u32)
    requires
        s.wf(),
        accounted(s),
        e < N_EXPERT,
        slot < s.layout.n_slots,
    ensures
        accounted(s.emptied()),
        accounted(s.remap_reset(layer)),
        accounted(s.vacated(slot)),
        accounted(s.allocated(slot)),
        accounted(s.touched(slot)),
        accounted(s.paged_in(layer, e, slot)),
        accounted(s.placed(layer, e, slot as int).touched(slot)),
        s.layout.n_slots >= N_EXPERT ==> accounted(s.window_taken(layer, s.layout.layer_window(layer))),
        slot < s.layout.dense_end() ==> accounted(s.placed(layer, e, slot as int)),
        s.slot_of.contains_key(pool::expert_key(layer, e)) ==> accounted(s.hit(layer, e)),
{
    pager_laws::lemma_floor(s.layout);
    lemma_touched(s, slot);
    pool::lemma_without(s.lru, slot);
    let k = pool::expert_key(layer, e);
    let p = s.paged_in(layer, e, slot);
    let t = s.touched(slot);
    assert forall|x: int|
        s.layout.dense_end() <= x < s.layout.n_slots && (#[trigger] p.slot_key[x]) is Some implies p.lru.contains(
        x as u32,
    ) by {
        if x == slot {
            lemma_latest(s.lru, slot);
        } else {
            assert(t.slot_key[x] is Some);
        }
    }
    let q = s.placed(layer, e, slot as int).touched(slot);
    assert forall|x: int|
        s.layout.dense_end() <= x < s.layout.n_slots && (#[trigger] q.slot_key[x]) is Some implies q.lru.contains(
        x as u32,
    ) by {
        assert(p.slot_key[x] is Some);
    }
    let a = s.allocated(slot);
    assert forall|x: int|
        s.layout.dense_end() <= x < s.layout.n_slots && (#[trigger] a.slot_key[x]) is Some implies a.lru.contains(
        x as u32,
    ) by {
        assert(s.slot_key[x] is Some);
    }
    if s.slot_of.contains_key(k) {
        lemma_touched(s.counted_request(), s.slot_of[k]);
    }
    if s.layout.n_slots >= N_EXPERT {
        lemma_taken(s, layer);
    }
}

proof fn lemma_latest(lru: Seq<u32>, slot: u32)
    ensures
        pool::without(lru, slot).push(slot).contains(slot),
{
    let r = pool::without(lru, slot);
    assert(r.push(slot)[r.len() as int] == slot);
}

proof fn lemma_touched(s: PoolState, slot: u32)
    requires
        s.layout.wf(),
        s.slot_key.len() == s.layout.n_slots,
        pool::no_dup(s.lru),
        accounted(s),
    ensures
        accounted(s.touched(slot)),
{
    let none = Seq::<(u32, u32)>::empty();
    assert(accounted_but(s, none, 0));
    lemma_touched_but(s, slot, none, 0);
}

proof fn lemma_taken(s: PoolState, layer: i32)
    requires
        s.wf(),
        accounted(s),
        s.layout.n_slots >= N_EXPERT,
    ensures
        accounted(s.window_taken(layer, s.layout.layer_window(layer))),
{
    let w = s.layout.layer_window(layer);
    let t = s.window_taken(layer, w);
    if s.window_layer[w] != Some(layer) {
        let base = s.layout.base(w);
        let d = PoolState { window_dense: s.window_dense.update(w, false), ..s };
        pager_laws::lemma_floor(s.layout);
        pager_laws::lemma_window_bounds(s.layout, w);
        pool::lemma_vacated_range(d, base, base + s.layout.width(w));
        assert forall|x: int|
            s.layout.dense_end() <= x < s.layout.n_slots && (#[trigger] t.slot_key[x]) is Some implies t.lru.contains(
            x as u32,
        ) by {
            assert(s.slot_key[x] is Some);
        }
    }
}

proof fn lemma_room(s: PoolState, lo: int, hi: int)
    requires
        accounted(s),
        s.layout.dense_end() <= lo,
        lo <= hi <= s.layout.n_slots,
    ensures
        pager_laws::room(s, lo, hi) == hi - lo,
    decreases hi - lo,
{
    if lo < hi {
        lemma_room(s, lo + 1, hi);
        assert(pager_laws::available(s, lo)) by {
            if s.slot_key[lo] is Some {
                assert(s.lru.contains(lo as u32));
            }
        }
    }
}

proof fn lemma_demand(s: PoolState, layer: i32, ids: Seq<u32>, i: int, lo: int, hi: int)
    requires
        0 <= i <= ids.len(),
    ensures
        pager_laws::demand(s, layer, ids, i, lo, hi) <= ids.len() - i,
    decreases ids.len() - i,
{
    if i < ids.len() {
        lemma_demand(s, layer, ids, i + 1, lo, hi);
    }
}

/// A request for no more experts than its range has slots is served in full, and at
/// its end every expert asked for is resident in a slot of its own that the remap
/// names. The slots in use are accounted for as before.
pub proof fn a_request_no_larger_than_its_range_is_served(s: PoolState, layer: i32, ids: Seq<u32>)
    requires
        s.wf(),
        accounted(s),
        s.layout.dense_end() <= s.alloc_range().0,
        forall|j: int| 0 <= j < ids.len() ==> #[trigger] ids[j] < N_EXPERT,
        ids.len() <= s.alloc_range().1 - s.alloc_range().0,
    ensures
        pager_laws::served(s, layer, ids, 0) matches Some(t) && t.settles(layer, ids) && accounted(t),
{
    let (lo, hi) = s.alloc_range();
    lemma_room(s, lo, hi);
    lemma_demand(s, layer, ids, 0, lo, hi);
    pager_laws::a_request_that_fits_is_resident_at_once(s, layer, ids);
    lemma_served(s, layer, ids, 0);
}

proof fn lemma_served(s: PoolState, layer: i32, ids: Seq<u32>, i: int)
    requires
        s.wf(),
        accounted(s),
        0 <= i <= ids.len(),
        forall|j: int| 0 <= j < ids.len() ==> #[trigger] ids[j] < N_EXPERT,
    ensures
        pager_laws::served(s, layer, ids, i) matches Some(t) ==> accounted(t),
    decreases ids.len() - i,
{
    if i < ids.len() {
        let e = ids[i];
        let k = pool::expert_key(layer, e);
        if s.slot_of.contains_key(k) {
            pool::lemma_hit_wf(s, layer, e);
            lemma_touched(s.counted_request(), s.slot_of[k]);
            lemma_served(s.hit(layer, e), layer, ids, i + 1);
        } else {
            let m = s.missed(layer, e);
            pager_laws::lemma_miss_wf(m, layer, ids.take(i), e);
            if let Some(slot) = m.miss_slot(layer, ids.take(i), m.alloc_range().0, m.alloc_range().1) {
                let a = m.allocated(slot);
                every_operation_keeps_slots_accounted(m, layer, e, slot);
                every_operation_keeps_slots_accounted(a, layer, e, slot);
                pool::lemma_paged_in_wf(a, layer, e, slot);
                lemma_served(a.paged_in(layer, e, slot), layer, ids, i + 1);
            }
        }
    }
}

/// One of `misses[n..]` waits to be read into slot `x`.
spec fn waits(misses: Seq<(u32, u32)>, n: int, x: int) -> bool {
    exists|m: int| n <= m < misses.len() && (#[trigger] misses[m]).1 == x
}

/// Every slot of the decode region that is in use stands in the order of use, or
/// waits for one of `misses[n..]`.
spec fn accounted_but(s: PoolState, misses: Seq<(u32, u32)>, n: int) -> bool {
    forall|x: int|
        s.layout.dense_end() <= x < s.layout.n_slots && (#[trigger] s.slot_key[x]) is Some ==> s.lru.contains(
            x as u32,
        ) || waits(misses, n, x)
}

/// A batched request that asks for no expert twice, and for no more than the decode
/// region has slots, gets a slot for each of its misses. Once they have been read,
/// every expert asked for is resident in a slot of its own that the remap names,
/// and the slots in use are accounted for as before.
pub proof fn a_batched_request_no_larger_than_the_decode_region_is_served(
    s: PoolState,
    layer: i32,
    ids: Seq<u32>,
)
    requires
        s.wf(),
        accounted(s),
        s.layout.dense_end() < s.layout.n_slots,
        forall|j: int| 0 <= j < ids.len() ==> #[trigger] ids[j] < N_EXPERT,
        forall|i: int, j: int| 0 <= i < j < ids.len() ==> ids[i] != ids[j],
        ids.len() <= s.layout.n_slots - s.layout.dense_end(),
    ensures
        ({
            let (t, misses, done) = s.classified(layer, ids, 0, Seq::empty());
            let u = pager_laws::read_in(t, layer, misses, misses.len() as int);
            &&& done
            &&& u.settles(layer, ids)
            &&& accounted(u)
        }),
{
    let lo = s.layout.dense_end();
    let hi = s.layout.n_slots as int;
    lemma_room(s, lo, hi);
    lemma_demand(s, layer, ids, 0, lo, hi);
    pager_laws::a_batched_request_that_fits_gets_its_slots(s, layer, ids);
    pager_laws::every_expert_of_a_batched_request_is_resident(s, layer, ids);
    lemma_classified(s, layer, ids, 0, Seq::empty());
    let (t, misses, done) = s.classified(layer, ids, 0, Seq::empty());
    lemma_read(t, layer, misses, misses.len() as int);
}

proof fn lemma_classified(s: PoolState, layer: i32, ids: Seq<u32>, i: int, misses: Seq<(u32, u32)>)
    requires
        s.wf(),
        accounted_but(s, misses, 0),
        0 <= i <= ids.len(),
        forall|j: int| 0 <= j < ids.len() ==> #[trigger] ids[j] < N_EXPERT,
    ensures
        ({
            let (t, ms, done) = s.classified(layer, ids, i, misses);
            done ==> t.wf() && accounted_but(t, ms, 0)
        }),
    decreases ids.len() - i,
{
    if i < ids.len() {
        let e = ids[i];
        let k = pool::expert_key(layer, e);
        if s.slot_of.contains_key(k) {
            let t = s.hit(layer, e);
            pool::lemma_hit_wf(s, layer, e);
            lemma_touched_but(s.counted_request(), s.slot_of[k], misses, 0);
            assert(accounted_but(t, misses, 0)) by {
                let c = s.counted_request().touched(s.slot_of[k]);
                assert(t.slot_key == c.slot_key && t.lru == c.lru);
            }
            lemma_classified(t, layer, ids, i + 1, misses);
        } else {
            let m = s.missed(layer, e);
            let kept = ids.take(i);
            let lo = m.layout.lru_floor();
            let hi = m.layout.n_slots as int;
            pager_laws::lemma_floor(m.layout);
            pager_laws::lemma_miss_slot(m, layer, kept, lo, hi);
            if let Some(slot) = m.miss_slot(layer, kept, lo, hi) {
                let a = m.allocated(slot);
                let t = m.claimed(layer, e, slot);
                let ms = misses.push((e, slot));
                pool::lemma_claimed_wf(m, layer, e, slot);
                pool::lemma_without(m.lru, slot);
                pool::lemma_allocated_wf(m, slot);
                pool::lemma_without(a.lru, slot);
                assert forall|x: int|
                    t.layout.dense_end() <= x < t.layout.n_slots && (#[trigger] t.slot_key[x]) is Some implies t.lru.contains(
                    x as u32,
                ) || waits(ms, 0, x) by {
                    if x == slot {
                        assert(ms[misses.len() as int].1 == x);
                    } else {
                        assert(s.slot_key[x] is Some);
                        if waits(misses, 0, x) {
                            let q = choose|q: int| 0 <= q < misses.len() && (#[trigger] misses[q]).1 == x;
                            assert(ms[q].1 == x);
                        } else {
                            assert(m.lru.contains(x as u32));
                            assert(a.lru.contains(x as u32));
                        }
                    }
                }
                lemma_classified(t, layer, ids, i + 1, ms);
            }
        }
    }
}

proof fn lemma_touched_but(s: PoolState, slot: u32, misses: Seq<(u32, u32)>, n: int)
    requires
        s.layout.wf(),
        s.slot_key.len() == s.layout.n_slots,
        pool::no_dup(s.lru),
        accounted_but(s, misses, n),
    ensures
        accounted_but(s.touched(slot), misses, n),
        s.touched(slot).lru.contains(slot),
{
    let t = s.touched(slot);
    let r = pool::without(s.lru, slot);
    pager_laws::lemma_floor(s.layout);
    pool::lemma_without(s.lru, slot);
    lemma_latest(s.lru, slot);
    assert forall|x: int|
        s.layout.dense_end() <= x < s.layout.n_slots && (#[trigger] t.slot_key[x]) is Some implies t.lru.contains(
        x as u32,
    ) || waits(misses, n, x) by {
        assert(s.slot_key[x] is Some);
        if !waits(misses, n, x) && x as u32 != slot {
            assert(r.contains(x as u32));
            let i = choose|i: int| 0 <= i < r.len() && r[i] == x as u32;
            assert(t.lru[i] == x as u32);
        }
    }
}

proof fn lemma_read(s: PoolState, layer: i32, misses: Seq<(u32, u32)>, n: int)
    requires
        s.wf(),
        accounted_but(s, misses, 0),
        0 <= n <= misses.len(),
        forall|j: int| 0 <= j < misses.len() ==> (#[trigger] misses[j]).1 < s.layout.n_slots,
    ensures
        ({
            let t = pager_laws::read_in(s, layer, misses, n);
            &&& t.layout == s.layout
            &&& t.slot_key.len() == s.slot_key.len()
            &&& pool::no_dup(t.lru)
            &&& accounted_but(t, misses, n)
        }),
    decreases n,
{
    if n > 0 {
        lemma_read(s, layer, misses, n - 1);
        let p = pager_laws::read_in(s, layer, misses, n - 1);
        let (e, slot) = misses[n - 1];
        assert(misses[n - 1].1 == slot);
        lemma_touched_but(p, slot, misses, n - 1);
        let t = p.paged_in(layer, e, slot);
        let r = pool::without(p.lru, slot);
        pool::lemma_without(p.lru, slot);
        assert(t.lru == r.push(slot));
        assert forall|i: int, j: int| 0 <= i < j < t.lru.len() implies t.lru[i] != t.lru[j] by {
            assert(r.contains(r[i]));
        }
        assert forall|x: int|
            t.layout.dense_end() <= x < t.layout.n_slots && (#[trigger] t.slot_key[x]) is Some implies t.lru.contains(
            x as u32,
        ) || waits(misses, n, x) by {
            if x != slot {
                assert(p.touched(slot).slot_key[x] is Some);
                if waits(misses, n - 1, x) {
                    let q = choose|q: int| n - 1 <= q < misses.len() && (#[trigger] misses[q]).1 == x;
                    assert(q != n - 1);
                }
            }
        }
    }
}

} // verus!
