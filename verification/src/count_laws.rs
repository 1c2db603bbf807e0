//! What the pool's counters and its remap say: every request is counted once, in the
//! phase that it belongs to, and every entry names the slot that it was made of.

use vstd::prelude::*;
use crate::config::N_EXPERT;
use crate::expert_pager;
use crate::pager_laws;
use crate::pool::{PagerCounters, PoolState};
use crate::pool;

verus! {

/// An entry of this device is negative and gives its slot back, so it is never
/// taken for another device's.
pub proof fn an_entry_gives_its_slot_back(slot: int)
    requires
        0 <= slot <= i32::MAX,
    ensures
        pool::own(slot) < 0,
        -pool::own(slot) - 1 == slot,
{
}

/// A reset remap names every expert of the model, each at the slot of its own
/// number, and takes nobody out of the pool.
pub proof fn a_reset_remap_names_every_expert(s: PoolState, layer: i32, e: int)
    requires
        0 <= e < N_EXPERT,
    ensures
        s.remap_reset(layer).remap.len() == 384,
        -s.remap_reset(layer).remap[e] - 1 == e,
        s.remap_reset(layer).cur_layer == layer,
        s.remap_reset(layer).slot_of == s.slot_of,
        s.remap_reset(layer).slot_key == s.slot_key,
        s.remap_reset(layer).lru == s.lru,
        s.remap_reset(layer).counters == s.counters,
        s.remap_reset(layer).window_layer == s.window_layer,
        s.remap_reset(layer).window_dense == s.window_dense,
{
}

/// A cleared pool holds nobody: every slot is free, none was used, and no window
/// stands for a layer. What was counted stays counted.
pub proof fn a_cleared_pool_holds_nobody(s: PoolState, k: u64, slot: int, w: int)
    requires
        s.wf(),
        0 <= slot < s.layout.n_slots,
        0 <= w < s.window_layer.len(),
    ensures
        !s.emptied().slot_of.contains_key(k),
        s.emptied().slot_key[slot] is None,
        s.emptied().lru.len() == 0,
        s.emptied().window_layer[w] is None,
        !s.emptied().window_dense[w],
        s.emptied().counters == s.counters,
        s.emptied().miss_hist == s.miss_hist,
        s.emptied().remap == s.remap,
        s.emptied().layout == s.layout,
        s.emptied().wf(),
{
}

/// Without a scan window, a pool with room above its windows gives a miss every slot
/// up there and none that a window has.
pub proof fn a_miss_keeps_out_of_the_windows(s: PoolState, slot: int, w: int)
    requires
        s.wf(),
        s.scan_window is None,
        s.layout.n_slots > (s.layout.dense_windows - 1) * s.layout.stride + 384,
        0 <= slot < s.layout.n_slots,
        0 <= w <= s.layout.pinned(),
    ensures
        s.alloc_range().0 <= slot < s.alloc_range().1 <==> slot >= (s.layout.dense_windows - 1)
            * s.layout.stride + 384,
        s.layout.in_window(w, slot) ==> !(s.alloc_range().0 <= slot < s.alloc_range().1),
{
    assert((s.layout.dense_windows - 1) * s.layout.stride >= 0) by (nonlinear_arith)
        requires
            s.layout.dense_windows >= 1,
            s.layout.stride >= 1,
    ;
    if s.layout.in_window(w, slot) {
        crate::windows::windows_lie_below_the_decode_region(s.layout, w, slot);
    }
}

/// A pool without room above its windows shares all of its slots.
pub proof fn a_full_pool_shares_its_slots(s: PoolState, slot: int)
    requires
        s.wf(),
        s.scan_window is None,
        s.layout.n_slots <= (s.layout.dense_windows - 1) * s.layout.stride + 384,
        0 <= slot < s.layout.n_slots,
    ensures
        s.alloc_range().0 <= slot < s.alloc_range().1,
{
}

/// A scan window gives a miss the pool's slots in it, and no others.
pub proof fn a_scan_window_confines_a_miss(s: PoolState, lo: usize, hi: usize, slot: int)
    requires
        s.scan_window == Some((lo, hi)),
        lo < hi,
        lo < s.layout.n_slots,
    ensures
        s.alloc_range().0 <= slot < s.alloc_range().1 <==> lo <= slot < hi && slot < s.layout.n_slots,
{
}

/// Counters that differ by this many requests and misses of one phase alone.
pub open spec fn counted(
    c: PagerCounters,
    d: PagerCounters,
    prefill: bool,
    requests: int,
    misses: int,
) -> bool {
    let m = 0x1_0000_0000_0000_0000int;
    let (pr, pm, dr, dm) = if prefill {
        (requests, misses, 0int, 0int)
    } else {
        (0int, 0int, requests, misses)
    };
    // The counters wrap.
    &&& d.prefill_requests as int == (c.prefill_requests + pr) % m
    &&& d.prefill_misses as int == (c.prefill_misses + pm) % m
    &&& d.decode_requests as int == (c.decode_requests + dr) % m
    &&& d.decode_misses as int == (c.decode_misses + dm) % m
    &&& d.prefill_read_ns == c.prefill_read_ns
    &&& d.prefill_h2d_ns == c.prefill_h2d_ns
    &&& d.decode_read_ns == c.decode_read_ns
    &&& d.decode_h2d_ns == c.decode_h2d_ns
    &&& d.decode_alloc_ns == c.decode_alloc_ns
    &&& d.decode_pread_ns == c.decode_pread_ns
    &&& d.decode_repack_ns == c.decode_repack_ns
    &&& d.decode_pread_bytes == c.decode_pread_bytes
}

proof fn lemma_counted_more(
    c: PagerCounters,
    d: PagerCounters,
    e: PagerCounters,
    prefill: bool,
    r: int,
    m: int,
    r2: int,
    m2: int,
)
    requires
        counted(c, d, prefill, r, m),
        counted(d, e, prefill, r2, m2),
        0 <= r,
        0 <= m,
        0 <= r2,
        0 <= m2,
    ensures
        counted(c, e, prefill, r + r2, m + m2),
{
    lemma_wraps(c.prefill_requests as int, r, r2);
    lemma_wraps(c.prefill_misses as int, m, m2);
    lemma_wraps(c.decode_requests as int, r, r2);
    lemma_wraps(c.decode_misses as int, m, m2);
    lemma_wraps(c.prefill_requests as int, 0, 0);
    lemma_wraps(c.prefill_misses as int, 0, 0);
    lemma_wraps(c.decode_requests as int, 0, 0);
    lemma_wraps(c.decode_misses as int, 0, 0);
}

proof fn lemma_wraps(a: int, b: int, c: int)
    ensures
        ((a + b) % 0x1_0000_0000_0000_0000int + c) % 0x1_0000_0000_0000_0000int == (a + (b + c))
            % 0x1_0000_0000_0000_0000int,
{
    vstd::arithmetic::div_mod::lemma_add_mod_noop(a + b, c, 0x1_0000_0000_0000_0000int);
    vstd::arithmetic::div_mod::lemma_add_mod_noop((a + b) % 0x1_0000_0000_0000_0000int, c, 0x1_0000_0000_0000_0000int);
    vstd::arithmetic::div_mod::lemma_mod_twice(a + b, 0x1_0000_0000_0000_0000int);
    assert(a + b + c == a + (b + c));
}

/// A request for a resident expert counts as one request of its phase; one for a
/// missing expert as one request and one miss.
pub proof fn a_request_counts_once(s: PoolState, layer: i32, e: u32)
    ensures
        counted(s.counters, s.hit(layer, e).counters, s.count_as_prefill, 1, 0),
        counted(s.counters, s.missed(layer, e).counters, s.count_as_prefill, 1, 1),
        s.hit(layer, e).miss_hist == s.miss_hist,
        s.missed(layer, e).count_as_prefill == s.count_as_prefill,
        s.hit(layer, e).count_as_prefill == s.count_as_prefill,
{
}

/// A batched request counts every expert that it asks for, and every one that it has
/// to read as a miss, in the phase that the pool is in.
pub proof fn a_batched_request_counts_its_experts(
    s: PoolState,
    layer: i32,
    ids: Seq<u32>,
    i: int,
    misses: Seq<(u32, u32)>,
)
    requires
        0 <= i <= ids.len(),
        s.classified(layer, ids, i, misses).2,
    ensures
        ({
            let (t, all, _) = s.classified(layer, ids, i, misses);
            &&& counted(
                s.counters,
                t.counters,
                s.count_as_prefill,
                ids.len() - i,
                all.len() - misses.len(),
            )
            &&& all.len() >= misses.len()
            &&& t.count_as_prefill == s.count_as_prefill
        }),
    decreases ids.len() - i,
{
    if i < ids.len() {
        a_request_counts_once(s, layer, ids[i]);
        if s.slot_of.contains_key(pool::expert_key(layer, ids[i])) {
            let h = s.hit(layer, ids[i]);
            a_batched_request_counts_its_experts(h, layer, ids, i + 1, misses);
            let (t, all, _) = h.classified(layer, ids, i + 1, misses);
            lemma_counted_more(
                s.counters,
                h.counters,
                t.counters,
                s.count_as_prefill,
                1,
                0,
                ids.len() - i - 1,
                all.len() - misses.len(),
            );
        } else {
            let m = s.missed(layer, ids[i]);
            let slot = m.miss_slot(
                layer,
                ids.take(i),
                m.layout.lru_floor(),
                m.layout.n_slots as int,
            )->0;
            let c = m.claimed(layer, ids[i], slot);
            let more = misses.push((ids[i], slot));
            a_batched_request_counts_its_experts(c, layer, ids, i + 1, more);
            let (t, all, _) = c.classified(layer, ids, i + 1, more);
            lemma_counted_more(
                s.counters,
                c.counters,
                t.counters,
                s.count_as_prefill,
                1,
                1,
                ids.len() - i - 1,
                all.len() - more.len(),
            );
        }
    } else {
        lemma_counted_nothing(s.counters, s.count_as_prefill);
    }
}

proof fn lemma_counted_nothing(c: PagerCounters, prefill: bool)
    ensures
        counted(c, c, prefill, 0, 0),
{
}

/// Work on a window is prefill's, whatever phase the pool is in.
pub proof fn window_work_counts_as_prefill(s: PoolState, requests: int, misses: int)
    requires
        0 <= requests <= u32::MAX,
        0 <= misses <= u32::MAX,
    ensures
        counted(
            s.counters,
            s.counted_prefill(requests, misses).counters,
            true,
            requests,
            misses,
        ),
        s.counted_prefill(requests, misses).slot_of == s.slot_of,
{
}

/// The experts of the model that a request asks for.
pub open spec fn experts_of(ids: Seq<u32>) -> Set<u32> {
    Set::new(|e: u32| e < N_EXPERT && ids.contains(e))
}

/// The size of a union is the number of experts in it, however often each is named.
pub proof fn a_union_counts_each_expert_once(ids: Seq<u32>)
    ensures
        experts_of(ids).finite(),
        pool::distinct_experts(ids) == experts_of(ids).len(),
        pool::distinct_experts(ids) <= N_EXPERT,
    decreases ids.len(),
{
    if ids.len() == 0 {
        assert(experts_of(ids) =~= Set::empty());
    } else {
        let head = ids.drop_last();
        let e = ids.last();
        a_union_counts_each_expert_once(head);
        assert forall|x: u32| ids.contains(x) <==> head.contains(x) || x == e by {
            if head.contains(x) {
                let j = choose|j: int| 0 <= j < head.len() && head[j] == x;
                assert(ids[j] == x);
            }
            if x == e {
                assert(ids[ids.len() - 1] == x);
            }
            if ids.contains(x) && x != e {
                let j = choose|j: int| 0 <= j < ids.len() && ids[j] == x;
                assert(head[j] == x);
            }
        }
        if e < N_EXPERT {
            assert(experts_of(ids) =~= experts_of(head).insert(e));
        } else {
            assert(experts_of(ids) =~= experts_of(head));
        }
    }
    vstd::set_lib::lemma_int_range(0, N_EXPERT as int);
    assert(experts_of(ids).map(|e: u32| e as int).subset_of(
        vstd::set_lib::set_int_range(0, N_EXPERT as int),
    ));
    vstd::set_lib::lemma_map_size(
        experts_of(ids),
        experts_of(ids).map(|e: u32| e as int),
        |e: u32| e as int,
    );
    vstd::set_lib::lemma_len_subset(
        experts_of(ids).map(|e: u32| e as int),
        vstd::set_lib::set_int_range(0, N_EXPERT as int),
    );
}

/// A union is counted by its size: in the sum, in the extremes, and in the one bucket
/// of sixty-four sizes that it falls into, the last of which has no end.
pub proof fn a_union_is_counted_by_its_size(s: PoolState, ids: Seq<u32>, b: int)
    requires
        s.union_hist.len() == 6,
        0 <= b < 6,
        s.union_sum + 384 <= u64::MAX,
        s.union_calls < u64::MAX,
        s.union_hist[b] < u64::MAX,
    ensures
        ({
            let t = s.union_counted(ids);
            let size = experts_of(ids).len();
            &&& t.union_calls == s.union_calls + 1
            &&& t.union_sum == s.union_sum + size
            &&& t.union_max >= size && t.union_max >= s.union_max
            &&& t.union_max == size || t.union_max == s.union_max
            &&& t.union_min <= size && t.union_min <= s.union_min
            &&& t.union_min == size || t.union_min == s.union_min
            &&& t.union_hist.len() == 6
            &&& t.union_hist[b] == s.union_hist[b] + if b * 64 <= size && (b == 5 || size < b * 64
                + 64) {
                1int
            } else {
                0
            }
            &&& t.slot_of == s.slot_of && t.slot_key == s.slot_key && t.lru == s.lru && t.counters
                == s.counters
        }),
{
    a_union_counts_each_expert_once(ids);
}

/// A request reads the experts that it asks for and that the window lacks, each once.
pub proof fn a_window_reads_what_it_lacks(s: PoolState, layer: i32, ids: Seq<u32>, w: int, e: u32)
    ensures
        s.lacking(layer, ids, w).contains(e) <==> ids.contains(e) && !s.held_in(layer, e, w),
        s.lacking(layer, ids, w).no_duplicates(),
    decreases ids.len(),
{
    let all = s.lacking(layer, ids, w);
    if ids.len() > 0 {
        let head = ids.drop_last();
        let last = ids.last();
        a_window_reads_what_it_lacks(s, layer, head, w, e);
        a_window_reads_what_it_lacks(s, layer, head, w, last);
        let before = s.lacking(layer, head, w);
        assert(ids.contains(e) <==> head.contains(e) || e == last) by {
            if head.contains(e) {
                let j = choose|j: int| 0 <= j < head.len() && head[j] == e;
                assert(ids[j] == e);
            }
            if e == last {
                assert(ids[ids.len() - 1] == e);
            }
            if ids.contains(e) && e != last {
                let j = choose|j: int| 0 <= j < ids.len() && ids[j] == e;
                assert(head[j] == e);
            }
        }
        if all != before {
            assert(all == before.push(last));
            assert(all[before.len() as int] == last);
            if before.contains(e) {
                let j = choose|j: int| 0 <= j < before.len() && before[j] == e;
                assert(all[j] == e);
            }
        }
    }
}

/// The free slots of a range are all of it that hold nobody, in ascending order.
pub proof fn free_slots_are_listed_once(keys: Seq<Option<u64>>, lo: int, hi: int)
    ensures
        ({
            let free = pool::free_slots(keys, lo, hi);
            &&& forall|x: int| free.contains(x) <==> lo <= x < hi && keys[x] is None
            &&& forall|i: int, j: int| 0 <= i < j < free.len() ==> free[i] < free[j]
        }),
    decreases hi - lo,
{
    let free = pool::free_slots(keys, lo, hi);
    if lo < hi {
        free_slots_are_listed_once(keys, lo + 1, hi);
        let rest = pool::free_slots(keys, lo + 1, hi);
        assert forall|i: int| 0 <= i < rest.len() implies lo < #[trigger] rest[i] by {
            assert(rest.contains(rest[i]));
        }
        if keys[lo] is None {
            assert(free == seq![lo] + rest);
            assert forall|x: int| free.contains(x) <==> lo <= x < hi && keys[x] is None by {
                if x == lo {
                    assert(free[0] == x);
                }
                if rest.contains(x) {
                    let j = choose|j: int| 0 <= j < rest.len() && rest[j] == x;
                    assert(free[j + 1] == x);
                }
                if free.contains(x) && x != lo {
                    let j = choose|j: int| 0 <= j < free.len() && free[j] == x;
                    assert(rest[j - 1] == x);
                }
            }
        }
    }
}

/// A window that is set aside for a layer stands for it. If it stood for another one,
/// none of its slots holds anyone, and nobody is resident in it; slots elsewhere keep
/// what they hold.
pub proof fn a_taken_window_is_the_layers(s: PoolState, layer: i32, w: int, k: u64, slot: int)
    requires
        s.wf(),
        0 <= w <= s.layout.pinned(),
        s.layout.base(w) + s.layout.width(w) <= s.layout.n_slots,
        0 <= slot < s.layout.n_slots,
    ensures
        ({
            let t = s.window_taken(layer, w);
            &&& t.window_layer[w] == Some(layer)
            &&& s.window_layer[w] == Some(layer) ==> t == s
            &&& s.window_layer[w] != Some(layer) ==> {
                &&& !t.window_dense[w]
                &&& s.layout.in_window(w, slot) ==> t.slot_key[slot] is None
                &&& t.slot_of.contains_key(k) ==> !s.layout.in_window(w, t.slot_of[k] as int)
            }
            &&& !s.layout.in_window(w, slot) ==> t.slot_key[slot] == s.slot_key[slot]
            &&& t.slot_of.contains_key(k) ==> s.slot_of.contains_key(k) && t.slot_of[k]
                == s.slot_of[k]
        }),
{
    if s.window_layer[w] != Some(layer) {
        let base = s.layout.base(w);
        let u = PoolState { window_dense: s.window_dense.update(w, false), ..s };
        pager_laws::lemma_base_nonneg(s.layout, w);
        pool::lemma_vacated_range(u, base, base + s.layout.width(w));
        let v = u.vacated_range(base, base + s.layout.width(w));
        if v.slot_of.contains_key(k) {
            assert(v.slot_key[v.slot_of[k] as int] == Some(k));
            assert(u.slot_of.dom().contains(k));
        }
    }
}

/// An expert of the model is asked for up to the first number that is none.
pub proof fn a_union_stops_at_the_first_stranger(ids: Seq<u32>, i: int)
    requires
        0 <= i <= ids.len(),
    ensures
        ({
            let n = expert_pager::valid_prefix(ids, i);
            &&& i <= n <= ids.len()
            &&& forall|j: int| i <= j < n ==> #[trigger] ids[j] < 384
            &&& n < ids.len() ==> ids[n] >= 384
        }),
    decreases ids.len() - i,
{
    if i < ids.len() && ids[i] < N_EXPERT {
        a_union_stops_at_the_first_stranger(ids, i + 1);
    }
}

/// A run of requests goes on to the first expert that is not resident: those before it
/// are, each counts as a request and none as a miss, and nobody moves.
pub proof fn a_run_ends_at_the_first_missing_expert(
    s: PoolState,
    layer: i32,
    ids: Seq<u32>,
    from: int,
)
    requires
        0 <= from <= ids.len(),
    ensures
        ({
            let (t, i) = s.run_hits(layer, ids, from);
            &&& from <= i <= ids.len()
            &&& forall|j: int|
                from <= j < i ==> s.slot_of.contains_key(
                    pool::expert_key(layer, #[trigger] ids[j]),
                )
            &&& i < ids.len() ==> !s.slot_of.contains_key(pool::expert_key(layer, ids[i]))
            &&& t.slot_of == s.slot_of && t.slot_key == s.slot_key
            &&& t.miss_hist == s.miss_hist && t.count_as_prefill == s.count_as_prefill
            &&& counted(s.counters, t.counters, s.count_as_prefill, i - from, 0)
        }),
    decreases ids.len() - from,
{
    lemma_counted_nothing(s.counters, s.count_as_prefill);
    if from < ids.len() && s.slot_of.contains_key(pool::expert_key(layer, ids[from])) {
        let h = s.hit(layer, ids[from]);
        a_request_counts_once(s, layer, ids[from]);
        a_run_ends_at_the_first_missing_expert(h, layer, ids, from + 1);
        let (t, i) = h.run_hits(layer, ids, from + 1);
        lemma_counted_more(
            s.counters,
            h.counters,
            t.counters,
            s.count_as_prefill,
            1,
            0,
            i - from - 1,
            0,
        );
    }
}

/// A union request counts every expert that it names as one of prefill's requests, and
/// none as a miss yet; it is counted as one union, and its layer's window is set aside.
pub proof fn a_union_request_is_counted(s: PoolState, layer: i32, ids: Seq<u32>)
    requires
        s.wf(),
        s.layout.n_slots >= 384,
        ids.len() <= u32::MAX,
        s.union_calls < u64::MAX,
    ensures
        ({
            let t = expert_pager::union_ready(s, layer, ids);
            &&& counted(s.counters, t.counters, true, ids.len() as int, 0)
            &&& t.union_calls == s.union_calls + 1
            &&& t.cur_layer == layer
            &&& t.window_layer[s.layout.layer_window(layer)] == Some(layer)
            &&& t.miss_hist == s.miss_hist
        }),
{
    let c = (PoolState { cur_layer: layer, ..s }).counted_prefill(ids.len() as int, 0);
    let w = s.layout.layer_window(layer);
    window_work_counts_as_prefill(PoolState { cur_layer: layer, ..s }, ids.len() as int, 0);
    if c.window_layer[w] != Some(layer) {
        let base = s.layout.base(w);
        let u = PoolState { window_dense: c.window_dense.update(w, false), ..c };
        pager_laws::lemma_base_nonneg(s.layout, w);
        pager_laws::lemma_window_bounds(s.layout, w);
        pool::lemma_vacated_range(u, base, base + s.layout.width(w));
    }
}

/// A batched request takes its slots above the windows, where there is room for a region
/// of decode's own: every slot below keeps what it holds.
pub proof fn a_batched_request_keeps_out_of_the_windows(
    s: PoolState,
    layer: i32,
    ids: Seq<u32>,
    i: int,
    misses: Seq<(u32, u32)>,
    slot: int,
    j: int,
)
    requires
        s.wf(),
        0 <= i <= ids.len(),
        forall|x: int| 0 <= x < ids.len() ==> #[trigger] ids[x] < N_EXPERT,
        0 <= slot < s.layout.lru_floor(),
    ensures
        ({
            let (t, all, _) = s.classified(layer, ids, i, misses);
            &&& t.slot_key[slot] == s.slot_key[slot]
            &&& t.layout == s.layout
            &&& all.len() >= misses.len()
            &&& misses.len() <= j < all.len() ==> s.layout.lru_floor() <= all[j].1
                < s.layout.n_slots
            &&& 0 <= j < misses.len() ==> all[j] == misses[j]
        }),
    decreases ids.len() - i,
{
    if i < ids.len() {
        if s.slot_of.contains_key(pool::expert_key(layer, ids[i])) {
            pool::lemma_hit_wf(s, layer, ids[i]);
            a_batched_request_keeps_out_of_the_windows(
                s.hit(layer, ids[i]),
                layer,
                ids,
                i + 1,
                misses,
                slot,
                j,
            );
        } else {
            let m = s.missed(layer, ids[i]);
            let lo = m.layout.lru_floor();
            let hi = m.layout.n_slots as int;
            pool::lemma_first_free(m.slot_key, lo, hi);
            pool::lemma_first_evictable(m, layer, ids.take(i), lo, hi, 0);
            match m.miss_slot(layer, ids.take(i), lo, hi) {
                None => {},
                Some(x) => {
                    let more = misses.push((ids[i], x));
                    pool::lemma_claimed_wf(m, layer, ids[i], x);
                    a_batched_request_keeps_out_of_the_windows(
                        m.claimed(layer, ids[i], x),
                        layer,
                        ids,
                        i + 1,
                        more,
                        slot,
                        j,
                    );
                },
            }
        }
    }
}

} // verus!
