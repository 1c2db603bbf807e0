//! What each step on the pool does, stated on its slots, its experts and the order
//! in which its slots were used.

use vstd::prelude::*;
use crate::config::N_EXPERT;
use crate::pager_laws;
use crate::pool;
use crate::pool::PoolState;
use crate::windows;

verus! {

/// One of the experts `kept` of `layer` has `slot`.
pub open spec fn has_kept(s: PoolState, layer: i32, kept: Seq<u32>, slot: u32) -> bool {
    exists|e: u32|
        kept.contains(e) && #[trigger] s.slot_of.contains_key(pool::expert_key(layer, e))
            && s.slot_of[pool::expert_key(layer, e)] == slot
}

proof fn lemma_has_kept(s: PoolState, layer: i32, kept: Seq<u32>, slot: u32)
    ensures
        has_kept(s, layer, kept, slot) == s.keeps(layer, kept, slot),
{
    if has_kept(s, layer, kept, slot) {
        let e = choose|e: u32|
            kept.contains(e) && #[trigger] s.slot_of.contains_key(pool::expert_key(layer, e))
                && s.slot_of[pool::expert_key(layer, e)] == slot;
        let j = choose|j: int| 0 <= j < kept.len() && kept[j] == e;
        assert(s.sits(pool::expert_key(layer, kept[j]), slot));
    }
    if s.keeps(layer, kept, slot) {
        let j = choose|j: int|
            0 <= j < kept.len() && s.sits(pool::expert_key(layer, #[trigger] kept[j]), slot);
        assert(kept.contains(kept[j]));
        assert(s.slot_of.contains_key(pool::expert_key(layer, kept[j])));
    }
}

/// A miss takes a free slot of its range as long as there is one. Then it takes the
/// least recently used slot of the range that has none of the experts `kept`: every
/// slot used before it is outside of the range or has one of them. It finds no slot
/// only where none is free and every used one of the range has one of them.
pub proof fn a_miss_takes_a_free_slot_or_the_least_recently_used(
    s: PoolState,
    layer: i32,
    kept: Seq<u32>,
    lo: int,
    hi: int,
)
    requires
        s.wf(),
        0 <= lo <= hi <= s.layout.n_slots,
    ensures
        match s.miss_slot(layer, kept, lo, hi) {
            Some(slot) => {
                &&& lo <= slot < hi
                &&& s.slot_key[slot as int] is Some ==> {
                    &&& forall|x: int| lo <= x < hi ==> (#[trigger] s.slot_key[x]) is Some
                    &&& !has_kept(s, layer, kept, slot)
                    &&& exists|p: int|
                        0 <= p < s.lru.len() && #[trigger] s.lru[p] == slot && forall|j: int|
                            0 <= j < p ==> !(lo <= #[trigger] s.lru[j] < hi) || has_kept(
                                s,
                                layer,
                                kept,
                                s.lru[j],
                            )
                }
                &&& s.slot_key[slot as int] is None ==> forall|x: int|
                    lo <= x < slot ==> (#[trigger] s.slot_key[x]) is Some
            },
            None => {
                &&& forall|x: int| lo <= x < hi ==> (#[trigger] s.slot_key[x]) is Some
                &&& forall|j: int|
                    0 <= j < s.lru.len() ==> !(lo <= #[trigger] s.lru[j] < hi) || has_kept(
                        s,
                        layer,
                        kept,
                        s.lru[j],
                    )
            },
        },
{
    pool::lemma_first_free(s.slot_key, lo, hi);
    pool::lemma_first_evictable(s, layer, kept, lo, hi, 0);
    assert forall|x: u32| #[trigger] has_kept(s, layer, kept, x) == s.keeps(layer, kept, x) by {
        lemma_has_kept(s, layer, kept, x);
    }
    if pool::first_free(s.slot_key, lo, hi) is None {
        if let Some(p) = s.first_evictable(layer, kept, lo, hi, 0) {
            let slot = s.lru[p];
            assert(s.slot_key[slot as int] is Some);
            assert forall|j: int| 0 <= j < p implies !(lo <= #[trigger] s.lru[j] < hi) || has_kept(
                s,
                layer,
                kept,
                s.lru[j],
            ) by {
                lemma_has_kept(s, layer, kept, s.lru[j]);
            }
            lemma_has_kept(s, layer, kept, slot);
        } else {
            assert forall|j: int| 0 <= j < s.lru.len() implies !(lo <= #[trigger] s.lru[j] < hi) || has_kept(
                s,
                layer,
                kept,
                s.lru[j],
            ) by {
                lemma_has_kept(s, layer, kept, s.lru[j]);
            }
        }
    }
}

/// Every slot but one.
pub open spec fn other_than(slot: u32) -> spec_fn(u32) -> bool {
    |x: u32| x != slot
}

/// The order of use `after` is `before` with `slot` moved to its end: the other
/// slots keep their order.
pub open spec fn used_last(before: Seq<u32>, after: Seq<u32>, slot: u32) -> bool {
    &&& after.len() > 0
    &&& after.last() == slot
    &&& after.drop_last() == before.filter(other_than(slot))
}

proof fn lemma_without_filter(lru: Seq<u32>, slot: u32)
    requires
        pool::no_dup(lru),
    ensures
        pool::without(lru, slot) == lru.filter(other_than(slot)),
    decreases lru.len(),
{
    reveal(Seq::filter);
    pool::lemma_position_of(lru, slot, 0);
    if lru.len() > 0 {
        let head = lru.drop_last();
        assert(pool::no_dup(head)) by {
            assert forall|i: int, j: int| 0 <= i < j < head.len() implies head[i] != head[j] by {
                assert(lru[i] != lru[j]);
            }
        }
        lemma_without_filter(head, slot);
        pool::lemma_position_of(head, slot, 0);
        match pool::position_of(lru, slot, 0) {
            Some(p) => {
                if p == lru.len() - 1 {
                    if let Some(q) = pool::position_of(head, slot, 0) {
                        assert(lru[q] == slot && lru[p] == slot);
                    }
                    assert(lru.remove(p) =~= head);
                } else {
                    assert(head[p] == slot);
                    match pool::position_of(head, slot, 0) {
                        Some(q) => {
                            if q < p {
                                assert(lru[q] == slot);
                            } else if q > p {
                                assert(head[p] != slot);
                            }
                        },
                        None => {},
                    }
                    if lru.last() == slot {
                        assert(lru[p] != lru[lru.len() - 1]);
                    }
                    assert(lru.remove(p) =~= head.remove(p).push(lru.last()));
                }
            },
            None => {
                if let Some(q) = pool::position_of(head, slot, 0) {
                    assert(lru[q] == slot);
                }
                assert(lru =~= head.push(lru.last()));
            },
        }
    } else {
        assert(lru.filter(other_than(slot)) =~= lru);
    }
}

/// A request for a resident expert makes its slot the one used last, names the slot
/// in the remap and counts the request. No expert and no window changes.
pub proof fn a_hit_makes_its_slot_the_latest(s: PoolState, layer: i32, e: u32)
    requires
        s.wf(),
        e < N_EXPERT,
        s.slot_of.contains_key(pool::expert_key(layer, e)),
    ensures
        ({
            let t = s.hit(layer, e);
            let slot = s.slot_of[pool::expert_key(layer, e)];
            &&& used_last(s.lru, t.lru, slot)
            &&& t.slot_of == s.slot_of
            &&& t.slot_key == s.slot_key
            &&& t.window_layer == s.window_layer
            &&& t.window_dense == s.window_dense
            &&& t.remap[e as int] == -slot - 1
            &&& forall|d: int| 0 <= d < N_EXPERT && d != e ==> #[trigger] t.remap[d] == s.remap[d]
            &&& t.miss_hist == s.miss_hist
            &&& t.counters.prefill_misses == s.counters.prefill_misses
            &&& t.counters.decode_misses == s.counters.decode_misses
            &&& if s.count_as_prefill {
                &&& t.counters.prefill_requests == s.counters.prefill_requests.wrapping_add(1)
                &&& t.counters.decode_requests == s.counters.decode_requests
            } else {
                &&& t.counters.decode_requests == s.counters.decode_requests.wrapping_add(1)
                &&& t.counters.prefill_requests == s.counters.prefill_requests
            }
        }),
{
    let slot = s.slot_of[pool::expert_key(layer, e)];
    lemma_without_filter(s.lru, slot);
    let w = pool::without(s.lru, slot);
    assert(w.push(slot).drop_last() =~= w);
    lemma_slot_fits(s, slot);
}

/// Slots are numbers that a remap entry can carry.
proof fn lemma_slot_fits(s: PoolState, slot: u32)
    requires
        s.wf(),
        slot < s.layout.n_slots,
    ensures
        pool::own(slot as int) == -slot - 1,
{
}

/// An expert that was read in has its slot, which is the one used last and which
/// the remap names. Every other expert and slot stays as it was.
pub proof fn a_read_makes_its_expert_resident(s: PoolState, layer: i32, e: u32, slot: u32)
    requires
        s.wf(),
        e < N_EXPERT,
        slot < s.layout.n_slots,
    ensures
        ({
            let t = s.paged_in(layer, e, slot);
            let k = pool::expert_key(layer, e);
            &&& used_last(s.lru, t.lru, slot)
            &&& t.slot_of.contains_key(k)
            &&& t.slot_of[k] == slot
            &&& forall|h: u64| h != k ==> (#[trigger] t.slot_of.contains_key(h) <==> s.slot_of.contains_key(h))
            &&& forall|h: u64| h != k && #[trigger] s.slot_of.contains_key(h) ==> t.slot_of[h] == s.slot_of[h]
            &&& t.slot_key[slot as int] == Some(k)
            &&& forall|x: int|
                0 <= x < s.slot_key.len() && x != slot ==> #[trigger] t.slot_key[x] == s.slot_key[x]
            &&& t.remap[e as int] == -slot - 1
            &&& forall|d: int| 0 <= d < N_EXPERT && d != e ==> #[trigger] t.remap[d] == s.remap[d]
            &&& t.window_layer == s.window_layer
            &&& t.window_dense == s.window_dense
            &&& t.counters == s.counters
        }),
{
    lemma_without_filter(s.lru, slot);
    let w = pool::without(s.lru, slot);
    assert(w.push(slot).drop_last() =~= w);
    lemma_slot_fits(s, slot);
}

/// Making a slot ready takes away the expert that has it and no other, and the
/// standing of the window that it lies in and of no other. A slot that was in use
/// leaves the order of use, where the others keep their places.
pub proof fn making_a_slot_ready_takes_one_expert_away(s: PoolState, slot: u32)
    requires
        s.wf(),
        slot < s.layout.n_slots,
    ensures
        ({
            let t = s.allocated(slot);
            &&& t.slot_key[slot as int] is None
            &&& forall|x: int|
                0 <= x < s.slot_key.len() && x != slot ==> #[trigger] t.slot_key[x] == s.slot_key[x]
            &&& forall|k: u64| #[trigger]
                t.slot_of.contains_key(k) <==> s.slot_of.contains_key(k) && s.slot_of[k] != slot
            &&& forall|k: u64| #[trigger] t.slot_of.contains_key(k) ==> t.slot_of[k] == s.slot_of[k]
            &&& s.slot_key[slot as int] is Some ==> t.lru == s.lru.filter(other_than(slot))
            &&& s.slot_key[slot as int] is None ==> t.lru == s.lru
            &&& forall|w: int|
                #![trigger t.window_layer[w]]
                0 <= w <= s.layout.pinned() ==> if s.layout.in_window(w, slot as int) {
                    t.window_layer[w] is None && !t.window_dense[w]
                } else {
                    t.window_layer[w] == s.window_layer[w] && t.window_dense[w] == s.window_dense[w]
                }
            &&& t.remap == s.remap
            &&& t.counters == s.counters
        }),
{
    pool::lemma_allocated_wf(s, slot);
    lemma_without_filter(s.lru, slot);
    let t = s.allocated(slot);
    assert forall|k: u64| #[trigger] t.slot_of.contains_key(k) implies s.slot_of.contains_key(k)
        && s.slot_of[k] != slot && t.slot_of[k] == s.slot_of[k] by {
        assert(t.slot_of.dom().contains(k));
        assert(t.slot_key[t.slot_of[k] as int] == Some(k));
    }
    let l = s.layout;
    pager_laws::lemma_floor(l);
    if slot < l.dense_end() {
        pool::lemma_slot_window(l, slot as int);
        assert forall|w: int| #![trigger t.window_layer[w]] 0 <= w <= l.pinned() implies (l.in_window(
            w,
            slot as int,
        ) <==> w == l.slot_window(slot as int)) by {
            if l.in_window(w, slot as int) {
                windows::slot_window_inverts_in_window(l, w, slot as int);
            }
            if w == l.slot_window(slot as int) {
                lemma_in_its_window(l, slot as int);
            }
        }
    } else {
        assert forall|w: int| #![trigger t.window_layer[w]] 0 <= w <= l.pinned() implies !l.in_window(
            w,
            slot as int,
        ) by {
            if l.in_window(w, slot as int) {
                windows::windows_lie_below_the_decode_region(l, w, slot as int);
            }
        }
    }
}

proof fn lemma_in_its_window(l: windows::WindowLayout, slot: int)
    requires
        l.wf(),
        0 <= slot < l.dense_end(),
    ensures
        l.in_window(l.slot_window(slot), slot),
{
    pool::lemma_slot_window(l, slot);
    let d = l.stride as int;
    if slot < l.pinned() * l.stride {
        let w = slot / d;
        vstd::arithmetic::div_mod::lemma_fundamental_div_mod(slot, d);
        assert(w * d <= slot < w * d + d) by (nonlinear_arith)
            requires
                slot == d * w + slot % d,
                0 <= slot % d < d,
        ;
        assert(w < l.pinned()) by (nonlinear_arith)
            requires
                w * d <= slot,
                slot < l.pinned() * d,
                d >= 1,
        ;
    }
}

} // verus!
