//! What holds of a layer's window after a request for some of its experts.

use vstd::prelude::*;
use crate::config::N_EXPERT;
use crate::expert_pager;
use crate::pager_laws;
use crate::pool;
use crate::pool::PoolState;
use crate::windows;

verus! {

proof fn lemma_free_slots(keys: Seq<Option<u64>>, lo: int, hi: int)
    requires
        0 <= lo,
        hi <= keys.len(),
    ensures
        forall|j: int|
            0 <= j < pool::free_slots(keys, lo, hi).len() ==> lo <= #[trigger] pool::free_slots(keys, lo, hi)[j]
                < hi && keys[pool::free_slots(keys, lo, hi)[j]] is None,
        forall|i: int, j: int|
            0 <= i < j < pool::free_slots(keys, lo, hi).len() ==> pool::free_slots(keys, lo, hi)[i]
                < pool::free_slots(keys, lo, hi)[j],
    decreases hi - lo,
{
    if lo < hi {
        lemma_free_slots(keys, lo + 1, hi);
        let rest = pool::free_slots(keys, lo + 1, hi);
        let all = pool::free_slots(keys, lo, hi);
        if keys[lo] is None {
            assert forall|j: int| 0 <= j < all.len() implies lo <= #[trigger] all[j] < hi && keys[all[j]] is None by {
                if j > 0 {
                    assert(all[j] == rest[j - 1]);
                }
            }
            assert forall|i: int, j: int| 0 <= i < j < all.len() implies all[i] < all[j] by {
                assert(all[j] == rest[j - 1]);
                if i > 0 {
                    assert(all[i] == rest[i - 1]);
                }
            }
        }
    }
}

proof fn lemma_lacking(s: PoolState, layer: i32, ids: Seq<u32>, w: int)
    ensures
        forall|e: u32| #[trigger] s.lacking(layer, ids, w).contains(e) <==> ids.contains(e) && !s.held_in(
            layer,
            e,
            w,
        ),
        s.lacking(layer, ids, w).no_duplicates(),
    decreases ids.len(),
{
    if ids.len() > 0 {
        let head = ids.drop_last();
        let x = ids.last();
        lemma_lacking(s, layer, head, w);
        let before = s.lacking(layer, head, w);
        let all = s.lacking(layer, ids, w);
        assert(ids =~= head.push(x));
        assert forall|e: u32| #[trigger] all.contains(e) <==> ids.contains(e) && !s.held_in(layer, e, w) by {
            assert(before.contains(e) <==> head.contains(e) && !s.held_in(layer, e, w));
            assert(ids.contains(e) <==> head.contains(e) || e == x) by {
                if head.contains(e) {
                    let j = choose|j: int| 0 <= j < head.len() && head[j] == e;
                    assert(ids[j] == e);
                }
                assert(ids[ids.len() - 1] == x);
            }
            if !(head.contains(x) || s.held_in(layer, x, w)) {
                assert(all == before.push(x));
                if before.contains(e) {
                    let j = choose|j: int| 0 <= j < before.len() && before[j] == e;
                    assert(all[j] == e);
                }
                assert(all[before.len() as int] == x);
            }
        }
        assert(before.contains(x) ==> head.contains(x));
    }
}

proof fn lemma_placed_need(s: PoolState, layer: i32, need: Seq<(u32, usize)>, n: int)
    requires
        0 <= n <= need.len(),
        s.slot_key.len() <= u32::MAX,
        forall|j: int| #![trigger need[j]]
            0 <= j < need.len() ==> need[j].0 < N_EXPERT && need[j].1 < s.slot_key.len(),
        forall|i: int, j: int|
            0 <= i < j < need.len() ==> (#[trigger] need[i]).0 != (#[trigger] need[j]).0 && need[i].1 != need[j].1,
    ensures
        ({
            let t = s.placed_all(layer, need, n);
            &&& t.slot_key.len() == s.slot_key.len()
            &&& t.layout == s.layout
            &&& forall|j: int| #![trigger need[j]]
                0 <= j < n ==> {
                    &&& t.slot_key[need[j].1 as int] == Some(pool::expert_key(layer, need[j].0))
                    &&& t.slot_of.contains_key(pool::expert_key(layer, need[j].0))
                    &&& t.slot_of[pool::expert_key(layer, need[j].0)] == need[j].1
                }
            &&& forall|x: int|
                0 <= x < s.slot_key.len() && (forall|j: int| 0 <= j < n ==> (#[trigger] need[j]).1 != x)
                    ==> #[trigger] t.slot_key[x] == s.slot_key[x]
            &&& forall|e: u32| #![trigger pool::expert_key(layer, e)]
                e < N_EXPERT && (forall|j: int| 0 <= j < n ==> (#[trigger] need[j]).0 != e)
                    && s.slot_of.contains_key(pool::expert_key(layer, e)) ==> t.slot_of.contains_key(
                    pool::expert_key(layer, e),
                ) && t.slot_of[pool::expert_key(layer, e)] == s.slot_of[pool::expert_key(layer, e)]
        }),
    decreases n,
{
    if n > 0 {
        lemma_placed_need(s, layer, need, n - 1);
        let p = s.placed_all(layer, need, n - 1);
        let (x, slot) = need[n - 1];
        assert(need[n - 1].0 == x && need[n - 1].1 == slot);
        assert forall|e: u32| e < N_EXPERT && e != x implies #[trigger] pool::expert_key(layer, e)
            != pool::expert_key(layer, x) by {
            if pool::expert_key(layer, e) == pool::expert_key(layer, x) {
                pool::lemma_key_injective(layer, e, x);
            }
        }
        let t = s.placed_all(layer, need, n);
        assert forall|j: int| #![trigger need[j]] 0 <= j < n implies {
            &&& t.slot_key[need[j].1 as int] == Some(pool::expert_key(layer, need[j].0))
            &&& t.slot_of.contains_key(pool::expert_key(layer, need[j].0))
            &&& t.slot_of[pool::expert_key(layer, need[j].0)] == need[j].1
        } by {
            if j < n - 1 {
                assert(need[j].0 != need[n - 1].0 && need[j].1 != need[n - 1].1);
            }
        }
    }
}

/// What a union request answers: each expert that the window lacks with its slot,
/// and the remap.
pub open spec fn union_answer(
    s: PoolState,
    layer: i32,
    ids: Seq<u32>,
    need: Seq<(u32, usize)>,
    remap: Seq<i32>,
) -> bool {
    let w = s.layout.layer_window(layer);
    let lack = s.lacking(layer, ids, w);
    let slots = s.slots_for(lack, w);
    &&& need.len() == lack.len() <= slots.len()
    &&& forall|j: int| #![trigger need[j]]
        0 <= j < lack.len() ==> need[j].0 == lack[j] && need[j].1 == slots[j]
    &&& expert_pager::union_remap(s, layer, ids, need, remap)
}

/// The pool once the reads of a union request are done.
pub open spec fn filled(s: PoolState, layer: i32, need: Seq<(u32, usize)>) -> PoolState {
    s.room_made(layer, need, need.len() as int).placed_all(layer, need, need.len() as int)
}

/// Once a union request's reads are done, every expert asked for is in the layer's
/// window, in the slot that its remap entry names, and each in one of its own. In a
/// window with a slot for every expert that is the slot of the expert's number, as
/// after a dense fill.
pub proof fn every_expert_of_a_union_is_in_its_window(
    s: PoolState,
    layer: i32,
    ids: Seq<u32>,
    need: Seq<(u32, usize)>,
    remap: Seq<i32>,
    e: u32,
)
    requires
        s.wf(),
        s.layout.n_slots >= N_EXPERT,
        forall|i: int| 0 <= i < ids.len() ==> #[trigger] ids[i] < N_EXPERT,
        ids.contains(e),
        union_answer(s, layer, ids, need, remap),
    ensures
        ({
            let t = filled(s, layer, need);
            let w = s.layout.layer_window(layer);
            let slot = s.layout.base(w) + (-remap[e as int] - 1);
            let k = pool::expert_key(layer, e);
            &&& s.layout.in_window(w, slot)
            &&& t.slot_key[slot] == Some(k)
            &&& t.slot_of.contains_key(k)
            &&& t.slot_of[k] == slot
            &&& s.layout.width(w) == N_EXPERT ==> slot == s.layout.base(w) + e && t.in_place(w, layer, e)
            &&& forall|d: u32| #[trigger] ids.contains(d) && d != e ==> remap[d as int] != remap[e as int]
        }),
{
    lemma_union_place(s, layer, ids, need, remap, e);
    assert forall|d: u32| #[trigger] ids.contains(d) && d != e implies remap[d as int] != remap[e as int] by {
        lemma_union_place(s, layer, ids, need, remap, d);
        let i = choose|i: int| 0 <= i < ids.len() && ids[i] == e;
        let j = choose|j: int| 0 <= j < ids.len() && ids[j] == d;
        assert(ids[i] < N_EXPERT && ids[j] < N_EXPERT);
        if pool::expert_key(layer, d) == pool::expert_key(layer, e) {
            pool::lemma_key_injective(layer, d, e);
        }
    }
}

/// The slots of a union request lie in the window, and no two of its reads share
/// an expert or a slot.
proof fn lemma_need(s: PoolState, layer: i32, ids: Seq<u32>, need: Seq<(u32, usize)>, remap: Seq<i32>)
    requires
        s.wf(),
        s.layout.n_slots >= N_EXPERT,
        forall|i: int| 0 <= i < ids.len() ==> #[trigger] ids[i] < N_EXPERT,
        union_answer(s, layer, ids, need, remap),
    ensures
        forall|j: int| #![trigger need[j]]
            0 <= j < need.len() ==> {
                let w = s.layout.layer_window(layer);
                &&& need[j].0 < N_EXPERT
                &&& need[j].1 < s.slot_key.len()
                &&& s.layout.in_window(w, need[j].1 as int)
                &&& ids.contains(need[j].0)
                &&& !s.held_in(layer, need[j].0, w)
                &&& if s.layout.width(w) == N_EXPERT {
                    need[j].1 == s.layout.base(w) + need[j].0
                } else {
                    s.slot_key[need[j].1 as int] is None
                }
            },
        forall|i: int, j: int|
            0 <= i < j < need.len() ==> (#[trigger] need[i]).0 != (#[trigger] need[j]).0 && need[i].1 != need[j].1,
{
    let l = s.layout;
    let w = l.layer_window(layer);
    let lo = l.base(w);
    let hi = l.base(w) + l.width(w);
    let lack = s.lacking(layer, ids, w);
    let slots = s.slots_for(lack, w);
    pager_laws::lemma_window_bounds(l, w);
    lemma_free_slots(s.slot_key, lo, hi);
    lemma_lacking(s, layer, ids, w);
    assert forall|j: int| #![trigger need[j]] 0 <= j < need.len() implies {
        &&& need[j].0 < N_EXPERT
        &&& need[j].1 < s.slot_key.len()
        &&& l.in_window(w, need[j].1 as int)
        &&& ids.contains(need[j].0)
        &&& !s.held_in(layer, need[j].0, w)
        &&& if l.width(w) == N_EXPERT {
            need[j].1 == lo + need[j].0
        } else {
            s.slot_key[need[j].1 as int] is None
        }
    } by {
        assert(lack.contains(lack[j]));
        let x = choose|x: int| 0 <= x < ids.len() && ids[x] == lack[j];
        assert(ids[x] < N_EXPERT);
        assert(need[j].1 == slots[j]);
    }
    assert forall|a: int, b: int| 0 <= a < b < need.len() implies (#[trigger] need[a]).0 != (#[trigger] need[b]).0
        && need[a].1 != need[b].1 by {
        assert(lack[a] != lack[b]);
        assert(need[a].1 == slots[a] && need[b].1 == slots[b]);
    }
}

/// Making room changes the slots that are to be read into, and moves no other
/// expert.
proof fn lemma_room_made(s: PoolState, layer: i32, need: Seq<(u32, usize)>, n: int)
    requires
        s.wf(),
        0 <= n <= need.len(),
        forall|j: int| #![trigger need[j]] 0 <= j < need.len() ==> need[j].1 < s.slot_key.len(),
    ensures
        ({
            let t = s.room_made(layer, need, n);
            &&& t.wf()
            &&& t == (PoolState { slot_of: t.slot_of, slot_key: t.slot_key, ..s })
            &&& forall|x: int|
                0 <= x < s.slot_key.len() && (forall|j: int| 0 <= j < n ==> (#[trigger] need[j]).1 != x)
                    ==> #[trigger] t.slot_key[x] == s.slot_key[x]
            &&& forall|k: u64| #[trigger]
                s.slot_of.contains_key(k) && (forall|j: int|
                    0 <= j < n ==> (#[trigger] need[j]).1 != s.slot_of[k]) ==> t.slot_of.contains_key(k)
                    && t.slot_of[k] == s.slot_of[k]
        }),
    decreases n,
{
    if n > 0 {
        lemma_room_made(s, layer, need, n - 1);
        let p = s.room_made(layer, need, n - 1);
        assert(need[n - 1].1 < s.slot_key.len());
        pool::lemma_vacated_wf(p, need[n - 1].1 as u32);
    }
}

proof fn lemma_union_place(
    s: PoolState,
    layer: i32,
    ids: Seq<u32>,
    need: Seq<(u32, usize)>,
    remap: Seq<i32>,
    e: u32,
)
    requires
        s.wf(),
        s.layout.n_slots >= N_EXPERT,
        forall|i: int| 0 <= i < ids.len() ==> #[trigger] ids[i] < N_EXPERT,
        ids.contains(e),
        union_answer(s, layer, ids, need, remap),
    ensures
        ({
            let t = filled(s, layer, need);
            let w = s.layout.layer_window(layer);
            let slot = s.layout.base(w) + (-remap[e as int] - 1);
            let k = pool::expert_key(layer, e);
            &&& t.layout == s.layout
            &&& s.layout.in_window(w, slot)
            &&& t.slot_key[slot] == Some(k)
            &&& t.slot_of.contains_key(k)
            &&& t.slot_of[k] == slot
            &&& s.layout.width(w) == N_EXPERT ==> slot == s.layout.base(w) + e
        }),
{
    let w = s.layout.layer_window(layer);
    let n = need.len() as int;
    let lack = s.lacking(layer, ids, w);
    let i = choose|i: int| 0 <= i < ids.len() && ids[i] == e;
    assert(ids[i] == e && e < N_EXPERT);
    pager_laws::lemma_window_bounds(s.layout, w);
    lemma_need(s, layer, ids, need, remap);
    lemma_room_made(s, layer, need, n);
    let r = s.room_made(layer, need, n);
    lemma_placed_need(r, layer, need, n);
    let k = pool::expert_key(layer, e);
    lemma_lacking(s, layer, ids, w);
    if s.held_in(layer, e, w) {
        let slot = s.slot_of[k] as int;
        assert forall|j: int| 0 <= j < need.len() implies (#[trigger] need[j]).0 != e && need[j].1 != slot by {
            assert(!s.held_in(layer, need[j].0, w));
        }
        assert(remap[e as int] == expert_pager::window_entry(s, layer, e));
    } else {
        assert(lack.contains(e));
        let j = choose|j: int| 0 <= j < lack.len() && lack[j] == e;
        assert(need[j].0 == e);
    }
}

/// Filling a window for a union keeps the complete windows complete, the layer's
/// own among them.
pub proof fn a_union_keeps_windows_faithful(
    s: PoolState,
    layer: i32,
    ids: Seq<u32>,
    need: Seq<(u32, usize)>,
    remap: Seq<i32>,
)
    requires
        s.wf(),
        s.dense_windows_faithful(),
        s.layout.n_slots >= N_EXPERT,
        s.window_layer[s.layout.layer_window(layer)] == Some(layer),
        forall|i: int| 0 <= i < ids.len() ==> #[trigger] ids[i] < N_EXPERT,
        union_answer(s, layer, ids, need, remap),
    ensures
        filled(s, layer, need).dense_windows_faithful(),
{
    let l = s.layout;
    let v = l.layer_window(layer);
    let n = need.len() as int;
    lemma_need(s, layer, ids, need, remap);
    lemma_room_made(s, layer, need, n);
    let r = s.room_made(layer, need, n);
    lemma_placed_need(r, layer, need, n);
    lemma_placed_windows(r, layer, need, n);
    let t = filled(s, layer, need);
    assert forall|w: int| 0 <= w < t.layout.dense_windows && #[trigger] t.window_dense[w] implies t.complete(w) by {
        assert(s.window_dense[w]);
        assert(s.complete(w));
        if w == v {
            assert(s.window_layer[v] == Some(layer) && s.complete(v));
            assert(s.window_layer[v]->0 == layer);
            assert forall|e: u32| e < N_EXPERT implies #[trigger] t.in_place(v, layer, e) by {
                assert(s.in_place(v, layer, e));
                pager_laws::lemma_window_bounds(l, v);
                let x = l.base(v) + e;
                if exists|j: int| 0 <= j < n && (#[trigger] need[j]).1 == x {
                    let j = choose|j: int| 0 <= j < n && (#[trigger] need[j]).1 == x;
                    assert(need[j].0 == e);
                } else {
                    assert(r.slot_key[x] == s.slot_key[x]);
                    assert(t.slot_key[x] == r.slot_key[x]);
                }
            }
        } else if s.window_layer[w] is Some {
            pager_laws::lemma_base_nonneg(l, w);
            assert forall|x: int| l.in_window(w, x) implies #[trigger] t.slot_key[x] == s.slot_key[x] by {
                assert forall|j: int| 0 <= j < n implies (#[trigger] need[j]).1 != x by {
                    if l.in_window(v, x) {
                        if v < w {
                            windows::windows_are_disjoint(l, v, w, x);
                        } else {
                            windows::windows_are_disjoint(l, w, v, x);
                        }
                    }
                }
                assert(r.slot_key[x] == s.slot_key[x]);
            }
            pager_laws::lemma_complete(s, t, w);
        }
    }
}

proof fn lemma_placed_windows(s: PoolState, layer: i32, need: Seq<(u32, usize)>, n: int)
    ensures
        s.placed_all(layer, need, n).window_layer == s.window_layer,
        s.placed_all(layer, need, n).window_dense == s.window_dense,
    decreases n,
{
    if n > 0 {
        lemma_placed_windows(s, layer, need, n - 1);
    }
}

} // verus!
