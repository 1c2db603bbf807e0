//! On-demand expert paging: which expert sits in which slot of a fixed pool.
//!
//! The pager decides; its caller reads and uploads. `ensure` and its relatives
//! say which slot an absent expert goes to, the caller brings the bytes there,
//! and `page_in` and its relatives record it. A read that fails is simply not
//! recorded: the slot stays free, or, where `ensure_batched` has kept it for the
//! expert, stays kept until the pool is cleared.

use vstd::prelude::*;
use std::collections::HashMap;
use crate::config::{MAX_MOE_GROUP_IDS, N_EMBD, N_EXPERT, N_FF_EXP, N_LAYER};
use crate::miss_shape;
use crate::miss_shape::MissShape;
use crate::pool;
use crate::pool::{key_of, PagerCounters, PoolState};
use crate::prefetch::{PrefetchState, Prefetcher};
use crate::residency;
use crate::residency::{clear_box2_miss, push_hint, Box2Misses, ResidencyHints};
use crate::windows;
use crate::windows::{dense_window_count, total_windows, window_stride, WindowLayout};

verus! {

broadcast use vstd::std_specs::hash::group_hash_axioms;

/// Why the pager refused a request.
#[derive(Debug, Clone, Copy, PartialEq, Eq, Structural)]
pub enum PagerError {
    /// More experts were asked for than the pool has slots.
    TooMany { asked: usize, slots: u32 },
    /// No slot of the range is free or can be evicted.
    NoSlot,
    /// A layer's window needs more slots than the pool has.
    PoolTooSmall { slots: u32 },
    /// A whole layer was asked for in a window that is narrower.
    WindowPacked { window: u32, width: usize },
    /// More misses than the staging buffers hold.
    StagingFull { misses: usize, batch: usize },
    /// No such expert.
    BadExpert { id: u32 },
    /// The experts asked for do not fit the layer's window.
    UnionTooWide { window: u32, width: usize },
    /// A remap entry names a slot that holds another expert.
    WrongSlot { expert: u32, slot: usize },
}

/// What the caller of `ensure` does next.
#[derive(Debug, Clone, Copy, PartialEq, Eq, Structural)]
pub enum EnsureStep {
    /// Every expert is resident; upload the remap.
    Done,
    /// Bring expert number `index` of the request into `slot`, record it with
    /// `page_in`, and go on after it.
    Fetch { index: usize, slot: u32 },
}

/// What the caller of `ensure_layer_dense` does next.
#[derive(Debug, Clone, Copy, PartialEq, Eq, Structural)]
pub enum DenseStep {
    /// The layer is resident in its window.
    Resident,
    /// Bring expert `e` of the layer into slot `base + e`, for every `e`.
    Fill { base: usize },
}

/// Depth and width of a routed expert's tensor.
pub fn role_kr(which: &str) -> (r: (u64, u64))
    ensures
        r == (if which@ == "down"@ {
            (N_FF_EXP as u64, N_EMBD as u64)
        } else {
            (N_EMBD as u64, N_FF_EXP as u64)
        }),
{
    if which.to_owned() == "down".to_owned() {
        (N_FF_EXP as u64, N_EMBD as u64)
    } else {
        (N_EMBD as u64, N_FF_EXP as u64)
    }
}

/// Every slot of `misses` is kept for its expert, and no two are the same.
pub open spec fn claims_hold(s: PoolState, layer: i32, misses: Seq<(u32, u32)>) -> bool {
    &&& forall|j: int| #![trigger misses[j]]
        0 <= j < misses.len() ==> {
            &&& misses[j].0 < N_EXPERT
            &&& misses[j].1 < s.layout.n_slots
            &&& s.slot_key[misses[j].1 as int] == Some(pool::expert_key(layer, misses[j].0))
        }
    &&& forall|i: int, j: int|
        0 <= i < j < misses.len() ==> #[trigger] misses[i].1 != #[trigger] misses[j].1
}

/// No kept slot can be evicted, and none is an expert's slot yet.
pub open spec fn claims_safe(s: PoolState, layer: i32, misses: Seq<(u32, u32)>) -> bool {
    forall|j: int| #![trigger misses[j]]
        0 <= j < misses.len() ==> {
            &&& !s.lru.contains(misses[j].1)
            &&& !s.slot_of.contains_key(pool::expert_key(layer, misses[j].0))
        }
}

pub proof fn lemma_claims_hit(s: PoolState, layer: i32, e: u32, misses: Seq<(u32, u32)>)
    requires
        s.wf(),
        e < N_EXPERT,
        s.slot_of.contains_key(pool::expert_key(layer, e)),
        claims_hold(s, layer, misses),
        claims_safe(s, layer, misses),
    ensures
        claims_hold(s.hit(layer, e), layer, misses),
        claims_safe(s.hit(layer, e), layer, misses),
{
    let slot = s.slot_of[pool::expert_key(layer, e)];
    let h = s.hit(layer, e);
    pool::lemma_without(s.lru, slot);
    assert forall|j: int| #![trigger misses[j]] 0 <= j < misses.len() implies !h.lru.contains(misses[j].1) by {
        let x = misses[j].1;
        assert(x != slot);
        assert(!pool::without(s.lru, slot).contains(x));
        assert(h.lru == pool::without(s.lru, slot).push(slot));
    }
}

pub proof fn lemma_claims_claim(m: PoolState, layer: i32, e: u32, slot: u32, misses: Seq<(u32, u32)>)
    requires
        m.wf(),
        e < N_EXPERT,
        !m.slot_of.contains_key(pool::expert_key(layer, e)),
        exists|kept: Seq<u32>| #[trigger]
            m.miss_slot(layer, kept, m.layout.lru_floor(), m.layout.n_slots as int) == Some(slot),
        slot < m.layout.n_slots,
        claims_hold(m, layer, misses),
        claims_safe(m, layer, misses),
    ensures
        claims_hold(m.claimed(layer, e, slot), layer, misses.push((e, slot))),
        claims_safe(m.claimed(layer, e, slot), layer, misses.push((e, slot))),
{
    let lo = m.layout.lru_floor();
    let hi = m.layout.n_slots as int;
    pool::lemma_claimed_wf(m, layer, e, slot);
    pool::lemma_first_free(m.slot_key, lo, hi);
    let kept = choose|kept: Seq<u32>| #[trigger] m.miss_slot(layer, kept, lo, hi) == Some(slot);
    pool::lemma_first_evictable(m, layer, kept, lo, hi, 0);
    let c = m.claimed(layer, e, slot);
    let p = misses.push((e, slot));
    assert forall|j: int| #![trigger misses[j]] 0 <= j < misses.len() implies misses[j].1 != slot by {
        if m.slot_key[slot as int] is Some {
            assert(m.lru.contains(slot));
        }
    }
    assert forall|j: int| #![trigger p[j]] 0 <= j < p.len() implies {
        &&& !c.lru.contains(p[j].1)
        &&& !c.slot_of.contains_key(pool::expert_key(layer, p[j].0))
    } by {
        if j < misses.len() {
            assert(p[j] == misses[j]);
        }
    }
    assert forall|j: int| #![trigger p[j]] 0 <= j < p.len() implies {
        &&& p[j].0 < N_EXPERT
        &&& p[j].1 < c.layout.n_slots
        &&& c.slot_key[p[j].1 as int] == Some(pool::expert_key(layer, p[j].0))
    } by {
        if j < misses.len() {
            assert(p[j] == misses[j]);
        }
    }
    assert forall|i: int, j: int| 0 <= i < j < p.len() implies #[trigger] p[i].1 != #[trigger] p[j].1 by {
        assert(p[i] == misses[i]);
        if j < misses.len() {
            assert(p[j] == misses[j]);
        }
    }
}

/// `entry` is 0 where `is_remote` answered yes for expert `e`, else `local`.
pub open spec fn entry_by<F: Fn(u32) -> bool>(is_remote: F, e: u32, local: i32, entry: i32) -> bool {
    ||| call_ensures(is_remote, (e,), true) && entry == 0
    ||| call_ensures(is_remote, (e,), false) && entry == local
}

/// The remap entry of expert `e` for a kernel that sees `layer`'s window only.
pub open spec fn window_entry(s: PoolState, layer: i32, e: u32) -> i32 {
    let w = s.layout.layer_window(layer);
    if s.resident_in(layer, e, w) {
        pool::own(s.slot_of[pool::expert_key(layer, e)] - s.layout.base(w))
    } else {
        0
    }
}

/// Number of leading ids from `i` on that are experts of the model.
pub open spec fn valid_prefix(ids: Seq<u32>, i: int) -> int
    decreases ids.len() - i,
{
    if i >= ids.len() || ids[i] >= N_EXPERT {
        i
    } else {
        valid_prefix(ids, i + 1)
    }
}

proof fn lemma_valid_prefix(ids: Seq<u32>, i: int)
    requires
        0 <= i <= ids.len(),
    ensures
        i <= valid_prefix(ids, i) <= ids.len(),
        forall|j: int| i <= j < valid_prefix(ids, i) ==> #[trigger] ids[j] < N_EXPERT,
        valid_prefix(ids, i) < ids.len() ==> ids[valid_prefix(ids, i)] >= N_EXPERT,
    decreases ids.len() - i,
{
    if i < ids.len() && ids[i] < N_EXPERT {
        lemma_valid_prefix(ids, i + 1);
    }
}

/// The pool when a union request starts to assign slots: the request is counted
/// and the layer's window is set aside for it.
pub open spec fn union_ready(s: PoolState, layer: i32, ids: Seq<u32>) -> PoolState {
    (PoolState { cur_layer: layer, ..s }).counted_prefill(ids.len() as int, 0).window_taken(
        layer,
        s.layout.layer_window(layer),
    ).union_counted(ids)
}

/// The remap of a union request: an expert that was asked for has its slot, the
/// one it was in or the one it is to be read into, and all others have 0.
pub open spec fn union_remap(
    s: PoolState,
    layer: i32,
    ids: Seq<u32>,
    need: Seq<(u32, usize)>,
    remap: Seq<i32>,
) -> bool {
    let w = s.layout.layer_window(layer);
    &&& remap.len() == N_EXPERT
    &&& forall|e: u32| e < N_EXPERT && !ids.contains(e) ==> #[trigger] remap[e as int] == 0
    &&& forall|e: u32|
        e < N_EXPERT && ids.contains(e) && s.held_in(layer, e, w) ==> #[trigger] remap[e as int]
            == window_entry(s, layer, e)
    &&& forall|j: int| #![trigger need[j]]
        0 <= j < need.len() ==> remap[need[j].0 as int] == pool::own(need[j].1 - s.layout.base(w))
    &&& s.layout.width(w) == N_EXPERT ==> forall|e: u32|
        e < N_EXPERT && ids.contains(e) ==> #[trigger] remap[e as int] == pool::own(e as int)
}

/// `assign` gives each distinct expert of `ids` its slot.
spec fn assigned(
    s: PoolState,
    layer: i32,
    ids: Seq<u32>,
    w: int,
    need: Seq<(u32, usize)>,
    assign: Seq<(u32, usize)>,
) -> bool {
    &&& forall|i: int, j: int|
        0 <= i < j < assign.len() ==> #[trigger] assign[i].0 != #[trigger] assign[j].0
    &&& forall|j: int| #![trigger assign[j]]
        0 <= j < assign.len() ==> {
            &&& ids.contains(assign[j].0)
            &&& s.held_in(layer, assign[j].0, w) ==> assign[j].1 == s.slot_of[pool::expert_key(
                layer,
                assign[j].0,
            )]
            &&& s.layout.width(w) == N_EXPERT ==> assign[j].1 == s.layout.base(w) + assign[j].0
        }
    &&& forall|e: u32| #[trigger]
        ids.contains(e) ==> exists|j: int| 0 <= j < assign.len() && (#[trigger] assign[j]).0 == e
    &&& forall|j: int| #![trigger need[j]]
        0 <= j < need.len() ==> listed(assign, need[j].0, need[j].1)
}

/// `assign` gives expert `e` the slot `sl`.
spec fn listed(assign: Seq<(u32, usize)>, e: u32, sl: usize) -> bool {
    exists|x: int| 0 <= x < assign.len() && (#[trigger] assign[x]).0 == e && assign[x].1 == sl
}

proof fn lemma_assigned_dup(
    s: PoolState,
    layer: i32,
    ids: Seq<u32>,
    w: int,
    need: Seq<(u32, usize)>,
    assign: Seq<(u32, usize)>,
    e: u32,
)
    requires
        assigned(s, layer, ids, w, need, assign),
    ensures
        (exists|x: int| 0 <= x < assign.len() && (#[trigger] assign[x]).0 == e) <==> ids.contains(e),
{
    if exists|x: int| 0 <= x < assign.len() && (#[trigger] assign[x]).0 == e {
        let x = choose|x: int| 0 <= x < assign.len() && (#[trigger] assign[x]).0 == e;
        assert(ids.contains(assign[x].0));
    }
}

proof fn lemma_assigned_push(
    s: PoolState,
    layer: i32,
    ids: Seq<u32>,
    w: int,
    need0: Seq<(u32, usize)>,
    need: Seq<(u32, usize)>,
    assign0: Seq<(u32, usize)>,
    e: u32,
    sl: usize,
)
    requires
        assigned(s, layer, ids, w, need0, assign0),
        !ids.contains(e),
        s.held_in(layer, e, w) ==> need == need0 && sl == s.slot_of[pool::expert_key(layer, e)],
        !s.held_in(layer, e, w) ==> need == need0.push((e, sl)),
        s.layout.width(w) == N_EXPERT ==> sl == s.layout.base(w) + e,
    ensures
        assigned(s, layer, ids.push(e), w, need, assign0.push((e, sl))),
{
    let ids1 = ids.push(e);
    let assign = assign0.push((e, sl));
    assert forall|x: u32| #[trigger] ids1.contains(x) implies exists|j: int|
        0 <= j < assign.len() && (#[trigger] assign[j]).0 == x by {
        if ids.contains(x) {
            let j = choose|j: int| 0 <= j < assign0.len() && (#[trigger] assign0[j]).0 == x;
            assert(assign[j].0 == x);
        } else {
            assert(x == e);
            assert(assign[assign0.len() as int].0 == e);
        }
    }
    assert forall|j: int| #![trigger assign[j]] 0 <= j < assign.len() implies {
        &&& ids1.contains(assign[j].0)
        &&& s.held_in(layer, assign[j].0, w) ==> assign[j].1 == s.slot_of[pool::expert_key(layer, assign[j].0)]
        &&& s.layout.width(w) == N_EXPERT ==> assign[j].1 == s.layout.base(w) + assign[j].0
    } by {
        if j < assign0.len() {
            assert(assign[j] == assign0[j]);
            assert(ids.contains(assign0[j].0));
            let x = choose|x: int| 0 <= x < ids.len() && ids[x] == assign0[j].0;
            assert(ids1[x] == assign0[j].0);
        } else {
            assert(ids1[ids.len() as int] == e);
        }
    }
    assert forall|i: int, j: int| 0 <= i < j < assign.len() implies #[trigger] assign[i].0 != #[trigger] assign[j].0 by {
        assert(assign[i] == assign0[i]);
        assert(ids.contains(assign0[i].0));
        if j < assign0.len() {
            assert(assign[j] == assign0[j]);
        }
    }
    assert forall|j: int| #![trigger need[j]] 0 <= j < need.len() implies listed(
        assign,
        need[j].0,
        need[j].1,
    ) by {
        if j < need0.len() {
            assert(need[j] == need0[j]);
            assert(listed(assign0, need0[j].0, need0[j].1));
            let x = choose|x: int|
                0 <= x < assign0.len() && (#[trigger] assign0[x]).0 == need0[j].0 && assign0[x].1
                    == need0[j].1;
            assert(assign[x].0 == need[j].0);
        } else {
            assert(assign[assign0.len() as int].0 == need[j].0);
        }
    }
}

proof fn lemma_assigned_same(
    s: PoolState,
    layer: i32,
    ids: Seq<u32>,
    w: int,
    need: Seq<(u32, usize)>,
    assign: Seq<(u32, usize)>,
    e: u32,
)
    requires
        assigned(s, layer, ids, w, need, assign),
        ids.contains(e),
    ensures
        assigned(s, layer, ids.push(e), w, need, assign),
{
    let ids1 = ids.push(e);
    assert forall|x: u32| #[trigger] ids1.contains(x) implies exists|j: int|
        0 <= j < assign.len() && (#[trigger] assign[j]).0 == x by {
        assert(ids.contains(x));
    }
    assert forall|j: int| #![trigger assign[j]] 0 <= j < assign.len() implies ids1.contains(assign[j].0) by {
        assert(ids.contains(assign[j].0));
        let x = choose|x: int| 0 <= x < ids.len() && ids[x] == assign[j].0;
        assert(ids1[x] == assign[j].0);
    }
}

proof fn lemma_union_remap(
    s: PoolState,
    layer: i32,
    ids: Seq<u32>,
    w: int,
    need: Seq<(u32, usize)>,
    assign: Seq<(u32, usize)>,
    remap: Seq<i32>,
)
    requires
        assigned(s, layer, ids, w, need, assign),
        w == s.layout.layer_window(layer),
        remap.len() == N_EXPERT,
        forall|j: int| #![trigger assign[j]]
            0 <= j < assign.len() ==> remap[assign[j].0 as int] == pool::own(assign[j].1 - s.layout.base(w)),
        forall|e: u32|
            e < N_EXPERT && (forall|j: int|
                0 <= j < assign.len() ==> (#[trigger] assign[j]).0 != e) ==> #[trigger] remap[e as int] == 0,
    ensures
        union_remap(s, layer, ids, need, remap),
{
    assert forall|e: u32| e < N_EXPERT && !ids.contains(e) implies #[trigger] remap[e as int] == 0 by {
        lemma_assigned_dup(s, layer, ids, w, need, assign, e);
    }
    assert forall|e: u32| e < N_EXPERT && ids.contains(e) && s.held_in(layer, e, w) implies #[trigger] remap[e as int]
        == window_entry(s, layer, e) by {
        let j = choose|j: int| 0 <= j < assign.len() && (#[trigger] assign[j]).0 == e;
        assert(assign[j].1 == s.slot_of[pool::expert_key(layer, e)]);
    }
    if s.layout.width(w) == N_EXPERT {
        assert forall|e: u32| e < N_EXPERT && ids.contains(e) implies #[trigger] remap[e as int] == pool::own(
            e as int,
        ) by {
            let j = choose|j: int| 0 <= j < assign.len() && (#[trigger] assign[j]).0 == e;
            assert(assign[j].1 == s.layout.base(w) + e);
        }
    }
    assert forall|j: int| #![trigger need[j]] 0 <= j < need.len() implies remap[need[j].0 as int] == pool::own(
        need[j].1 - s.layout.base(w),
    ) by {
        assert(listed(assign, need[j].0, need[j].1));
        let x = choose|x: int|
            0 <= x < assign.len() && (#[trigger] assign[x]).0 == need[j].0 && assign[x].1 == need[j].1;
        assert(assign[x].0 == need[j].0);
    }
}

proof fn lemma_lacking_mono(s: PoolState, layer: i32, ids: Seq<u32>, w: int, i: int, j: int)
    requires
        0 <= i <= j <= ids.len(),
    ensures
        s.lacking(layer, ids.take(i), w).len() <= s.lacking(layer, ids.take(j), w).len(),
    decreases j - i,
{
    if i < j {
        lemma_lacking_mono(s, layer, ids, w, i, j - 1);
        assert(ids.take(j).drop_last() =~= ids.take(j - 1));
    }
}

/// Number of true entries.
spec fn true_count(seen: Seq<bool>) -> nat
    decreases seen.len(),
{
    if seen.len() == 0 {
        0
    } else {
        true_count(seen.drop_last()) + (if seen.last() { 1nat } else { 0nat })
    }
}

proof fn lemma_true_count_bound(seen: Seq<bool>)
    ensures
        true_count(seen) <= seen.len(),
    decreases seen.len(),
{
    if seen.len() > 0 {
        lemma_true_count_bound(seen.drop_last());
    }
}

proof fn lemma_true_count_set(seen: Seq<bool>, i: int)
    requires
        0 <= i < seen.len(),
        !seen[i],
    ensures
        true_count(seen.update(i, true)) == true_count(seen) + 1,
    decreases seen.len(),
{
    let t = seen.update(i, true);
    if i == seen.len() - 1 {
        assert(t.drop_last() =~= seen.drop_last());
    } else {
        lemma_true_count_set(seen.drop_last(), i);
        assert(t.drop_last() =~= seen.drop_last().update(i, true));
    }
}

proof fn lemma_true_count_none(seen: Seq<bool>)
    requires
        forall|i: int| 0 <= i < seen.len() ==> !#[trigger] seen[i],
    ensures
        true_count(seen) == 0,
    decreases seen.len(),
{
    if seen.len() > 0 {
        lemma_true_count_none(seen.drop_last());
    }
}

/// Slots per pinned window for a configured width.
pub open spec fn stride_spec(stride: Option<u32>) -> u32 {
    match stride {
        None => N_EXPERT,
        Some(v) => if v < 1 { 1 } else if v > N_EXPERT { N_EXPERT } else { v },
    }
}

/// A pool that holds nothing.
pub open spec fn fresh_pool(layout: WindowLayout, read_batch: usize, record_misses: bool) -> PoolState {
    let windows = windows::windows_that_fit(layout.n_slots, layout.stride) as nat;
    PoolState {
        layout,
        slot_of: Map::empty(),
        slot_key: Seq::new(layout.n_slots as nat, |i: int| None::<u64>),
        lru: Seq::empty(),
        remap: Seq::new(N_EXPERT as nat, |e: int| pool::own(e)),
        cur_layer: 0,
        window_layer: Seq::new(windows, |i: int| None::<i32>),
        window_dense: Seq::new(windows, |i: int| false),
        scan_window: None,
        count_as_prefill: false,
        counters: PagerCounters {
            prefill_requests: 0,
            prefill_misses: 0,
            prefill_read_ns: 0,
            prefill_h2d_ns: 0,
            decode_requests: 0,
            decode_misses: 0,
            decode_read_ns: 0,
            decode_h2d_ns: 0,
            decode_alloc_ns: 0,
            decode_pread_ns: 0,
            decode_repack_ns: 0,
            decode_pread_bytes: 0,
        },
        union_calls: 0,
        union_sum: 0,
        union_max: 0,
        union_min: u32::MAX,
        union_hist: Seq::new(6, |i: int| 0u64),
        miss_hist: if record_misses { Some(Seq::new(15360, |i: int| 0u32)) } else { None },
        read_batch,
    }
}

/// The pool's bookkeeping.
pub struct ExpertPager {
    layout: WindowLayout,
    slot_of: HashMap<u64, u32>,
    slot_key: Vec<Option<u64>>,
    lru: Vec<u32>,
    remap: Vec<i32>,
    cur_layer: i32,
    window_layer: Vec<Option<i32>>,
    window_dense: Vec<bool>,
    scan_window: Option<(usize, usize)>,
    count_as_prefill: bool,
    counters: PagerCounters,
    union_calls: u64,
    union_sum: u64,
    union_max: u32,
    union_min: u32,
    union_hist: Vec<u64>,
    miss_hist: Option<Vec<u32>>,
    read_batch: usize,
}

impl View for ExpertPager {
    type V = PoolState;

    closed spec fn view(&self) -> PoolState {
        PoolState {
            layout: self.layout,
            slot_of: self.slot_of@,
            slot_key: self.slot_key@,
            lru: self.lru@,
            remap: self.remap@,
            cur_layer: self.cur_layer,
            window_layer: self.window_layer@,
            window_dense: self.window_dense@,
            scan_window: self.scan_window,
            count_as_prefill: self.count_as_prefill,
            counters: self.counters,
            union_calls: self.union_calls,
            union_sum: self.union_sum,
            union_max: self.union_max,
            union_min: self.union_min,
            union_hist: self.union_hist@,
            miss_hist: match self.miss_hist {
                Some(h) => Some(h@),
                None => None,
            },
            read_batch: self.read_batch,
        }
    }
}

impl ExpertPager {
    /// Number of expert slots in the pool.
    pub fn slots(&self) -> (r: u32)
        ensures
            r == self@.layout.n_slots,
    {
        self.layout.n_slots
    }

    /// Counts the requests and misses of the next `ensure` as prefill work.
    pub fn set_count_as_prefill(&mut self, v: bool)
        ensures
            final(self)@ == (PoolState { count_as_prefill: v, ..old(self)@ }),
    {
        self.count_as_prefill = v;
    }

    /// Confines the slots that `ensure` may take to a range, until cleared. A
    /// resident expert is found wherever it is.
    pub fn set_scan_window(&mut self, w: Option<(usize, usize)>)
        ensures
            final(self)@ == (PoolState { scan_window: w, ..old(self)@ }),
    {
        self.scan_window = w;
    }

    /// Slots that a miss of `ensure` may take.
    fn alloc_bounds(&self) -> (r: (usize, usize))
        requires
            self@.wf(),
        ensures
            r.0 == self@.alloc_range().0,
            r.1 == self@.alloc_range().1,
            r.1 <= self@.layout.n_slots,
            r.0 <= r.1,
    {
        let n: usize = self.layout.n_slots as usize;
        if let Some((lo, hi)) = self.scan_window {
            let top: usize = if hi < n { hi } else { n };
            if lo < top {
                return (lo, top);
            }
        }
        (self.layout.lru_lo(), n)
    }

    /// Takes `slot` out of the order of use.
    fn forget_use(&mut self, slot: u32)
        ensures
            final(self)@ == (PoolState { lru: pool::without(old(self)@.lru, slot), ..old(self)@ }),
    {
        let mut i: usize = 0;
        while i < self.lru.len() && self.lru[i] != slot
            invariant
                i <= self.lru.len(),
                pool::position_of(self.lru@, slot, 0) == pool::position_of(self.lru@, slot, i as int),
                self@ == old(self)@,
            decreases self.lru.len() - i,
        {
            i = i + 1;
        }
        if i < self.lru.len() {
            let _gone: u32 = self.lru.remove(i);
        }
    }

    /// Makes `slot` the most recently used one.
    fn touch(&mut self, slot: u32)
        ensures
            final(self)@ == old(self)@.touched(slot),
    {
        self.forget_use(slot);
        self.lru.push(slot);
    }

    /// Counts a request.
    fn count_request(&mut self)
        ensures
            final(self)@ == old(self)@.counted_request(),
    {
        if self.count_as_prefill {
            self.counters.prefill_requests = self.counters.prefill_requests.wrapping_add(1);
        } else {
            self.counters.decode_requests = self.counters.decode_requests.wrapping_add(1);
        }
    }

    /// Counts a miss.
    fn count_miss(&mut self, layer: i32, e: u32)
        requires
            old(self)@.wf(),
            e < N_EXPERT,
        ensures
            final(self)@ == old(self)@.counted_miss(layer, e),
    {
        if self.count_as_prefill {
            self.counters.prefill_misses = self.counters.prefill_misses.wrapping_add(1);
        } else {
            self.counters.decode_misses = self.counters.decode_misses.wrapping_add(1);
        }
        let l: usize = if layer < 0 {
            0
        } else if layer > 39 {
            39
        } else {
            layer as usize
        };
        match self.miss_hist.as_mut() {
            Some(h) => {
                let i: usize = l * 384 + e as usize;
                let n: u32 = h[i];
                h.set(i, n.wrapping_add(1));
            },
            None => {},
        }
    }

    /// Is one of the experts `ids[..n]` of `layer` resident in `slot`?
    fn holds_one_of(&self, layer: i32, ids: &[u32], n: usize, slot: u32) -> (r: bool)
        requires
            self@.wf(),
            n <= ids.len(),
            slot < self@.layout.n_slots,
        ensures
            r == self@.keeps(layer, ids@.take(n as int), slot),
    {
        let mut j: usize = 0;
        while j < n
            invariant
                j <= n <= ids.len(),
                forall|x: int|
                    0 <= x < j ==> !self@.sits(pool::expert_key(layer, #[trigger] ids@.take(n as int)[x]), slot),
            decreases n - j,
        {
            assert(ids@.take(n as int)[j as int] == ids@[j as int]);
            if self.is_in(key_of(layer, ids[j]), slot) {
                return true;
            }
            j = j + 1;
        }
        false
    }

    /// Is the expert with key `k` resident in `slot`?
    fn is_in(&self, k: u64, slot: u32) -> (r: bool)
        ensures
            r == self@.sits(k, slot),
    {
        match self.slot_of.get(&k) {
            Some(s) => *s == slot,
            None => false,
        }
    }

    /// Slot that a miss takes from `lo..hi` without evicting one of the experts
    /// `ids[..n]` of `layer`.
    fn find_slot(&self, layer: i32, ids: &[u32], n: usize, lo: usize, hi: usize) -> (r: Option<u32>)
        requires
            self@.wf(),
            n <= ids.len(),
            lo <= hi <= self@.layout.n_slots,
        ensures
            r == self@.miss_slot(layer, ids@.take(n as int), lo as int, hi as int),
            r matches Some(s) ==> lo <= s < hi && (self@.slot_key[s as int] is None || !self@.keeps(
                layer,
                ids@.take(n as int),
                s,
            )),
    {
        let mut i: usize = lo;
        while i < hi && self.slot_key[i].is_some()
            invariant
                lo <= i <= hi <= self.slot_key.len(),
                pool::first_free(self.slot_key@, lo as int, hi as int) == pool::first_free(
                    self.slot_key@,
                    i as int,
                    hi as int,
                ),
            decreases hi - i,
        {
            i = i + 1;
        }
        if i < hi {
            return Some(i as u32);
        }
        let mut p: usize = 0;
        while p < self.lru.len()
            invariant
                p <= self.lru.len(),
                self@.wf(),
                n <= ids.len(),
                pool::first_free(self.slot_key@, lo as int, hi as int) is None,
                self@.first_evictable(layer, ids@.take(n as int), lo as int, hi as int, 0)
                    == self@.first_evictable(layer, ids@.take(n as int), lo as int, hi as int, p as int),
            decreases self.lru.len() - p,
        {
            let slot: u32 = self.lru[p];
            if slot as usize >= lo && (slot as usize) < hi && !self.holds_one_of(layer, ids, n, slot) {
                return Some(slot);
            }
            p = p + 1;
        }
        None
    }

    /// Makes `slot` free. The expert that is resident in it, if any, leaves the pool.
    fn vacate(&mut self, slot: u32)
        requires
            old(self)@.wf(),
            slot < old(self)@.layout.n_slots,
        ensures
            final(self)@ == old(self)@.vacated(slot),
    {
        match self.slot_key[slot as usize] {
            Some(k) => {
                if self.is_in(k, slot) {
                    let _old = self.slot_of.remove(&k);
                }
                self.slot_key.set(slot as usize, None);
            },
            None => {},
        }
    }

    /// Notes that the window of `slot` no longer stands for a layer.
    fn invalidate_window(&mut self, slot: u32)
        requires
            old(self)@.wf(),
            slot < old(self)@.layout.n_slots,
        ensures
            final(self)@ == old(self)@.window_invalidated(slot),
    {
        if let Some(w) = self.layout.window_of_slot(slot) {
            self.window_layer.set(w as usize, None);
            self.window_dense.set(w as usize, false);
        }
    }

    /// Makes `slot` ready for another expert.
    fn allocate(&mut self, slot: u32)
        requires
            old(self)@.wf(),
            slot < old(self)@.layout.n_slots,
        ensures
            final(self)@ == old(self)@.allocated(slot),
            final(self)@.wf(),
    {
        proof {
            pool::lemma_allocated_wf(self@, slot);
            pool::lemma_vacated_wf(self@, slot);
        }
        if self.slot_key[slot as usize].is_some() {
            self.vacate(slot);
            self.forget_use(slot);
            proof {
                pool::lemma_without(old(self)@.lru, slot);
                let w = pool::without(old(self)@.lru, slot);
                assert forall|i: int| 0 <= i < w.len() implies #[trigger] w[i] < self@.layout.n_slots by {
                    assert(w.contains(w[i]));
                    assert(old(self)@.lru.contains(w[i]));
                }
            }
        }
        self.invalidate_window(slot);
    }

    /// Sets the remap of `layer` to every expert at the slot of its own number.
    fn reset_remap(&mut self, layer: i32)
        requires
            old(self)@.wf(),
        ensures
            final(self)@ == old(self)@.remap_reset(layer),
            final(self)@.wf(),
    {
        self.cur_layer = layer;
        let mut e: usize = 0;
        while e < self.remap.len()
            invariant
                e <= self.remap.len(),
                self.remap.len() == N_EXPERT,
                forall|j: int| 0 <= j < e ==> #[trigger] self.remap@[j] == pool::own(j),
                self@ == (PoolState { cur_layer: layer, remap: self.remap@, ..old(self)@ }),
            decreases self.remap.len() - e,
        {
            self.remap.set(e, -(e as i32) - 1);
            e = e + 1;
        }
        assert(self@.remap =~= old(self)@.remap_reset(layer).remap);
    }

    /// Serves `ids[from..]` of `layer` until an expert is missing.
    ///
    /// A call with `from == 0` starts the request: it refuses more experts than
    /// the pool has slots and resets the remap. A resident expert becomes the
    /// most recently used one and gets its slot in the remap. A missing one gets
    /// a slot: the first free one of the allocation range, else the least recently
    /// used one where none of the experts served so far is resident, whose expert
    /// leaves the pool. So at the end of a request every expert asked for is
    /// resident, in a slot of its own; a request that its range cannot hold is
    /// refused.
    pub fn ensure(&mut self, layer: i32, ids: &[u32], from: usize) -> (r: Result<EnsureStep, PagerError>)
        requires
            old(self)@.wf(),
            from <= ids.len(),
            forall|i: int| 0 <= i < ids.len() ==> #[trigger] ids@[i] < N_EXPERT,
        ensures
            final(self)@.wf(),
            from == 0 && ids.len() > old(self)@.layout.n_slots ==> {
                &&& r == Err::<EnsureStep, PagerError>(
                    PagerError::TooMany { asked: ids.len(), slots: old(self)@.layout.n_slots },
                )
                &&& final(self)@ == (PoolState { cur_layer: layer, ..old(self)@ })
            },
            !(from == 0 && ids.len() > old(self)@.layout.n_slots) ==> {
                let s0 = if from == 0 { old(self)@.remap_reset(layer) } else { old(self)@ };
                let (s, i) = s0.run_hits(layer, ids@, from as int);
                if i >= ids.len() {
                    r == Ok::<EnsureStep, PagerError>(EnsureStep::Done) && final(self)@ == s
                } else {
                    let m = s.missed(layer, ids@[i]);
                    match m.miss_slot(layer, ids@.take(i), m.alloc_range().0, m.alloc_range().1) {
                        None => r == Err::<EnsureStep, PagerError>(PagerError::NoSlot) && final(self)@ == m,
                        Some(slot) => {
                            &&& r == Ok::<EnsureStep, PagerError>(
                                EnsureStep::Fetch { index: i as usize, slot },
                            )
                            &&& final(self)@ == m.allocated(slot)
                            &&& from <= i < ids.len()
                            &&& slot < final(self)@.layout.n_slots
                            &&& final(self)@.slot_key[slot as int] is None
                        },
                    }
                }
            },
            old(self)@.serves(layer, ids@, from as int) ==> match r {
                Ok(EnsureStep::Done) => final(self)@.settles(layer, ids@),
                Ok(EnsureStep::Fetch { index, slot }) => final(self)@.serves(layer, ids@, index as int),
                Err(_) => true,
            },
    {
        if from == 0 {
            if ids.len() > self.layout.n_slots as usize {
                self.cur_layer = layer;
                return Err(PagerError::TooMany { asked: ids.len(), slots: self.layout.n_slots });
            }
            self.reset_remap(layer);
        }
        let ghost s0 = self@;
        let mut i: usize = from;
        while i < ids.len()
            invariant
                from <= i <= ids.len(),
                forall|j: int| 0 <= j < ids.len() ==> #[trigger] ids@[j] < N_EXPERT,
                self@.wf(),
                s0.run_hits(layer, ids@, from as int) == self@.run_hits(layer, ids@, i as int),
                !(from == 0 && ids.len() > old(self)@.layout.n_slots),
                s0 == (if from == 0 { old(self)@.remap_reset(layer) } else { old(self)@ }),
                old(self)@.serves(layer, ids@, from as int) ==> self@.serves(layer, ids@, i as int),
            decreases ids.len() - i,
        {
            let id: u32 = ids[i];
            let k: u64 = key_of(layer, id);
            let ghost s = self@;
            let found: Option<u32> = match self.slot_of.get(&k) {
                Some(p) => Some(*p),
                None => None,
            };
            self.count_request();
            if let Some(slot) = found {
                proof {
                    pool::lemma_touched_wf(self@, slot);
                    pool::lemma_hit_wf(s, layer, id);
                    if s.serves(layer, ids@, i as int) {
                        pool::lemma_serves_hit(s, layer, ids@, i as int);
                    }
                }
                self.touch(slot);
                self.remap.set(id as usize, -(slot as i32) - 1);
                assert(self@ == s.hit(layer, id));
                i = i + 1;
            } else {
                self.count_miss(layer, id);
                let ghost m = self@;
                assert(m == s.missed(layer, id));
                let (lo, hi) = self.alloc_bounds();
                match self.find_slot(layer, ids, i, lo, hi) {
                    None => {
                        return Err(PagerError::NoSlot);
                    },
                    Some(slot) => {
                        proof {
                            pool::lemma_allocated_wf(m, slot);
                            if s.serves(layer, ids@, i as int) {
                                assert(m.serves(layer, ids@, i as int));
                                pool::lemma_serves_allocated(m, layer, ids@, i as int, slot);
                            }
                        }
                        self.allocate(slot);
                        return Ok(EnsureStep::Fetch { index: i, slot });
                    },
                }
            }
        }
        proof {
            if old(self)@.serves(layer, ids@, from as int) {
                pool::lemma_settles(self@, layer, ids@);
            }
        }
        Ok(EnsureStep::Done)
    }

    /// Records that expert `id` of `layer` has been read into `slot`.
    pub fn page_in(&mut self, layer: i32, id: u32, slot: u32)
        requires
            old(self)@.wf(),
            id < N_EXPERT,
            slot < old(self)@.layout.n_slots,
            old(self)@.slot_key[slot as int] is None || old(self)@.slot_key[slot as int] == Some(
                pool::expert_key(layer, id),
            ),
        ensures
            final(self)@.wf(),
            final(self)@ == old(self)@.paged_in(layer, id, slot),
    {
        proof {
            pool::lemma_paged_in_wf(self@, layer, id, slot);
        }
        let k: u64 = key_of(layer, id);
        self.slot_of.insert(k, slot);
        self.slot_key.set(slot as usize, Some(k));
        self.touch(slot);
        self.remap.set(id as usize, -(slot as i32) - 1);
    }

    /// Serves all of `ids` of `layer` at once, and says which experts to read into
    /// which slots. Each of these slots is kept for its expert: no other miss of
    /// the same request takes it, and none evicts an expert that the request found
    /// resident. Record every read with `page_in`.
    pub fn ensure_batched(&mut self, layer: i32, ids: &[u32]) -> (r: Result<Vec<(u32, u32)>, PagerError>)
        requires
            old(self)@.wf(),
            forall|i: int| 0 <= i < ids.len() ==> #[trigger] ids@[i] < N_EXPERT,
        ensures
            final(self)@.wf(),
            ids.len() > old(self)@.layout.n_slots ==> {
                &&& r == Err::<Vec<(u32, u32)>, PagerError>(
                    PagerError::TooMany { asked: ids.len(), slots: old(self)@.layout.n_slots },
                )
                &&& final(self)@ == (PoolState { cur_layer: layer, ..old(self)@ })
            },
            ids.len() <= old(self)@.layout.n_slots ==> {
                let (s, misses, served) = old(self)@.remap_reset(layer).classified(
                    layer,
                    ids@,
                    0,
                    Seq::empty(),
                );
                &&& final(self)@ == s
                &&& !served ==> r == Err::<Vec<(u32, u32)>, PagerError>(PagerError::NoSlot)
                &&& served && misses.len() > s.read_batch ==> r == Err::<Vec<(u32, u32)>, PagerError>(
                    PagerError::StagingFull { misses: misses.len() as usize, batch: s.read_batch },
                )
                &&& served && misses.len() <= s.read_batch ==> r is Ok && r.unwrap()@ == misses
            },
            r matches Ok(ms) ==> claims_hold(final(self)@, layer, ms@),
    {
        if ids.len() > self.layout.n_slots as usize {
            self.cur_layer = layer;
            return Err(PagerError::TooMany { asked: ids.len(), slots: self.layout.n_slots });
        }
        self.reset_remap(layer);
        let ghost s0 = self@;
        let lo: usize = self.layout.lru_lo();
        let mut misses: Vec<(u32, u32)> = Vec::new();
        let mut i: usize = 0;
        while i < ids.len()
            invariant
                i <= ids.len(),
                misses.len() <= i,
                forall|j: int| 0 <= j < ids.len() ==> #[trigger] ids@[j] < N_EXPERT,
                self@.wf(),
                lo == self@.layout.lru_floor(),
                s0 == old(self)@.remap_reset(layer),
                ids.len() <= old(self)@.layout.n_slots,
                s0.classified(layer, ids@, 0, Seq::empty()) == self@.classified(
                    layer,
                    ids@,
                    i as int,
                    misses@,
                ),
                claims_hold(self@, layer, misses@),
                claims_safe(self@, layer, misses@),
            decreases ids.len() - i,
        {
            let id: u32 = ids[i];
            let k: u64 = key_of(layer, id);
            let ghost s = self@;
            let found: Option<u32> = match self.slot_of.get(&k) {
                Some(p) => Some(*p),
                None => None,
            };
            self.count_request();
            if let Some(slot) = found {
                proof {
                    pool::lemma_touched_wf(self@, slot);
                    pool::lemma_hit_wf(s, layer, id);
                    lemma_claims_hit(s, layer, id, misses@);
                }
                self.touch(slot);
                self.remap.set(id as usize, -(slot as i32) - 1);
                assert(self@ == s.hit(layer, id));
            } else {
                self.count_miss(layer, id);
                let ghost m = self@;
                assert(m == s.missed(layer, id));
                match self.find_slot(layer, ids, i, lo, self.layout.n_slots as usize) {
                    None => {
                        return Err(PagerError::NoSlot);
                    },
                    Some(slot) => {
                        proof {
                            pool::lemma_claimed_wf(m, layer, id, slot);
                            lemma_claims_claim(m, layer, id, slot, misses@);
                        }
                        self.allocate(slot);
                        self.forget_use(slot);
                        self.slot_key.set(slot as usize, Some(k));
                        misses.push((id, slot));
                        assert(self@ == m.claimed(layer, id, slot));
                    },
                }
            }
            i = i + 1;
        }
        if misses.len() > self.read_batch {
            return Err(PagerError::StagingFull { misses: misses.len(), batch: self.read_batch });
        }
        Ok(misses)
    }

    /// Marks the experts that another device computes in the remap that `ensure`
    /// made, and leaves the other entries. Returns whether any entry was marked,
    /// so that the remap must be uploaded again.
    pub fn mark_remote_after_ensure(&mut self, is_remote: impl Fn(u32) -> bool) -> (r: bool)
        requires
            old(self)@.wf(),
            forall|e: u32| e < N_EXPERT ==> #[trigger] call_requires(is_remote, (e,)),
        ensures
            final(self)@.wf(),
            final(self)@ == (PoolState { remap: final(self)@.remap, ..old(self)@ }),
            forall|e: u32|
                e < N_EXPERT ==> entry_by(is_remote, e, old(self)@.remap[e as int], #[trigger] final(self)@.remap[e as int]),
            !r ==> final(self)@.remap == old(self)@.remap && forall|e: u32|
                e < N_EXPERT ==> #[trigger] call_ensures(is_remote, (e,), false),
            r ==> exists|e: u32| e < N_EXPERT && #[trigger] call_ensures(is_remote, (e,), true),
    {
        let mut any: bool = false;
        let mut e: u32 = 0;
        while e < N_EXPERT
            invariant
                e <= N_EXPERT,
                self.remap.len() == N_EXPERT,
                old(self)@.remap.len() == N_EXPERT,
                forall|x: u32| x < N_EXPERT ==> #[trigger] call_requires(is_remote, (x,)),
                self@ == (PoolState { remap: self@.remap, ..old(self)@ }),
                forall|x: u32|
                    x < e ==> entry_by(is_remote, x, old(self)@.remap[x as int], #[trigger] self.remap@[x as int]),
                forall|x: int| e <= x < N_EXPERT ==> #[trigger] self@.remap[x] == old(self)@.remap[x],
                !any ==> self@.remap == old(self)@.remap && forall|x: u32|
                    x < e ==> #[trigger] call_ensures(is_remote, (x,), false),
                any ==> exists|x: u32| x < N_EXPERT && #[trigger] call_ensures(is_remote, (x,), true),
            decreases N_EXPERT - e,
        {
            if is_remote(e) {
                self.remap.set(e as usize, 0);
                any = true;
            }
            e = e + 1;
        }
        any
    }

    /// Builds the remap of `layer`'s window: an expert of this device gets its
    /// slot counted from the window's first one, an expert of another device or
    /// one that the window lacks gets 0.
    ///
    /// Before it returns, every entry is held against the slot it names.
    pub fn set_remote_exclusion(&mut self, layer: i32, is_remote: impl Fn(u32) -> bool) -> (r: Result<
        (),
        PagerError,
    >)
        requires
            old(self)@.wf(),
            forall|e: u32| e < N_EXPERT ==> #[trigger] call_requires(is_remote, (e,)),
        ensures
            final(self)@.wf(),
            r is Ok,
            final(self)@ == (PoolState {
                remap: final(self)@.remap,
                cur_layer: layer,
                ..old(self)@
            }),
            forall|e: u32|
                e < N_EXPERT ==> entry_by(is_remote, e, window_entry(old(self)@, layer, e), #[trigger] final(self)@.remap[e as int]),
    {
        self.cur_layer = layer;
        let w: u32 = self.layout.window_of(layer);
        let base: usize = self.layout.window_base(w);
        let width: usize = self.layout.window_width(w);
        let mut e: u32 = 0;
        while e < N_EXPERT
            invariant
                e <= N_EXPERT,
                self.remap.len() == N_EXPERT,
                forall|x: u32| x < N_EXPERT ==> #[trigger] call_requires(is_remote, (x,)),
                self@ == (PoolState { remap: self@.remap, cur_layer: layer, ..old(self)@ }),
                self@.wf(),
                old(self)@.wf(),
                w == old(self)@.layout.layer_window(layer),
                base == old(self)@.layout.base(w as int),
                width == old(self)@.layout.width(w as int),
                width <= N_EXPERT,
                base <= i32::MAX,
                forall|x: u32|
                    x < e ==> entry_by(is_remote, x, window_entry(old(self)@, layer, x), #[trigger] self.remap@[x as int]),
            decreases N_EXPERT - e,
        {
            let entry: i32 = if is_remote(e) {
                0
            } else {
                match self.slot_of.get(&key_of(layer, e)) {
                    Some(p) => {
                        let sl: usize = *p as usize;
                        if sl >= base && sl < base + width {
                            -((sl - base) as i32) - 1
                        } else {
                            0
                        }
                    },
                    None => 0,
                }
            };
            self.remap.set(e as usize, entry);
            e = e + 1;
        }
        let mut e: u32 = 0;
        while e < N_EXPERT
            invariant
                e <= N_EXPERT,
                self.remap.len() == N_EXPERT,
                self@ == (PoolState { remap: self@.remap, cur_layer: layer, ..old(self)@ }),
                self@.wf(),
                old(self)@.wf(),
                w == old(self)@.layout.layer_window(layer),
                base == old(self)@.layout.base(w as int),
                base <= i32::MAX,
                forall|x: u32|
                    x < N_EXPERT ==> entry_by(is_remote, x, window_entry(old(self)@, layer, x), #[trigger] self.remap@[x as int]),
            decreases N_EXPERT - e,
        {
            let entry: i32 = self.remap[e as usize];
            if entry < 0 {
                let ghost x = e;
                assert(self.remap@[x as int] == entry);
                let sl: usize = base + (-(entry + 1)) as usize;
                let k: u64 = key_of(layer, e);
                let good: bool = if sl < self.slot_key.len() {
                    match self.slot_key[sl] {
                        Some(h) => h == k,
                        None => false,
                    }
                } else {
                    false
                };
                if !good {
                    return Err(PagerError::WrongSlot { expert: e, slot: sl });
                }
            }
            e = e + 1;
        }
        Ok(())
    }

    /// Takes the experts of `lo..hi` out of the pool.
    fn vacate_range(&mut self, lo: usize, hi: usize)
        requires
            old(self)@.wf(),
            lo <= hi <= old(self)@.layout.n_slots,
        ensures
            final(self)@ == old(self)@.vacated_range(lo as int, hi as int),
            final(self)@.wf(),
    {
        let mut i: usize = lo;
        while i < hi
            invariant
                lo <= i <= hi <= self@.layout.n_slots,
                self@.wf(),
                old(self)@.wf(),
                old(self)@.layout == self@.layout,
                self@ == old(self)@.vacated_range(lo as int, i as int),
            decreases hi - i,
        {
            proof {
                pool::lemma_vacated_range_step(old(self)@, lo as int, i as int, hi as int);
                pool::lemma_vacated_wf(self@, i as u32);
            }
            self.vacate(i as u32);
            i = i + 1;
        }
    }

    /// Asks for every expert of `layer` in the layer's window, expert `e` in its
    /// slot number `e`.
    ///
    /// Unless the window already stands for the whole layer, it is emptied and
    /// stands for nothing until `window_page_in` has recorded every expert and
    /// `finish_dense` has been called.
    pub fn ensure_layer_dense(&mut self, layer: i32) -> (r: Result<DenseStep, PagerError>)
        requires
            old(self)@.wf(),
        ensures
            final(self)@.wf(),
            ({
                let s = PoolState { cur_layer: layer, ..old(self)@ };
                let l = s.layout;
                let w = l.layer_window(layer);
                let c = s.counted_prefill(N_EXPERT as int, 0);
                if l.n_slots < N_EXPERT {
                    &&& r == Err::<DenseStep, PagerError>(PagerError::PoolTooSmall { slots: l.n_slots })
                    &&& final(self)@ == s
                } else if l.width(w) < N_EXPERT {
                    &&& r == Err::<DenseStep, PagerError>(
                        PagerError::WindowPacked { window: w as u32, width: l.width(w) as usize },
                    )
                    &&& final(self)@ == s
                } else if s.window_layer[w] == Some(layer) && s.window_dense[w] {
                    &&& r == Ok::<DenseStep, PagerError>(DenseStep::Resident)
                    &&& final(self)@ == c
                } else {
                    let t = PoolState { window_layer: c.window_layer.update(w, None), ..c };
                    &&& r == Ok::<DenseStep, PagerError>(DenseStep::Fill { base: l.base(w) as usize })
                    &&& final(self)@ == t.vacated_range(l.base(w), l.base(w) + N_EXPERT)
                }
            }),
            // A layer that is called resident is there, expert by expert.
            old(self)@.dense_windows_faithful() && r == Ok::<DenseStep, PagerError>(DenseStep::Resident)
                ==> forall|e: u32|
                e < N_EXPERT ==> #[trigger] final(self)@.in_place(
                    final(self)@.layout.layer_window(layer),
                    layer,
                    e,
                ),
            // A window that is to be filled has nobody in it and stands for no layer.
            r matches Ok(DenseStep::Fill { base }) ==> {
                &&& forall|i: int|
                    base <= i < base + N_EXPERT ==> (#[trigger] final(self)@.slot_key[i]) is None
                &&& final(self)@.window_layer[final(self)@.layout.layer_window(layer)] is None
                &&& final(self)@.layout.in_window(
                    final(self)@.layout.layer_window(layer),
                    base as int,
                )
            },
    {
        self.cur_layer = layer;
        if self.layout.n_slots < N_EXPERT {
            return Err(PagerError::PoolTooSmall { slots: self.layout.n_slots });
        }
        let w: u32 = self.layout.window_of(layer);
        let width: usize = self.layout.window_width(w);
        if width < N_EXPERT as usize {
            return Err(PagerError::WindowPacked { window: w, width });
        }
        let base: usize = self.layout.window_base(w);
        self.counters.prefill_requests = self.counters.prefill_requests.wrapping_add(N_EXPERT as u64);
        let here: bool = match self.window_layer[w as usize] {
            Some(l) => l == layer,
            None => false,
        };
        if here && self.window_dense[w as usize] {
            proof {
                let s = old(self)@;
                if s.dense_windows_faithful() {
                    assert(s.window_dense[w as int]);
                    assert(s.complete(w as int));
                    assert forall|e: u32| e < N_EXPERT implies #[trigger] self@.in_place(
                        w as int,
                        layer,
                        e,
                    ) by {
                        assert(s.in_place(w as int, layer, e));
                    }
                }
            }
            return Ok(DenseStep::Resident);
        }
        self.window_layer.set(w as usize, None);
        proof {
            pool::lemma_vacated_range(self@, base as int, base + N_EXPERT);
        }
        self.vacate_range(base, base + N_EXPERT as usize);
        Ok(DenseStep::Fill { base })
    }

    /// Records that the experts of `chunk`, all of `layer`, have been read into
    /// their slots of the layer's window.
    pub fn window_page_in(&mut self, layer: i32, chunk: &[(u32, usize)])
        requires
            old(self)@.wf(),
            forall|i: int| #![trigger chunk@[i]]
                0 <= i < chunk.len() ==> {
                    &&& chunk@[i].1 < old(self)@.layout.n_slots
                    &&& old(self)@.slot_key[chunk@[i].1 as int] is None
                        || old(self)@.slot_key[chunk@[i].1 as int] == Some(pool::expert_key(layer, chunk@[i].0))
                },
            forall|i: int, j: int|
                0 <= i < j < chunk.len() ==> #[trigger] chunk@[i].1 != #[trigger] chunk@[j].1,
        ensures
            final(self)@.wf(),
            final(self)@ == old(self)@.counted_prefill(0, chunk.len() as int).placed_all(
                layer,
                chunk@,
                chunk.len() as int,
            ),
    {
        self.counters.prefill_misses = self.counters.prefill_misses.wrapping_add(chunk.len() as u64);
        let ghost c = self@;
        assert(c == old(self)@.counted_prefill(0, chunk.len() as int));
        let mut i: usize = 0;
        while i < chunk.len()
            invariant
                i <= chunk.len(),
                self@.wf(),
                self@.layout == c.layout,
                c.slot_key == old(self)@.slot_key,
                c.layout == old(self)@.layout,
                self@ == c.placed_all(layer, chunk@, i as int),
                forall|j: int| #![trigger chunk@[j]]
                    0 <= j < chunk.len() ==> {
                        &&& chunk@[j].1 < old(self)@.layout.n_slots
                        &&& old(self)@.slot_key[chunk@[j].1 as int] is None
                            || old(self)@.slot_key[chunk@[j].1 as int] == Some(
                            pool::expert_key(layer, chunk@[j].0),
                        )
                    },
                forall|j: int, k: int|
                    0 <= j < k < chunk.len() ==> #[trigger] chunk@[j].1 != #[trigger] chunk@[k].1,
                forall|j: int| #![trigger chunk@[j]]
                    i <= j < chunk.len() ==> self@.slot_key[chunk@[j].1 as int]
                        == old(self)@.slot_key[chunk@[j].1 as int],
            decreases chunk.len() - i,
        {
            let (e, slot) = chunk[i];
            let ghost s = self@;
            assert(chunk@[i as int] == (e, slot));
            proof {
                pool::lemma_placed_wf(s, layer, e, slot as int);
            }
            let k: u64 = key_of(layer, e);
            self.slot_of.insert(k, slot as u32);
            self.slot_key.set(slot, Some(k));
            assert(self@ == s.placed(layer, e, slot as int));
            i = i + 1;
        }
    }

    /// Notes that the window of `layer` holds all of its experts.
    pub fn finish_dense(&mut self, layer: i32)
        requires
            old(self)@.wf(),
            old(self)@.layout.n_slots >= N_EXPERT,
            old(self)@.layout.width(old(self)@.layout.layer_window(layer)) == N_EXPERT,
            forall|e: u32|
                e < N_EXPERT ==> #[trigger] old(self)@.slot_key[old(self)@.layout.base(
                    old(self)@.layout.layer_window(layer),
                ) + e] == Some(pool::expert_key(layer, e)),
        ensures
            final(self)@.wf(),
            final(self)@ == (PoolState {
                window_layer: old(self)@.window_layer.update(
                    old(self)@.layout.layer_window(layer),
                    Some(layer),
                ),
                window_dense: old(self)@.window_dense.update(old(self)@.layout.layer_window(layer), true),
                ..old(self)@
            }),
    {
        let w: u32 = self.layout.window_of(layer);
        self.window_layer.set(w as usize, Some(layer));
        self.window_dense.set(w as usize, true);
    }

    /// Counts a request for the union `ids`.
    fn count_union(&mut self, ids: &[u32])
        requires
            old(self)@.wf(),
        ensures
            final(self)@ == old(self)@.union_counted(ids@),
            final(self)@.wf(),
    {
        let mut seen: Vec<bool> = vec![false; N_EXPERT as usize];
        let mut u: u32 = 0;
        let mut i: usize = 0;
        proof {
            lemma_true_count_none(seen@);
        }
        while i < ids.len()
            invariant
                i <= ids.len(),
                seen.len() == N_EXPERT,
                u == pool::distinct_experts(ids@.take(i as int)),
                u <= i,
                forall|e: u32|
                    e < N_EXPERT ==> (#[trigger] seen@[e as int] <==> ids@.take(i as int).contains(e)),
                u == true_count(seen@),
                self@ == old(self)@,
            decreases ids.len() - i,
        {
            let e: u32 = ids[i];
            let ghost before = ids@.take(i as int);
            let ghost after = ids@.take(i + 1);
            proof {
                assert(after.drop_last() =~= before);
                assert(after.last() == e);
                lemma_true_count_bound(seen@);
                assert forall|x: u32| (#[trigger] after.contains(x)) <==> before.contains(x) || x == e by {
                    if before.contains(x) {
                        let j = choose|j: int| 0 <= j < before.len() && before[j] == x;
                        assert(after[j] == x);
                    }
                    if after.contains(x) && x != e {
                        let j = choose|j: int| 0 <= j < after.len() && after[j] == x;
                        assert(before[j] == x);
                    }
                    assert(after[i as int] == e);
                }
            }
            if (e as usize) < seen.len() && !seen[e as usize] {
                proof {
                    lemma_true_count_set(seen@, e as int);
                    lemma_true_count_bound(seen@.update(e as int, true));
                }
                seen.set(e as usize, true);
                u = u + 1;
            }
            i = i + 1;
        }
        proof {
            assert(ids@.take(ids.len() as int) =~= ids@);
        }
        self.union_calls = self.union_calls.wrapping_add(1);
        self.union_sum = self.union_sum.wrapping_add(u as u64);
        self.union_max = if self.union_max >= u { self.union_max } else { u };
        self.union_min = if self.union_min <= u { self.union_min } else { u };
        let b: usize = if u < 320 { u as usize / 64 } else { 5 };
        let n: u64 = self.union_hist[b];
        self.union_hist.set(b, n.wrapping_add(1));
    }

    /// Asks for the experts `ids` of `layer` in the layer's window and says which of
    /// them to read into which slots.
    ///
    /// A window that stood for another layer is emptied first. In a window with a
    /// slot for every expert, each has the slot of its own number, as after
    /// `ensure_layer_dense`. A narrower one is packed: the experts that it lacks get
    /// its free slots in ascending order. The remap carries slots counted from the
    /// window's first one, and 0 for what was not asked for. Record the reads with
    /// `window_page_in`.
    pub fn ensure_layer_union(&mut self, layer: i32, ids: &[u32]) -> (r: Result<
        Vec<(u32, usize)>,
        PagerError,
    >)
        requires
            old(self)@.wf(),
        ensures
            final(self)@.wf(),
            old(self)@.layout.n_slots < N_EXPERT ==> {
                &&& r == Err::<Vec<(u32, usize)>, PagerError>(
                    PagerError::PoolTooSmall { slots: old(self)@.layout.n_slots },
                )
                &&& final(self)@ == (PoolState { cur_layer: layer, ..old(self)@ })
            },
            old(self)@.layout.n_slots >= N_EXPERT ==> {
                let s = union_ready(old(self)@, layer, ids@);
                let l = s.layout;
                let w = l.layer_window(layer);
                let valid = ids@.take(valid_prefix(ids@, 0));
                let lack = s.lacking(layer, valid, w);
                let slots = s.slots_for(lack, w);
                if lack.len() > slots.len() {
                    &&& r == Err::<Vec<(u32, usize)>, PagerError>(
                        PagerError::UnionTooWide { window: w as u32, width: l.width(w) as usize },
                    )
                    &&& final(self)@ == s
                } else if valid.len() < ids.len() {
                    &&& r == Err::<Vec<(u32, usize)>, PagerError>(
                        PagerError::BadExpert { id: ids@[valid.len() as int] },
                    )
                    &&& final(self)@ == s
                } else {
                    &&& r is Ok
                    &&& r.unwrap().len() == lack.len()
                    &&& forall|j: int| #![trigger r.unwrap()@[j]]
                        0 <= j < lack.len() ==> r.unwrap()@[j].0 == lack[j] && r.unwrap()@[j].1 == slots[j]
                    &&& final(self)@ == (PoolState {
                        remap: final(self)@.remap,
                        ..s.room_made(layer, r.unwrap()@, lack.len() as int)
                    })
                    &&& forall|j: int| #![trigger r.unwrap()@[j]]
                        0 <= j < lack.len() ==> {
                            let (e, slot) = r.unwrap()@[j];
                            &&& slot < l.n_slots
                            &&& final(self)@.slot_key[slot as int] is None || final(self)@.slot_key[slot as int]
                                == Some(pool::expert_key(layer, e))
                        }
                    &&& union_remap(s, layer, ids@, r.unwrap()@, final(self)@.remap)
                }
            },
    {
        self.cur_layer = layer;
        if self.layout.n_slots < N_EXPERT {
            return Err(PagerError::PoolTooSmall { slots: self.layout.n_slots });
        }
        let w: u32 = self.layout.window_of(layer);
        let base: usize = self.layout.window_base(w);
        let width: usize = self.layout.window_width(w);
        self.counters.prefill_requests = self.counters.prefill_requests.wrapping_add(ids.len() as u64);
        let here: bool = match self.window_layer[w as usize] {
            Some(l) => l == layer,
            None => false,
        };
        if !here {
            self.window_dense.set(w as usize, false);
            self.vacate_range(base, base + width);
            proof {
                pool::lemma_vacated_range(
                    (PoolState {
                        window_dense: old(self)@.window_dense.update(w as int, false),
                        ..(PoolState { cur_layer: layer, ..old(self)@ }).counted_prefill(
                            ids.len() as int,
                            0,
                        )
                    }),
                    base as int,
                    base + width,
                );
            }
            self.window_layer.set(w as usize, Some(layer));
        }
        self.count_union(ids);
        let ghost s = self@;
        assert(s == union_ready(old(self)@, layer, ids@));
        let mut assign: Vec<(u32, usize)> = Vec::new();
        let mut need: Vec<(u32, usize)> = Vec::new();
        let mut next: usize = 0;
        let mut i: usize = 0;
        let own_slots: bool = width == N_EXPERT as usize;
        let ghost free = pool::free_slots(s.slot_key, base as int, base + width);
        proof {
            lemma_valid_prefix(ids@, 0);
        }
        while i < ids.len()
            invariant
                i <= ids.len(),
                self@ == s,
                s.wf(),
                s == union_ready(old(self)@, layer, ids@),
                s.layout == old(self)@.layout,
                s.layout.n_slots >= N_EXPERT,
                w == s.layout.layer_window(layer),
                base == s.layout.base(w as int),
                width == s.layout.width(w as int),
                base + N_EXPERT <= s.layout.n_slots,
                width <= N_EXPERT,
                next <= width,
                own_slots == (width == N_EXPERT),
                free == pool::free_slots(s.slot_key, base as int, base + width),
                !own_slots ==> {
                    &&& need.len() <= free.len()
                    &&& free == free.take(need.len() as int) + pool::free_slots(
                        s.slot_key,
                        base + next,
                        base + width,
                    )
                },
                valid_prefix(ids@, 0) >= i,
                need.len() == s.lacking(layer, ids@.take(i as int), w as int).len(),
                forall|j: int| #![trigger need@[j]]
                    0 <= j < need.len() ==> {
                        &&& need@[j].0 == s.lacking(layer, ids@.take(i as int), w as int)[j]
                        &&& base <= need@[j].1 < base + width
                        &&& own_slots ==> need@[j].1 == base + need@[j].0
                        &&& !own_slots ==> need@[j].1 == free[j] && need@[j].1 < base + next
                    },
                assigned(s, layer, ids@.take(i as int), w as int, need@, assign@),
                forall|j: int| #![trigger assign@[j]]
                    0 <= j < assign.len() ==> base <= assign@[j].1 < base + width && assign@[j].0 < N_EXPERT,
            decreases ids.len() - i,
        {
            let e: u32 = ids[i];
            let ghost before = ids@.take(i as int);
            let ghost after = ids@.take(i + 1);
            let ghost need0 = need@;
            let ghost assign0 = assign@;
            proof {
                assert(after.drop_last() =~= before);
                assert(after =~= before.push(e));
                lemma_valid_prefix(ids@, 0);
            }
            if e >= N_EXPERT {
                assert(valid_prefix(ids@, 0) == i);
                return Err(PagerError::BadExpert { id: e });
            }
            let mut dup: bool = false;
            let mut j: usize = 0;
            while j < assign.len()
                invariant
                    j <= assign.len(),
                    dup <==> exists|x: int| 0 <= x < j && (#[trigger] assign@[x]).0 == e,
                decreases assign.len() - j,
            {
                if assign[j].0 == e {
                    dup = true;
                }
                j = j + 1;
            }
            proof {
                lemma_assigned_dup(s, layer, before, w as int, need@, assign@, e);
            }
            if !dup {
                let k: u64 = key_of(layer, e);
                let mut at: Option<usize> = None;
                if let Some(p) = self.slot_of.get(&k) {
                    let sl: usize = *p as usize;
                    let held: bool = if own_slots {
                        sl == base + e as usize
                    } else {
                        sl >= base && sl < base + width
                    };
                    if held {
                        at = Some(sl);
                    }
                }
                if let Some(sl) = at {
                    assign.push((e, sl));
                    proof {
                        lemma_assigned_push(s, layer, before, w as int, need0, need@, assign0, e, sl);
                    }
                } else if own_slots {
                    let sl: usize = base + e as usize;
                    assign.push((e, sl));
                    need.push((e, sl));
                    proof {
                        lemma_assigned_push(s, layer, before, w as int, need0, need@, assign0, e, sl);
                    }
                } else {
                    while next < width && self.slot_key[base + next].is_some()
                        invariant
                            next <= width,
                            self@ == s,
                            s.wf(),
                            base + width <= s.layout.n_slots,
                            need@ == need0,
                            forall|x: int| #![trigger need@[x]] 0 <= x < need.len() ==> base <= need@[x].1 < base + next,
                            free == free.take(need.len() as int) + pool::free_slots(
                                s.slot_key,
                                base + next,
                                base + width,
                            ),
                        decreases width - next,
                    {
                        next = next + 1;
                    }
                    if next >= width {
                        proof {
                            assert(pool::free_slots(s.slot_key, base + next, base + width).len() == 0);
                            lemma_lacking_mono(s, layer, ids@, w as int, i + 1, valid_prefix(ids@, 0));
                            assert(s.lacking(layer, after, w as int).len() == need.len() + 1);
                        }
                        return Err(PagerError::UnionTooWide { window: w, width });
                    }
                    let sl: usize = base + next;
                    proof {
                        let rest = pool::free_slots(s.slot_key, base + next, base + width);
                        let rest2 = pool::free_slots(s.slot_key, base + next + 1, base + width);
                        assert(rest =~= seq![sl as int] + rest2);
                        assert(free[need.len() as int] == sl);
                        assert(free =~= free.take(need.len() + 1) + rest2);
                    }
                    next = next + 1;
                    assign.push((e, sl));
                    need.push((e, sl));
                    proof {
                        lemma_assigned_push(s, layer, before, w as int, need0, need@, assign0, e, sl);
                    }
                }
            } else {
                proof {
                    lemma_assigned_same(s, layer, before, w as int, need@, assign@, e);
                }
            }
            i = i + 1;
        }
        proof {
            assert(ids@.take(ids.len() as int) =~= ids@);
            lemma_valid_prefix(ids@, 0);
            assert(valid_prefix(ids@, 0) == ids.len());
        }
        self.make_room(layer, need.as_slice());
        self.write_window_remap(base, assign.as_slice());
        proof {
            lemma_union_remap(s, layer, ids@, w as int, need@, assign@, self@.remap);
        }
        Ok(need)
    }

    /// Makes the slots of `need` ready for their experts of `layer`.
    fn make_room(&mut self, layer: i32, need: &[(u32, usize)])
        requires
            old(self)@.wf(),
            forall|j: int| #![trigger need@[j]] 0 <= j < need.len() ==> need@[j].1 < old(self)@.layout.n_slots,
        ensures
            final(self)@ == old(self)@.room_made(layer, need@, need.len() as int),
            final(self)@.wf(),
            final(self)@.layout == old(self)@.layout,
            forall|j: int| #![trigger need@[j]]
                0 <= j < need.len() ==> final(self)@.slot_key[need@[j].1 as int] is None
                    || final(self)@.slot_key[need@[j].1 as int] == Some(pool::expert_key(layer, need@[j].0)),
    {
        let mut n: usize = 0;
        while n < need.len()
            invariant
                n <= need.len(),
                self@.wf(),
                self@.layout == old(self)@.layout,
                self@ == old(self)@.room_made(layer, need@, n as int),
                forall|j: int| #![trigger need@[j]] 0 <= j < need.len() ==> need@[j].1 < old(self)@.layout.n_slots,
                forall|j: int| #![trigger need@[j]]
                    0 <= j < n ==> self@.slot_key[need@[j].1 as int] is None || self@.slot_key[need@[j].1 as int]
                        == Some(pool::expert_key(layer, need@[j].0)),
            decreases need.len() - n,
        {
            let (e, slot) = need[n];
            assert(need@[n as int] == (e, slot));
            let k: u64 = key_of(layer, e);
            let kept: bool = match self.slot_key[slot] {
                Some(h) => h == k,
                None => false,
            };
            if !kept {
                proof {
                    pool::lemma_vacated_wf(self@, slot as u32);
                }
                self.vacate(slot as u32);
            }
            n = n + 1;
        }
    }

    /// Publishes the slots of `assign`, counted from the window's first one, and
    /// nothing else, as the remap.
    fn write_window_remap(&mut self, base: usize, assign: &[(u32, usize)])
        requires
            old(self)@.wf(),
            forall|j: int| #![trigger assign@[j]]
                0 <= j < assign.len() ==> base <= assign@[j].1 < base + N_EXPERT && assign@[j].0 < N_EXPERT,
            forall|i: int, j: int|
                0 <= i < j < assign.len() ==> #[trigger] assign@[i].0 != #[trigger] assign@[j].0,
        ensures
            final(self)@ == (PoolState { remap: final(self)@.remap, ..old(self)@ }),
            final(self)@.wf(),
            forall|j: int| #![trigger assign@[j]]
                0 <= j < assign.len() ==> final(self)@.remap[assign@[j].0 as int] == pool::own(assign@[j].1 - base),
            forall|e: u32|
                e < N_EXPERT && (forall|j: int|
                    0 <= j < assign.len() ==> (#[trigger] assign@[j]).0 != e) ==> #[trigger] final(self)@.remap[e as int] == 0,
    {
        let mut i: usize = 0;
        while i < self.remap.len()
            invariant
                i <= self.remap.len(),
                self.remap.len() == N_EXPERT,
                self@ == (PoolState { remap: self@.remap, ..old(self)@ }),
                forall|e: int| 0 <= e < i ==> #[trigger] self.remap@[e] == 0,
            decreases self.remap.len() - i,
        {
            self.remap.set(i, 0);
            i = i + 1;
        }
        let mut j: usize = 0;
        while j < assign.len()
            invariant
                j <= assign.len(),
                self.remap.len() == N_EXPERT,
                self@ == (PoolState { remap: self@.remap, ..old(self)@ }),
                forall|x: int| #![trigger assign@[x]]
                    0 <= x < assign.len() ==> base <= assign@[x].1 < base + N_EXPERT && assign@[x].0 < N_EXPERT,
                forall|x: int, y: int|
                    0 <= x < y < assign.len() ==> #[trigger] assign@[x].0 != #[trigger] assign@[y].0,
                forall|x: int| #![trigger assign@[x]]
                    0 <= x < j ==> self.remap@[assign@[x].0 as int] == pool::own(assign@[x].1 - base),
                forall|e: u32|
                    e < N_EXPERT && (forall|x: int|
                        0 <= x < j ==> (#[trigger] assign@[x]).0 != e) ==> #[trigger] self.remap@[e as int] == 0,
            decreases assign.len() - j,
        {
            let (e, sl) = assign[j];
            assert(assign@[j as int] == (e, sl));
            let ghost before = self.remap@;
            self.remap.set(e as usize, -((sl - base) as i32) - 1);
            proof {
                assert forall|x: u32|
                    x < N_EXPERT && (forall|y: int|
                        0 <= y < j + 1 ==> (#[trigger] assign@[y]).0 != x) implies #[trigger] self.remap@[x as int] == 0 by {
                    assert(assign@[j as int].0 != x);
                    assert(before[x as int] == 0);
                }
            }
            j = j + 1;
        }
    }

    /// The current remap: negative for an expert of this device, in slot
    /// `-entry - 1`, else another device's.
    pub fn remap(&self) -> (r: &[i32])
        ensures
            r@ == self@.remap,
    {
        self.remap.as_slice()
    }

    /// Decides on a missing expert: should its read be queued in the background?
    pub fn prefetch_hint(&self, pf: &mut Prefetcher, layer: i32, id: u32) -> (r: bool)
        requires
            old(pf)@.wf(),
        ensures
            final(pf)@.wf(),
            (final(pf)@, r) == old(pf)@.hinted(
                self@.slot_of.contains_key(pool::expert_key(layer, id)),
                pool::expert_key(layer, id),
            ),
    {
        let resident: bool = self.is_resident(layer, id);
        pf.hint(resident, layer, id)
    }

    /// Finds a slot for an expert whose background read has come back, unless the
    /// read failed or the expert became resident meanwhile. Bring the bytes there
    /// and record it with `admit_prefetched`.
    pub fn drain_prefetched(
        &mut self,
        pf: &mut Prefetcher,
        hints: &mut ResidencyHints,
        layer: i32,
        id: u32,
        read_ok: bool,
    ) -> (r: Result<Option<u32>, PagerError>)
        requires
            old(self)@.wf(),
            old(pf)@.wf(),
        ensures
            final(self)@.wf(),
            final(pf)@.wf(),
            final(pf)@ == (PrefetchState {
                pending: old(pf)@.pending.remove(pool::expert_key(layer, id)),
                ..old(pf)@
            }),
            ({
                let s = old(self)@;
                let slot = s.miss_slot(
                    layer,
                    Seq::empty(),
                    s.layout.lru_floor(),
                    s.layout.n_slots as int,
                );
                if !read_ok || s.slot_of.contains_key(pool::expert_key(layer, id)) {
                    &&& r == Ok::<Option<u32>, PagerError>(None)
                    &&& final(self)@ == s
                    &&& *final(hints) == *old(hints)
                } else if slot is None {
                    &&& r == Err::<Option<u32>, PagerError>(PagerError::NoSlot)
                    &&& final(self)@ == s
                    &&& *final(hints) == *old(hints)
                } else {
                    let sl = slot.unwrap();
                    &&& r == Ok::<Option<u32>, PagerError>(Some(sl))
                    &&& s.layout.lru_floor() <= sl < s.layout.n_slots
                    &&& final(self)@ == s.allocated(sl)
                    &&& final(self)@.slot_key[sl as int] is None
                    &&& final(hints).admitted_words() == residency::hinted(old(hints).admitted_words(), layer, id)
                    &&& final(hints).evicted_words() == (match s.slot_key[sl as int] {
                        Some(k) if s.sits(k, sl) => residency::hinted(
                            old(hints).evicted_words(),
                            pool::key_layer(k),
                            pool::key_expert(k),
                        ),
                        _ => old(hints).evicted_words(),
                    })
                }
            }),
    {
        pf.arrived(layer, id);
        if !read_ok || self.is_resident(layer, id) {
            return Ok(None);
        }
        let lo: usize = self.layout.lru_lo();
        let none: Vec<u32> = Vec::new();
        assert(none@.take(0) =~= Seq::<u32>::empty());
        match self.find_slot(layer, none.as_slice(), 0, lo, self.layout.n_slots as usize) {
            None => Err(PagerError::NoSlot),
            Some(slot) => {
                if let Some(k) = self.slot_key[slot as usize] {
                    if self.is_in(k, slot) {
                        push_hint(hints, false, ((k >> 32u64) as u32) as i32, (k & 0xffff_ffffu64) as u32);
                    }
                }
                proof {
                    pool::lemma_allocated_wf(self@, slot);
                }
                self.allocate(slot);
                push_hint(hints, true, layer, id);
                Ok(Some(slot))
            },
        }
    }

    /// Records that an expert that was read ahead is in `slot`. The remap is left
    /// alone, and the second device's miss of the expert is settled.
    pub fn admit_prefetched(&mut self, box2: &mut Box2Misses, layer: i32, id: u32, slot: u32)
        requires
            old(self)@.wf(),
            old(box2).wf(),
            slot < old(self)@.layout.n_slots,
            old(self)@.slot_key[slot as int] is None,
        ensures
            final(self)@.wf(),
            final(box2).wf(),
            final(self)@ == old(self)@.placed(layer, id, slot as int).touched(slot),
            forall|l: i32, x: u32| #[trigger]
                final(box2).marked(l, x) == (old(box2).marked(l, x) && !(l == layer && x == id)),
            final(box2).counts() == old(box2).counts(),
    {
        proof {
            pool::lemma_placed_wf(self@, layer, id, slot as int);
            pool::lemma_touched_wf(self@.placed(layer, id, slot as int), slot);
        }
        let k: u64 = key_of(layer, id);
        self.slot_of.insert(k, slot);
        self.slot_key.set(slot as usize, Some(k));
        self.touch(slot);
        clear_box2_miss(box2, layer, id);
    }

    /// Free slots of the decode region.
    pub fn lru_free_slots(&self) -> (r: usize)
        requires
            self@.wf(),
        ensures
            r == pool::free_slots(self@.slot_key, self@.layout.lru_floor(), self@.layout.n_slots as int).len(),
    {
        let lo: usize = self.layout.lru_lo();
        let mut n: usize = 0;
        let mut i: usize = self.slot_key.len();
        while i > lo
            invariant
                lo <= i <= self.slot_key.len(),
                self@.slot_key == self.slot_key@,
                n <= self.slot_key.len() - i,
                n == pool::free_slots(self.slot_key@, i as int, self.slot_key.len() as int).len(),
            decreases i,
        {
            i = i - 1;
            if self.slot_key[i].is_none() {
                n = n + 1;
            }
        }
        n
    }

    /// Requests of both phases.
    pub fn requests(&self) -> (r: u64)
        ensures
            r == self@.counters.prefill_requests.wrapping_add(self@.counters.decode_requests),
    {
        self.counters.prefill_requests.wrapping_add(self.counters.decode_requests)
    }

    /// Misses of both phases.
    pub fn misses(&self) -> (r: u64)
        ensures
            r == self@.counters.prefill_misses.wrapping_add(self@.counters.decode_misses),
    {
        self.counters.prefill_misses.wrapping_add(self.counters.decode_misses)
    }

    /// Summarises the misses since the last call and forgets them, so that each
    /// summary is of a window. `None` where misses are not recorded by expert.
    pub fn take_miss_shape(&mut self) -> (r: Option<MissShape>)
        requires
            old(self)@.wf(),
        ensures
            final(self)@.wf(),
            r is Some <==> old(self)@.miss_hist is Some,
            r matches Some(m) ==> miss_shape::is_shape(old(self)@.miss_hist->0, m),
            final(self)@ == (PoolState {
                miss_hist: match old(self)@.miss_hist {
                    Some(h) => Some(Seq::new(h.len(), |i: int| 0u32)),
                    None => None,
                },
                ..old(self)@
            }),
    {
        if self.miss_hist.is_none() {
            return None;
        }
        let hist = self.miss_hist.take();
        match hist {
            None => None,
            Some(h) => {
                let m = miss_shape::miss_shape(&h);
                let zeros: Vec<u32> = vec![0; 15360];
                assert(zeros@ =~= Seq::new(h@.len(), |i: int| 0u32));
                self.miss_hist = Some(zeros);
                Some(m)
            },
        }
    }

    /// A snapshot of every counter.
    pub fn counters(&self) -> (r: PagerCounters)
        ensures
            r == self@.counters,
    {
        self.counters
    }

    /// Calls, sum, largest and smallest size, and histogram of the unions so far.
    pub fn union_stats(&self) -> (r: (u64, u64, u32, u32, &[u64]))
        ensures
            r.0 == self@.union_calls,
            r.1 == self@.union_sum,
            r.2 == self@.union_max,
            r.3 == self@.union_min,
            r.4@ == self@.union_hist,
    {
        (self.union_calls, self.union_sum, self.union_max, self.union_min, self.union_hist.as_slice())
    }

    /// Adds what a decode miss took: reading, copying, and of the reading the
    /// allocation, the disk, the repacking and the bytes.
    pub fn add_decode_times(
        &mut self,
        read_ns: u64,
        h2d_ns: u64,
        alloc_ns: u64,
        pread_ns: u64,
        repack_ns: u64,
        pread_bytes: u64,
    )
        ensures
            final(self)@ == (PoolState {
                counters: (PagerCounters {
                    decode_read_ns: old(self)@.counters.decode_read_ns.wrapping_add(read_ns),
                    decode_h2d_ns: old(self)@.counters.decode_h2d_ns.wrapping_add(h2d_ns),
                    decode_alloc_ns: old(self)@.counters.decode_alloc_ns.wrapping_add(alloc_ns),
                    decode_pread_ns: old(self)@.counters.decode_pread_ns.wrapping_add(pread_ns),
                    decode_repack_ns: old(self)@.counters.decode_repack_ns.wrapping_add(repack_ns),
                    decode_pread_bytes: old(self)@.counters.decode_pread_bytes.wrapping_add(pread_bytes),
                    ..old(self)@.counters
                }),
                ..old(self)@
            }),
    {
        self.counters.decode_read_ns = self.counters.decode_read_ns.wrapping_add(read_ns);
        self.counters.decode_h2d_ns = self.counters.decode_h2d_ns.wrapping_add(h2d_ns);
        self.counters.decode_alloc_ns = self.counters.decode_alloc_ns.wrapping_add(alloc_ns);
        self.counters.decode_pread_ns = self.counters.decode_pread_ns.wrapping_add(pread_ns);
        self.counters.decode_repack_ns = self.counters.decode_repack_ns.wrapping_add(repack_ns);
        self.counters.decode_pread_bytes = self.counters.decode_pread_bytes.wrapping_add(pread_bytes);
    }

    /// Adds what a window fill took.
    pub fn add_prefill_times(&mut self, read_ns: u64, h2d_ns: u64)
        ensures
            final(self)@ == (PoolState {
                counters: (PagerCounters {
                    prefill_read_ns: old(self)@.counters.prefill_read_ns.wrapping_add(read_ns),
                    prefill_h2d_ns: old(self)@.counters.prefill_h2d_ns.wrapping_add(h2d_ns),
                    ..old(self)@.counters
                }),
                ..old(self)@
            }),
    {
        self.counters.prefill_read_ns = self.counters.prefill_read_ns.wrapping_add(read_ns);
        self.counters.prefill_h2d_ns = self.counters.prefill_h2d_ns.wrapping_add(h2d_ns);
    }

    /// Number of the device buffer that the remap goes to: one per layer, the
    /// nearest one for a layer outside of the model.
    pub fn remap_buffer(&self) -> (r: usize)
        ensures
            r == (if self@.cur_layer < 0 {
                0
            } else if self@.cur_layer > N_LAYER - 1 {
                N_LAYER - 1
            } else {
                self@.cur_layer as int
            }),
    {
        if self.cur_layer < 0 {
            0
        } else if self.cur_layer > N_LAYER - 1 {
            (N_LAYER - 1) as usize
        } else {
            self.cur_layer as usize
        }
    }

    /// Slots that decode may allocate from.
    pub fn decode_slots(&self) -> (r: u32)
        requires
            self@.wf(),
        ensures
            r == self@.layout.n_slots - self@.layout.lru_floor(),
    {
        self.layout.decode_slots()
    }

    /// Windows reserved for prefill.
    pub fn dense_windows(&self) -> (r: u32)
        ensures
            r == self@.layout.dense_windows,
    {
        self.layout.dense_windows
    }

    /// Group ids that the absolute-slot remap can carry.
    pub fn sparse_group_bound(&self) -> (r: u32)
        ensures
            r == self@.layout.n_slots,
    {
        self.layout.sparse_group_bound()
    }

    /// Does every slot number survive the packing of a work item?
    pub fn sparse_group_ids_in_range(&self) -> (r: bool)
        ensures
            r == (self@.layout.n_slots <= MAX_MOE_GROUP_IDS),
    {
        self.layout.sparse_group_ids_in_range()
    }

    /// First slot and number of slots of the view onto `layer`'s window.
    pub fn routed_window(&self, layer: i32) -> (r: (usize, usize))
        requires
            self@.wf(),
        ensures
            r.0 == self@.layout.base(self@.layout.layer_window(layer)),
            r.1 == self@.layout.width(self@.layout.layer_window(layer)),
            self@.layout.n_slots >= N_EXPERT ==> r.0 + r.1 <= self@.layout.n_slots,
    {
        let w: u32 = self.layout.window_of(layer);
        (self.layout.window_base(w), self.layout.window_width(w))
    }

    /// Empties the pool: no expert is resident, and no window stands for a layer.
    /// The remap and the counters are kept.
    pub fn clear(&mut self)
        requires
            old(self)@.wf(),
        ensures
            final(self)@.wf(),
            final(self)@ == old(self)@.emptied(),
    {
        self.slot_of.clear();
        let mut i: usize = 0;
        while i < self.slot_key.len()
            invariant
                i <= self.slot_key.len(),
                self.slot_key.len() == old(self)@.slot_key.len(),
                forall|j: int| 0 <= j < i ==> (#[trigger] self.slot_key@[j]) is None,
                self@ == (PoolState {
                    slot_of: Map::empty(),
                    slot_key: self.slot_key@,
                    ..old(self)@
                }),
            decreases self.slot_key.len() - i,
        {
            self.slot_key.set(i, None);
            i = i + 1;
        }
        self.lru.clear();
        let n: usize = self.window_layer.len();
        let mut layers: Vec<Option<i32>> = Vec::new();
        let mut dense: Vec<bool> = Vec::new();
        let mut w: usize = 0;
        while w < n
            invariant
                w <= n,
                layers@ == Seq::new(w as nat, |i: int| None::<i32>),
                dense@ == Seq::new(w as nat, |i: int| false),
            decreases n - w,
        {
            layers.push(None);
            dense.push(false);
            w = w + 1;
        }
        self.window_layer = layers;
        self.window_dense = dense;
        assert(self@.slot_key =~= old(self)@.emptied().slot_key);
        assert(self@ =~= old(self)@.emptied());
    }

    /// An empty pool of `n_slots` slots.
    ///
    /// `stride` and `windows` are the configured slots per pinned window and
    /// windows, `by_frac` is prefill's share of the windows that fit, `ced` tells
    /// whether a prefill replays its upper layers, and `read_batch` is how many
    /// experts the staging buffers hold.
    pub fn new(
        n_slots: u32,
        stride: Option<u32>,
        windows: Option<u32>,
        by_frac: u32,
        ced: bool,
        read_batch: usize,
        record_misses: bool,
    ) -> (r: Self)
        requires
            n_slots <= i32::MAX,
        ensures
            r@.wf(),
            r@.layout == (WindowLayout {
                n_slots,
                stride: stride_spec(stride),
                dense_windows: windows::dense_windows_spec(
                    windows,
                    by_frac,
                    ced,
                    windows::windows_that_fit(n_slots, stride_spec(stride)) as u32,
                ) as u32,
            }),
            r@ == fresh_pool(r@.layout, read_batch, record_misses),
    {
        let st: u32 = window_stride(stride);
        let total: u32 = total_windows(n_slots, st);
        let dense: u32 = dense_window_count(windows, by_frac, ced, total);
        let layout = WindowLayout { n_slots, stride: st, dense_windows: dense };
        proof {
            windows::lemma_layout_wf(layout);
        }
        let mut remap: Vec<i32> = Vec::new();
        let mut e: i32 = 0;
        while e < 384
            invariant
                0 <= e <= 384,
                remap.len() == e,
                forall|j: int| 0 <= j < e ==> #[trigger] remap@[j] == pool::own(j),
            decreases 384 - e,
        {
            remap.push(-e - 1);
            e = e + 1;
        }
        let miss_hist: Option<Vec<u32>> = if record_misses { Some(vec![0; 15360]) } else { None };
        let r = ExpertPager {
            layout,
            slot_of: HashMap::new(),
            slot_key: vec![None; n_slots as usize],
            lru: Vec::new(),
            remap,
            cur_layer: 0,
            window_layer: vec![None; total as usize],
            window_dense: vec![false; total as usize],
            scan_window: None,
            count_as_prefill: false,
            counters: PagerCounters {
                prefill_requests: 0,
                prefill_misses: 0,
                prefill_read_ns: 0,
                prefill_h2d_ns: 0,
                decode_requests: 0,
                decode_misses: 0,
                decode_read_ns: 0,
                decode_h2d_ns: 0,
                decode_alloc_ns: 0,
                decode_pread_ns: 0,
                decode_repack_ns: 0,
                decode_pread_bytes: 0,
            },
            union_calls: 0,
            union_sum: 0,
            union_max: 0,
            union_min: u32::MAX,
            union_hist: vec![0; 6],
            miss_hist,
            read_batch,
        };
        proof {
            let f = fresh_pool(layout, read_batch, record_misses);
            assert(r@.slot_key =~= f.slot_key);
            assert(r@.remap =~= f.remap);
            assert(r@.window_layer =~= f.window_layer);
            assert(r@.window_dense =~= f.window_dense);
            assert(r@.union_hist =~= f.union_hist);
            if record_misses {
                assert(r@.miss_hist.unwrap() =~= f.miss_hist.unwrap());
            }
            assert(r@.slot_of =~= f.slot_of);
            assert(r@.lru =~= f.lru);
        }
        r
    }

    /// Is an expert resident? Neither pages nor counts as a use.
    pub fn is_resident(&self, layer: i32, e: u32) -> (r: bool)
        ensures
            r == self@.slot_of.contains_key(pool::expert_key(layer, e)),
    {
        self.slot_of.contains_key(&key_of(layer, e))
    }
}

} // verus!
