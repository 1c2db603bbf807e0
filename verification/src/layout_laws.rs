//! How the pool is divided, and how the output projection's scratch is.

use vstd::prelude::*;
use crate::batch_scratch;
use crate::batch_scratch::{Geometry, B_MAX};
use crate::config::Q_FLAT;
use crate::dispatch;
use crate::expert_pager;
use crate::pool;
use crate::scratch_sizes;
use crate::scratch_sizes::BatchIgpuShared;
use crate::windows;
use crate::windows::WindowLayout;

verus! {

/// As many windows are made as fit beside a whole layer's: one more would not.
pub proof fn no_further_window_would_fit(n_slots: u32, stride: u32)
    requires
        1 <= stride <= 384,
    ensures
        ({
            let n = windows::windows_that_fit(n_slots, stride);
            &&& n >= 1
            &&& n_slots >= 384 ==> (n - 1) * stride + 384 <= n_slots < n * stride + 384
            &&& n_slots < 384 ==> n == 1
        }),
{
    if n_slots > 384 {
        let room = n_slots - 384;
        let each = stride as int;
        let q = room / each;
        vstd::arithmetic::div_mod::lemma_fundamental_div_mod(room, each);
        assert(q >= 0) by (nonlinear_arith)
            requires
                room == each * q + room % each,
                0 <= room % each < each,
                room > 0,
        ;
        assert(q * each == each * q && (q + 1) * each == each * q + each) by (nonlinear_arith);
    }
}

/// Prefill gets at least one window and no more than there are. A number that is asked
/// for is met as far as there are windows; else decode is left one, and prefill takes
/// no more than its share, nor than it has layers to sweep.
pub proof fn prefill_gets_its_windows(requested: Option<u32>, by_frac: u32, ced: bool, total: u32)
    requires
        total >= 1,
    ensures
        ({
            let n = windows::dense_windows_spec(requested, by_frac, ced, total);
            let useful: int = if ced {
                22
            } else {
                41
            };
            &&& 1 <= n <= total
            &&& requested matches Some(w) ==> (n == w || w == 0 || w > total) && (w > total ==> n
                == total) && (w == 0 ==> n == 1)
            &&& requested is None ==> {
                &&& total >= 2 ==> n < total
                &&& n > 1 ==> n <= by_frac && n <= useful
                &&& n < by_frac && n < useful ==> n == 1 || n == total - 1
            }
        }),
{
}

/// A window's width is met as far as it is one: at least a slot, at most a whole layer,
/// which it is where nothing was asked for.
pub proof fn a_window_is_as_wide_as_asked(stride: Option<u32>)
    ensures
        1 <= expert_pager::stride_spec(stride) <= 384,
        stride matches Some(v) ==> 1 <= v <= 384 ==> expert_pager::stride_spec(stride) == v,
        stride matches Some(v) && v > 384 ==> expert_pager::stride_spec(stride) == 384,
        stride matches Some(v) && v < 1 ==> expert_pager::stride_spec(stride) == 1,
        stride is None ==> expert_pager::stride_spec(stride) == 384,
{
}

/// A new pool holds nobody and has counted nothing; its smallest union is yet to come.
pub proof fn a_new_pool_is_empty(
    layout: WindowLayout,
    read_batch: usize,
    record_misses: bool,
    k: u64,
    slot: int,
    w: int,
    e: int,
)
    requires
        0 <= slot < layout.n_slots,
        0 <= w < windows::windows_that_fit(layout.n_slots, layout.stride),
        0 <= e < 384,
    ensures
        ({
            let s = expert_pager::fresh_pool(layout, read_batch, record_misses);
            &&& !s.slot_of.contains_key(k)
            &&& s.slot_key.len() == layout.n_slots && s.slot_key[slot] is None
            &&& s.lru.len() == 0
            &&& s.window_layer[w] is None && !s.window_dense[w]
            &&& s.scan_window is None && !s.count_as_prefill
            &&& -s.remap[e] - 1 == e
            &&& s.counters.prefill_requests == 0 && s.counters.prefill_misses == 0
            &&& s.counters.decode_requests == 0 && s.counters.decode_misses == 0
            &&& s.counters.prefill_read_ns == 0 && s.counters.prefill_h2d_ns == 0
            &&& s.counters.decode_read_ns == 0 && s.counters.decode_h2d_ns == 0
            &&& s.counters.decode_alloc_ns == 0 && s.counters.decode_pread_ns == 0
            &&& s.counters.decode_repack_ns == 0 && s.counters.decode_pread_bytes == 0
            &&& s.union_calls == 0 && s.union_sum == 0 && s.union_max == 0
            &&& s.union_min == u32::MAX
            &&& s.miss_hist is Some <==> record_misses
            &&& s.miss_hist matches Some(h) ==> pool::PoolState::hist_index(39, 383) == h.len() - 1
            &&& s.read_batch == read_batch
        }),
{
}

/// A miss is recorded at a place of its own: experts of one layer, and of two, have
/// different ones, all of them in the histogram.
pub proof fn every_expert_has_its_place_in_the_histogram(l: i32, m: i32, d: u32, e: u32)
    requires
        0 <= l < 40,
        0 <= m < 40,
        d < 384,
        e < 384,
    ensures
        0 <= pool::PoolState::hist_index(l, d) < 15360,
        pool::PoolState::hist_index(l, d) == pool::PoolState::hist_index(m, e) ==> l == m && d
            == e,
        pool::PoolState::hist_index(l, d) / 384 == l,
{
}

/// The pool has the slots that were asked for, else those configured, else as many as
/// the budget holds, within bounds.
pub proof fn a_pool_is_as_large_as_its_budget(
    asked: u32,
    configured: Option<u32>,
    budget: nat,
    per_slot: nat,
)
    requires
        per_slot > 0,
    ensures
        ({
            let n = windows::pool_slots_spec(asked, configured, budget, per_slot);
            &&& asked > 0 ==> n == asked
            &&& asked == 0 && configured is Some ==> Some(n as u32) == configured
            &&& asked == 0 && configured is None ==> {
                &&& 64 <= n <= 40 * 384
                &&& n > 64 ==> n * per_slot <= budget
                &&& n < 40 * 384 ==> (n + 1) * per_slot > budget
            }
        }),
{
    let q = (budget / per_slot) as int;
    let p = per_slot as int;
    vstd::arithmetic::div_mod::lemma_fundamental_div_mod(budget as int, p);
    if asked == 0 && configured is None {
        let n = windows::pool_slots_spec(asked, configured, budget, per_slot);
        assert(n <= q ==> n * p <= p * q) by (nonlinear_arith)
            requires
                p > 0,
        ;
        assert(n >= q ==> (n + 1) * p >= p * q + p) by (nonlinear_arith)
            requires
                p > 0,
        ;
    }
}

/// The parts of the output projection's scratch begin at multiples of 256 and stand
/// one behind the other: each ends before the next begins.
pub proof fn the_output_scratchs_parts_do_not_overlap(g: Geometry, rows: int)
    requires
        0 <= rows <= B_MAX,
    ensures
        ({
            let (a, b, c, d, e, end) = scratch_sizes::output_offsets(g, rows);
            &&& a % 256 == 0 && b % 256 == 0 && c % 256 == 0 && d % 256 == 0 && e % 256 == 0
            &&& rows * g.out_low * 4 <= a
            &&& a + rows * 32768 <= b
            &&& b + rows * g.blocks_grouped_out * 4 <= c
            &&& c + rows * g.out_low <= d
            &&& d + rows * g.blocks_out_low * 4 <= e
            &&& e + rows * 5120 * 4 <= end
        }),
{
    lemma_aligned(rows * g.out_low * 4);
    lemma_aligned(rows * Q_FLAT);
    lemma_aligned(rows * g.blocks_grouped_out * 4);
    lemma_aligned(rows * g.out_low);
    lemma_aligned(rows * g.blocks_out_low * 4);
    lemma_aligned(rows * crate::config::N_EMBD * 4);
    assert(rows * Q_FLAT == rows * 32768);
    assert(rows * crate::config::N_EMBD == rows * 5120);
}

proof fn lemma_aligned(bytes: int)
    ensures
        bytes <= batch_scratch::aligned(bytes) < bytes + 256,
        batch_scratch::aligned(bytes) % 256 == 0,
{
}

/// Buffers that have room for so many rows in so many groups have a place for every
/// member of every group, and for every work item, however the picks are grouped.
pub proof fn every_member_of_a_group_has_a_place(
    s: BatchIgpuShared,
    n_groups: u32,
    max_per_expert: u32,
    b: usize,
    group: int,
    member: int,
    sizes: Seq<nat>,
    chunk: nat,
)
    requires
        s.holds(n_groups, max_per_expert, b),
        0 <= group < n_groups,
        0 <= member < max_per_expert,
        sizes.len() <= n_groups,
        // Each row has six picks.
        dispatch::total(sizes) <= 6 * b,
    ensures
        0 <= group * max_per_expert + member < s.expert_members,
        n_groups + dispatch::items(sizes, chunk) <= s.work_items,
{
    assert(group * max_per_expert + max_per_expert <= n_groups * max_per_expert)
        by (nonlinear_arith)
        requires
            group + 1 <= n_groups,
            max_per_expert >= 0,
    ;
    assert(group * max_per_expert >= 0) by (nonlinear_arith)
        requires
            group >= 0,
            max_per_expert >= 0,
    ;
    dispatch::the_bound_covers_every_grouping(sizes, n_groups as nat, chunk);
}

} // verus!
