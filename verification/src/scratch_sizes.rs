//! Lengths of the buffers of a batch's scratch, in elements.

use vstd::prelude::*;
use crate::batch_scratch::{
    attn_scores_capacity_keys, check_rows, hot_scratch_wanted, r1_arena_bytes, r3_arena_bytes,
    BatchDgpuHotScratch, Carver, Geometry, Region, B_MAX, MTP_CAP_ROWS, MTP_SRC_COUNT,
};
use crate::batch_scratch;
use crate::config::{
    ATTN_MIXED_MAX_KEYS, BLOCKS_Q8K_DOWN_IN, BLOCKS_Q8K_GATE_IN, BLOCK_Q8_K_BYTES, HC_DIM,
    HC_MIX_DIM, INDEXER_TOP_K, N_EMBD, N_EXPERT, N_EXPERT_USED, N_FF_EXP, N_FF_SHARED, N_HC, N_HEAD,
    N_HEAD_DIM, N_INDEXER_HEAD_DIM, N_LORA_Q, Q_FLAT, SWA_WINDOW,
};

verus! {

/// `n` elements for each row.
fn each(rows: usize, n: u64) -> (r: u64)
    requires
        rows <= B_MAX,
        n <= 0x100_0000_0000,
    ensures
        r == rows * n,
{
    assert(rows * n <= 1024 * 0x100_0000_0000) by (nonlinear_arith)
        requires
            rows <= 1024,
            n <= 0x100_0000_0000,
    ;
    rows as u64 * n
}

/// Buffers of one lane.
#[derive(Debug, Clone, Copy, PartialEq, Eq, Structural)]
pub struct BatchDgpuScratch {
    /// Rows that the buffers hold.
    pub rows: usize,
    pub indexer_sel_saved: u64,
    /// The residuals, the next ones, and those behind attention.
    pub residual: u64,
    /// The mix, and the one of the half-layer before.
    pub split: u64,
    pub engram_rows: u64,
    pub engram_xq: u64,
    pub engram_xscale: u64,
    pub engram_kv: u64,
    pub mtp_src: u64,
    pub mtp_hc_mean: u64,
    /// The feed-forward half's input, its shared part and its received part.
    pub ffn: u64,
    /// The picks, and their weights.
    pub picks: u64,
    /// The positions, and the counts of saved rows.
    pub per_row: u64,
    pub hot_ffn_moe: Option<u64>,
    pub remote_ffn_moe: Option<u64>,
}

/// The buffers of one lane of `rows` rows.
pub open spec fn lane_sizes(g: Geometry, rows: int) -> BatchDgpuScratch {
    BatchDgpuScratch {
        rows: rows as usize,
        indexer_sel_saved: (rows * INDEXER_TOP_K) as u64,
        residual: (rows * HC_DIM) as u64,
        split: (rows * HC_MIX_DIM) as u64,
        engram_rows: if g.v41 {
            (rows * g.engram_in) as u64
        } else {
            32
        },
        engram_xq: if g.v41 {
            (g.engram_chunk * g.engram_in) as u64
        } else {
            32
        },
        engram_xscale: if g.v41 {
            (g.engram_chunk * g.engram_in / 32) as u64
        } else {
            32
        },
        engram_kv: if g.v41 {
            (g.engram_chunk * g.engram_out) as u64
        } else {
            32
        },
        mtp_src: (MTP_CAP_ROWS * MTP_SRC_COUNT * N_EMBD) as u64,
        mtp_hc_mean: (N_HC * MTP_CAP_ROWS) as u64,
        ffn: (rows * N_EMBD) as u64,
        picks: (rows * N_EXPERT_USED) as u64,
        per_row: rows as u64,
        hot_ffn_moe: if g.hot_experts > 0 {
            Some((rows * N_EMBD) as u64)
        } else {
            None
        },
        remote_ffn_moe: if g.remote {
            Some((rows * N_EMBD) as u64)
        } else {
            None
        },
    }
}

impl BatchDgpuScratch {
    /// Sizes the buffers of one lane. `None` where a scratch cannot be sized for so
    /// many rows.
    pub fn alloc_rows(g: &Geometry, rows: usize) -> (r: Option<Self>)
        ensures
            r == (if 0 < rows <= B_MAX {
                Some(lane_sizes(*g, rows as int))
            } else {
                None
            }),
    {
        if !check_rows(rows) {
            return None;
        }
        let chunk: u64 = g.engram_chunk as u64;
        let into: u64 = g.engram_in as u64;
        let out: u64 = g.engram_out as u64;
        assert(chunk * into <= 0xffff_ffff * 0xffff_ffff) by (nonlinear_arith)
            requires
                chunk <= 0xffff_ffff,
                into <= 0xffff_ffff,
        ;
        assert(chunk * out <= 0xffff_ffff * 0xffff_ffff) by (nonlinear_arith)
            requires
                chunk <= 0xffff_ffff,
                out <= 0xffff_ffff,
        ;
        let ffn = each(rows, N_EMBD as u64);
        Some(
            BatchDgpuScratch {
                rows,
                indexer_sel_saved: each(rows, INDEXER_TOP_K as u64),
                residual: each(rows, HC_DIM as u64),
                split: each(rows, HC_MIX_DIM as u64),
                engram_rows: if g.v41 {
                    each(rows, into)
                } else {
                    32
                },
                engram_xq: if g.v41 {
                    chunk * into
                } else {
                    32
                },
                engram_xscale: if g.v41 {
                    chunk * into / 32
                } else {
                    32
                },
                engram_kv: if g.v41 {
                    chunk * out
                } else {
                    32
                },
                mtp_src: 1966080,
                mtp_hc_mean: 512,
                ffn,
                picks: each(rows, N_EXPERT_USED as u64),
                per_row: rows as u64,
                hot_ffn_moe: if hot_scratch_wanted(g) {
                    Some(ffn)
                } else {
                    None
                },
                remote_ffn_moe: if g.remote {
                    Some(ffn)
                } else {
                    None
                },
            },
        )
    }
}

/// Buffers of the second device's lane.
#[derive(Debug, Clone, Copy, PartialEq, Eq, Structural)]
pub struct BatchIgpuScratch {
    /// Rows that the buffers hold.
    pub rows: usize,
    /// The received input, and the sum.
    pub ffn: u64,
    pub picks: u64,
    pub group_count: u64,
}

impl BatchIgpuScratch {
    /// Sizes the buffers of the second device's lane. `None` where a scratch cannot
    /// be sized for so many rows.
    pub fn alloc_rows(rows: usize) -> (r: Option<Self>)
        ensures
            r == (if 0 < rows <= B_MAX {
                Some(
                    BatchIgpuScratch {
                        rows,
                        ffn: (rows * N_EMBD) as u64,
                        picks: (rows * N_EXPERT_USED) as u64,
                        group_count: N_EXPERT as u64,
                    },
                )
            } else {
                None
            }),
    {
        if !check_rows(rows) {
            return None;
        }
        Some(
            BatchIgpuScratch {
                rows,
                ffn: each(rows, N_EMBD as u64),
                picks: each(rows, N_EXPERT_USED as u64),
                group_count: N_EXPERT as u64,
            },
        )
    }

    /// Grows the list of group counts to hold `n_groups`. It never shrinks.
    pub fn ensure_group_bound(&mut self, n_groups: u32)
        ensures
            *final(self) == (BatchIgpuScratch {
                group_count: batch_scratch::most(old(self).group_count as int, n_groups as int) as u64,
                ..*old(self)
            }),
    {
        if self.group_count < n_groups as u64 {
            self.group_count = n_groups as u64;
        }
    }
}

/// Buffers that the second device's lanes share.
#[derive(Debug, Clone, Copy, PartialEq, Eq, Structural)]
pub struct BatchIgpuShared {
    /// Rows that the buffers hold.
    pub rows: usize,
    pub xq_q8k: u64,
    /// The experts' inner values, in 32 and in 16 bits.
    pub mid: u64,
    pub midq: u64,
    pub x16: u64,
    pub expert_members: u64,
    /// Each of the three lists of work items.
    pub work_items: u64,
    pub partials: u64,
}

/// The buffers that the second device's lanes of `rows` rows share.
pub open spec fn igpu_shared_sizes(rows: int) -> BatchIgpuShared {
    BatchIgpuShared {
        rows: rows as usize,
        xq_q8k: (rows * (BLOCKS_Q8K_GATE_IN * BLOCK_Q8_K_BYTES)) as u64,
        mid: (rows * (N_EXPERT_USED * N_FF_EXP)) as u64,
        midq: (rows * (N_EXPERT_USED * BLOCKS_Q8K_DOWN_IN * BLOCK_Q8_K_BYTES)) as u64,
        x16: (rows * N_EMBD) as u64,
        expert_members: (rows * N_EXPERT) as u64,
        work_items: (N_EXPERT + rows * N_EXPERT_USED) as u64,
        partials: (rows * (N_EXPERT_USED * N_EMBD)) as u64,
    }
}

/// Members that `n_groups` groups can have.
pub open spec fn group_members(n_groups: u32, max_per_expert: u32) -> int {
    n_groups * max_per_expert
}

/// Work items that `b` rows in `n_groups` groups can need.
pub open spec fn group_items(n_groups: u32, b: usize) -> int {
    n_groups + b * N_EXPERT_USED
}

impl BatchIgpuShared {
    /// Sizes the buffers that the second device's lanes share. `None` where a
    /// scratch cannot be sized for so many rows.
    pub fn alloc_rows(rows: usize) -> (r: Option<Self>)
        ensures
            r == (if 0 < rows <= B_MAX {
                Some(igpu_shared_sizes(rows as int))
            } else {
                None
            }),
    {
        if !check_rows(rows) {
            return None;
        }
        Some(
            BatchIgpuShared {
                rows,
                xq_q8k: each(rows, 5840),
                mid: each(rows, 13824),
                midq: each(rows, 15768),
                x16: each(rows, N_EMBD as u64),
                expert_members: each(rows, N_EXPERT as u64),
                work_items: N_EXPERT as u64 + each(rows, N_EXPERT_USED as u64),
                partials: each(rows, 30720),
            },
        )
    }

    /// Members that one group can have.
    pub fn max_per_expert(&self) -> (r: u32)
        requires
            self.rows <= u32::MAX,
        ensures
            r == self.rows,
    {
        self.rows as u32
    }

    /// There is room for `b` rows in `n_groups` groups.
    pub open spec fn holds(self, n_groups: u32, max_per_expert: u32, b: usize) -> bool {
        &&& self.expert_members >= group_members(n_groups, max_per_expert)
        &&& self.work_items >= group_items(n_groups, b)
    }

    /// Is there room for `b` rows in `n_groups` groups?
    pub fn group_capacity_ok(&self, n_groups: u32, max_per_expert: u32, b: usize) -> (r: bool)
        requires
            group_items(n_groups, b) <= u64::MAX,
        ensures
            r == self.holds(n_groups, max_per_expert, b),
    {
        proof {
            lemma_u32_product(n_groups, max_per_expert);
        }
        self.expert_members >= n_groups as u64 * max_per_expert as u64 && self.work_items
            >= n_groups as u64 + b as u64 * 6
    }

    /// Grows what is too small for `b` rows in `n_groups` groups, and nothing else.
    pub fn ensure_group_capacity(&mut self, n_groups: u32, max_per_expert: u32, b: usize)
        requires
            group_items(n_groups, b) <= u64::MAX,
        ensures
            final(self).holds(n_groups, max_per_expert, b),
            *final(self) == (BatchIgpuShared {
                expert_members: batch_scratch::most(
                    old(self).expert_members as int,
                    group_members(n_groups, max_per_expert),
                ) as u64,
                work_items: batch_scratch::most(
                    old(self).work_items as int,
                    group_items(n_groups, b),
                ) as u64,
                ..*old(self)
            }),
    {
        proof {
            lemma_u32_product(n_groups, max_per_expert);
        }
        let members: u64 = n_groups as u64 * max_per_expert as u64;
        if self.expert_members < members {
            self.expert_members = members;
        }
        let items: u64 = n_groups as u64 + b as u64 * 6;
        if self.work_items < items {
            self.work_items = items;
        }
    }
}

proof fn lemma_u32_product(a: u32, b: u32)
    ensures
        a * b <= u64::MAX,
{
    assert(a * b <= 0xffff_ffff * 0xffff_ffff) by (nonlinear_arith)
        requires
            a <= 0xffff_ffff,
            b <= 0xffff_ffff,
    ;
}

/// Tokens per compressed row of the layer that adds rows most often.
pub open spec fn least_ratio(g: Geometry, n: int) -> Option<u32>
    decreases n,
{
    if n <= 0 {
        None
    } else {
        let below = least_ratio(g, n - 1);
        let r = g.layers[n - 1].ratio;
        if r == 0 {
            below
        } else {
            match below {
                Some(b) => Some(
                    if b < r {
                        b
                    } else {
                        r
                    },
                ),
                None => Some(r),
            }
        }
    }
}

/// Tokens per compressed row that boundaries are counted by.
pub open spec fn boundary_ratio(g: Geometry) -> int {
    match least_ratio(g, g.layers.len() as int) {
        Some(r) => r as int,
        None => 4,
    }
}

/// Compressed rows that a batch can complete in one layer.
pub open spec fn boundaries(g: Geometry, rows: int) -> int {
    batch_scratch::groups(rows, boundary_ratio(g))
}

/// Counts the compressed rows that a batch can complete in one layer.
pub fn max_boundaries(g: &Geometry, rows: usize) -> (r: u64)
    requires
        rows <= B_MAX,
    ensures
        r == boundaries(*g, rows as int),
        r <= rows,
{
    let mut least: Option<u32> = None;
    let mut i: usize = 0;
    while i < g.layers.len()
        invariant
            i <= g.layers.len(),
            least == least_ratio(*g, i as int),
            least matches Some(r) ==> r > 0,
        decreases g.layers.len() - i,
    {
        let r: u32 = g.layers[i].ratio;
        if r != 0 {
            least = match least {
                Some(b) => Some(
                    if b < r {
                        b
                    } else {
                        r
                    },
                ),
                None => Some(r),
            };
        }
        i = i + 1;
    }
    let ratio: u64 = match least {
        Some(r) => r as u64,
        None => 4,
    };
    proof {
        let n = rows as int;
        let k = ratio as int;
        assert((n + k - 1) / k <= n) by (nonlinear_arith)
            requires
                n >= 0,
                k >= 1,
        ;
    }
    (rows as u64 + (ratio - 1)) / ratio
}

/// The compressed rows that `n` tokens from position `p` on complete.
pub open spec fn completed(ratio: int, p: int, n: int) -> nat
    decreases n,
{
    if n <= 0 {
        0
    } else {
        completed(ratio, p, n - 1) + if (p + n) % ratio == 0 {
            1nat
        } else {
            0
        }
    }
}

proof fn lemma_completed(ratio: int, p: int, n: int)
    requires
        ratio > 0,
        p >= 0,
        n >= 0,
    ensures
        completed(ratio, p, n) == (p + n) / ratio - p / ratio,
    decreases n,
{
    if n > 0 {
        lemma_completed(ratio, p, n - 1);
        let x = p + n - 1;
        let q = x / ratio;
        let m = x % ratio;
        vstd::arithmetic::div_mod::lemma_fundamental_div_mod(x, ratio);
        if m == ratio - 1 {
            assert(x + 1 == ratio * (q + 1)) by (nonlinear_arith)
                requires
                    x == ratio * q + m,
                    m == ratio - 1,
            ;
            vstd::arithmetic::div_mod::lemma_fundamental_div_mod_converse(x + 1, ratio, q + 1, 0);
        } else {
            assert(x + 1 == q * ratio + (m + 1)) by (nonlinear_arith)
                requires
                    x == ratio * q + m,
            ;
            vstd::arithmetic::div_mod::lemma_mod_bound(x, ratio);
            vstd::arithmetic::div_mod::lemma_fundamental_div_mod_converse(x + 1, ratio, q, m + 1);
        }
    }
}

/// Whatever position a batch starts at, no layer completes more compressed rows
/// than there is room for.
pub proof fn every_completed_row_finds_room(g: Geometry, rows: int, layer: int, p: int)
    requires
        0 <= rows,
        0 <= layer < g.layers.len(),
        g.layers[layer].ratio > 0,
        p >= 0,
    ensures
        completed(g.layers[layer].ratio as int, p, rows) <= boundaries(g, rows),
{
    let r = g.layers[layer].ratio as int;
    lemma_least_ratio(g, g.layers.len() as int, layer);
    let k = boundary_ratio(g);
    lemma_completed(r, p, rows);
    vstd::arithmetic::div_mod::lemma_fundamental_div_mod(p, r);
    vstd::arithmetic::div_mod::lemma_fundamental_div_mod(p + rows, r);
    let a = p / r;
    let b = (p + rows) / r;
    let c = (rows + k - 1) / k;
    vstd::arithmetic::div_mod::lemma_fundamental_div_mod(rows + k - 1, k);
    assert(b - a <= c) by (nonlinear_arith)
        requires
            p == r * a + p % r,
            p + rows == r * b + (p + rows) % r,
            0 <= p % r < r,
            0 <= (p + rows) % r < r,
            rows + k - 1 == k * c + (rows + k - 1) % k,
            0 <= (rows + k - 1) % k < k,
            1 <= k <= r,
            rows >= 0,
    ;
}

pub proof fn lemma_least_ratio(g: Geometry, n: int, layer: int)
    requires
        0 <= layer < n,
        g.layers[layer].ratio > 0,
    ensures
        least_ratio(g, n) matches Some(r) && 0 < r <= g.layers[layer].ratio,
    decreases n,
{
    if layer < n - 1 {
        lemma_least_ratio(g, n - 1, layer);
    } else {
        lemma_least_positive(g, n - 1);
    }
}

proof fn lemma_least_positive(g: Geometry, n: int)
    ensures
        least_ratio(g, n) matches Some(r) ==> r > 0,
    decreases n,
{
    if n > 0 {
        lemma_least_positive(g, n - 1);
    }
}

/// The places of the output projection's scratch, which takes over the memory of
/// the normed queries.
#[derive(Debug, Clone, Copy, PartialEq, Eq, Structural)]
pub struct OutputLayout {
    pub low: Region,
    pub heads_xq: Region,
    pub heads_xscale: Region,
    pub low_xq: Region,
    pub low_xscale: Region,
    pub attn_out: Region,
    /// Bytes of all of them.
    pub end: u64,
}

/// Bytes in front of each part of the output projection's scratch, and behind the
/// last.
pub open spec fn output_offsets(g: Geometry, rows: int) -> (int, int, int, int, int, int) {
    let a = batch_scratch::aligned(rows * g.out_low * 4);
    let b = a + batch_scratch::aligned(rows * Q_FLAT);
    let c = b + batch_scratch::aligned(rows * g.blocks_grouped_out * 4);
    let d = c + batch_scratch::aligned(rows * g.out_low);
    let e = d + batch_scratch::aligned(rows * g.blocks_out_low * 4);
    (a, b, c, d, e, e + batch_scratch::aligned(rows * N_EMBD * 4))
}

/// Places the output projection's scratch.
pub fn output_layout(g: &Geometry, rows: usize) -> (r: OutputLayout)
    requires
        rows <= B_MAX,
    ensures
        ({
            let (a, b, c, d, e, end) = output_offsets(*g, rows as int);
            &&& r.low == (Region { off: 0, bytes: (rows * g.out_low * 4) as u64 })
            &&& r.heads_xq == (Region { off: a as u64, bytes: (rows * Q_FLAT) as u64 })
            &&& r.heads_xscale == (Region {
                off: b as u64,
                bytes: (rows * g.blocks_grouped_out * 4) as u64,
            })
            &&& r.low_xq == (Region { off: c as u64, bytes: (rows * g.out_low) as u64 })
            &&& r.low_xscale == (Region {
                off: d as u64,
                bytes: (rows * g.blocks_out_low * 4) as u64,
            })
            &&& r.attn_out == (Region { off: e as u64, bytes: (rows * N_EMBD * 4) as u64 })
            &&& r.end == end
        }),
{
    let low_n = each(rows, g.out_low as u64);
    let grouped_n = each(rows, g.blocks_grouped_out as u64);
    let low_blocks = each(rows, g.blocks_out_low as u64);
    let heads = each(rows, Q_FLAT as u64);
    let out = each(rows, N_EMBD as u64);
    proof {
        lemma_each_bound(rows, g.out_low as int);
        lemma_each_bound(rows, g.blocks_grouped_out as int);
        lemma_each_bound(rows, g.blocks_out_low as int);
        lemma_each_bound(rows, Q_FLAT as int);
        lemma_each_bound(rows, N_EMBD as int);
    }
    let mut carve = Carver::new();
    let low = carve.take(low_n * 4);
    let heads_xq = carve.take(heads);
    let heads_xscale = carve.take(grouped_n * 4);
    let low_xq = carve.take(low_n);
    let low_xscale = carve.take(low_blocks * 4);
    let attn_out = carve.take(out * 4);
    let end = carve.end();
    OutputLayout { low, heads_xq, heads_xscale, low_xq, low_xscale, attn_out, end }
}

proof fn lemma_each_bound(rows: usize, n: int)
    requires
        rows <= B_MAX,
        0 <= n <= u32::MAX,
    ensures
        0 <= rows * n <= 1024 * 0x1_0000_0000,
{
    assert(0 <= rows * n <= 1024 * 0x1_0000_0000) by (nonlinear_arith)
        requires
            rows <= 1024,
            0 <= n <= 0xffff_ffff,
    ;
}

/// The output projection's scratch fits into the memory of the normed queries
/// where the low-rank widths leave it room.
pub proof fn the_output_scratch_fits_the_queries(g: Geometry, rows: int)
    requires
        1 <= rows <= B_MAX,
        g.out_low * 5 + g.blocks_grouped_out * 4 + g.blocks_out_low * 4 + Q_FLAT + N_EMBD * 4
            + 6 * 256 <= Q_FLAT * 4,
    ensures
        output_offsets(g, rows).5 <= rows * Q_FLAT * 4,
{
    let low = g.out_low as int;
    let grouped = g.blocks_grouped_out as int;
    let blocks = g.blocks_out_low as int;
    assert(rows * low * 4 + rows * 32768 + rows * grouped * 4 + rows * low + rows * blocks * 4
        + rows * 5120 * 4 + 6 * 256 <= rows * 32768 * 4) by (nonlinear_arith)
        requires
            rows >= 1,
            low >= 0,
            grouped >= 0,
            blocks >= 0,
            low * 5 + grouped * 4 + blocks * 4 + 32768 + 20480 + 6 * 256 <= 131072,
    ;
}

/// Buffers that the first device's lanes share.
#[derive(Debug, Clone, Copy, PartialEq, Eq, Structural)]
pub struct BatchDgpuShared {
    /// Rows that the buffers hold.
    pub rows: usize,
    /// Bytes of the first and of the third arena.
    pub r1_arena: u64,
    pub r3_arena: u64,
    /// The first device's experts' places in the first arena.
    pub hot: Option<BatchDgpuHotScratch>,
    /// One row's inverse norm, and the partial sums that it is made of.
    pub mhc_inv_scalar: u64,
    pub mhc_rms_partials: u64,
    pub mix: u64,
    /// Values of the width of the residual stream.
    pub embd: u64,
    pub embd_q8k: u64,
    pub mid_q8k: u64,
    pub embd16: u64,
    pub qr16: u64,
    pub heads16: u64,
    pub low16: u64,
    pub mid_sh16: u64,
    pub embd_xscale: u64,
    pub qr: u64,
    pub qr_xscale: u64,
    pub q_normed: u64,
    pub kv_raw: u64,
    pub kv_ring: u64,
    pub kv_cur: u64,
    pub verify_scores: u64,
    pub verify_inv: u64,
    pub verify_partials: u64,
    pub attn_scores: u64,
    pub indexer_q16: u64,
    pub indexer_weights: u64,
    pub indexer_selected: u64,
    pub candidate_scores: u64,
    pub candidate_threshold: u64,
    pub active_comp_kv: u64,
    pub state_snapshots: u64,
    pub comp_rows: u64,
    pub index_rows: u64,
    pub boundaries: u64,
    pub router_logits: u64,
    pub shared_mid: u64,
    pub shared_xscale: u64,
    pub remote_xq: Option<u64>,
    pub per_row: u64,
}

/// Elements that `slots` score slots take.
pub open spec fn score_elems(g: Geometry, slots: int) -> int {
    if g.f32_scores {
        slots
    } else {
        batch_scratch::groups(slots, 2)
    }
}

/// The buffers that the first device's lanes of `rows` rows share.
pub open spec fn shared_sizes(g: Geometry, rows: int, n_kv_max: u32) -> BatchDgpuShared {
    let rows_max = boundaries(g, rows);
    BatchDgpuShared {
        rows: rows as usize,
        r1_arena: batch_scratch::r1_bytes(g, rows) as u64,
        r3_arena: batch_scratch::r3_bytes(g, rows) as u64,
        hot: if g.hot_experts > 0 {
            Some(batch_scratch::hot_layout(rows))
        } else {
            None
        },
        mhc_inv_scalar: 1,
        mhc_rms_partials: 16,
        mix: (rows * HC_MIX_DIM) as u64,
        embd: (rows * N_EMBD) as u64,
        embd_q8k: (rows * (BLOCKS_Q8K_GATE_IN * BLOCK_Q8_K_BYTES)) as u64,
        mid_q8k: (rows * (BLOCKS_Q8K_DOWN_IN * BLOCK_Q8_K_BYTES)) as u64,
        embd16: (rows * (N_EMBD + batch_scratch::F16_PAD)) as u64,
        qr16: (rows * (N_LORA_Q + batch_scratch::F16_PAD)) as u64,
        heads16: (rows * (Q_FLAT + batch_scratch::F16_PAD)) as u64,
        low16: (rows * (g.out_low + batch_scratch::F16_PAD)) as u64,
        mid_sh16: (rows * (N_FF_SHARED + batch_scratch::F16_PAD)) as u64,
        embd_xscale: (rows * g.blocks_n_embd) as u64,
        qr: (rows * N_LORA_Q) as u64,
        qr_xscale: (rows * g.blocks_n_lora_q) as u64,
        q_normed: (rows * Q_FLAT) as u64,
        kv_raw: (rows * N_HEAD_DIM) as u64,
        kv_ring: (batch_scratch::most(rows, SWA_WINDOW as int) * N_HEAD_DIM) as u64,
        kv_cur: (rows * (2 * N_HEAD_DIM)) as u64,
        verify_scores: (N_HEAD * ATTN_MIXED_MAX_KEYS) as u64,
        verify_inv: N_HEAD as u64,
        verify_partials: (N_HEAD * 16 * N_HEAD_DIM) as u64,
        attn_scores: score_elems(g, batch_scratch::score_slots(g, rows, n_kv_max)) as u64,
        indexer_q16: (rows * (g.n_indexer_head * N_INDEXER_HEAD_DIM)) as u64,
        indexer_weights: (rows * g.n_indexer_head) as u64,
        indexer_selected: (rows * INDEXER_TOP_K) as u64,
        candidate_scores: if g.candidate_pool {
            (rows * batch_scratch::groups(
                ATTN_MIXED_MAX_KEYS as int,
                g.candidate_block as int,
            )) as u64
        } else {
            1
        },
        candidate_threshold: if g.candidate_pool {
            rows as u64
        } else {
            1
        },
        active_comp_kv: if g.indexer {
            (rows * (INDEXER_TOP_K * N_HEAD_DIM)) as u64
        } else {
            1
        },
        state_snapshots: batch_scratch::most(rows_max * 8192, 65536) as u64,
        comp_rows: (rows_max * N_HEAD_DIM) as u64,
        index_rows: (rows_max * N_INDEXER_HEAD_DIM) as u64,
        boundaries: rows_max as u64,
        router_logits: (rows * N_EXPERT) as u64,
        shared_mid: (rows * N_FF_SHARED) as u64,
        shared_xscale: (rows * g.blocks_n_ff_shared) as u64,
        remote_xq: if g.remote {
            Some((rows * (BLOCKS_Q8K_GATE_IN * BLOCK_Q8_K_BYTES)) as u64)
        } else {
            None
        },
        per_row: rows as u64,
    }
}

impl BatchDgpuShared {
    /// Sizes the buffers that the first device's lanes share, for a context of
    /// `n_kv_max` tokens. `None` where a scratch cannot be sized for so many rows.
    #[verifier::rlimit(40)]
    pub fn alloc_rows_ctx(g: &Geometry, rows: usize, n_kv_max: u32) -> (r: Option<Self>)
        requires
            g.candidate_pool ==> g.candidate_block > 0,
        ensures
            r == (if 0 < rows <= B_MAX {
                Some(shared_sizes(*g, rows as int, n_kv_max))
            } else {
                None
            }),
    {
        if !check_rows(rows) {
            return None;
        }
        proof {
            batch_scratch::lemma_batch_arenas(*g, rows as int);
            batch_scratch::lemma_batch_scores(*g, rows as int, n_kv_max, g.layers.len() as int);
        }
        let slots = attn_scores_capacity_keys(g, rows, n_kv_max);
        let attn_scores = score_len(g, slots);
        let rows_max = max_boundaries(g, rows);
        let blocks: u64 = if g.candidate_pool {
            candidate_blocks(g)
        } else {
            0
        };
        let states: u64 = rows_max * 8192;
        Some(
            BatchDgpuShared {
                rows,
                r1_arena: r1_arena_bytes(g, rows),
                r3_arena: r3_arena_bytes(g, rows),
                hot: if hot_scratch_wanted(g) {
                    Some(BatchDgpuHotScratch::carve(rows))
                } else {
                    None
                },
                mhc_inv_scalar: 1,
                mhc_rms_partials: 16,
                mix: each(rows, HC_MIX_DIM as u64),
                embd: each(rows, N_EMBD as u64),
                embd_q8k: each(rows, 5840),
                mid_q8k: each(rows, 2628),
                embd16: each(rows, 5184),
                qr16: each(rows, 1344),
                heads16: each(rows, 32832),
                low16: each(rows, g.out_low as u64 + 64),
                mid_sh16: each(rows, 2368),
                embd_xscale: each(rows, g.blocks_n_embd as u64),
                qr: each(rows, N_LORA_Q as u64),
                qr_xscale: each(rows, g.blocks_n_lora_q as u64),
                q_normed: each(rows, Q_FLAT as u64),
                kv_raw: each(rows, N_HEAD_DIM as u64),
                kv_ring: each(
                    if rows < 128 {
                        128
                    } else {
                        rows
                    },
                    N_HEAD_DIM as u64,
                ),
                kv_cur: each(rows, 1024),
                verify_scores: 5259264,
                verify_inv: N_HEAD as u64,
                verify_partials: 524288,
                attn_scores,
                indexer_q16: each(rows, g.n_indexer_head as u64 * 128),
                indexer_weights: each(rows, g.n_indexer_head as u64),
                indexer_selected: each(rows, INDEXER_TOP_K as u64),
                candidate_scores: if g.candidate_pool {
                    each(rows, blocks)
                } else {
                    1
                },
                candidate_threshold: if g.candidate_pool {
                    rows as u64
                } else {
                    1
                },
                active_comp_kv: if g.indexer {
                    each(rows, 262144)
                } else {
                    1
                },
                state_snapshots: if states < 65536 {
                    65536
                } else {
                    states
                },
                comp_rows: rows_max * 512,
                index_rows: rows_max * 128,
                boundaries: rows_max,
                router_logits: each(rows, N_EXPERT as u64),
                shared_mid: each(rows, N_FF_SHARED as u64),
                shared_xscale: each(rows, g.blocks_n_ff_shared as u64),
                remote_xq: if g.remote {
                    Some(each(rows, 5840))
                } else {
                    None
                },
                per_row: rows as u64,
            },
        )
    }

    /// Sizes the buffers that the first device's lanes share, without a context: the
    /// scores keep the fixed stride.
    pub fn alloc_rows(g: &Geometry, rows: usize) -> (r: Option<Self>)
        requires
            g.candidate_pool ==> g.candidate_block > 0,
        ensures
            r == (if 0 < rows <= B_MAX {
                Some(shared_sizes(*g, rows as int, 0))
            } else {
                None
            }),
    {
        Self::alloc_rows_ctx(g, rows, 0)
    }

    /// Score slots that the scores' buffer holds.
    pub fn attn_scores_capacity_keys(&self, f32_scores: bool) -> (r: u64)
        requires
            2 * self.attn_scores <= u64::MAX,
        ensures
            r == (if f32_scores {
                self.attn_scores as int
            } else {
                2 * self.attn_scores
            }),
    {
        if f32_scores {
            self.attn_scores
        } else {
            self.attn_scores * 2
        }
    }
}

/// Blocks that the scored keys are parted into.
fn candidate_blocks(g: &Geometry) -> (r: u64)
    requires
        g.candidate_block > 0,
    ensures
        r == batch_scratch::groups(ATTN_MIXED_MAX_KEYS as int, g.candidate_block as int),
        r <= 0x1_0000_0000,
{
    let n: u64 = ATTN_MIXED_MAX_KEYS as u64;
    let k: u64 = g.candidate_block as u64;
    proof {
        let x = n as int + k - 1;
        assert((n as int + k - 1) / (k as int) <= n as int) by (nonlinear_arith)
            requires
                n >= 1,
                k >= 1,
        ;
    }
    (n + (k - 1)) / k
}

/// Elements that some score slots take.
fn score_len(g: &Geometry, slots: u64) -> (r: u64)
    requires
        slots < u64::MAX,
    ensures
        r == score_elems(*g, slots as int),
{
    if g.f32_scores {
        slots
    } else {
        (slots + 1) / 2
    }
}

/// The buffer that is sized for some score slots holds them.
pub proof fn the_score_buffer_holds_its_slots(g: Geometry, slots: int)
    requires
        slots >= 0,
    ensures
        slots <= (if g.f32_scores {
            score_elems(g, slots)
        } else {
            2 * score_elems(g, slots)
        }),
{
}

} // verus!
