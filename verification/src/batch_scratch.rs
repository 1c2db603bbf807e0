//! Sizes and layout of the scratch memory that a batch of tokens needs.
//!
//! Buffers that are never in use at the same time share one allocation. Lengths
//! are in elements, offsets and arena sizes in bytes.

use vstd::prelude::*;
use crate::config::{
    ATTN_MIXED_MAX_KEYS, BLOCKS_Q8K_DOWN_IN, BLOCKS_Q8K_GATE_IN, BLOCK_Q8_K_BYTES, HC_DIM,
    INDEXER_TOP_K, N_EMBD, N_EXPERT_USED, N_FF_EXP, N_HEAD, N_INDEXER_HEAD_DIM, Q_FLAT, SWA_WINDOW,
};

verus! {

/// Tokens of a batch at most.
pub const B_MAX: usize = 1024;

/// Halves that keep the rows of a 16-bit buffer off a power of two.
pub const F16_PAD: u32 = 64;

/// Rows whose residuals are captured for the drafter.
pub const MTP_CAP_ROWS: usize = 128;

/// Layers whose residuals are captured for the drafter.
pub const MTP_SRC_COUNT: usize = 3;

/// Experts that the first device can hold.
pub const HOT_MAX_EXPERTS: usize = 384;

/// Members of one work item.
pub const HOT_CHUNK: usize = 32;

/// How one layer compresses its rows.
#[derive(Debug, Clone, Copy, PartialEq, Eq, Structural)]
pub struct LayerRatio {
    /// Tokens per compressed row; 0 for a layer without them.
    pub ratio: u32,
    /// The layer scores only the rows that an indexer gathered.
    pub gathered: bool,
}

/// The dimensions and switches that scratch sizes depend on beside the fixed ones.
pub struct Geometry {
    pub out_low: u32,
    pub blocks_grouped_out: u32,
    pub blocks_out_low: u32,
    pub blocks_n_embd: u32,
    pub blocks_n_lora_q: u32,
    pub blocks_n_ff_shared: u32,
    pub engram_in: u32,
    pub engram_out: u32,
    pub engram_chunk: u32,
    pub candidate_block: u32,
    pub n_indexer_head: u32,
    /// Entries that merging one row's best keys takes.
    pub topk_row: u32,
    /// Widest raw window that a layer scores.
    pub raw_window: u32,
    /// Score slots of one row and head at least.
    pub scores_stride: u32,
    /// First layer that the replay of a prefill runs.
    pub ced_start: usize,
    pub layers: Vec<LayerRatio>,
    pub v41: bool,
    /// The indexer of this model can run.
    pub indexer: bool,
    /// The upper layers of a prefill run over the last window only.
    pub ced: bool,
    /// Scores keep their fixed stride.
    pub legacy_stride: bool,
    /// Scores are kept in 32 bits.
    pub f32_scores: bool,
    /// Experts of each layer that the first device holds.
    pub hot_experts: u32,
    /// Another machine computes some experts.
    pub remote: bool,
    pub candidate_pool: bool,
}

/// A number of bytes, rounded up to the next multiple of 256.
pub open spec fn aligned(bytes: int) -> int {
    (bytes + 255) / 256 * 256
}

/// Rounds a number of bytes up to the next multiple of 256.
pub fn align256(bytes: u64) -> (r: u64)
    requires
        bytes + 255 <= u64::MAX,
    ensures
        r == aligned(bytes as int),
        bytes <= r < bytes + 256,
        r % 256 == 0,
{
    (bytes + 255) / 256 * 256
}

/// Bytes whose aligned number fits into a word leave room for their rounding.
proof fn lemma_aligned_fits(bytes: int)
    requires
        0 <= bytes,
        aligned(bytes) <= u64::MAX,
    ensures
        bytes + 255 <= u64::MAX,
{
}

/// Row pitch of a 16-bit buffer.
pub fn f16_pitch(dim: u32) -> (r: u32)
    requires
        dim + F16_PAD <= u32::MAX,
    ensures
        r == dim + F16_PAD,
{
    dim + F16_PAD
}

/// Can a scratch be sized for so many rows?
pub fn check_rows(rows: usize) -> (r: bool)
    ensures
        r == (0 < rows <= B_MAX),
{
    rows > 0 && rows <= B_MAX
}

/// The least number of groups of `each` that hold `n`.
pub open spec fn groups(n: int, each: int) -> int {
    (n + each - 1) / each
}

/// Work items that one expert can need.
pub fn hot_chunks_per_expert(rows: usize) -> (r: usize)
    requires
        rows + HOT_CHUNK <= usize::MAX,
    ensures
        r == groups(rows as int, HOT_CHUNK as int),
        r * HOT_CHUNK >= rows,
{
    (rows + (HOT_CHUNK - 1)) / HOT_CHUNK
}

/// Does the first device hold experts, so that it needs scratch for them?
pub fn hot_scratch_wanted(g: &Geometry) -> (r: bool)
    ensures
        r == (g.hot_experts > 0),
{
    g.hot_experts > 0
}

/// Elements of the flattened residuals.
pub fn flat_len(rows: usize) -> (r: u64)
    requires
        rows * HC_DIM <= u64::MAX,
    ensures
        r == rows * HC_DIM,
{
    rows as u64 * HC_DIM as u64
}

/// Elements of the queries.
pub fn q_len(rows: usize) -> (r: u64)
    requires
        rows * Q_FLAT <= u64::MAX,
    ensures
        r == rows * Q_FLAT,
{
    rows as u64 * Q_FLAT as u64
}

/// Keys that the indexer's scratch holds per row.
pub open spec fn scratch_keys(g: Geometry) -> int {
    if g.indexer {
        ATTN_MIXED_MAX_KEYS as int
    } else {
        0
    }
}

/// Keys that the indexer's scratch holds per row: none where it never runs.
pub fn indexer_scratch_keys(g: &Geometry) -> (r: u64)
    ensures
        r == scratch_keys(*g),
{
    if g.indexer {
        ATTN_MIXED_MAX_KEYS as u64
    } else {
        0
    }
}

/// Elements of the indexer's scores.
pub fn indexer_scores_len(g: &Geometry, rows: usize) -> (r: u64)
    requires
        rows * scratch_keys(*g) <= u64::MAX,
    ensures
        r == rows * scratch_keys(*g),
{
    rows as u64 * indexer_scratch_keys(g)
}

/// Elements of the indexer's queries.
pub fn indexer_q_len(g: &Geometry, rows: usize) -> (r: u64)
    requires
        rows * (g.n_indexer_head * N_INDEXER_HEAD_DIM) <= u64::MAX,
    ensures
        r == rows * (g.n_indexer_head * N_INDEXER_HEAD_DIM),
{
    let width: u64 = g.n_indexer_head as u64 * N_INDEXER_HEAD_DIM as u64;
    rows as u64 * width
}

/// Entries of the merge scratch per row.
pub open spec fn merge_row(g: Geometry) -> int {
    if g.indexer {
        g.topk_row as int
    } else {
        0
    }
}

/// Elements of the scratch in which the indexer's best keys are merged.
pub fn indexer_topk_scratch_len(g: &Geometry, rows: usize) -> (r: u64)
    requires
        rows * merge_row(*g) <= u64::MAX,
    ensures
        r == rows * merge_row(*g),
{
    if !g.indexer {
        return 0;
    }
    rows as u64 * g.topk_row as u64
}

/// A part of an arena.
#[derive(Debug, Clone, Copy, PartialEq, Eq, Structural)]
pub struct Region {
    pub off: u64,
    pub bytes: u64,
}

/// Hands out parts of an arena, one behind the other.
pub struct Carver {
    off: u64,
}

impl View for Carver {
    type V = u64;

    closed spec fn view(&self) -> u64 {
        self.off
    }
}

impl Carver {
    /// Nothing was handed out yet.
    pub fn new() -> (c: Carver)
        ensures
            c@ == 0,
    {
        Carver { off: 0 }
    }

    /// Bytes that were handed out.
    pub fn end(&self) -> (r: u64)
        ensures
            r == self@,
    {
        self.off
    }

    /// Hands out `bytes`, behind all that was handed out before.
    pub fn take(&mut self, bytes: u64) -> (r: Region)
        requires
            old(self)@ + aligned(bytes as int) <= u64::MAX,
            bytes + 255 <= u64::MAX,
        ensures
            r == (Region { off: old(self)@, bytes }),
            final(self)@ == old(self)@ + aligned(bytes as int),
    {
        let off = self.off;
        self.off = self.off + align256(bytes);
        Region { off, bytes }
    }
}

/// Bytes of the first device's experts' inputs.
pub open spec fn hot_xq(rows: int) -> int {
    rows * BLOCKS_Q8K_GATE_IN * BLOCK_Q8_K_BYTES
}

/// Bytes of their inner values, quantized.
pub open spec fn hot_midq(rows: int) -> int {
    rows * N_EXPERT_USED * BLOCKS_Q8K_DOWN_IN * BLOCK_Q8_K_BYTES
}

/// Bytes of their inner values.
pub open spec fn hot_mid(rows: int) -> int {
    rows * N_EXPERT_USED * N_FF_EXP * 4
}

/// Bytes of their outputs.
pub open spec fn hot_partials(rows: int) -> int {
    rows * N_EXPERT_USED * N_EMBD * 4
}

/// The places of the first device's expert scratch in the first arena.
#[derive(Debug, Clone, Copy, PartialEq, Eq, Structural)]
pub struct BatchDgpuHotScratch {
    pub partials: Region,
    pub mid_cat: Region,
    pub moe_xq: Region,
    pub midq_cat: Region,
    /// Bytes of all of them.
    pub end: u64,
}

/// Bytes of the first device's expert scratch.
pub open spec fn hot_bytes(rows: int) -> int {
    aligned(hot_partials(rows)) + aligned(hot_mid(rows)) + aligned(hot_xq(rows)) + aligned(
        hot_midq(rows),
    )
}

/// The places of the first device's expert scratch, for `rows` rows.
pub open spec fn hot_layout(rows: int) -> BatchDgpuHotScratch {
    let a = aligned(hot_partials(rows));
    let b = a + aligned(hot_mid(rows));
    let c = b + aligned(hot_xq(rows));
    BatchDgpuHotScratch {
        partials: Region { off: 0, bytes: hot_partials(rows) as u64 },
        mid_cat: Region { off: a as u64, bytes: hot_mid(rows) as u64 },
        moe_xq: Region { off: b as u64, bytes: hot_xq(rows) as u64 },
        midq_cat: Region { off: c as u64, bytes: hot_midq(rows) as u64 },
        end: hot_bytes(rows) as u64,
    }
}

impl BatchDgpuHotScratch {
    /// Places the first device's expert scratch.
    pub fn carve(rows: usize) -> (r: Self)
        requires
            hot_bytes(rows as int) <= u64::MAX,
        ensures
            r == hot_layout(rows as int),
    {
        proof {
            lemma_aligned_fits(hot_partials(rows as int));
            lemma_aligned_fits(hot_mid(rows as int));
            lemma_aligned_fits(hot_xq(rows as int));
            lemma_aligned_fits(hot_midq(rows as int));
        }
        let n: u64 = rows as u64;
        let mut carve = Carver::new();
        let partials = carve.take(n * 6 * 5120 * 4);
        let mid_cat = carve.take(n * 6 * 2304 * 4);
        let moe_xq = carve.take(n * 20 * 292);
        let midq_cat = carve.take(n * 6 * 9 * 292);
        BatchDgpuHotScratch { partials, mid_cat, moe_xq, midq_cat, end: carve.end() }
    }

    /// Bytes of the first device's expert scratch.
    pub fn r1_view_bytes(rows: usize) -> (r: u64)
        requires
            hot_bytes(rows as int) <= u64::MAX,
        ensures
            r == hot_bytes(rows as int),
    {
        Self::carve(rows).end
    }
}

/// The larger of two numbers.
pub open spec fn most(a: int, b: int) -> int {
    if a < b {
        b
    } else {
        a
    }
}

fn max_u64(a: u64, b: u64) -> (r: u64)
    ensures
        r == most(a as int, b as int),
{
    if a < b {
        b
    } else {
        a
    }
}

/// Bytes of the first arena: its largest tenant's.
pub open spec fn r1_bytes(g: Geometry, rows: int) -> int {
    most(
        most(
            most(aligned(rows * HC_DIM * 4), aligned(rows * Q_FLAT * 4)),
            aligned(rows * scratch_keys(g) * 4),
        ),
        aligned(hot_bytes(rows)),
    )
}

/// Bytes of the first arena, whose tenants are the flattened residuals, the
/// queries, the indexer's scores, the heads, and the first device's experts.
pub fn r1_arena_bytes(g: &Geometry, rows: usize) -> (r: u64)
    requires
        r1_bytes(*g, rows as int) <= u64::MAX,
    ensures
        r == r1_bytes(*g, rows as int),
{
    proof {
        assert(rows * scratch_keys(*g) >= 0) by (nonlinear_arith)
            requires
                rows >= 0,
                scratch_keys(*g) >= 0,
        ;
        lemma_aligned_fits(rows * HC_DIM * 4);
        lemma_aligned_fits(rows * Q_FLAT * 4);
        lemma_aligned_fits(rows * scratch_keys(*g) * 4);
        lemma_aligned_fits(hot_bytes(rows as int));
    }
    let scores = indexer_scores_len(g, rows);
    let a = max_u64(align256(flat_len(rows) * 4), align256(q_len(rows) * 4));
    let b = max_u64(a, align256(scores * 4));
    max_u64(b, align256(BatchDgpuHotScratch::r1_view_bytes(rows)))
}

/// Bytes of the third arena: its larger tenant's.
pub open spec fn r3_bytes(g: Geometry, rows: int) -> int {
    most(
        aligned(rows * (g.n_indexer_head * N_INDEXER_HEAD_DIM) * 4),
        aligned(rows * merge_row(g) * 4),
    )
}

/// Bytes of the third arena, whose tenants are the indexer's queries and the
/// scratch in which its best keys are merged.
pub fn r3_arena_bytes(g: &Geometry, rows: usize) -> (r: u64)
    requires
        r3_bytes(*g, rows as int) <= u64::MAX,
    ensures
        r == r3_bytes(*g, rows as int),
{
    proof {
        let width = (g.n_indexer_head * N_INDEXER_HEAD_DIM) as int;
        assert(rows * width >= 0) by (nonlinear_arith)
            requires
                rows >= 0,
                width >= 0,
        ;
        assert(rows * merge_row(*g) >= 0) by (nonlinear_arith)
            requires
                rows >= 0,
                merge_row(*g) >= 0,
        ;
        lemma_aligned_fits(rows * width * 4);
        lemma_aligned_fits(rows * merge_row(*g) * 4);
    }
    let q = indexer_q_len(g, rows);
    let t = indexer_topk_scratch_len(g, rows);
    max_u64(align256(q * 4), align256(t * 4))
}

/// The arenas of a batch fit into a word.
pub proof fn lemma_batch_arenas(g: Geometry, rows: int)
    requires
        0 <= rows <= B_MAX,
    ensures
        0 <= hot_bytes(rows) <= r1_bytes(g, rows) <= 0x1000_0000_0000,
        0 <= r3_bytes(g, rows) <= 0x1_0000 * 0x1000_0000_0000,
{
    let keys = scratch_keys(g);
    let width = (g.n_indexer_head * N_INDEXER_HEAD_DIM) as int;
    let row = merge_row(g);
    assert(0 <= rows * keys <= 1024 * 82176) by (nonlinear_arith)
        requires
            0 <= rows <= 1024,
            0 <= keys <= 82176,
    ;
    assert(0 <= rows * width <= 1024 * 0x80_0000_0000) by (nonlinear_arith)
        requires
            0 <= rows <= 1024,
            0 <= width <= 0x80_0000_0000,
    ;
    assert(0 <= rows * row <= 1024 * 0x1_0000_0000) by (nonlinear_arith)
        requires
            0 <= rows <= 1024,
            0 <= row <= 0x1_0000_0000,
    ;
}

/// Every tenant of the first arena fits into it.
pub proof fn the_first_arena_holds_every_tenant(g: Geometry, rows: int)
    requires
        0 <= rows,
    ensures
        rows * HC_DIM * 4 <= r1_bytes(g, rows),
        rows * Q_FLAT * 4 <= r1_bytes(g, rows),
        rows * scratch_keys(g) * 4 <= r1_bytes(g, rows),
        hot_bytes(rows) <= r1_bytes(g, rows),
        rows * (g.n_indexer_head * N_INDEXER_HEAD_DIM) * 4 <= r3_bytes(g, rows),
        rows * merge_row(g) * 4 <= r3_bytes(g, rows),
{
}

/// The parts that a carver hands out begin at multiples of 256 and do not
/// overlap.
pub proof fn carved_parts_do_not_overlap(rows: int)
    requires
        0 <= rows,
    ensures
        ({
            let a = aligned(hot_partials(rows));
            let b = a + aligned(hot_mid(rows));
            let c = b + aligned(hot_xq(rows));
            &&& a % 256 == 0 && b % 256 == 0 && c % 256 == 0
            &&& hot_partials(rows) <= a
            &&& a + hot_mid(rows) <= b
            &&& b + hot_xq(rows) <= c
            &&& c + hot_midq(rows) <= hot_bytes(rows)
        }),
{
}

/// A work item: its expert above, the first of its members below.
pub open spec fn work_item(expert: int, chunk: int) -> int {
    expert * 65536 + chunk * HOT_CHUNK
}

/// The work items of the first device's experts, expert by expert.
pub fn hot_work_items(rows: usize) -> (r: Vec<i32>)
    requires
        rows <= B_MAX,
    ensures
        r.len() == HOT_MAX_EXPERTS * groups(rows as int, HOT_CHUNK as int),
        forall|e: int, c: int|
            0 <= e < HOT_MAX_EXPERTS && 0 <= c < groups(rows as int, HOT_CHUNK as int)
                ==> #[trigger] r@[e * groups(rows as int, HOT_CHUNK as int) + c] == work_item(e, c),
{
    let chunks: usize = hot_chunks_per_expert(rows);
    let ghost n = groups(rows as int, HOT_CHUNK as int);
    let mut out: Vec<i32> = Vec::new();
    let mut e: usize = 0;
    while e < HOT_MAX_EXPERTS
        invariant
            e <= HOT_MAX_EXPERTS,
            chunks == n,
            n <= 32,
            out.len() == e * n,
            forall|i: int, c: int|
                0 <= i < e && 0 <= c < n ==> #[trigger] out@[i * n + c] == work_item(i, c),
        decreases HOT_MAX_EXPERTS - e,
    {
        let ghost before = out@;
        let mut c: usize = 0;
        while c < chunks
            invariant
                c <= chunks,
                chunks == n,
                n <= 32,
                e < HOT_MAX_EXPERTS,
                out.len() == e * n + c,
                before.len() == e * n,
                forall|j: int| 0 <= j < before.len() ==> #[trigger] out@[j] == before[j],
                forall|j: int| 0 <= j < c ==> #[trigger] out@[e * n + j] == work_item(e as int, j),
            decreases chunks - c,
        {
            out.push((e as i32) * 65536 + (c as i32) * 32);
            c = c + 1;
        }
        assert((e + 1) * n == e * n + n) by (nonlinear_arith);
        assert forall|i: int, k: int| 0 <= i < e + 1 && 0 <= k < n implies #[trigger] out@[i * n + k]
            == work_item(i, k) by {
            if i < e {
                assert(0 <= i * n + k < e * n) by (nonlinear_arith)
                    requires
                        0 <= i < e,
                        0 <= k < n,
                ;
                assert(before[i * n + k] == work_item(i, k));
            }
        }
        e = e + 1;
    }
    out
}

/// A work item tells its expert and its first member.
pub proof fn a_work_item_reads_back(expert: int, chunk: int)
    requires
        0 <= expert < HOT_MAX_EXPERTS,
        0 <= chunk < 2048,
    ensures
        work_item(expert, chunk) / 65536 == expert,
        work_item(expert, chunk) % 65536 == chunk * HOT_CHUNK,
{
}

/// Rows that a layer's scores are kept for: of a replayed layer, half of the last
/// window.
pub open spec fn scored_rows(g: Geometry, rows: int, layer: int) -> int {
    if g.ced && layer >= g.ced_start {
        let half = SWA_WINDOW as int / 2;
        let replay = if half < rows {
            half
        } else {
            rows
        };
        most(replay, 1)
    } else {
        rows
    }
}

/// Keys that a layer scores for one row and head.
pub open spec fn scored_keys(g: Geometry, n_kv_max: u32, layer: int) -> int {
    let l = g.layers[layer];
    if l.gathered {
        g.raw_window + INDEXER_TOP_K
    } else {
        g.raw_window + groups(n_kv_max as int, l.ratio as int)
    }
}

/// Score slots that a layer needs.
pub open spec fn layer_scores(g: Geometry, rows: int, n_kv_max: u32, layer: int) -> int {
    scored_rows(g, rows, layer) * N_HEAD * scored_keys(g, n_kv_max, layer)
}

/// Score slots that the layers below `n` need at most.
pub open spec fn layers_scores(g: Geometry, rows: int, n_kv_max: u32, n: int) -> int
    decreases n,
{
    if n <= 0 {
        0
    } else {
        let below = layers_scores(g, rows, n_kv_max, n - 1);
        if g.layers[n - 1].ratio == 0 {
            below
        } else {
            most(below, layer_scores(g, rows, n_kv_max, n - 1))
        }
    }
}

/// Score slots at the fixed stride.
pub open spec fn legacy_scores(g: Geometry, rows: int) -> int {
    rows * N_HEAD * g.scores_stride
}

/// Score slots that a shared scratch holds.
pub open spec fn score_slots(g: Geometry, rows: int, n_kv_max: u32) -> int {
    if n_kv_max == 0 || g.legacy_stride {
        legacy_scores(g, rows)
    } else {
        most(layers_scores(g, rows, n_kv_max, g.layers.len() as int), legacy_scores(g, rows))
    }
}

/// Score slots that a shared scratch of `rows` rows needs for a context of
/// `n_kv_max` tokens: what every layer needs, and never less than the fixed
/// stride takes.
pub fn attn_scores_capacity_keys(g: &Geometry, rows: usize, n_kv_max: u32) -> (r: u64)
    requires
        rows * N_HEAD <= u64::MAX,
        score_slots(*g, rows as int, n_kv_max) <= u64::MAX,
    ensures
        r == score_slots(*g, rows as int, n_kv_max),
{
    let legacy: u64 = rows as u64 * N_HEAD as u64 * g.scores_stride as u64;
    if n_kv_max == 0 || g.legacy_stride {
        return legacy;
    }
    let mut need: u64 = 0;
    let mut layer: usize = 0;
    while layer < g.layers.len()
        invariant
            layer <= g.layers.len(),
            rows * N_HEAD <= u64::MAX,
            n_kv_max > 0,
            !g.legacy_stride,
            score_slots(*g, rows as int, n_kv_max) <= u64::MAX,
            need == layers_scores(*g, rows as int, n_kv_max, layer as int),
        decreases g.layers.len() - layer,
    {
        let l = g.layers[layer];
        if l.ratio != 0 {
            let comp: u64 = if l.gathered {
                INDEXER_TOP_K as u64
            } else {
                (n_kv_max as u64 + (l.ratio as u64 - 1)) / l.ratio as u64
            };
            proof {
                if !l.gathered {
                    let x = n_kv_max as int + l.ratio - 1;
                    assert(0 <= x / (l.ratio as int) <= x) by (nonlinear_arith)
                        requires
                            x >= 0,
                            l.ratio >= 1,
                    ;
                }
                every_layer_finds_room_for_its_scores(*g, rows as int, n_kv_max, layer as int);
            }
            let keys: u64 = g.raw_window as u64 + comp;
            let b: u64 = if g.ced && layer >= g.ced_start {
                if rows == 0 {
                    1
                } else if rows < 64 {
                    rows as u64
                } else {
                    64
                }
            } else {
                rows as u64
            };
            assert(b * N_HEAD * keys == layer_scores(*g, rows as int, n_kv_max, layer as int));
            need = max_u64(need, b * N_HEAD as u64 * keys);
        }
        layer = layer + 1;
    }
    max_u64(need, legacy)
}

/// The scores of a batch fit into a buffer of a word's length.
pub proof fn lemma_batch_scores(g: Geometry, rows: int, n_kv_max: u32, n: int)
    requires
        0 <= rows <= B_MAX,
        0 <= n <= g.layers.len(),
    ensures
        0 <= legacy_scores(g, rows) <= 0x1_0000 * 0x3_0000_0000,
        0 <= layers_scores(g, rows, n_kv_max, n) <= 0x1_0000 * 0x3_0000_0000,
    decreases n,
{
    let stride = g.scores_stride as int;
    assert(0 <= rows * 64 * stride <= 0x1_0000 * 0x3_0000_0000) by (nonlinear_arith)
        requires
            0 <= rows <= 1024,
            0 <= stride <= 0x1_0000_0000,
    ;
    if n > 0 {
        lemma_batch_scores(g, rows, n_kv_max, n - 1);
        let l = g.layers[n - 1];
        if l.ratio != 0 {
            let x = n_kv_max as int + l.ratio - 1;
            assert(0 <= x / (l.ratio as int) <= x) by (nonlinear_arith)
                requires
                    x >= 0,
                    l.ratio >= 1,
            ;
            let b = scored_rows(g, rows, n - 1);
            let keys = scored_keys(g, n_kv_max, n - 1);
            assert(0 <= b * 64 * keys <= 0x1_0000 * 0x3_0000_0000) by (nonlinear_arith)
                requires
                    0 <= b <= 1024,
                    0 <= keys <= 0x3_0000_0000,
            ;
        }
    }
}

/// The scores of every layer fit into a shared scratch that was sized for the
/// context.
pub proof fn every_layer_finds_room_for_its_scores(
    g: Geometry,
    rows: int,
    n_kv_max: u32,
    layer: int,
)
    requires
        0 <= layer < g.layers.len(),
        g.layers[layer].ratio != 0,
        n_kv_max > 0,
        !g.legacy_stride,
    ensures
        layer_scores(g, rows, n_kv_max, layer) <= score_slots(g, rows, n_kv_max),
        legacy_scores(g, rows) <= score_slots(g, rows, n_kv_max),
{
    lemma_layers_scores(g, rows, n_kv_max, layer, g.layers.len() as int);
}

proof fn lemma_layers_scores(g: Geometry, rows: int, n_kv_max: u32, layer: int, n: int)
    requires
        0 <= layer < n,
        g.layers[layer].ratio != 0,
    ensures
        layer_scores(g, rows, n_kv_max, layer) <= layers_scores(g, rows, n_kv_max, n),
    decreases n,
{
    if layer < n - 1 {
        lemma_layers_scores(g, rows, n_kv_max, layer, n - 1);
    }
}

} // verus!
