//! What the buffers of a batch hold: every row of what the kernels read and write.

use vstd::prelude::*;
use crate::batch_scratch;
use crate::batch_scratch::{Geometry, Region, B_MAX};
use crate::config::{
    ATTN_MIXED_MAX_KEYS, BLOCKS_Q8K_DOWN_IN, BLOCKS_Q8K_GATE_IN, BLOCK_Q8_K_BYTES, INDEXER_TOP_K, N_EMBD, N_EXPERT, N_EXPERT_USED, N_FF_EXP, N_FF_SHARED, N_HC,
    N_HEAD, N_HEAD_DIM, N_INDEXER_HEAD_DIM, N_LORA_Q, SWA_WINDOW,
};
use crate::scratch_sizes;

verus! {

/// A buffer of `len` elements holds `rows` rows of `width` elements, and no more.
pub open spec fn holds_rows(len: u64, rows: int, width: int) -> bool {
    len == rows * width
}

/// Bytes of a row that is quantized in blocks of 256 values, of 292 bytes each.
pub open spec fn block_bytes(values: int) -> int {
    values / 256 * 292
}

/// The buffers of a lane hold a residual of all copies, a mix, an input, the picks
/// and an indexer's choice for each row.
pub proof fn a_lanes_buffers_hold_their_rows(g: Geometry, rows: int)
    requires
        0 < rows <= B_MAX,
    ensures
        ({
            let s = scratch_sizes::lane_sizes(g, rows);
            &&& s.rows == rows
            &&& holds_rows(s.residual, rows, N_HC * N_EMBD)
            // A mix weighs every copy for the input and the output, and each copy
            // for each other one.
            &&& holds_rows(s.split, rows, N_HC + N_HC + N_HC * N_HC)
            &&& holds_rows(s.ffn, rows, N_EMBD as int)
            &&& holds_rows(s.picks, rows, N_EXPERT_USED as int)
            &&& holds_rows(s.indexer_sel_saved, rows, INDEXER_TOP_K as int)
            &&& holds_rows(s.per_row, rows, 1)
            &&& g.v41 ==> holds_rows(s.engram_rows, rows, g.engram_in as int)
            &&& g.v41 ==> holds_rows(s.engram_xq, g.engram_chunk as int, g.engram_in as int)
            &&& g.v41 ==> holds_rows(s.engram_kv, g.engram_chunk as int, g.engram_out as int)
            &&& g.v41 && g.engram_in % 32 == 0 ==> holds_rows(
                s.engram_xscale,
                g.engram_chunk as int,
                g.engram_in as int / 32,
            )
            &&& holds_rows(s.mtp_src, 128, 3 * N_EMBD)
            &&& holds_rows(s.mtp_hc_mean, 128, N_HC as int)
            &&& s.hot_ffn_moe is Some <==> g.hot_experts > 0
            &&& s.hot_ffn_moe matches Some(n) ==> holds_rows(n, rows, N_EMBD as int)
            &&& s.remote_ffn_moe is Some <==> g.remote
            &&& s.remote_ffn_moe matches Some(n) ==> holds_rows(n, rows, N_EMBD as int)
        }),
{
    let chunk = g.engram_chunk as int;
    let into = g.engram_in as int;
    let out = g.engram_out as int;
    assert(0 <= rows * into <= 1024 * 0xffff_ffff) by (nonlinear_arith)
        requires
            0 <= rows <= 1024,
            0 <= into <= 0xffff_ffff,
    ;
    assert(0 <= chunk * into <= 0xffff_ffff * 0xffff_ffff) by (nonlinear_arith)
        requires
            0 <= chunk <= 0xffff_ffff,
            0 <= into <= 0xffff_ffff,
    ;
    assert(0 <= chunk * out <= 0xffff_ffff * 0xffff_ffff) by (nonlinear_arith)
        requires
            0 <= chunk <= 0xffff_ffff,
            0 <= out <= 0xffff_ffff,
    ;
    if into % 32 == 0 {
        let q = into / 32;
        assert(chunk * into == 32 * (chunk * q)) by (nonlinear_arith)
            requires
                into == 32 * q,
        ;
        assert(0 <= chunk * q) by (nonlinear_arith)
            requires
                0 <= chunk,
                0 <= q,
        ;
        assert(chunk * into / 32 == chunk * q);
    }
}

/// The buffers that the second device's lanes share hold every row's input, its
/// experts' inner values and outputs, and a place for each row in every group.
pub proof fn the_second_devices_buffers_hold_their_rows(rows: int)
    requires
        0 < rows <= B_MAX,
    ensures
        ({
            let s = scratch_sizes::igpu_shared_sizes(rows);
            &&& s.rows == rows
            &&& holds_rows(s.xq_q8k, rows, block_bytes(N_EMBD as int))
            &&& holds_rows(s.mid, rows, N_EXPERT_USED * N_FF_EXP)
            &&& holds_rows(s.midq, rows, block_bytes(N_EXPERT_USED * N_FF_EXP))
            &&& holds_rows(s.x16, rows, N_EMBD as int)
            &&& holds_rows(s.expert_members, rows, N_EXPERT as int)
            &&& s.work_items == N_EXPERT + rows * N_EXPERT_USED
            &&& holds_rows(s.partials, rows, N_EXPERT_USED * N_EMBD)
        }),
{
    let s = scratch_sizes::igpu_shared_sizes(rows);
    assert(BLOCKS_Q8K_GATE_IN * BLOCK_Q8_K_BYTES == 5840);
    assert(N_EXPERT_USED * BLOCKS_Q8K_DOWN_IN * BLOCK_Q8_K_BYTES == 15768);
    assert(s.xq_q8k == rows * 5840);
    assert(s.midq == rows * 15768);
    assert(N_EXPERT_USED * N_FF_EXP == 13824);
    assert(N_EXPERT_USED * N_EMBD == 30720);
    assert(s.mid == rows * 13824);
    assert(s.partials == rows * 30720);
    assert(block_bytes(N_EMBD as int) == 5840);
    assert(block_bytes(N_EXPERT_USED * N_FF_EXP) == 15768);
}

/// The buffers that the first device's lanes share hold every row of what their
/// kernels write: a logit for every expert, the values of every head, and so on. A
/// row of 16-bit values is 64 elements longer than its values.
pub proof fn the_shared_buffers_hold_their_rows(g: Geometry, rows: int, n_kv_max: u32)
    requires
        0 < rows <= B_MAX,
        g.candidate_pool ==> g.candidate_block > 0,
    ensures
        ({
            let s = scratch_sizes::shared_sizes(g, rows, n_kv_max);
            &&& s.rows == rows
            &&& s.mhc_inv_scalar == 1
            &&& s.mhc_rms_partials == 16
            &&& holds_rows(s.mix, rows, N_HC + N_HC + N_HC * N_HC)
            &&& holds_rows(s.embd, rows, N_EMBD as int)
            &&& holds_rows(s.embd_q8k, rows, block_bytes(N_EMBD as int))
            &&& holds_rows(s.mid_q8k, rows, block_bytes(N_FF_EXP as int))
            &&& holds_rows(s.embd16, rows, N_EMBD + 64)
            &&& holds_rows(s.qr16, rows, N_LORA_Q + 64)
            &&& holds_rows(s.heads16, rows, N_HEAD * N_HEAD_DIM + 64)
            &&& holds_rows(s.low16, rows, g.out_low + 64)
            &&& holds_rows(s.mid_sh16, rows, N_FF_SHARED + 64)
            &&& holds_rows(s.embd_xscale, rows, g.blocks_n_embd as int)
            &&& holds_rows(s.qr, rows, N_LORA_Q as int)
            &&& holds_rows(s.qr_xscale, rows, g.blocks_n_lora_q as int)
            &&& holds_rows(s.q_normed, rows, N_HEAD * N_HEAD_DIM)
            &&& holds_rows(s.kv_raw, rows, N_HEAD_DIM as int)
            &&& s.kv_ring >= rows * N_HEAD_DIM
            &&& s.kv_ring >= SWA_WINDOW * N_HEAD_DIM
            &&& holds_rows(s.kv_cur, rows, N_HEAD_DIM + N_HEAD_DIM)
            &&& holds_rows(s.verify_scores, N_HEAD as int, ATTN_MIXED_MAX_KEYS as int)
            &&& holds_rows(s.verify_inv, N_HEAD as int, 1)
            &&& holds_rows(s.verify_partials, N_HEAD as int, 16 * N_HEAD_DIM)
            &&& holds_rows(s.indexer_q16, rows, g.n_indexer_head * N_INDEXER_HEAD_DIM)
            &&& holds_rows(s.indexer_weights, rows, g.n_indexer_head as int)
            &&& holds_rows(s.indexer_selected, rows, INDEXER_TOP_K as int)
            &&& g.candidate_pool ==> s.candidate_scores * g.candidate_block >= rows * ATTN_MIXED_MAX_KEYS
            &&& g.candidate_pool ==> holds_rows(s.candidate_threshold, rows, 1)
            &&& g.indexer ==> holds_rows(s.active_comp_kv, rows, INDEXER_TOP_K * N_HEAD_DIM)
            &&& holds_rows(s.router_logits, rows, N_EXPERT as int)
            &&& holds_rows(s.shared_mid, rows, N_FF_SHARED as int)
            &&& holds_rows(s.shared_xscale, rows, g.blocks_n_ff_shared as int)
            &&& s.remote_xq is Some <==> g.remote
            &&& s.remote_xq matches Some(n) ==> holds_rows(n, rows, block_bytes(N_EMBD as int))
            &&& holds_rows(s.per_row, rows, 1)
            &&& s.hot is Some <==> g.hot_experts > 0
        }),
{
    lemma_fits(rows, g.out_low + 64);
    lemma_fits(rows, g.blocks_n_embd as int);
    lemma_fits(rows, g.blocks_n_lora_q as int);
    lemma_fits(rows, g.n_indexer_head * N_INDEXER_HEAD_DIM);
    lemma_fits(rows, g.n_indexer_head as int);
    lemma_fits(rows, g.blocks_n_ff_shared as int);
    if g.candidate_pool {
        let b = g.candidate_block as int;
        let keys = ATTN_MIXED_MAX_KEYS as int;
        let n = batch_scratch::groups(keys, b);
        let x = keys + b - 1;
        vstd::arithmetic::div_mod::lemma_fundamental_div_mod(x, b);
        assert(0 <= n <= x && n * b >= keys) by (nonlinear_arith)
            requires
                n == x / b,
                x == b * n + x % b,
                0 <= x % b < b,
                x == keys + b - 1,
                b >= 1,
                keys >= 1,
        ;
        lemma_fits(rows, n);
        assert(rows * n * b >= rows * keys) by (nonlinear_arith)
            requires
                n * b >= keys,
                rows >= 0,
        ;
    }
}

proof fn lemma_fits(rows: int, width: int)
    requires
        0 <= rows <= B_MAX,
        0 <= width <= 0x100_0000_0000,
    ensures
        0 <= rows * width <= u64::MAX,
{
    assert(0 <= rows * width <= 1024 * 0x100_0000_0000) by (nonlinear_arith)
        requires
            0 <= rows <= 1024,
            0 <= width <= 0x100_0000_0000,
    ;
}

/// Whatever position a batch starts at, the buffers of new compressed rows hold
/// every row that one of its layers completes: the row, its index key, and the
/// running state of 8192 values that it is made of.
pub proof fn the_shared_buffers_hold_new_compressed_rows(
    g: Geometry,
    rows: int,
    n_kv_max: u32,
    layer: int,
    p: int,
)
    requires
        0 < rows <= B_MAX,
        0 <= layer < g.layers.len(),
        g.layers[layer].ratio > 0,
        p >= 0,
    ensures
        ({
            let s = scratch_sizes::shared_sizes(g, rows, n_kv_max);
            let new = scratch_sizes::completed(g.layers[layer].ratio as int, p, rows) as int;
            &&& s.boundaries >= new
            &&& s.comp_rows >= new * N_HEAD_DIM
            &&& s.index_rows >= new * N_INDEXER_HEAD_DIM
            &&& s.state_snapshots >= new * 8192
        }),
{
    scratch_sizes::every_completed_row_finds_room(g, rows, layer, p);
    let m = scratch_sizes::boundaries(g, rows);
    let new = scratch_sizes::completed(g.layers[layer].ratio as int, p, rows) as int;
    let k = scratch_sizes::boundary_ratio(g);
    scratch_sizes::lemma_least_ratio(g, g.layers.len() as int, layer);
    assert(m <= rows) by {
        assert((rows + k - 1) / k <= rows) by (nonlinear_arith)
            requires
                rows >= 0,
                k >= 1,
        ;
    }
    assert(new <= m <= 1024);
}

/// Attention's scores fit their buffer: for every layer that scores compressed
/// rows, every row that it scores for, every head, and every key of a context of up
/// to `n_kv_max` tokens. A replayed layer scores for half of the last window.
pub proof fn the_shared_buffers_hold_every_score(
    g: Geometry,
    rows: int,
    n_kv_max: u32,
    layer: int,
    n: int,
    row: int,
    head: int,
    key: int,
)
    requires
        0 < rows <= B_MAX,
        0 <= layer < g.layers.len(),
        g.layers[layer].ratio > 0,
        !g.legacy_stride,
        0 <= n <= n_kv_max,
        n_kv_max > 0,
        0 <= row < rows,
        g.ced && layer >= g.ced_start ==> row < 64,
        0 <= head < N_HEAD,
        0 <= key < g.raw_window + (if g.layers[layer].gathered {
            INDEXER_TOP_K as int
        } else {
            n / (g.layers[layer].ratio as int)
        }),
    ensures
        ({
            let s = scratch_sizes::shared_sizes(g, rows, n_kv_max);
            let keys = g.raw_window + (if g.layers[layer].gathered {
                INDEXER_TOP_K as int
            } else {
                n / (g.layers[layer].ratio as int)
            });
            (row * N_HEAD + head) * keys + key < (if g.f32_scores {
                s.attn_scores as int
            } else {
                2 * s.attn_scores
            })
        }),
{
    let r = g.layers[layer].ratio as int;
    let keys = g.raw_window + (if g.layers[layer].gathered {
        INDEXER_TOP_K as int
    } else {
        n / r
    });
    let slots = batch_scratch::score_slots(g, rows, n_kv_max);
    batch_scratch::every_layer_finds_room_for_its_scores(g, rows, n_kv_max, layer);
    batch_scratch::lemma_batch_scores(g, rows, n_kv_max, g.layers.len() as int);
    scratch_sizes::the_score_buffer_holds_its_slots(g, slots);
    let most = batch_scratch::scored_keys(g, n_kv_max, layer);
    let b = batch_scratch::scored_rows(g, rows, layer);
    assert(keys <= most) by {
        if !g.layers[layer].gathered {
            let x = n_kv_max as int + r - 1;
            assert(n / r <= x / r) by {
                vstd::arithmetic::div_mod::lemma_div_is_ordered(n, x, r);
            }
        }
    }
    assert(row < b);
    assert((row * 64 + head) * keys + key < b * 64 * most) by (nonlinear_arith)
        requires
            0 <= row < b,
            0 <= head < 64,
            0 <= key < keys,
            keys <= most,
    ;
    assert(batch_scratch::layer_scores(g, rows, n_kv_max, layer) == b * 64 * most);
}

/// One region lies behind another.
pub open spec fn behind(a: Region, b: Region) -> bool {
    a.off + a.bytes <= b.off
}

/// The first device's experts have places of their own for their inputs, their
/// inner values plain and quantized, and their outputs: in turn, each at a multiple
/// of 256 bytes, all of them inside of the first arena.
pub proof fn the_experts_places_do_not_overlap(g: Geometry, rows: int)
    requires
        0 < rows <= B_MAX,
    ensures
        ({
            let h = batch_scratch::hot_layout(rows);
            &&& h.partials.bytes == rows * N_EXPERT_USED * N_EMBD * 4
            &&& h.mid_cat.bytes == rows * N_EXPERT_USED * N_FF_EXP * 4
            &&& h.moe_xq.bytes == rows * block_bytes(N_EMBD as int)
            &&& h.midq_cat.bytes == rows * block_bytes(N_EXPERT_USED * N_FF_EXP)
            &&& behind(h.partials, h.mid_cat)
            &&& behind(h.mid_cat, h.moe_xq)
            &&& behind(h.moe_xq, h.midq_cat)
            &&& h.midq_cat.off + h.midq_cat.bytes <= h.end
            &&& h.partials.off % 256 == 0
            &&& h.mid_cat.off % 256 == 0
            &&& h.moe_xq.off % 256 == 0
            &&& h.midq_cat.off % 256 == 0
            &&& h.end <= batch_scratch::r1_bytes(g, rows)
        }),
{
    assert(block_bytes(N_EMBD as int) == 5840);
    assert(block_bytes(N_EXPERT_USED * N_FF_EXP) == 15768);
    assert(batch_scratch::hot_midq(rows) == rows * 15768);
    assert(batch_scratch::hot_xq(rows) == rows * 5840);
    batch_scratch::carved_parts_do_not_overlap(rows);
    batch_scratch::lemma_batch_arenas(g, rows);
}

/// The arenas hold each of their tenants: the flattened residuals, the queries, the
/// indexer's scores and the experts' places in the first, the indexer's queries and
/// the merge of its best keys in the third.
pub proof fn the_arenas_hold_their_tenants(g: Geometry, rows: int, n_kv_max: u32)
    requires
        0 < rows <= B_MAX,
    ensures
        ({
            let s = scratch_sizes::shared_sizes(g, rows, n_kv_max);
            &&& s.r1_arena >= rows * (N_HC * N_EMBD) * 4
            &&& s.r1_arena >= rows * (N_HEAD * N_HEAD_DIM) * 4
            &&& g.indexer ==> s.r1_arena >= rows * ATTN_MIXED_MAX_KEYS * 4
            &&& s.hot matches Some(h) ==> s.r1_arena >= h.end
            &&& s.r3_arena >= rows * (g.n_indexer_head * N_INDEXER_HEAD_DIM) * 4
            &&& g.indexer ==> s.r3_arena >= rows * g.topk_row * 4
            &&& s.r1_arena % 256 == 0
            &&& s.r3_arena % 256 == 0
        }),
{
    batch_scratch::lemma_batch_arenas(g, rows);
    batch_scratch::the_first_arena_holds_every_tenant(g, rows);
    let a = batch_scratch::r1_bytes(g, rows);
    let b = batch_scratch::r3_bytes(g, rows);
    let s = scratch_sizes::shared_sizes(g, rows, n_kv_max);
    assert(s.r1_arena == a && s.r3_arena == b);
    assert(a % 256 == 0 && b % 256 == 0) by {
        lemma_multiple(g, rows);
    }
}

proof fn lemma_multiple(g: Geometry, rows: int)
    ensures
        batch_scratch::r1_bytes(g, rows) % 256 == 0,
        batch_scratch::r3_bytes(g, rows) % 256 == 0,
{
    assert forall|x: int| #[trigger] batch_scratch::aligned(x) % 256 == 0 by {}
}

} // verus!
