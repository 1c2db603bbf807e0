//! The kinds of events that a trace records. An id is stable: it is never used
//! again for other fields. A field `t_*` is a time in nanoseconds of the machine
//! that recorded the event, except `t2_b2` and `t3_b2` of a hub's request, which
//! are box 2's, sent back with the reply.

use vstd::prelude::*;

verus! {

/// The fields that a record can carry: the largest kind must fit.
pub const MAX_FIELDS: usize = 112;

/// A kind of event: a stable id and the names of its fields, which stand in the
/// header of every file.
pub struct Kind {
    pub id: u16,
    pub name: &'static str,
    pub fields: Vec<&'static str>,
}

/// What a kind is.
pub struct KindState {
    pub id: u16,
    pub name: Seq<char>,
    pub fields: Seq<Seq<char>>,
}

/// The characters of some names.
pub open spec fn names(v: Seq<&'static str>) -> Seq<Seq<char>> {
    v.map_values(|s: &'static str| s@)
}

impl View for Kind {
    type V = KindState;

    open spec fn view(&self) -> KindState {
        KindState { id: self.id, name: self.name@, fields: names(self.fields@) }
    }
}

/// The fields of `meta`.
pub open spec fn meta_fields() -> Seq<Seq<char>> {
    seq![
        "t_mono_raw"@,
        "t_realtime"@,
        "written"@,
        "dropped"@,
        "files"@,
        "queue_cap"@,
    ]
}

/// The writer's heartbeat, once a second: the pair of clocks, and the counts of
/// records written and dropped.
pub fn meta() -> (r: Kind)
    ensures
        r@ == (KindState { id: 0, name: "meta"@, fields: meta_fields() }),
        r.fields.len() == 6,
{
    let fields = vec![
        "t_mono_raw",
        "t_realtime",
        "written",
        "dropped",
        "files",
        "queue_cap",
    ];
    let r = Kind { id: 0, name: "meta", fields };
    assert(r@.fields =~= meta_fields());
    r
}

/// The fields of `sys`.
pub open spec fn sys_fields() -> Seq<Seq<char>> {
    seq![
        "t"@,
        "d0_reads"@,
        "d0_rsect"@,
        "d0_rms"@,
        "d0_writes"@,
        "d0_wsect"@,
        "d0_wms"@,
        "d0_inflight"@,
        "d0_io_ms"@,
        "d0_wtd_ms"@,
        "d1_reads"@,
        "d1_rsect"@,
        "d1_rms"@,
        "d1_writes"@,
        "d1_wsect"@,
        "d1_wms"@,
        "d1_inflight"@,
        "d1_io_ms"@,
        "d1_wtd_ms"@,
        "d2_reads"@,
        "d2_rsect"@,
        "d2_rms"@,
        "d2_writes"@,
        "d2_wsect"@,
        "d2_wms"@,
        "d2_inflight"@,
        "d2_io_ms"@,
        "d2_wtd_ms"@,
        "psi_io_some"@,
        "psi_io_full"@,
        "psi_cpu_some"@,
        "psi_mem_some"@,
        "psi_mem_full"@,
        "load1"@,
        "procs_running"@,
        "procs_blocked"@,
        "mem_avail_kb"@,
        "cached_kb"@,
        "dirty_kb"@,
        "writeback_kb"@,
        "self_read_bytes"@,
        "self_write_bytes"@,
        "self_rchar"@,
        "self_threads"@,
        "self_vol_ctxsw"@,
        "self_invol_ctxsw"@,
        "ctxt_total"@,
        "sample_us"@,
    ]
}

/// A sample of the system. `dK_*` are the counters of the `K`th disk, `psi_*` the
/// totals of time lost to pressure, `self_*` those of this process.
pub fn sys() -> (r: Kind)
    ensures
        r@ == (KindState { id: 1, name: "sys"@, fields: sys_fields() }),
        r.fields.len() == 48,
{
    let fields = vec![
        "t",
        "d0_reads",
        "d0_rsect",
        "d0_rms",
        "d0_writes",
        "d0_wsect",
        "d0_wms",
        "d0_inflight",
        "d0_io_ms",
        "d0_wtd_ms",
        "d1_reads",
        "d1_rsect",
        "d1_rms",
        "d1_writes",
        "d1_wsect",
        "d1_wms",
        "d1_inflight",
        "d1_io_ms",
        "d1_wtd_ms",
        "d2_reads",
        "d2_rsect",
        "d2_rms",
        "d2_writes",
        "d2_wsect",
        "d2_wms",
        "d2_inflight",
        "d2_io_ms",
        "d2_wtd_ms",
        "psi_io_some",
        "psi_io_full",
        "psi_cpu_some",
        "psi_mem_some",
        "psi_mem_full",
        "load1",
        "procs_running",
        "procs_blocked",
        "mem_avail_kb",
        "cached_kb",
        "dirty_kb",
        "writeback_kb",
        "self_read_bytes",
        "self_write_bytes",
        "self_rchar",
        "self_threads",
        "self_vol_ctxsw",
        "self_invol_ctxsw",
        "ctxt_total",
        "sample_us",
    ];
    let r = Kind { id: 1, name: "sys", fields };
    assert(r@.fields =~= sys_fields());
    r
}

/// The fields of `hub_req`.
pub open spec fn hub_req_fields() -> Seq<Seq<char>> {
    seq![
        "t_submit"@,
        "t_submit_end"@,
        "t1"@,
        "t4"@,
        "t_wait_enter"@,
        "t_wait_exit"@,
        "t2_b2"@,
        "t3_b2"@,
        "step"@,
        "lane"@,
        "layer"@,
        "b"@,
        "seq"@,
        "flags"@,
        "partner"@,
        "unmasked"@,
        "n_hints"@,
        "n_pf_words"@,
        "n_picks"@,
        "n_distinct"@,
        "n_pred_miss"@,
        "n_pred_incoming"@,
        "n_pred_pending"@,
        "rtt_us"@,
        "srv_us"@,
        "page_us"@,
        "compute_us"@,
        "n_miss"@,
        "miss_bits"@,
        "bytes_out"@,
        "bytes_in"@,
        "blocked"@,
        "clock_offset_ns"@,
        "clock_delay_ns"@,
        "step_rows"@,
    ]
}

/// A request to box 2 as the hub saw it, recorded when its reply is consumed.
/// `t1` is when the writer was about to write it, `t4` when the reader had the
/// reply. `blocked`: the reply came after the wait for it began. `n_pred_*` is what
/// the mirror expected of its experts when it was sent.
pub fn hub_req() -> (r: Kind)
    ensures
        r@ == (KindState { id: 10, name: "hub_req"@, fields: hub_req_fields() }),
        r.fields.len() == 35,
{
    let fields = vec![
        "t_submit",
        "t_submit_end",
        "t1",
        "t4",
        "t_wait_enter",
        "t_wait_exit",
        "t2_b2",
        "t3_b2",
        "step",
        "lane",
        "layer",
        "b",
        "seq",
        "flags",
        "partner",
        "unmasked",
        "n_hints",
        "n_pf_words",
        "n_picks",
        "n_distinct",
        "n_pred_miss",
        "n_pred_incoming",
        "n_pred_pending",
        "rtt_us",
        "srv_us",
        "page_us",
        "compute_us",
        "n_miss",
        "miss_bits",
        "bytes_out",
        "bytes_in",
        "blocked",
        "clock_offset_ns",
        "clock_delay_ns",
        "step_rows",
    ];
    let r = Kind { id: 10, name: "hub_req", fields };
    assert(r@.fields =~= hub_req_fields());
    r
}

/// The fields of `hub_step`.
pub open spec fn hub_step_fields() -> Seq<Seq<char>> {
    seq![
        "t_start"@,
        "t_end"@,
        "step"@,
        "rows"@,
        "live"@,
        "lanes"@,
        "fwd_ms"@,
        "fwd_all_ms"@,
        "engram_ms"@,
        "sample_ms"@,
        "step_ms"@,
        "profiled"@,
        "remote_wait_ms"@,
        "remote_rtt_ms"@,
        "remote_srv_ms"@,
        "b2_page_ms"@,
        "b2_service_ms"@,
        "b2_misses"@,
        "b2_paged_replies"@,
        "hop_submit_to_write_us"@,
        "hop_wake_us"@,
        "hop_slack_us"@,
        "hop_blocked"@,
        "hop_waits"@,
        "sub_predicted_miss"@,
        "sub_reads_avoided"@,
        "sub_picks_swapped"@,
        "sub_blocked"@,
        "sub_plan_failed"@,
        "sub_admits_queued"@,
        "sub_incoming_covered"@,
        "b1_misses"@,
        "b1_read_ms"@,
        "b1_pf_queued"@,
        "b1_pf_admitted"@,
        "b1_pf_dropped_full"@,
        "b1_pf_admit_ms"@,
        "lh_pre_moe"@,
        "lh_post_moe"@,
        "lh_engram"@,
        "lh_pager_block"@,
        "lh_sel_sync"@,
        "lh_remote_submit"@,
        "lh_ensure"@,
        "lh_owns"@,
        "lh_excl"@,
        "lh_audit"@,
        "lh_remap_h2d"@,
        "lh_work_items_sync"@,
        "lh_remote_wait"@,
        "lh_pager_sync_igpu"@,
        "lh_engram_join"@,
        "lh_work_items_count"@,
        "lh_sel_d2h"@,
        "lh_sub"@,
        "lh_wic_busy_x1e3"@,
        "lh_wic_idle_x1e3"@,
        "lh_seld2h_busy_x1e3"@,
        "lh_seld2h_idle_x1e3"@,
        "lh_remote_sync"@,
        "dgpu_busy_ms"@,
        "igpu_busy_ms"@,
        "d_output_proj"@,
        "d_attn_compute"@,
        "d_q_chain"@,
        "d_shared_expert"@,
        "d_mhc_pre_attn"@,
        "d_mhc_pre_ffn"@,
        "d_mhc_mix_ffn_late"@,
        "d_router"@,
        "d_prefill_indexer"@,
        "d_prefill_indexer_reuse"@,
        "d_peer_push_ffn_input_norm"@,
        "d_kv_chain"@,
        "d_rb_pack"@,
        "d_head_batch"@,
        "d_engram"@,
        "d_ffn_combine_local"@,
        "d_ffn_combine_remote"@,
        "d_kv_append_compressor_serial"@,
        "d_mhc_post_attn"@,
        "i_pair_kwide"@,
        "i_q2k_down"@,
        "i_moe_group_builder"@,
        "i_moe_work_items"@,
        "i_q8k_quantize_pre_iq2"@,
        "i_q8k_quantize_post_iq2"@,
        "i_peer_push_ffn_moe"@,
        "d_other"@,
        "i_other"@,
        "pos_min"@,
        "pos_max"@,
    ]
}

/// A decode step. A value that was not measured is absent. Its fields are filled by
/// name, so a stage that is renamed is absent and shifts no other.
pub fn hub_step() -> (r: Kind)
    ensures
        r@ == (KindState { id: 11, name: "hub_step"@, fields: hub_step_fields() }),
        r.fields.len() == 92,
{
    let fields = vec![
        "t_start",
        "t_end",
        "step",
        "rows",
        "live",
        "lanes",
        "fwd_ms",
        "fwd_all_ms",
        "engram_ms",
        "sample_ms",
        "step_ms",
        "profiled",
        "remote_wait_ms",
        "remote_rtt_ms",
        "remote_srv_ms",
        "b2_page_ms",
        "b2_service_ms",
        "b2_misses",
        "b2_paged_replies",
        "hop_submit_to_write_us",
        "hop_wake_us",
        "hop_slack_us",
        "hop_blocked",
        "hop_waits",
        "sub_predicted_miss",
        "sub_reads_avoided",
        "sub_picks_swapped",
        "sub_blocked",
        "sub_plan_failed",
        "sub_admits_queued",
        "sub_incoming_covered",
        "b1_misses",
        "b1_read_ms",
        "b1_pf_queued",
        "b1_pf_admitted",
        "b1_pf_dropped_full",
        "b1_pf_admit_ms",
        "lh_pre_moe",
        "lh_post_moe",
        "lh_engram",
        "lh_pager_block",
        "lh_sel_sync",
        "lh_remote_submit",
        "lh_ensure",
        "lh_owns",
        "lh_excl",
        "lh_audit",
        "lh_remap_h2d",
        "lh_work_items_sync",
        "lh_remote_wait",
        "lh_pager_sync_igpu",
        "lh_engram_join",
        "lh_work_items_count",
        "lh_sel_d2h",
        "lh_sub",
        "lh_wic_busy_x1e3",
        "lh_wic_idle_x1e3",
        "lh_seld2h_busy_x1e3",
        "lh_seld2h_idle_x1e3",
        "lh_remote_sync",
        "dgpu_busy_ms",
        "igpu_busy_ms",
        "d_output_proj",
        "d_attn_compute",
        "d_q_chain",
        "d_shared_expert",
        "d_mhc_pre_attn",
        "d_mhc_pre_ffn",
        "d_mhc_mix_ffn_late",
        "d_router",
        "d_prefill_indexer",
        "d_prefill_indexer_reuse",
        "d_peer_push_ffn_input_norm",
        "d_kv_chain",
        "d_rb_pack",
        "d_head_batch",
        "d_engram",
        "d_ffn_combine_local",
        "d_ffn_combine_remote",
        "d_kv_append_compressor_serial",
        "d_mhc_post_attn",
        "i_pair_kwide",
        "i_q2k_down",
        "i_moe_group_builder",
        "i_moe_work_items",
        "i_q8k_quantize_pre_iq2",
        "i_q8k_quantize_post_iq2",
        "i_peer_push_ffn_moe",
        "d_other",
        "i_other",
        "pos_min",
        "pos_max",
    ];
    let r = Kind { id: 11, name: "hub_step", fields };
    assert(r@.fields =~= hub_step_fields());
    r
}

/// The fields of `hub_phase`.
pub open spec fn hub_phase_fields() -> Seq<Seq<char>> {
    seq![
        "t"@,
        "from"@,
        "to"@,
        "live"@,
        "prefills"@,
        "queued"@,
        "burst_ms"@,
        "next_budget_ms"@,
        "starved"@,
    ]
}

/// The scheduler went from one phase to another: 0 decodes, 1 prefills.
pub fn hub_phase() -> (r: Kind)
    ensures
        r@ == (KindState { id: 12, name: "hub_phase"@, fields: hub_phase_fields() }),
        r.fields.len() == 9,
{
    let fields = vec![
        "t",
        "from",
        "to",
        "live",
        "prefills",
        "queued",
        "burst_ms",
        "next_budget_ms",
        "starved",
    ];
    let r = Kind { id: 12, name: "hub_phase", fields };
    assert(r@.fields =~= hub_phase_fields());
    r
}

/// The fields of `b2_req`.
pub open spec fn b2_req_fields() -> Seq<Seq<char>> {
    seq![
        "seq"@,
        "layer"@,
        "b"@,
        "flags"@,
        "merged"@,
        "partner_seq"@,
        "partner_b"@,
        "partner_promised"@,
        "served_under"@,
        "t_hdr"@,
        "t_frame"@,
        "t_dequeue"@,
        "t_merge_end"@,
        "t_hints_end"@,
        "t_run_start"@,
        "t_run_end"@,
        "t_d2h_end"@,
        "t_ready"@,
        "depth_on_take"@,
        "pending_after"@,
        "idle_before_us"@,
        "n_sel"@,
        "n_distinct"@,
        "n_hint_admit"@,
        "n_prefetch_words"@,
        "n_miss"@,
        "page_us"@,
        "compute_us"@,
        "server_us"@,
        "d_misses"@,
        "d_read_ns"@,
        "d_h2d_ns"@,
        "d_repack_gpu_ns"@,
        "d_pread_ns"@,
        "d_repack_cpu_ns"@,
        "d_prefetch_wait_ns"@,
        "park_wait_ns"@,
        "park_serve_ns"@,
        "path_decode"@,
        "two_pass"@,
        "n_work_items"@,
        "n_missing"@,
        "exec_h2d_us"@,
        "exec_gpu_us"@,
        "pf_run_certain"@,
        "pf_run_spec"@,
        "pf_q_certain"@,
        "pf_q_spec"@,
        "pf_free_sets"@,
        "pf_pending"@,
        "pf_d_hinted"@,
        "pf_d_admitted"@,
        "pf_d_dropped"@,
        "pf_d_waited"@,
        "pf_d_promoted"@,
        "pool_resident"@,
    ]
}

/// A request as box 2 saw it, recorded when its reply goes to the writer. `d_*` is
/// what its paging cost. `merged`: 0 alone, 1 with a partner, 2 as the partner.
/// `served_under` is the parked request inside which it was served.
pub fn b2_req() -> (r: Kind)
    ensures
        r@ == (KindState { id: 20, name: "b2_req"@, fields: b2_req_fields() }),
        r.fields.len() == 56,
{
    let fields = vec![
        "seq",
        "layer",
        "b",
        "flags",
        "merged",
        "partner_seq",
        "partner_b",
        "partner_promised",
        "served_under",
        "t_hdr",
        "t_frame",
        "t_dequeue",
        "t_merge_end",
        "t_hints_end",
        "t_run_start",
        "t_run_end",
        "t_d2h_end",
        "t_ready",
        "depth_on_take",
        "pending_after",
        "idle_before_us",
        "n_sel",
        "n_distinct",
        "n_hint_admit",
        "n_prefetch_words",
        "n_miss",
        "page_us",
        "compute_us",
        "server_us",
        "d_misses",
        "d_read_ns",
        "d_h2d_ns",
        "d_repack_gpu_ns",
        "d_pread_ns",
        "d_repack_cpu_ns",
        "d_prefetch_wait_ns",
        "park_wait_ns",
        "park_serve_ns",
        "path_decode",
        "two_pass",
        "n_work_items",
        "n_missing",
        "exec_h2d_us",
        "exec_gpu_us",
        "pf_run_certain",
        "pf_run_spec",
        "pf_q_certain",
        "pf_q_spec",
        "pf_free_sets",
        "pf_pending",
        "pf_d_hinted",
        "pf_d_admitted",
        "pf_d_dropped",
        "pf_d_waited",
        "pf_d_promoted",
        "pool_resident",
    ];
    let r = Kind { id: 20, name: "b2_req", fields };
    assert(r@.fields =~= b2_req_fields());
    r
}

/// The fields of `b2_read`.
pub open spec fn b2_read_fields() -> Seq<Seq<char>> {
    seq![
        "src"@,
        "seq"@,
        "layer"@,
        "expert"@,
        "slot"@,
        "victim_layer"@,
        "victim_expert"@,
        "set"@,
        "t_hint"@,
        "t_pop"@,
        "t_read_start"@,
        "t_read_end"@,
        "t_recv"@,
        "t_land_start"@,
        "t_land_end"@,
        "yield_ns"@,
        "pause_ns"@,
        "demand_reads_at_start"@,
        "run_certain_at_start"@,
        "run_spec_at_start"@,
        "r0_start"@,
        "r0_end"@,
        "r1_start"@,
        "r1_end"@,
        "r2_start"@,
        "r2_end"@,
        "wanted"@,
        "blocked_on"@,
        "coalesced"@,
        "victim_scan_ns"@,
        "repack_ns"@,
        "chunk_n"@,
        "chunk_idx"@,
        "already_resident"@,
    ]
}

/// An expert that box 2 read. `src`: 0 for a miss, 1 in the background and certain,
/// 2 speculative but certain before it was read, 3 speculative.
pub fn b2_read() -> (r: Kind)
    ensures
        r@ == (KindState { id: 21, name: "b2_read"@, fields: b2_read_fields() }),
        r.fields.len() == 34,
{
    let fields = vec![
        "src",
        "seq",
        "layer",
        "expert",
        "slot",
        "victim_layer",
        "victim_expert",
        "set",
        "t_hint",
        "t_pop",
        "t_read_start",
        "t_read_end",
        "t_recv",
        "t_land_start",
        "t_land_end",
        "yield_ns",
        "pause_ns",
        "demand_reads_at_start",
        "run_certain_at_start",
        "run_spec_at_start",
        "r0_start",
        "r0_end",
        "r1_start",
        "r1_end",
        "r2_start",
        "r2_end",
        "wanted",
        "blocked_on",
        "coalesced",
        "victim_scan_ns",
        "repack_ns",
        "chunk_n",
        "chunk_idx",
        "already_resident",
    ];
    let r = Kind { id: 21, name: "b2_read", fields };
    assert(r@.fields =~= b2_read_fields());
    r
}

/// The fields of `b2_ensure`.
pub open spec fn b2_ensure_fields() -> Seq<Seq<char>> {
    seq![
        "seq"@,
        "layer"@,
        "n_ids"@,
        "n_want"@,
        "n_hits"@,
        "n_miss"@,
        "prefill_shaped"@,
        "t_start"@,
        "t_admit_end"@,
        "t_dirty_end"@,
        "t_victims_end"@,
        "t_reads_end"@,
        "t_end"@,
        "admit_wait_ns"@,
        "admit_landed"@,
        "admit_landed_wanted"@,
        "admit_blocking_recvs"@,
        "victim_scan_ns"@,
        "evicted_foreign"@,
        "took_free"@,
        "k_par"@,
        "n_chunks"@,
        "dirty_upload"@,
        "remap_upload_ns"@,
        "pf_run_certain"@,
        "pf_run_spec"@,
        "pf_q_certain"@,
        "pf_q_spec"@,
    ]
}

/// The paging of one layer for a request on box 2: what had been read in the
/// background lands first, then victims are sought, experts read, and the slot
/// table uploaded.
pub fn b2_ensure() -> (r: Kind)
    ensures
        r@ == (KindState { id: 22, name: "b2_ensure"@, fields: b2_ensure_fields() }),
        r.fields.len() == 28,
{
    let fields = vec![
        "seq",
        "layer",
        "n_ids",
        "n_want",
        "n_hits",
        "n_miss",
        "prefill_shaped",
        "t_start",
        "t_admit_end",
        "t_dirty_end",
        "t_victims_end",
        "t_reads_end",
        "t_end",
        "admit_wait_ns",
        "admit_landed",
        "admit_landed_wanted",
        "admit_blocking_recvs",
        "victim_scan_ns",
        "evicted_foreign",
        "took_free",
        "k_par",
        "n_chunks",
        "dirty_upload",
        "remap_upload_ns",
        "pf_run_certain",
        "pf_run_spec",
        "pf_q_certain",
        "pf_q_spec",
    ];
    let r = Kind { id: 22, name: "b2_ensure", fields };
    assert(r@.fields =~= b2_ensure_fields());
    r
}

/// The fields of `b2_write`.
pub open spec fn b2_write_fields() -> Seq<Seq<char>> {
    seq![
        "seq"@,
        "t3"@,
        "t_written"@,
        "bytes"@,
    ]
}

/// A reply that box 2 wrote.
pub fn b2_write() -> (r: Kind)
    ensures
        r@ == (KindState { id: 23, name: "b2_write"@, fields: b2_write_fields() }),
        r.fields.len() == 4,
{
    let fields = vec![
        "seq",
        "t3",
        "t_written",
        "bytes",
    ];
    let r = Kind { id: 23, name: "b2_write", fields };
    assert(r@.fields =~= b2_write_fields());
    r
}

/// The kinds of events, in the order in which a header lists them.
pub open spec fn all_kinds() -> Seq<KindState> {
    seq![
        KindState { id: 0, name: "meta"@, fields: meta_fields() },
        KindState { id: 1, name: "sys"@, fields: sys_fields() },
        KindState { id: 10, name: "hub_req"@, fields: hub_req_fields() },
        KindState { id: 11, name: "hub_step"@, fields: hub_step_fields() },
        KindState { id: 12, name: "hub_phase"@, fields: hub_phase_fields() },
        KindState { id: 20, name: "b2_req"@, fields: b2_req_fields() },
        KindState { id: 21, name: "b2_read"@, fields: b2_read_fields() },
        KindState { id: 22, name: "b2_ensure"@, fields: b2_ensure_fields() },
        KindState { id: 23, name: "b2_write"@, fields: b2_write_fields() },
    ]
}

/// What some kinds are.
pub open spec fn kind_states(v: Seq<Kind>) -> Seq<KindState> {
    v.map_values(|k: Kind| k@)
}

/// The kinds of events, in the order in which a header lists them.
pub fn kinds() -> (r: Vec<Kind>)
    ensures
        kind_states(r@) == all_kinds(),
{
    let mut v: Vec<Kind> = Vec::new();
    v.push(meta());
    v.push(sys());
    v.push(hub_req());
    v.push(hub_step());
    v.push(hub_phase());
    v.push(b2_req());
    v.push(b2_read());
    v.push(b2_ensure());
    v.push(b2_write());
    assert(kind_states(v@) =~= all_kinds());
    v
}

/// No two kinds have the same id.
pub proof fn ids_are_unique(a: int, b: int)
    requires
        0 <= a < all_kinds().len(),
        0 <= b < all_kinds().len(),
        all_kinds()[a].id == all_kinds()[b].id,
    ensures
        a == b,
{
}

/// A record has room for the fields of every kind.
pub proof fn every_kind_fits(k: int)
    requires
        0 <= k < all_kinds().len(),
    ensures
        all_kinds()[k].fields.len() <= MAX_FIELDS,
{
}

/// A number, where it is not the one that stands for none.
pub open spec fn known(n: u64) -> Option<u64> {
    if n == u64::MAX {
        None
    } else {
        Some(n)
    }
}

/// The decode step under way and its rows, which stand in every request's record.
pub struct Step {
    step: u64,
    rows: u64,
}

impl Step {
    /// The step under way.
    pub closed spec fn step(self) -> Option<u64> {
        known(self.step)
    }

    /// The rows of the step under way.
    pub closed spec fn rows(self) -> Option<u64> {
        known(self.rows)
    }

    /// No step is under way.
    pub fn new() -> (r: Self)
        ensures
            r.step() == None::<u64>,
            r.rows() == None::<u64>,
    {
        Step { step: u64::MAX, rows: u64::MAX }
    }
}

/// A decode step begins. The largest number stands for none.
pub fn set_step(s: &mut Step, step: u64, rows: u64)
    ensures
        final(s).step() == known(step),
        final(s).rows() == known(rows),
{
    s.step = step;
    s.rows = rows;
}

/// No decode step is under way any more.
pub fn clear_step(s: &mut Step)
    ensures
        final(s).step() == None::<u64>,
        final(s).rows() == None::<u64>,
{
    s.step = u64::MAX;
    s.rows = u64::MAX;
}

/// The step under way.
pub fn current_step(s: &Step) -> (r: Option<u64>)
    ensures
        r == s.step(),
{
    if s.step == u64::MAX {
        None
    } else {
        Some(s.step)
    }
}

/// The rows of the step under way.
pub fn current_rows(s: &Step) -> (r: Option<u64>)
    ensures
        r == s.rows(),
{
    if s.rows == u64::MAX {
        None
    } else {
        Some(s.rows)
    }
}

} // verus!
