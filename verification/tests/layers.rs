//! A layer's and a token's work.

use v4flash_het::kv_window::{normalize_raw_windows, KvCopy, KvWindow};
use v4flash_het::knobs::{
    attn_comp_cap, decode_presubmit_reorder, index_k_enabled, indexer_wide, is_1, ksplit,
    mhc_split_enabled, norm_kernel, not_0, not_single, number, number32, remote_split_decode,
    sel_stats_enabled, set_and_not_0, sparse_disabled, use_f32_scores, dumps_residuals, NormKernel,
};
use v4flash_het::layer_attention::{
    attend, is_index_source_layer, selection_faults, use_sparse, SelectionFaults,
};
use v4flash_het::layer_compress::{comp_fires, compress};
use v4flash_het::layer_ops::{
    CompressorState, LayerError, LayerFacts, LayerKnobs, LayerState, Lane, Op, Signal, Store,
    TokenState,
};
use v4flash_het::layer_plan::{
    await_moe, begin_layer, combine_label, finish_layer, is_first_layer, is_last_layer,
    issue_igpu_moe, serve_picks, start_moe, MoeSetup,
};
use v4flash_het::mtp::{forward_mtp_draft, Buf, DraftError, DraftOp, MtpDims, MtpScratch};
use v4flash_het::token::{
    begin_token, check_input, engram_row, forget_gather, gap_us, issues_ahead, layer_path, lend,
    phase_busy_poll, forward_token, restore_compressor_lending, stage_engram_rows,
    subtensor_dump_armed, token_timing, CurrentDevice, ExecMode, LayerLinks, LayerPath, TokenError,
    TokenSetup, TokenStep, TokenTimes,
};
use v4flash_het::pool::PagerCounters;

fn knobs() -> LayerKnobs {
    LayerKnobs {
        v41: true,
        parallel: true,
        standalone: false,
        dump: false,
        mhc_split: false,
        mhc_fused: false,
        norm: NormKernel::Fused,
        ksplit: 20,
        wide_norm: false,
        qkv_graph: false,
        index_k: false,
        indexer_force: false,
        indexer_off: false,
        indexer_wide: true,
        indexer_wmma: true,
        indexer_check: false,
        comp_cap: 0,
        wide_score: true,
        split_sum: true,
        presubmit: false,
        batch_miss: false,
        kv_rows: 640,
    }
}

fn facts(layer: i32) -> LayerFacts {
    LayerFacts {
        layer,
        igpu_layer: layer,
        ratio: 0,
        engram: false,
        next_engram: Some(false),
        compressor: false,
        indexer: false,
        indexer_keys: false,
        indexer_compressor: false,
        kv_source: None,
        hash_router: false,
        hash_table: false,
        hot: false,
        igpu_packed: false,
        hot_remap: false,
    }
}

fn state() -> LayerState {
    LayerState { window: KvWindow::new(), compressor: None, indexer: None }
}

fn compressor(n_comp: u32) -> CompressorState {
    CompressorState { store: Store::F16, n_comp, index_key: false, n_index_comp: 0 }
}

#[test]
fn the_window_slides_and_wraps() {
    let mut w = KvWindow::new();
    for i in 0..640u32 {
        let a = w.append(640);
        assert_eq!(a.slot, i);
        if i < 639 {
            assert_eq!(a.wrap, None);
        } else {
            assert!(a.wrap.is_some());
        }
    }
    assert_eq!(w.n_raw, 128);
    assert_eq!(w.raw_off, 0);
    assert_eq!(w.slot(), 128);
    let mut layers = vec![
        KvWindow { raw_off: 5, n_raw: 3 },
        KvWindow { raw_off: 0, n_raw: 3 },
        KvWindow { raw_off: 7, n_raw: 0 },
    ];
    let copies = normalize_raw_windows(&mut layers);
    assert_eq!(copies, vec![Some(KvCopy { from: 5, n: 3 }), None, None]);
    assert!(layers.iter().all(|w| w.raw_off == 0));
    assert_eq!(layers[0].n_raw, 3);
}

#[test]
fn a_layer_begins() {
    let (k, f) = (knobs(), facts(5));
    let mut s = state();
    let mut t = begin_token(0);
    let part = begin_layer(&k, &f, 0, &mut s, &mut t);
    assert_eq!(part.stop, None);
    assert_eq!(s.window.n_raw, 1);
    assert!(part.ops.contains(&Op::KvAppend { slot: 0 }));
    assert!(part.ops.contains(&Op::AttnSwa { raw_off: 0, n_raw: 1 }));
    assert!(!is_first_layer(&k, &f) && !is_last_layer(&k, &f));
    assert!(is_first_layer(&k, &facts(0)));
}

#[test]
fn a_layer_of_other_weights_stops() {
    let f = LayerFacts { igpu_layer: 6, ..facts(5) };
    let part = begin_layer(&knobs(), &f, 0, &mut state(), &mut begin_token(0));
    assert_eq!(part.stop, Some(LayerError::LayerMismatch));
    let f = LayerFacts { engram: true, ..facts(1) };
    let part = begin_layer(&knobs(), &f, 0, &mut state(), &mut begin_token(0));
    assert_eq!(part.stop, Some(LayerError::EngramNotStaged));
    let f = LayerFacts { ratio: 4, compressor: true, ..facts(5) };
    let part = begin_layer(&knobs(), &f, 3, &mut state(), &mut begin_token(0));
    assert_eq!(part.stop, Some(LayerError::NoCompressorState));
}

#[test]
fn rows_are_compressed_when_a_group_is_full() {
    assert!(comp_fires(4, 3) && !comp_fires(4, 4) && comp_fires(1, 0));
    let f = LayerFacts { ratio: 4, compressor: true, ..facts(5) };
    let mut c = Some(compressor(0));
    let mut ops = Vec::new();
    for pos in 0..8 {
        compress(&knobs(), &f, pos, &mut c, &mut ops).unwrap();
    }
    assert_eq!(c.unwrap().n_comp, 2);
    assert!(ops.contains(&Op::CompAppend { row: 1, packed: false }));
}

#[test]
fn attention_without_compressed_rows_is_the_window() {
    let mut ops = Vec::new();
    let mut t = begin_token(0);
    let s = LayerState { window: KvWindow { raw_off: 2, n_raw: 9 }, ..state() };
    attend(&knobs(), &facts(3), 11, &s, &mut t, &mut ops).unwrap();
    assert_eq!(ops[0], Op::AttnSwa { raw_off: 2, n_raw: 9 });
    assert!(!use_sparse(&knobs(), &facts(3), &s));
    assert!(!is_index_source_layer(false, 2));
}

#[test]
fn a_selection_is_checked() {
    assert_eq!(
        selection_faults(&[0, 1, 2], 3),
        SelectionFaults { oob: 0, dup: 0, missing: 0 }
    );
    assert_eq!(
        selection_faults(&[0, 0, 9], 3),
        SelectionFaults { oob: 1, dup: 1, missing: 2 }
    );
}

#[test]
fn the_moe_waits_for_what_was_announced() {
    let k = knobs();
    let m = MoeSetup { split_on: false, paged: false, preissued: false, hot_cap: 6 };
    let part = start_moe(&k, &facts(5), &m);
    assert_eq!(part.stop, None);
    assert!(part.ops.iter().any(|o| matches!(o, Op::RoutedMoe { .. })));
    let mut all = begin_layer(&k, &facts(5), 0, &mut state(), &mut begin_token(0)).ops;
    all.extend_from_slice(&part.ops);
    for (i, o) in all.iter().enumerate() {
        if let Op::Wait { signal, .. } = o {
            assert!(
                all[..i].iter().any(|p| matches!(p, Op::Record { signal: q, .. } if q == signal)),
                "{signal:?}"
            );
        }
    }
    let ahead = issue_igpu_moe(7);
    assert_eq!(ahead[0], Op::WaitMoeSignal { seq: 7 });
    assert!(matches!(ahead[1], Op::RoutedMoe { .. }));
    assert!(ahead.contains(&Op::Record { signal: Signal::MoeArrived, lane: Lane::IgpuXfer }));
    let paged = MoeSetup { paged: true, ..m };
    let ops = serve_picks(&k, &facts(5), &paged, false, 6);
    let at = |f: &dyn Fn(&Op) -> bool| ops.iter().position(|o| f(o));
    let ensured = at(&|o| matches!(o, Op::Ensure { .. })).unwrap();
    let computed = at(&|o| matches!(o, Op::RoutedMoe { .. })).unwrap();
    assert!(ensured < computed);
    assert!(await_moe(&k, true).contains(&Op::AwaitRemote));
    assert!(!await_moe(&k, false).contains(&Op::AwaitRemote));
}

#[test]
fn a_layer_ends() {
    let part = finish_layer(&knobs(), &facts(5), None);
    assert_eq!(part.stop, None);
    assert!(!part.ops.contains(&Op::AddRemote));
    let part = finish_layer(&knobs(), &facts(5), Some(5120));
    assert_eq!(part.ops.iter().filter(|o| **o == Op::AddRemote).count(), 1);
    let part = finish_layer(&knobs(), &facts(5), Some(7));
    assert_eq!(part.stop, Some(LayerError::PartialLength));
    assert!(!combine_label(&knobs(), &facts(5)).is_empty());
}

fn setup() -> TokenSetup {
    TokenSetup {
        path: LayerPath::Joined,
        ahead: false,
        capture: false,
        engram_rows: None,
        engram_in: 0,
        count_picks: false,
        dump_layers: vec![],
        dump_residual: false,
        substitute_after: None,
        dump_logits: false,
    }
}

#[test]
fn every_layer_of_a_token_runs_once() {
    let links: Vec<LayerLinks> =
        (0..40).map(|l| LayerLinks { engram: false, kv_source: if l == 3 { Some(2) } else { None } }).collect();
    let (steps, stop) = forward_token(&setup(), &links, 20480, 7, 7, &mut begin_token(0));
    assert_eq!(stop, None);
    let ran: Vec<usize> = steps
        .iter()
        .filter_map(|s| if let TokenStep::RunLayer { layer, .. } = s { Some(*layer) } else { None })
        .collect();
    assert_eq!(ran, (0..40).collect::<Vec<usize>>());
    assert_eq!(steps[0], TokenStep::Publish { pos: 7, slot: 7 });
    let lent = steps.iter().position(|s| *s == TokenStep::Lend { from: 2, to: 3 }).unwrap();
    let back = steps.iter().position(|s| *s == TokenStep::Return { from: 2, to: 3 });
    assert!(back.map_or(true, |b| b > lent));
    let swaps = steps.iter().filter(|s| **s == TokenStep::SwapResidual).count();
    assert_eq!(swaps % 2, 0);
}

#[test]
fn engram_rows_are_needed() {
    let links: Vec<LayerLinks> =
        (0..2).map(|l| LayerLinks { engram: l == 1, kv_source: None }).collect();
    let (_, stop) = forward_token(&setup(), &links, 20480, 0, 0, &mut begin_token(0));
    assert_eq!(stop, Some(TokenError::NoEngramRows { layer: 1 }));
    let c = TokenSetup { engram_rows: Some(vec![3]), engram_in: 4, ..setup() };
    let (_, stop) = forward_token(&c, &links, 20480, 0, 0, &mut begin_token(0));
    assert_eq!(stop, Some(TokenError::EngramRowLength { layer: 1 }));
    let c = TokenSetup { engram_rows: Some(vec![4]), engram_in: 4, ..setup() };
    assert_eq!(forward_token(&c, &links, 20480, 0, 0, &mut begin_token(0)).1, None);
    assert_eq!((engram_row(1), engram_row(14), engram_row(2)), (Some(0), Some(1), None));
}

#[test]
fn a_store_is_lent_and_returned() {
    let mut layers = vec![LayerState { compressor: Some(compressor(9)), ..state() }, state()];
    let before = layers.clone();
    lend(&mut layers, 0, 1);
    assert_eq!(layers[0].compressor, None);
    assert_eq!(layers[1].compressor, Some(compressor(9)));
    lend(&mut layers, 1, 0);
    assert_eq!(layers, before);
}

#[test]
fn a_store_left_with_another_layer_comes_home() {
    let links = vec![
        LayerLinks { engram: false, kv_source: None },
        LayerLinks { engram: false, kv_source: None },
        LayerLinks { engram: false, kv_source: Some(0) },
    ];
    let mut layers =
        vec![LayerState { compressor: Some(compressor(9)), ..state() }, state(), state()];
    let before = layers.clone();
    restore_compressor_lending(&mut layers, &links);
    assert_eq!(layers, before);
    lend(&mut layers, 0, 2);
    assert_ne!(layers, before);
    restore_compressor_lending(&mut layers, &links);
    assert_eq!(layers, before);
}

#[test]
fn the_second_device_is_issued_first() {
    let links: Vec<LayerLinks> =
        (0..2).map(|_| LayerLinks { engram: false, kv_source: None }).collect();
    for path in [LayerPath::Preissued, LayerPath::Paged] {
        let c = TokenSetup { path, ahead: true, ..setup() };
        let mut t = begin_token(8);
        let (steps, stop) = forward_token(&c, &links, 20480, 3, 4, &mut t);
        assert_eq!(stop, None);
        assert_eq!(
            steps,
            vec![
                TokenStep::Publish { pos: 3, slot: 4 },
                TokenStep::IssueAhead { layer: 0, seq: 9 },
                TokenStep::IssueAhead { layer: 1, seq: 9 },
                TokenStep::RunLayer { layer: 0, path },
                TokenStep::SwapResidual,
                TokenStep::RunLayer { layer: 1, path },
                TokenStep::SwapResidual,
                TokenStep::Head,
                TokenStep::Sync,
            ]
        );
    }
}

#[test]
fn a_token_advances_the_sequence() {
    let links = vec![LayerLinks { engram: true, kv_source: None }];
    let mut t = begin_token(4);
    let (steps, stop) = forward_token(&setup(), &links, 20479, 0, 0, &mut t);
    assert_eq!((steps, stop, t.seq), (vec![], Some(TokenError::InputLength), 4));
    let (_, stop) = forward_token(&setup(), &links, 20480, 0, 0, &mut t);
    assert_eq!((stop, t.seq), (Some(TokenError::NoEngramRows { layer: 0 }), 5));
    let mut t = begin_token(u32::MAX);
    forward_token(&setup(), &links, 20480, 0, 0, &mut t);
    assert_eq!(t.seq, 0);
    let mut t = begin_token(6);
    let part = begin_layer(&knobs(), &facts(5), 0, &mut state(), &mut t);
    let pushed = part.ops.iter().position(|o| *o == Op::PushSelected).unwrap();
    let raised = part.ops.iter().position(|o| *o == Op::RaiseMoeSignal { seq: 6 }).unwrap();
    assert!(pushed < raised);
}

#[test]
fn a_layer_keeps_its_window() {
    let k = knobs();
    let full = KvWindow { raw_off: 9, n_raw: 128 };
    let mut s = LayerState { window: full, ..state() };
    begin_layer(&k, &facts(5), 500, &mut s, &mut begin_token(0));
    assert_eq!(s.window, KvWindow { raw_off: 10, n_raw: 128 });
    let last = KvWindow { raw_off: k.kv_rows - 129, n_raw: 128 };
    let mut s = LayerState { window: last, ..state() };
    let part = begin_layer(&k, &facts(5), 500, &mut s, &mut begin_token(0));
    assert_eq!(s.window, KvWindow { raw_off: 0, n_raw: 128 });
    assert!(part.ops.contains(&Op::KvWrap { copy: KvCopy { from: k.kv_rows - 128, n: 128 } }));
    let f = LayerFacts { igpu_layer: 6, ..facts(5) };
    let mut s = LayerState { window: full, ..state() };
    let part = begin_layer(&k, &f, 500, &mut s, &mut begin_token(0));
    assert_eq!((part.ops.len(), s.window), (0, full));
}

#[test]
fn a_tokens_bookkeeping() {
    let mut t: TokenState = begin_token(0);
    assert!(!stage_engram_rows(&mut t, 3, 4) && !t.engram_ready);
    assert!(stage_engram_rows(&mut t, 4, 4) && t.engram_ready);
    t.gather_src = 3;
    forget_gather(&mut t);
    assert_eq!(t.gather_src, -1);
    assert_eq!(check_input(20480), Ok(()));
    assert_eq!(check_input(20479), Err(TokenError::InputLength));
    assert!(issues_ahead(true, ExecMode::HetParallel, false, false));
    assert!(!issues_ahead(true, ExecMode::HetSingleStream, false, false));
    assert!(!issues_ahead(false, ExecMode::HetParallel, false, false));
    assert!(!issues_ahead(true, ExecMode::HetParallel, true, false));
    assert!(!issues_ahead(true, ExecMode::HetParallel, false, true));
    assert_eq!((layer_path(true, true), layer_path(true, false)), (LayerPath::Paged, LayerPath::Paged));
    assert_eq!((layer_path(false, true), layer_path(false, false)), (LayerPath::Preissued, LayerPath::Joined));
    assert_eq!((gap_us(0, 9000), gap_us(1000, 9000)), (0, 8));
    assert_eq!(phase_busy_poll(true, None, None), Some(3000));
    assert_eq!(phase_busy_poll(false, None, None), Some(50));
    assert_eq!(phase_busy_poll(true, Some(0), None), None);
    assert!(subtensor_dump_armed(&vec![3, 5], 5) && !subtensor_dump_armed(&vec![3, 5], 4));
    let mut d = CurrentDevice::new();
    assert!(d.must_switch(1));
    d.switched(1);
    assert!(!d.must_switch(1) && d.must_switch(0));
    d.invalidate_device_cache();
    assert!(d.must_switch(1));
}

#[test]
fn a_tokens_times() {
    let t = TokenTimes {
        total_us: 100,
        host_us: 60,
        dgpu_busy_us: 70,
        igpu_busy_us: 130,
        reported_us: 90,
        sel_sync_ns: 5_999,
        ensure_ns: 0,
        remote_rtt_ns: 7_000,
        remote_wait_ns: 0,
        remote_srv_ns: 0,
        engram_stage_ns: 0,
    };
    let zero = PagerCounters::default();
    let r = token_timing(&t, &PagerCounters { decode_read_ns: 2_000, decode_misses: 3, ..zero });
    assert_eq!((r.dgpu_idle_us, r.igpu_idle_us, r.sel_sync_us, r.remote_rtt_us), (30, 0, 5, 7));
    assert_eq!((r.pager_read_us, r.pager_misses), (2, 3));
}

#[test]
fn a_draft_is_planned() {
    let d = MtpDims {
        n_vocab: 1000,
        n_rot: 64,
        group_dim: 4096,
        rank: 1024,
        n_groups: 8,
        out_low: 8192,
        block_bytes: 144,
    };
    let p = forward_mtp_draft(d, 20480, 5120, 3, 77).ok().unwrap();
    assert_eq!(p.n_raw, 4);
    assert!(p.ops.contains(&DraftOp::KvAppend { dst: Buf::KvCache, src: Buf::KvNormed, slot: 3 }));
    assert!(p.ops.contains(&DraftOp::Attend { dst: Buf::Heads, q: Buf::QNormed, kv: Buf::KvCache, n_kv: 4 }));
    assert!(p.ops.contains(&DraftOp::Fp8 { buf: Buf::KvNormed, n: 448 }));
    assert!(p.ops.iter().any(|o| matches!(o, DraftOp::Down { bytes_per_expert: 6635520, mid_bytes: 2628, .. })));
    assert_eq!(p.ops.iter().filter(|o| matches!(o, DraftOp::PutRow { .. })).count(), 4);
    let full = forward_mtp_draft(d, 20480, 5120, 128, 500).ok().unwrap();
    assert_eq!(full.n_raw, 128);
    assert!(full.ops.contains(&DraftOp::KvAppend { dst: Buf::KvCache, src: Buf::KvNormed, slot: 127 }));
    assert!(matches!(forward_mtp_draft(d, 1, 5120, 0, 0), Err(DraftError::PrevHc { len: 1 })));
    assert!(matches!(forward_mtp_draft(d, 20480, 2, 0, 0), Err(DraftError::Embd { len: 2 })));
    let s = MtpScratch::sizes(1000);
    assert_eq!((s.mtp_embed, s.mtp_next_hc, s.mtp_logits, s.row_dev), (5120, 20480, 1000, 5120));
}

#[test]
fn layer_knobs() {
    assert_eq!((number(Some("12")), number(Some("-1")), number(None)), (Some(12), None, None));
    assert_eq!((number32(Some("+7")), number32(Some("4294967296"))), (Some(7), None));
    assert!(use_f32_scores(Some("1")) && !use_f32_scores(Some("")) && !use_f32_scores(Some("0")));
    assert!(sel_stats_enabled(None) && !sel_stats_enabled(Some("0")));
    assert!(indexer_wide(None) && !indexer_wide(Some("sw")));
    assert_eq!((ksplit(None), ksplit(Some(0))), (20, 0));
    assert!(is_1(Some("1")) && !is_1(None));
    assert!(dumps_residuals(Some("/tmp")) && !dumps_residuals(Some("")));
    assert_eq!(norm_kernel(None), NormKernel::Fused);
    assert_eq!(norm_kernel(Some("single")), NormKernel::Single);
    assert_eq!(norm_kernel(Some("split")), NormKernel::Split);
    assert!(mhc_split_enabled(true, None, Some("1"), None));
    assert!(!mhc_split_enabled(true, Some("1"), Some("1"), None));
    assert!(index_k_enabled(Some("on")) && !index_k_enabled(None));
    assert!(decode_presubmit_reorder(None) && !decode_presubmit_reorder(Some("off")));
    assert!(remote_split_decode(Some("1")) && !remote_split_decode(None));
    assert_eq!(attn_comp_cap(Some(7)), 7);
    assert!(set_and_not_0(Some("x")) && !set_and_not_0(None) && not_0(None) && not_single(None));
    assert!(sparse_disabled(Some("off")));
}
