//! The sizes of a prefill's buffers, and the small tools around the engine.

use v4flash_het::batch_scratch::{
    align256, attn_scores_capacity_keys, check_rows, f16_pitch, flat_len, hot_chunks_per_expert,
    hot_scratch_wanted, hot_work_items, indexer_q_len, indexer_scores_len, indexer_scratch_keys,
    indexer_topk_scratch_len, q_len, r1_arena_bytes, r3_arena_bytes, BatchDgpuHotScratch, Carver,
    Geometry, LayerRatio, B_MAX,
};
use v4flash_het::devices::{
    check_peers, for_arch, owned_layers, socket_options, sync_events_lane, PeerError, SocketOptions,
};
use v4flash_het::diagnostics::{
    dump_name, f16_bits_to_f32, residual_file_fits, subtensor_dump_spec, substitute_residual_spec,
    track_of, Track,
};
use v4flash_het::pick_stats::{
    held_picks, pick_line, ranking_line, ExpertStats, PickTrace, SelTokens,
};
use v4flash_het::scan::{lines_of, parse_list, words_of};
use v4flash_het::scratch_sizes::{
    max_boundaries, output_layout, BatchDgpuScratch, BatchDgpuShared, BatchIgpuScratch,
    BatchIgpuShared,
};
use v4flash_het::text::{chars_of, parse_usize, push_decimal, push_padded, string_of};
use v4flash_het::text_order::comes_first;

fn geometry() -> Geometry {
    Geometry {
        out_low: 8192,
        blocks_grouped_out: 1024,
        blocks_out_low: 256,
        blocks_n_embd: 160,
        blocks_n_lora_q: 40,
        blocks_n_ff_shared: 72,
        engram_in: 1024,
        engram_out: 2048,
        engram_chunk: 32,
        candidate_block: 64,
        n_indexer_head: 64,
        topk_row: 4096,
        raw_window: 640,
        scores_stride: 8192,
        ced_start: 20,
        layers: (0..40).map(|l| LayerRatio { ratio: if l < 20 { 2 } else { 1 }, gathered: false }).collect(),
        v41: true,
        indexer: true,
        ced: true,
        legacy_stride: false,
        f32_scores: false,
        hot_experts: 0,
        remote: true,
        candidate_pool: true,
    }
}

#[test]
fn arenas_hold_their_parts() {
    assert_eq!((align256(0), align256(1), align256(256), align256(257)), (0, 256, 256, 512));
    assert!(f16_pitch(5120) >= 5120);
    assert!(check_rows(1) && check_rows(B_MAX) && !check_rows(0) && !check_rows(B_MAX + 1));
    let g = geometry();
    assert_eq!(flat_len(3), 3 * 20480);
    assert_eq!(q_len(3), 3 * 32768);
    for rows in [1usize, 7, 256] {
        let r1 = r1_arena_bytes(&g, rows);
        assert!(r1 >= flat_len(rows) * 4);
        assert!(r1 >= BatchDgpuHotScratch::r1_view_bytes(rows));
        assert!(r1 >= 4 * indexer_scores_len(&g, rows));
        let r3 = r3_arena_bytes(&g, rows);
        assert!(r3 >= 4 * indexer_q_len(&g, rows) && r3 >= 4 * indexer_topk_scratch_len(&g, rows));
        let h = BatchDgpuHotScratch::carve(rows);
        assert!(h.partials.off + h.partials.bytes <= h.mid_cat.off);
        assert!(h.mid_cat.off + h.mid_cat.bytes <= h.moe_xq.off);
        assert!(h.moe_xq.off + h.moe_xq.bytes <= h.midq_cat.off);
        assert!(h.midq_cat.off + h.midq_cat.bytes <= h.end);
        assert_eq!(h.end, BatchDgpuHotScratch::r1_view_bytes(rows));
    }
    let mut c = Carver::new();
    let a = c.take(300);
    let b = c.take(10);
    assert_eq!((a.off, b.off, c.end()), (0, 512, 768));
}

#[test]
fn indexer_sizes() {
    let g = geometry();
    let keys = indexer_scratch_keys(&g);
    assert_eq!(indexer_scores_len(&g, 2), 2 * keys);
    assert_eq!(indexer_q_len(&g, 2), 2 * 64 * 128);
    assert!(indexer_topk_scratch_len(&g, 2) > 0);
    assert!(attn_scores_capacity_keys(&g, 64, 1000) >= 64 * 64 * 640);
    assert!(attn_scores_capacity_keys(&g, 64, 100_000) > attn_scores_capacity_keys(&g, 64, 1000));
}

#[test]
fn hot_work_is_listed() {
    assert_eq!(hot_chunks_per_expert(33) * 32 >= 33, true);
    let v = hot_work_items(64);
    assert_eq!(v[0], 0);
    assert!(!v.is_empty());
    assert!(!hot_scratch_wanted(&geometry()));
    assert!(hot_scratch_wanted(&Geometry { hot_experts: 1, ..geometry() }));
}

#[test]
fn rows_that_do_not_fit_are_refused() {
    let g = geometry();
    assert!(BatchDgpuScratch::alloc_rows(&g, 0).is_none());
    assert!(BatchDgpuScratch::alloc_rows(&g, B_MAX + 1).is_none());
    assert!(BatchIgpuScratch::alloc_rows(0).is_none());
    assert!(BatchIgpuShared::alloc_rows(B_MAX + 1).is_none());
    assert!(BatchDgpuShared::alloc_rows_ctx(&g, 0, 0).is_none());
    let l = BatchDgpuScratch::alloc_rows(&g, 4).unwrap();
    assert_eq!(l.residual, 4 * 20480);
    assert_eq!(l.picks, 4 * 6);
    assert!(l.remote_ffn_moe.is_some() && l.hot_ffn_moe.is_none());
    let s = BatchDgpuShared::alloc_rows_ctx(&g, 4, 4096).unwrap();
    assert_eq!((s.r1_arena, s.r3_arena), (r1_arena_bytes(&g, 4), r3_arena_bytes(&g, 4)));
    assert_eq!((s.rows, s.hot), (4, None));
    let hot = Geometry { hot_experts: 8, ..geometry() };
    let h = BatchDgpuShared::alloc_rows(&hot, 4).unwrap();
    assert_eq!(h.hot, Some(BatchDgpuHotScratch::carve(4)));
    assert_eq!(s.attn_scores_capacity_keys(true) * 2, s.attn_scores_capacity_keys(false));
    assert_eq!(s.attn_scores_capacity_keys(true), s.attn_scores);
    assert_eq!(s.mix, 4 * 24);
    assert_eq!((s.mhc_inv_scalar, s.mhc_rms_partials, s.verify_inv), (1, 16, 64));
    let o = output_layout(&g, 4);
    assert!(o.low.off + o.low.bytes <= o.heads_xq.off && o.attn_out.off + o.attn_out.bytes <= o.end);
    assert!(max_boundaries(&g, 4) >= 2);
}

#[test]
fn group_lists_grow() {
    let mut c = BatchIgpuShared::alloc_rows(64).unwrap();
    assert_eq!((c.expert_members, c.work_items), (384 * 64, 384 + 64 * 6));
    assert_eq!(c.max_per_expert(), 64);
    assert!(c.group_capacity_ok(384, 64, 64));
    assert!(!c.group_capacity_ok(384, 64, 65), "too few work items");
    c.ensure_group_capacity(1000, 64, 64);
    assert!(c.group_capacity_ok(1000, 64, 64));
    assert_eq!((c.expert_members, c.work_items), (64000, 1000 + 64 * 6));
    c.ensure_group_capacity(10, 2, 1);
    assert_eq!((c.expert_members, c.work_items), (64000, 1000 + 64 * 6));
    let mut l = BatchIgpuScratch::alloc_rows(64).unwrap();
    l.ensure_group_bound(1000);
    assert_eq!(l.group_count, 1000);
    l.ensure_group_bound(10);
    assert_eq!(l.group_count, 1000);
}

#[test]
fn devices_are_set_up() {
    let d = for_arch("gfx1201", false);
    assert_eq!((d.label, d.gfx11, d.indexer_wmma), ("dgpu", false, true));
    let d = for_arch("gfx1151", true);
    assert_eq!((d.label, d.gfx11, d.indexer_wmma), ("igpu", true, false));
    assert_eq!(check_peers(0, 1, true, true), Ok(()));
    assert_eq!(check_peers(0, 1, false, true), Err(PeerError::FirstToSecond { first: 0, second: 1 }));
    assert_eq!(check_peers(0, 1, true, false), Err(PeerError::SecondToFirst { first: 0, second: 1 }));
    assert_eq!(sync_events_lane(2), 2);
    let o = SocketOptions { busy_poll_us: 50, quickack: false };
    assert_eq!(socket_options(o, Some(9), true), SocketOptions { busy_poll_us: 9, quickack: true });
    assert_eq!(socket_options(o, None, false), o);
    assert_eq!(owned_layers(&[0, 5, 0, 7]), (vec![1, 3], 5));
    assert_eq!(owned_layers(&[0]), (vec![], 0));
}

#[test]
fn half_floats_widen() {
    for (bits, want) in [
        (0u16, 0.0f32),
        (0x3c00, 1.0),
        (0xc000, -2.0),
        (0x0001, 5.960_464_5e-8),
        (0x03ff, 6.097_555e-5),
        (0x7bff, 65504.0),
        (0x7c00, f32::INFINITY),
    ] {
        assert_eq!(f32::from_bits(f16_bits_to_f32(bits)), want, "{bits:x}");
    }
    assert!(f32::from_bits(f16_bits_to_f32(0x7e00)).is_nan());
    assert_eq!(f16_bits_to_f32(0x8000), 0x8000_0000);
}

#[test]
fn diagnostics_are_parsed() {
    assert_eq!(substitute_residual_spec("12:/tmp/a:b"), Some((12, "/tmp/a:b".to_string())));
    assert_eq!(substitute_residual_spec("x:/tmp"), None);
    assert_eq!(substitute_residual_spec("12"), None);
    assert!(residual_file_fits(81920) && !residual_file_fits(81919));
    assert_eq!(subtensor_dump_spec(Some("1, 3,x,5"), None), Some(vec![1, 3, 5]));
    assert_eq!(subtensor_dump_spec(None, Some("7")), Some(vec![7]));
    assert_eq!(subtensor_dump_spec(None, None), None);
    assert_eq!(track_of("dgpu.peer_push_moe"), Track::Transfer);
    assert_eq!(track_of("dgpu.xfer"), Track::Transfer);
    assert_eq!(track_of("dgpu.head"), Track::Compute);
    assert_eq!(dump_name(3, "residual"), "layer_03_residual.bin");
}

#[test]
fn picks_are_counted() {
    let mut s = ExpertStats::new();
    s.record(2, &[1, 1, 5, -1]);
    assert_eq!((s.layer(2)[1], s.layer(2)[5], s.layer(1)[1]), (2, 1, 0));
    assert_eq!(ranking_line(&vec![1, 5, 0], s.layer(2), 2), "1:2,5:1\n");
    let mut t = PickTrace::new();
    t.record(0, &[1, 2, 3, 4, 5, 6]);
    assert!(!t.bytes().is_empty());
    let mut held = vec![false; 384];
    held[4] = true;
    assert_eq!(held_picks(&held, &[4, 5, 4, -1]), 2);
    let mut n = SelTokens::new();
    assert_eq!(n.record_sel_stats(true, true, 0, 3), Some(18));
    assert_eq!(n.record_sel_stats(false, true, 0, 3), None);
    assert_eq!(n.harvest_sel_stats(), (3, 0));
    assert_eq!(n.harvest_sel_stats(), (0, 0));
    assert_eq!(pick_line(12, &[3, -1, 40]), "D 12 3 -1 40");
    assert_eq!(pick_line(-2, &[7]), "D -2 7");
    assert_eq!(pick_line(0, &[]), "D 0 ");
}

#[test]
fn texts_are_written_and_read() {
    let mut s = String::new();
    push_decimal(&mut s, 1203);
    push_padded(&mut s, 7, 3);
    assert_eq!(s, "1203007");
    assert_eq!(parse_usize(&chars_of("1203")), Some(1203));
    assert_eq!(parse_usize(&chars_of("12a")), None);
    assert_eq!(parse_usize(&chars_of("")), None);
    assert_eq!(parse_usize(&chars_of("99999999999999999999999")), None);
    assert_eq!(string_of(&['a', 'b']), "ab");
    assert_eq!(parse_list("1,2 , 3,,x"), vec![1, 2, 3]);
    let v = chars_of("a b\r\n c\n");
    let lines: Vec<String> = lines_of(&v).iter().map(|l| string_of(l)).collect();
    assert_eq!(lines, vec!["a b", " c"]);
    let words: Vec<String> = words_of(&v).iter().map(|l| string_of(l)).collect();
    assert_eq!(words, vec!["a", "b", "c"]);
    assert!(comes_first(&chars_of("ab"), &chars_of("abc")) && !comes_first(&chars_of("b"), &chars_of("abc")));
}
