//! Which kernel reads which format.

use v4flash_het::dispatch::{
    any_q8, dense_gemm_prefill, dense_matvec, igpu_moe_wmma_env_enabled, igpu_moe_wmma_selected,
    issue_shared_expert, moe_down_batched, moe_down_batched_hetsplit, moe_gate_up_batch,
    moe_gate_up_batch_hetsplit, moe_gate_up_chunked, moe_gate_up_chunked_ex,
    moe_wi_devcount_supported, moe_wi_upper_bound, pair_kwide_selected, pair_prefill_stage,
    pair_variant_rollback, small_b_dense_dp4a, small_b_limit, GgufType, NoKernel, PairError,
    PairKernel, VectorInput,
};
use v4flash_het::head::{forward_head, forward_head_batch, HeadOp};

#[test]
fn work_item_bound_covers_every_grouping() {
    fn exact(sizes: &[usize], c: usize) -> usize {
        sizes.iter().map(|&n| n.div_ceil(c)).sum()
    }
    let mut seed = 0x5749_4443u64;
    for &(m, groups, c) in &[
        (1usize, 384u32, 32u32),
        (12, 384, 32),
        (24, 384, 8),
        (48, 384, 32),
        (3072, 384, 32),
        (3072, 1024, 8),
        (100, 3, 32),
    ] {
        let bound = moe_wi_upper_bound(m, groups, c, usize::MAX) as usize;
        assert!(bound <= m);
        for trial in 0..2000 {
            let k = 1 + (trial % (groups as usize).min(m));
            let mut sizes = vec![0usize; k];
            for _ in 0..m {
                seed = seed.wrapping_mul(6364136223846793005).wrapping_add(1442695040888963407);
                sizes[(seed >> 33) as usize % k] += 1;
            }
            assert!(
                exact(&sizes, c as usize) <= bound,
                "m={m} groups={groups} c={c} sizes={sizes:?}"
            );
        }
        let k = (groups as usize).min(m);
        let mut sizes = vec![1usize; k];
        sizes[0] += m - k;
        assert!(exact(&sizes, c as usize) <= bound, "worst case m={m} groups={groups} c={c}");
    }
    assert_eq!(moe_wi_upper_bound(12, 384, 32, usize::MAX), 12, "decode: M itself");
    assert_eq!(moe_wi_upper_bound(3072, 384, 32, usize::MAX), 480);
    assert_eq!(moe_wi_upper_bound(3072, 384, 32, 100), 100, "never past the buffer");
}

#[test]
fn pair_formats_default_to_kwide() {
    for dt in [
        GgufType::IQ2_S,
        GgufType::IQ2_XS,
        GgufType::IQ3_XXS,
        GgufType::IQ3_S,
        GgufType::MXFP4,
    ] {
        assert!(
            pair_kwide_selected(dt, false),
            "{dt:?} must take the kwide prefill kernel by default"
        );
        assert_eq!(
            pair_prefill_stage(dt, false),
            "igpu.pair_kwide",
            "{dt:?} kwide launches must be traceable as such"
        );
    }
}

#[test]
fn pair_variant_chunked_rolls_back() {
    for dt in [
        GgufType::IQ2_S,
        GgufType::IQ2_XS,
        GgufType::IQ3_XXS,
        GgufType::IQ3_S,
        GgufType::MXFP4,
    ] {
        assert!(!pair_kwide_selected(dt, true), "{dt:?} rollback");
    }
}

#[test]
fn wmma_path_routing() {
    assert!(igpu_moe_wmma_selected(GgufType::IQ2_XS, GgufType::IQ3_XXS, true, "kwide", true));
    assert!(igpu_moe_wmma_selected(GgufType::IQ2_S, GgufType::IQ3_XXS, true, "kwide", true), "UD-IQ3_XXS gate/up");
    assert!(!igpu_moe_wmma_selected(GgufType::IQ2_XS, GgufType::IQ3_XXS, false, "kwide", true), "dGPU/gfx12 never");
    assert!(!igpu_moe_wmma_selected(GgufType::IQ2_XS, GgufType::IQ3_XXS, true, "kwide", false), "env off");
    assert!(!igpu_moe_wmma_selected(GgufType::IQ2_XS, GgufType::MXFP4, true, "kwide", true), "blk.42");
    assert!(!igpu_moe_wmma_selected(GgufType::IQ3_XXS, GgufType::MXFP4, true, "kwide", true), "blk.26");
    assert!(!igpu_moe_wmma_selected(GgufType::IQ2_XXS, GgufType::Q2_K, true, "kwide", true), "antirez mix");
    assert!(!igpu_moe_wmma_selected(GgufType::IQ2_XS, GgufType::IQ3_XXS, true, "hybrid", true), "variant zoo");
}

#[test]
fn non_pair_formats_are_not_kwide() {
    for dt in [GgufType::IQ2_XXS, GgufType::Q2_K, GgufType::Q8_0] {
        assert!(!pair_kwide_selected(dt, false), "{dt:?}");
        assert!(!pair_kwide_selected(dt, true), "{dt:?}");
    }
}

#[test]
fn decode_kernels() {
    assert_eq!(moe_gate_up_batch(GgufType::IQ2_XXS), Ok(GgufType::IQ2_XXS));
    assert_eq!(
        moe_gate_up_batch(GgufType::Q2_K),
        Err(NoKernel { dtype: GgufType::Q2_K })
    );
    assert_eq!(moe_gate_up_batch_hetsplit(GgufType::MXFP4), Ok(GgufType::MXFP4));
    assert_eq!(
        moe_gate_up_batch_hetsplit(GgufType::Other(7)),
        Err(NoKernel { dtype: GgufType::Other(7) })
    );
    assert_eq!(moe_down_batched(GgufType::Q2_K), Ok(GgufType::Q2_K));
    assert_eq!(moe_down_batched(GgufType::IQ2_S), Err(NoKernel { dtype: GgufType::IQ2_S }));
    assert_eq!(moe_down_batched_hetsplit(GgufType::IQ3_XXS), Ok(GgufType::IQ3_XXS));
    assert_eq!(
        moe_down_batched_hetsplit(GgufType::Q8_0),
        Err(NoKernel { dtype: GgufType::Q8_0 })
    );
    assert_eq!(dense_matvec(GgufType::Q8_0), Ok(VectorInput::Quantized));
    assert_eq!(dense_matvec(GgufType::Q6_K), Ok(VectorInput::Float));
    assert_eq!(dense_matvec(GgufType::MXFP4), Err(NoKernel { dtype: GgufType::MXFP4 }));
    assert!(any_q8(&[GgufType::Q4_K, GgufType::Q8_0]));
    assert!(!any_q8(&[GgufType::Q4_K]));
}

#[test]
fn prefill_pairs() {
    assert_eq!(moe_gate_up_chunked(GgufType::IQ3_S, false), Ok(PairKernel::Wide));
    assert_eq!(moe_gate_up_chunked(GgufType::IQ3_S, true), Ok(PairKernel::Chunked));
    assert_eq!(moe_gate_up_chunked(GgufType::IQ2_XXS, false), Ok(PairKernel::Variant));
    assert_eq!(
        moe_gate_up_chunked(GgufType::Q2_K, false),
        Err(PairError::NoKernel { dtype: GgufType::Q2_K })
    );
    assert_eq!(moe_gate_up_chunked_ex(GgufType::MXFP4, false, true), Ok(PairKernel::Wide));
    assert_eq!(
        moe_gate_up_chunked_ex(GgufType::MXFP4, true, true),
        Err(PairError::DeviceCount { dtype: GgufType::MXFP4, kwide: false })
    );
    assert_eq!(
        moe_gate_up_chunked_ex(GgufType::IQ2_S, false, true),
        Err(PairError::DeviceCount { dtype: GgufType::IQ2_S, kwide: true })
    );
    assert!(moe_wi_devcount_supported(GgufType::MXFP4, GgufType::MXFP4, false));
    assert!(!moe_wi_devcount_supported(GgufType::MXFP4, GgufType::MXFP4, true));
    assert!(!moe_wi_devcount_supported(GgufType::MXFP4, GgufType::Q2_K, false));
}

#[test]
fn dispatch_knobs() {
    assert_eq!(small_b_limit(None, None), 0);
    assert_eq!(small_b_limit(None, Some(40)), 0);
    assert_eq!(small_b_limit(Some("0"), Some(4)), 0);
    assert_eq!(small_b_limit(Some("on"), Some(4)), 0);
    assert_eq!(small_b_limit(Some("1"), None), 8);
    assert_eq!(small_b_limit(Some("1"), Some(4)), 4);
    assert_eq!(small_b_limit(Some("1"), Some(40)), 16);
    assert!(!small_b_dense_dp4a(1, small_b_limit(None, None)));
    assert!(small_b_dense_dp4a(8, small_b_limit(Some("1"), None)));
    assert!(small_b_dense_dp4a(2, 8) && small_b_dense_dp4a(8, 8) && !small_b_dense_dp4a(9, 8));
    assert!(igpu_moe_wmma_env_enabled(None) && !igpu_moe_wmma_env_enabled(Some("0")));
    assert!(pair_variant_rollback(Some("chunked")) && !pair_variant_rollback(Some("kwide")));
    assert!(dense_gemm_prefill(GgufType::Other(1), 64, 8, false, 5120, 5120).is_err());
    assert!(dense_gemm_prefill(GgufType::Q8_0, 64, 8, false, 5120, 5120).is_ok());
    assert!(issue_shared_expert(GgufType::Q8_0, GgufType::Q8_0, GgufType::Q8_0).is_ok());
    assert!(issue_shared_expert(GgufType::Q8_0, GgufType::Q8_0, GgufType::MXFP4).is_err());
}

#[test]
fn the_head_reads_the_vocabulary_once() {
    let ops = forward_head_batch(2, 8, GgufType::Q8_0).unwrap();
    assert_eq!(
        ops,
        vec![
            HeadOp::UseFirstDevice,
            HeadOp::Collapse { residual: 0, carry: 0 },
            HeadOp::Norm,
            HeadOp::Quantize { xq: 0, xscale: 0 },
            HeadOp::Collapse { residual: 20480, carry: 24 },
            HeadOp::Norm,
            HeadOp::Quantize { xq: 5120, xscale: 160 },
            HeadOp::VocabPacked { rows: 2 },
        ]
    );
    assert!(forward_head_batch(0, 8, GgufType::Q8_0).is_none());
    assert!(forward_head_batch(9, 8, GgufType::Q8_0).is_none());
    assert!(forward_head_batch(2, 8, GgufType::Q4_K).is_none());
}

#[test]
fn the_head_of_one_row() {
    let p = forward_head(GgufType::Q8_0);
    assert_eq!(p.ops.len(), 5);
    assert_eq!(p.ops[4], HeadOp::VocabMatvec { input: VectorInput::Quantized });
    let p = forward_head(GgufType::Q4_K);
    assert_eq!(p.ops[3..], [HeadOp::QuantizeK { blocks: 16 }, HeadOp::VocabGemm { rows: 1, blocks: 16 }]);
    let p = forward_head(GgufType::Q6_K);
    assert_eq!(p.ops[3..], [HeadOp::VocabMatvec { input: VectorInput::Float }]);
    let p = forward_head(GgufType::MXFP4);
    assert_eq!(p.ops.len(), 3);
    assert_eq!(p.stop, Some(NoKernel { dtype: GgufType::MXFP4 }));
}
