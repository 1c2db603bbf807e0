//! Switches and limits, from the values that the environment gives them.
//!
//! A switch takes its variable's text, `None` where it is unset. A limit takes
//! its variable's number, `None` where it is unset or not a number.

use vstd::prelude::*;
use crate::config::HC_DIM;
use crate::text::{chars_of, parse_u64};
use crate::text;

verus! {

/// The number that a variable is set to.
pub open spec fn number_in(v: Option<&str>) -> Option<u64> {
    match v {
        Some(s) => text::parsed_u64(s@),
        None => None,
    }
}

/// The number that a variable is set to, in decimal.
pub fn number(v: Option<&str>) -> (r: Option<u64>)
    ensures
        r == number_in(v),
{
    match v {
        Some(s) => {
            let c = chars_of(s);
            parse_u64(c.as_slice())
        },
        None => None,
    }
}

/// The number that a variable is set to, where it has 32 bits.
pub fn number32(v: Option<&str>) -> (r: Option<u32>)
    ensures
        r == (match number_in(v) {
            Some(n) => if n <= u32::MAX {
                Some(n as u32)
            } else {
                None
            },
            None => None,
        }),
{
    match number(v) {
        Some(n) => if n <= u32::MAX as u64 {
            Some(n as u32)
        } else {
            None
        },
        None => None,
    }
}


/// The text is `t`.
pub open spec fn says(v: Option<&str>, t: &str) -> bool {
    v matches Some(s) && s@ == t@
}

/// Is the text `t`?
fn text_is(v: Option<&str>, t: &str) -> (r: bool)
    ensures
        r == says(v, t),
{
    match v {
        Some(s) => s.to_owned() == t.to_owned(),
        None => false,
    }
}

/// `V41_SUB`: 0 off, 1 dry run, 2 host planner, 3 cache prior.
pub fn mode(v: Option<u32>) -> (r: u32)
    ensures
        r == (match v {
            Some(n) => if n < 3 { n } else { 3 },
            None => 0,
        }),
{
    match v {
        Some(n) => if n < 3 { n } else { 3 },
        None => 0,
    }
}

/// Are residency maps asked for?
pub fn wanted(mode: u32) -> (r: bool)
    ensures
        r == (mode > 0),
{
    mode > 0
}

/// `V41_SUB_MIN_RANK`: the heaviest rank that may be replaced, 1 to 6.
pub fn min_rank(v: Option<usize>) -> (r: usize)
    ensures
        r == (match v {
            Some(n) => if n < 1 { 1 } else if n > 6 { 6 } else { n },
            None => 6,
        }),
        1 <= r <= 6,
{
    match v {
        Some(n) => if n < 1 {
            1
        } else if n > 6 {
            6
        } else {
            n
        },
        None => 6,
    }
}

/// `V41_SUB_DRY`: count the prior's swaps, but route without them.
pub fn dry(v: Option<&str>) -> (r: bool)
    ensures
        r == (says(v, "1") || says(v, "on")),
{
    text_is(v, "1") || text_is(v, "on")
}

/// `V41_SUB_PROTECT`: top picks that the prior never displaces, at most 6.
pub fn protect(v: Option<u32>) -> (r: u32)
    ensures
        r == (match v {
            Some(n) => if n < 6 { n } else { 6 },
            None => 2,
        }),
{
    match v {
        Some(n) => if n < 6 { n } else { 6 },
        None => 2,
    }
}

/// `V41_SUB_PENDING`: count the picks of unanswered requests as resident.
pub fn pending_on(v: Option<&str>) -> (r: bool)
    ensures
        r == !says(v, "0"),
{
    !text_is(v, "0")
}

/// `V41_SUB_ADMIT`: read replaced experts in the background.
pub fn admit_on(v: Option<&str>) -> (r: bool)
    ensures
        r == !says(v, "0"),
{
    !text_is(v, "0")
}

/// `V41_SUB_INCOMING`: steps for which a queued admission counts as resident.
pub fn incoming_steps(v: Option<u32>) -> (r: u32)
    ensures
        r == (match v {
            Some(n) => n,
            None => 2,
        }),
{
    match v {
        Some(n) => n,
        None => 2,
    }
}

/// `V41_T2_PARTITION`: split the expert ids by a fixed hash.
pub fn t2_partition(v: Option<&str>) -> (r: bool)
    ensures
        r == says(v, "1"),
{
    text_is(v, "1")
}

/// `V41_VICTIM_CACHE`: admit only what the second device missed.
pub fn victim_cache(v: Option<&str>) -> (r: bool)
    ensures
        r == !says(v, "0"),
{
    !text_is(v, "0")
}

/// `V41_PAGER_GPU_REPACK`: permute the weights on the device.
pub fn pager_gpu_repack(v: Option<&str>) -> (r: bool)
    ensures
        r == !says(v, "0"),
{
    !text_is(v, "0")
}

/// `V41_PAGER_BATCH_MISS`: read all misses of a layer together.
pub fn pager_batch_miss(v: Option<&str>) -> (r: bool)
    ensures
        r == !(says(v, "0") || says(v, "off")),
{
    !(text_is(v, "0") || text_is(v, "off"))
}

/// `V41_PAGER_READ_THREADS`: readers of a window fill.
pub fn pager_read_threads(v: Option<usize>) -> (r: usize)
    ensures
        r == at_least_one(v, 4),
{
    at_least_1(v, 4)
}

/// `V41_PAGER_MISS_THREADS`: readers of a single miss.
pub fn miss_read_threads(v: Option<usize>) -> (r: usize)
    ensures
        r == at_least_one(v, 1),
{
    at_least_1(v, 1)
}

/// `V41_PAGER_UNION`: page only the experts that a prefill chunk routes to.
pub fn pager_union_prefill(v: Option<&str>) -> (r: bool)
    ensures
        r == !(says(v, "0") || says(v, "off")),
{
    !(text_is(v, "0") || text_is(v, "off"))
}

/// `V41_PAGER_READ_BATCH`: experts that the staging buffers hold.
pub fn pager_read_batch(v: Option<usize>) -> (r: usize)
    ensures
        r == at_least_one(v, 32),
{
    at_least_1(v, 32)
}

/// The configured number or the default, at least 1.
pub open spec fn at_least_one(v: Option<usize>, default: usize) -> usize {
    let n = match v {
        Some(n) => n,
        None => default,
    };
    if n < 1 { 1 } else { n }
}

fn at_least_1(v: Option<usize>, default: usize) -> (r: usize)
    ensures
        r == at_least_one(v, default),
{
    let n: usize = match v {
        Some(n) => n,
        None => default,
    };
    if n < 1 { 1 } else { n }
}

/// `V41_B1_PREFETCH`: the first device is the first-level cache.
pub fn b1_prefetch(v: Option<&str>) -> (r: bool)
    ensures
        r == says(v, "1"),
{
    text_is(v, "1")
}

/// `V41_B1_PREFETCH_ADMIT`: admissions per token boundary.
pub fn prefetch_admit_per_drain(v: Option<usize>) -> (r: usize)
    ensures
        r == (match v {
            Some(n) => n,
            None => 8,
        }),
{
    match v {
        Some(n) => n,
        None => 8,
    }
}

/// `V41_B1_PREFETCH_MIN_TOUCH`: misses before an expert is read ahead.
pub fn prefetch_min_touch(v: Option<u8>) -> (r: u8)
    ensures
        r == (match v {
            Some(n) => n,
            None => 2,
        }),
{
    match v {
        Some(n) => n,
        None => 2,
    }
}

/// `V41_T2_CATCHALL`: the second device serves every miss.
pub fn t2_catchall(v: Option<&str>) -> (r: bool)
    ensures
        r == (v is Some && !says(v, "0")),
{
    v.is_some() && !text_is(v, "0")
}

/// `V41_T2_CATCHALL=2`: it serves every pick.
pub fn t2_catchall_deterministic(v: Option<&str>) -> (r: bool)
    ensures
        r == says(v, "2"),
{
    text_is(v, "2")
}

/// `V41_INDEX_K`: compute index keys in the compressor step.
pub fn index_k_enabled(v: Option<&str>) -> (r: bool)
    ensures
        r == (says(v, "1") || says(v, "on")),
{
    text_is(v, "1") || text_is(v, "on")
}

/// `V41_DECODE_PRESUBMIT`: submit to the second device before the shared expert.
pub fn decode_presubmit_reorder(v: Option<&str>) -> (r: bool)
    ensures
        r == !(says(v, "0") || says(v, "off")),
{
    !(text_is(v, "0") || text_is(v, "off"))
}

/// `V41_REMOTE_SPLIT_DECODE`: split a decode token's picks between the devices.
pub fn remote_split_decode(v: Option<&str>) -> (r: bool)
    ensures
        r == (says(v, "1") || says(v, "on")),
{
    text_is(v, "1") || text_is(v, "on")
}

/// Run the mixes of the residual copies on a side stream: off with the fused
/// kernel, and only where asked for and the default norm is in use.
pub fn mhc_split_enabled(
    v41: bool,
    mhc_fused: Option<&str>,
    mhc_split: Option<&str>,
    rms_nw_mw: Option<&str>,
) -> (r: bool)
    ensures
        r == (v41 && !(mhc_fused is Some && !says(mhc_fused, "0")) && (mhc_split is Some && !says(
            mhc_split,
            "0",
        )) && (rms_nw_mw is None || says(rms_nw_mw, "fused"))),
{
    v41 && !(mhc_fused.is_some() && !text_is(mhc_fused, "0")) && (mhc_split.is_some() && !text_is(
        mhc_split,
        "0",
    )) && (rms_nw_mw.is_none() || text_is(rms_nw_mw, "fused"))
}

/// `V41_ATTN_COMP_CAP`: rows that dense compressed attention is clamped to; 0 is off.
pub fn attn_comp_cap(v: Option<u32>) -> (r: u32)
    ensures
        r == (match v {
            Some(n) => n,
            None => 0,
        }),
{
    match v {
        Some(n) => n,
        None => 0,
    }
}

/// How the residual copies' norm is computed.
#[derive(Debug, Clone, Copy, PartialEq, Eq, Structural)]
pub enum NormKernel {
    /// One workgroup, then the matrix product.
    Single,
    /// Many workgroups, then the matrix product.
    Split,
    /// The scale only, folded into the matrix product.
    Fused,
}

/// `RMS_NW_MW`: how the residual copies' norm is computed.
pub fn norm_kernel(v: Option<&str>) -> (r: NormKernel)
    ensures
        r == (if says(v, "0") || says(v, "single") {
            NormKernel::Single
        } else if says(v, "split") {
            NormKernel::Split
        } else {
            NormKernel::Fused
        }),
{
    if text_is(v, "0") || text_is(v, "single") {
        NormKernel::Single
    } else if text_is(v, "split") {
        NormKernel::Split
    } else {
        NormKernel::Fused
    }
}

/// A switch that is on where its variable is set to anything but 0.
pub fn set_and_not_0(v: Option<&str>) -> (r: bool)
    ensures
        r == (v is Some && !says(v, "0")),
{
    v.is_some() && !text_is(v, "0")
}

/// A switch that is on unless its variable is 0.
pub fn not_0(v: Option<&str>) -> (r: bool)
    ensures
        r == !says(v, "0"),
{
    !text_is(v, "0")
}

/// A switch that is on unless its variable is `single`.
pub fn not_single(v: Option<&str>) -> (r: bool)
    ensures
        r == !says(v, "single"),
{
    !text_is(v, "single")
}

/// `DECODE_INDEXER`: is the sparse path of attention switched off?
pub fn sparse_disabled(v: Option<&str>) -> (r: bool)
    ensures
        r == (says(v, "off") || says(v, "0")),
{
    text_is(v, "off") || text_is(v, "0")
}

/// `DEEPSTRIX_F32_SCORES`: are a prefill's scores kept in 32 bits?
pub fn use_f32_scores(v: Option<&str>) -> (r: bool)
    ensures
        r == (v is Some && !says(v, "") && !says(v, "0")),
{
    v.is_some() && !text_is(v, "") && !text_is(v, "0")
}

/// `DEEPSTRIX_SEL_STATS`: are the router's picks counted?
pub fn sel_stats_enabled(v: Option<&str>) -> (r: bool)
    ensures
        r == !says(v, "0"),
{
    not_0(v)
}

/// `INDEXER_DECODE`: does the indexer score in many workgroups?
pub fn indexer_wide(v: Option<&str>) -> (r: bool)
    ensures
        r == !says(v, "sw"),
{
    !text_is(v, "sw")
}

/// `F16_KSPLIT`: the parts that a mix's product is split in; 0 is unsplit.
pub fn ksplit(v: Option<u32>) -> (r: u32)
    ensures
        r == (match v {
            Some(n) => n,
            None => HC_DIM / 1024,
        }),
{
    match v {
        Some(n) => n,
        None => HC_DIM / 1024,
    }
}

/// A switch that is on where its variable is 1.
pub fn is_1(v: Option<&str>) -> (r: bool)
    ensures
        r == says(v, "1"),
{
    text_is(v, "1")
}

/// `DEEPSTRIX_DUMP_RESIDUAL_DIR`: are the layers' residuals dumped there?
pub fn dumps_residuals(v: Option<&str>) -> (r: bool)
    ensures
        r == (v is Some && !says(v, "")),
{
    v.is_some() && !text_is(v, "")
}

} // verus!
