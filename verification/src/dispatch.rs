//! Which kernel computes a product, by the format of its weights.

use vstd::prelude::*;

verus! {

/// The format of a weight.
#[allow(non_camel_case_types)]
#[derive(Debug, Clone, Copy, PartialEq, Eq, Structural)]
pub enum GgufType {
    Q8_0,
    Q2_K,
    Q4_K,
    Q5_K,
    Q6_K,
    IQ2_XXS,
    IQ2_XS,
    IQ2_S,
    IQ3_XXS,
    IQ3_S,
    MXFP4,
    /// A format that no kernel here reads, by its number.
    Other(u32),
}

/// No kernel reads the format.
#[derive(Debug, Clone, Copy, PartialEq, Eq, Structural)]
pub struct NoKernel {
    pub dtype: GgufType,
}

/// The formats that a pair of matrices is read in at decode.
pub open spec fn decode_pair(dt: GgufType) -> bool {
    dt == GgufType::IQ2_XXS || kwide_pair(dt)
}

/// The formats of a pair of matrices that the wide prefill kernel reads.
pub open spec fn kwide_pair(dt: GgufType) -> bool {
    dt == GgufType::IQ2_S || dt == GgufType::IQ2_XS || dt == GgufType::IQ3_XXS || dt
        == GgufType::IQ3_S || dt == GgufType::MXFP4
}

/// Checks that the experts' gate and up matrices can be read at decode.
pub fn moe_gate_up_batch(dt: GgufType) -> (r: Result<GgufType, NoKernel>)
    ensures
        r == (if decode_pair(dt) {
            Ok::<GgufType, NoKernel>(dt)
        } else {
            Err(NoKernel { dtype: dt })
        }),
{
    match dt {
        GgufType::IQ2_XXS
        | GgufType::IQ2_S
        | GgufType::IQ2_XS
        | GgufType::IQ3_XXS
        | GgufType::IQ3_S
        | GgufType::MXFP4 => Ok(dt),
        other => Err(NoKernel { dtype: other }),
    }
}

/// Checks that the experts' gate and up matrices can be read at decode where they
/// are split between the devices.
pub fn moe_gate_up_batch_hetsplit(dt: GgufType) -> (r: Result<GgufType, NoKernel>)
    ensures
        r == (if decode_pair(dt) {
            Ok::<GgufType, NoKernel>(dt)
        } else {
            Err(NoKernel { dtype: dt })
        }),
{
    moe_gate_up_batch(dt)
}

/// The formats that the experts' down matrix is read in at decode.
pub open spec fn decode_down(dt: GgufType) -> bool {
    dt == GgufType::Q2_K || dt == GgufType::IQ3_XXS || dt == GgufType::MXFP4
}

/// Checks that the experts' down matrix can be read at decode.
pub fn moe_down_batched(dt: GgufType) -> (r: Result<GgufType, NoKernel>)
    ensures
        r == (if decode_down(dt) {
            Ok::<GgufType, NoKernel>(dt)
        } else {
            Err(NoKernel { dtype: dt })
        }),
{
    match dt {
        GgufType::Q2_K | GgufType::IQ3_XXS | GgufType::MXFP4 => Ok(dt),
        other => Err(NoKernel { dtype: other }),
    }
}

/// Checks that the experts' down matrix can be read at decode where it is split
/// between the devices.
pub fn moe_down_batched_hetsplit(dt: GgufType) -> (r: Result<GgufType, NoKernel>)
    ensures
        r == (if decode_down(dt) {
            Ok::<GgufType, NoKernel>(dt)
        } else {
            Err(NoKernel { dtype: dt })
        }),
{
    moe_down_batched(dt)
}

/// What a dense product at decode reads its vector from.
#[derive(Debug, Clone, Copy, PartialEq, Eq, Structural)]
pub enum VectorInput {
    /// The vector in 8 bits, and its scales.
    Quantized,
    /// The vector itself.
    Float,
}

/// The dense formats that read the vector itself.
pub open spec fn k_quant(dt: GgufType) -> bool {
    dt == GgufType::Q4_K || dt == GgufType::Q5_K || dt == GgufType::Q6_K
}

/// The input of a dense product at decode.
pub fn dense_matvec(dt: GgufType) -> (r: Result<VectorInput, NoKernel>)
    ensures
        r == (if dt == GgufType::Q8_0 {
            Ok::<VectorInput, NoKernel>(VectorInput::Quantized)
        } else if k_quant(dt) {
            Ok(VectorInput::Float)
        } else {
            Err(NoKernel { dtype: dt })
        }),
{
    match dt {
        GgufType::Q8_0 => Ok(VectorInput::Quantized),
        GgufType::Q4_K | GgufType::Q5_K | GgufType::Q6_K => Ok(VectorInput::Float),
        other => Err(NoKernel { dtype: other }),
    }
}

/// Does one of the weights need the vector in 8 bits?
pub fn any_q8(ws: &[GgufType]) -> (r: bool)
    ensures
        r == ws@.contains(GgufType::Q8_0),
{
    let mut i: usize = 0;
    while i < ws.len()
        invariant
            i <= ws.len(),
            forall|j: int| 0 <= j < i ==> #[trigger] ws@[j] != GgufType::Q8_0,
        decreases ws.len() - i,
    {
        if ws[i] == GgufType::Q8_0 {
            return true;
        }
        i = i + 1;
    }
    false
}

/// How the shared expert's parts are computed.
#[derive(Debug, Clone, Copy, PartialEq, Eq, Structural)]
pub struct SharedExpertPlan {
    /// Its input is quantized first.
    pub quantize_input: bool,
    pub gate: VectorInput,
    pub up: VectorInput,
    /// Its inner values are quantized first.
    pub quantize_mid: bool,
    pub down: DownKernel,
}

/// How the shared expert's down product is computed.
#[derive(Debug, Clone, Copy, PartialEq, Eq, Structural)]
pub enum DownKernel {
    /// As a product of matrices, over blocks of the inner values.
    Blocks { n: u32 },
    Vector { input: VectorInput },
}

/// Blocks of the shared expert's inner values that its matrix product reads.
pub const SHARED_DOWN_BLOCKS: u32 = 8;

/// A dense format that a vector product reads.
pub open spec fn dense(dt: GgufType) -> bool {
    dt == GgufType::Q8_0 || k_quant(dt)
}

pub open spec fn input_of(dt: GgufType) -> VectorInput {
    if dt == GgufType::Q8_0 {
        VectorInput::Quantized
    } else {
        VectorInput::Float
    }
}

/// How the shared expert is computed, by the formats of its matrices.
pub fn issue_shared_expert(gate: GgufType, up: GgufType, down: GgufType) -> (r: Result<
    SharedExpertPlan,
    NoKernel,
>)
    ensures
        r == (if !dense(gate) {
            Err::<SharedExpertPlan, NoKernel>(NoKernel { dtype: gate })
        } else if !dense(up) {
            Err(NoKernel { dtype: up })
        } else if !dense(down) {
            Err(NoKernel { dtype: down })
        } else {
            Ok(
                SharedExpertPlan {
                    quantize_input: gate == GgufType::Q8_0 || up == GgufType::Q8_0,
                    gate: input_of(gate),
                    up: input_of(up),
                    quantize_mid: down == GgufType::Q8_0,
                    down: if down == GgufType::Q6_K {
                        DownKernel::Blocks { n: SHARED_DOWN_BLOCKS }
                    } else {
                        DownKernel::Vector { input: input_of(down) }
                    },
                },
            )
        }),
        // Whatever reads 8-bit values finds them.
        r matches Ok(p) ==> {
            &&& p.quantize_input <==> p.gate == VectorInput::Quantized || p.up
                == VectorInput::Quantized
            &&& p.quantize_mid <==> p.down == (DownKernel::Vector { input: VectorInput::Quantized })
        },
{
    let gate_in = match dense_matvec(gate) {
        Ok(i) => i,
        Err(e) => {
            return Err(e);
        },
    };
    let up_in = match dense_matvec(up) {
        Ok(i) => i,
        Err(e) => {
            return Err(e);
        },
    };
    let down_kernel = match down {
        GgufType::Q6_K => DownKernel::Blocks { n: SHARED_DOWN_BLOCKS },
        other => match dense_matvec(other) {
            Ok(input) => DownKernel::Vector { input },
            Err(e) => {
                return Err(e);
            },
        },
    };
    Ok(
        SharedExpertPlan {
            quantize_input: gate == GgufType::Q8_0 || up == GgufType::Q8_0,
            gate: gate_in,
            up: up_in,
            quantize_mid: down == GgufType::Q8_0,
            down: down_kernel,
        },
    )
}

/// The largest batch whose dense products are computed as at decode. That is off
/// unless `switch` is 1; `limit` then moves the largest batch, up to 16.
pub fn small_b_limit(switch: Option<&str>, limit: Option<u32>) -> (r: u32)
    ensures
        r == (if switch matches Some(s) && s@ == "1"@ {
            match limit {
                Some(n) => if n < 16 {
                    n
                } else {
                    16
                },
                None => 8,
            }
        } else {
            0u32
        }),
{
    let on: bool = match switch {
        Some(s) => s.to_owned() == "1".to_owned(),
        None => false,
    };
    if !on {
        return 0;
    }
    match limit {
        Some(n) => if n < 16 {
            n
        } else {
            16
        },
        None => 8,
    }
}

/// Is a batch of `b` small enough that its dense products are computed as at
/// decode?
pub fn small_b_dense_dp4a(b: u32, limit: u32) -> (r: bool)
    ensures
        r == (b <= limit),
{
    b <= limit
}

/// How a dense product of a batch is computed.
#[derive(Debug, Clone, Copy, PartialEq, Eq, Structural)]
pub enum DenseGemm {
    /// Row by row, from 8-bit rows.
    Rows,
    /// By matrix units, from 16-bit rows.
    Half,
    /// By matrix units, from 8-bit rows.
    Tiled,
    /// From rows in blocks of 256.
    Blocks { n: u32 },
}

/// How a dense product of a batch is computed. `half` tells whether 16-bit rows
/// are there, `limit` which batches count as small.
pub fn dense_gemm_prefill(dt: GgufType, b: u32, limit: u32, half: bool, n_rows: u32, k: u32) -> (r: Result<
    DenseGemm,
    NoKernel,
>)
    ensures
        r == (if dt == GgufType::Q8_0 {
            Ok::<DenseGemm, NoKernel>(
                if b <= limit {
                    DenseGemm::Rows
                } else if half && n_rows % 128 == 0 {
                    DenseGemm::Half
                } else {
                    DenseGemm::Tiled
                },
            )
        } else if k_quant(dt) {
            Ok(DenseGemm::Blocks { n: k / 256 })
        } else {
            Err(NoKernel { dtype: dt })
        }),
{
    match dt {
        GgufType::Q8_0 => Ok(
            if small_b_dense_dp4a(b, limit) {
                DenseGemm::Rows
            } else if half && n_rows % 128 == 0 {
                DenseGemm::Half
            } else {
                DenseGemm::Tiled
            },
        ),
        GgufType::Q4_K | GgufType::Q5_K | GgufType::Q6_K => Ok(DenseGemm::Blocks { n: k / 256 }),
        other => Err(NoKernel { dtype: other }),
    }
}

/// Does the wide prefill kernel read a pair of matrices?
pub fn pair_kwide_selected(dt: GgufType, rollback_to_chunked: bool) -> (r: bool)
    ensures
        r == (!rollback_to_chunked && kwide_pair(dt)),
{
    !rollback_to_chunked && match dt {
        GgufType::IQ2_S
        | GgufType::IQ2_XS
        | GgufType::IQ3_XXS
        | GgufType::IQ3_S
        | GgufType::MXFP4 => true,
        _ => false,
    }
}

/// Does the second device compute a batch's experts by matrix units? `env_enabled`
/// is the switch, `iq2_variant` the chosen kernel family.
pub fn igpu_moe_wmma_selected(
    gate: GgufType,
    down: GgufType,
    igpu_is_gfx11: bool,
    iq2_variant: &str,
    env_enabled: bool,
) -> (r: bool)
    ensures
        r == (env_enabled && igpu_is_gfx11 && (gate == GgufType::IQ2_XS || gate == GgufType::IQ2_S)
            && down == GgufType::IQ3_XXS && iq2_variant@ == "kwide"@),
{
    env_enabled && igpu_is_gfx11 && (gate == GgufType::IQ2_XS || gate == GgufType::IQ2_S) && down
        == GgufType::IQ3_XXS && iq2_variant.to_owned() == "kwide".to_owned()
}

/// Is the switch for the second device's matrix units on?
pub fn igpu_moe_wmma_env_enabled(v: Option<&str>) -> (r: bool)
    ensures
        r == !(v matches Some(s) && s@ == "0"@),
{
    match v {
        Some(s) => s.to_owned() != "0".to_owned(),
        None => true,
    }
}

/// Does the setting roll a pair of matrices back to the kernel that reads them
/// member by member?
pub fn pair_variant_rollback(v: Option<&str>) -> (r: bool)
    ensures
        r == (v matches Some(s) && s@ == "chunked"@),
{
    match v {
        Some(s) => s.to_owned() == "chunked".to_owned(),
        None => false,
    }
}

/// The label of a prefill stage, after the kernel that runs in it.
pub fn pair_prefill_stage(dt: GgufType, rollback: bool) -> (r: &'static str)
    ensures
        r@ == (if !rollback && kwide_pair(dt) {
            "igpu.pair_kwide"@
        } else {
            "igpu.pair_chunked"@
        }),
{
    if pair_kwide_selected(dt, rollback) {
        "igpu.pair_kwide"
    } else {
        "igpu.pair_chunked"
    }
}

/// Can the number of work items stay on the device?
pub fn moe_wi_devcount_supported(gate: GgufType, down: GgufType, rollback: bool) -> (r: bool)
    ensures
        r == (gate == GgufType::MXFP4 && down == GgufType::MXFP4 && !rollback),
{
    gate == GgufType::MXFP4 && down == GgufType::MXFP4 && pair_kwide_selected(
        GgufType::MXFP4,
        rollback,
    )
}

/// How a batch's experts read their gate and up matrices.
#[derive(Debug, Clone, Copy, PartialEq, Eq, Structural)]
pub enum PairKernel {
    /// Every matrix is unpacked once for all members of a chunk.
    Wide,
    /// Every matrix is unpacked for each member.
    Chunked,
    /// One of the kernels that the caller chooses between.
    Variant,
}

/// Why a batch's experts cannot read their gate and up matrices.
#[derive(Debug, Clone, Copy, PartialEq, Eq, Structural)]
pub enum PairError {
    NoKernel { dtype: GgufType },
    /// Only one kernel takes the number of work items from the device.
    DeviceCount { dtype: GgufType, kwide: bool },
}

/// How a batch's experts read their gate and up matrices. `device_count` tells
/// whether the number of work items stays on the device.
pub fn moe_gate_up_chunked_ex(dt: GgufType, rollback: bool, device_count: bool) -> (r: Result<
    PairKernel,
    PairError,
>)
    ensures
        r == (if device_count && !(dt == GgufType::MXFP4 && !rollback) {
            Err::<PairKernel, PairError>(
                PairError::DeviceCount { dtype: dt, kwide: !rollback && kwide_pair(dt) },
            )
        } else if kwide_pair(dt) {
            Ok(
                if rollback {
                    PairKernel::Chunked
                } else {
                    PairKernel::Wide
                },
            )
        } else if dt == GgufType::IQ2_XXS {
            Ok(PairKernel::Variant)
        } else {
            Err(PairError::NoKernel { dtype: dt })
        }),
        // What a batch reads, a token reads too, and only one kernel takes the count.
        r is Ok ==> decode_pair(dt),
        r is Ok && device_count ==> r == Ok::<PairKernel, PairError>(PairKernel::Wide),
{
    let kwide = pair_kwide_selected(dt, rollback);
    if device_count && !(dt == GgufType::MXFP4 && kwide) {
        return Err(PairError::DeviceCount { dtype: dt, kwide });
    }
    match dt {
        GgufType::IQ2_S
        | GgufType::IQ2_XS
        | GgufType::IQ3_XXS
        | GgufType::IQ3_S
        | GgufType::MXFP4 => Ok(
            if kwide {
                PairKernel::Wide
            } else {
                PairKernel::Chunked
            },
        ),
        GgufType::IQ2_XXS => Ok(PairKernel::Variant),
        other => Err(PairError::NoKernel { dtype: other }),
    }
}

/// How a batch's experts read their gate and up matrices, with the number of work
/// items on the host.
pub fn moe_gate_up_chunked(dt: GgufType, rollback: bool) -> (r: Result<PairKernel, PairError>)
    ensures
        r == (if kwide_pair(dt) {
            Ok::<PairKernel, PairError>(
                if rollback {
                    PairKernel::Chunked
                } else {
                    PairKernel::Wide
                },
            )
        } else if dt == GgufType::IQ2_XXS {
            Ok(PairKernel::Variant)
        } else {
            Err(PairError::NoKernel { dtype: dt })
        }),
{
    moe_gate_up_chunked_ex(dt, rollback, false)
}

/// Every format of a pair that prefill reads, decode reads too.
pub proof fn decode_reads_what_prefill_reads(dt: GgufType)
    requires
        kwide_pair(dt) || dt == GgufType::IQ2_XXS,
    ensures
        decode_pair(dt),
{
}

/// The least number of chunks that hold `n` members.
pub open spec fn chunks(n: nat, chunk: nat) -> nat {
    let c = if chunk == 0 {
        1
    } else {
        chunk
    };
    ((n + c - 1) / c as int) as nat
}

pub open spec fn lesser(a: int, b: int) -> int {
    if a < b {
        a
    } else {
        b
    }
}

/// The bound on the number of work items, before the buffer's length.
pub open spec fn work_item_bound(members: nat, groups: nat, chunk: nat) -> int {
    lesser(members as int, lesser(members as int, groups as int) + chunks(members, chunk))
}

/// Bounds the number of work items of `members` members in at most `groups`
/// groups, parted into chunks of `chunk`. It is never more than the members, nor
/// than a buffer of `cap` holds.
pub fn moe_wi_upper_bound(members: usize, groups: u32, chunk: u32, cap: usize) -> (r: u32)
    requires
        lesser(work_item_bound(members as nat, groups as nat, chunk as nat), cap as int) <= u32::MAX,
    ensures
        r == lesser(work_item_bound(members as nat, groups as nat, chunk as nat), cap as int),
{
    let g: usize = if members < groups as usize {
        members
    } else {
        groups as usize
    };
    let c: usize = if chunk == 0 {
        1
    } else {
        chunk as usize
    };
    proof {
        lemma_chunks(members as int, c as int);
    }
    let n: usize = members / c + if members % c > 0 {
        1
    } else {
        0
    };
    if n >= members - g {
        if members < cap {
            members as u32
        } else {
            cap as u32
        }
    } else {
        let bound: usize = g + n;
        if bound < cap {
            bound as u32
        } else {
            cap as u32
        }
    }
}

proof fn lemma_chunks(m: int, k: int)
    requires
        m >= 0,
        k >= 1,
    ensures
        (m + k - 1) / k == m / k + if m % k > 0 {
            1int
        } else {
            0
        },
        (m + k - 1) / k <= m,
{
    let q = m / k;
    let r = m % k;
    vstd::arithmetic::div_mod::lemma_fundamental_div_mod(m, k);
    if r > 0 {
        assert(m + k - 1 == (q + 1) * k + (r - 1)) by (nonlinear_arith)
            requires
                m == k * q + r,
        ;
        vstd::arithmetic::div_mod::lemma_fundamental_div_mod_converse(m + k - 1, k, q + 1, r - 1);
    } else {
        assert(m + k - 1 == q * k + (k - 1)) by (nonlinear_arith)
            requires
                m == k * q,
        ;
        vstd::arithmetic::div_mod::lemma_fundamental_div_mod_converse(m + k - 1, k, q, k - 1);
    }
    assert((m + k - 1) / k <= m) by (nonlinear_arith)
        requires
            m >= 0,
            k >= 1,
    ;
}

/// The members of all groups.
pub open spec fn total(sizes: Seq<nat>) -> nat
    decreases sizes.len(),
{
    if sizes.len() == 0 {
        0
    } else {
        total(sizes.drop_last()) + sizes.last()
    }
}

/// The work items that all groups need.
pub open spec fn items(sizes: Seq<nat>, chunk: nat) -> nat
    decreases sizes.len(),
{
    if sizes.len() == 0 {
        0
    } else {
        items(sizes.drop_last(), chunk) + chunks(sizes.last(), chunk)
    }
}

/// Whatever way the members are split into groups, their work items do not exceed
/// the bound.
pub proof fn the_bound_covers_every_grouping(sizes: Seq<nat>, groups: nat, chunk: nat)
    requires
        sizes.len() <= groups,
    ensures
        items(sizes, chunk) <= work_item_bound(total(sizes), groups, chunk),
{
    lemma_items_bound(sizes, chunk);
    let m = total(sizes);
    let k = if chunk == 0 {
        1int
    } else {
        chunk as int
    };
    let c = chunks(m, chunk) as int;
    vstd::arithmetic::div_mod::lemma_fundamental_div_mod(m + k - 1, k);
    assert(m <= k * c) by (nonlinear_arith)
        requires
            m + k - 1 == k * c + (m + k - 1) % k,
            0 <= (m + k - 1) % k < k,
    ;
    let i = items(sizes, chunk) as int;
    let f = filled(sizes) as int;
    assert(i <= f + c) by (nonlinear_arith)
        requires
            k * i <= m + f * (k - 1),
            m <= k * c,
            k >= 1,
            f >= 0,
    ;
}

/// The groups that have a member.
pub open spec fn filled(sizes: Seq<nat>) -> nat
    decreases sizes.len(),
{
    if sizes.len() == 0 {
        0
    } else {
        filled(sizes.drop_last()) + if sizes.last() > 0 {
            1nat
        } else {
            0
        }
    }
}

proof fn lemma_items_bound(sizes: Seq<nat>, chunk: nat)
    ensures
        ({
            let k = if chunk == 0 {
                1int
            } else {
                chunk as int
            };
            &&& k * items(sizes, chunk) <= total(sizes) + filled(sizes) * (k - 1)
            &&& items(sizes, chunk) <= total(sizes)
            &&& filled(sizes) <= total(sizes)
            &&& filled(sizes) <= sizes.len()
        }),
    decreases sizes.len(),
{
    let k = if chunk == 0 {
        1int
    } else {
        chunk as int
    };
    if sizes.len() == 0 {
        assert(k * 0 == 0 && 0 * (k - 1) == 0) by (nonlinear_arith);
    } else {
        let head = sizes.drop_last();
        lemma_items_bound(head, chunk);
        let n = sizes.last() as int;
        let q = chunks(sizes.last(), chunk) as int;
        vstd::arithmetic::div_mod::lemma_fundamental_div_mod(n + k - 1, k);
        let i = items(head, chunk) as int;
        let f = filled(head) as int;
        if n == 0 {
            vstd::arithmetic::div_mod::lemma_basic_div(k - 1, k);
            assert(q == 0);
        } else {
            assert(q <= n) by (nonlinear_arith)
                requires
                    n + k - 1 == k * q + (n + k - 1) % k,
                    0 <= (n + k - 1) % k < k,
                    n >= 1,
                    k >= 1,
            ;
            assert(k * (i + q) <= total(head) + n + (f + 1) * (k - 1)) by (nonlinear_arith)
                requires
                    k * i <= total(head) + f * (k - 1),
                    n + k - 1 == k * q + (n + k - 1) % k,
                    0 <= (n + k - 1) % k,
            ;
        }
    }
}

} // verus!
