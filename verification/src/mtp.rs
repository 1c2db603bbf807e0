//! The draft of the next token: a layer of its own that guesses on from the main
//! model's last residual and the last token, and the main model's vocabulary. What
//! the two devices have to do is a list of operations; issuing them is the caller's
//! part.

use vstd::prelude::*;
use crate::config::{
    BLOCKS_Q8K_DOWN_IN, BLOCKS_Q8K_GATE_IN, HC_DIM, HC_MIX_DIM, N_EMBD, N_EXPERT, N_EXPERT_USED,
    N_FF_EXP, N_FF_SHARED, N_HC, N_HEAD, N_HEAD_DIM, N_LORA_Q, Q_FLAT, SWA_WINDOW,
};
use crate::layer_ops::Lane;

verus! {

/// Quantized blocks of the inner values of the picked experts.
pub const DRAFT_MID_BLOCKS: u32 = 54;

/// Bytes of the quantized inner values of one expert.
pub const DRAFT_MID_BYTES: u32 = 2628;

/// Dimensions that only some models share.
#[derive(Clone, Copy, PartialEq, Eq, Structural, Debug)]
pub struct MtpDims {
    pub n_vocab: u32,
    /// Values of a head that carry the position.
    pub n_rot: u32,
    pub group_dim: u32,
    pub rank: u32,
    pub n_groups: u32,
    pub out_low: u32,
    /// Bytes of a block of an expert's weights.
    pub block_bytes: u32,
}

/// A buffer.
#[derive(Clone, Copy, PartialEq, Eq, Structural, Debug)]
pub enum Buf {
    /// The last token's row, on the host.
    TokenRow,
    /// The main model's last residual.
    PrevHc,
    Embed,
    Enorm,
    Xq,
    Eproj,
    EprojHc,
    HnormHc,
    Row,
    RowOut,
    HprojHc,
    InputHc,
    Flat,
    Mix,
    Split,
    AttnCur,
    AttnIn,
    Qr,
    QrNormed,
    QrXq,
    Q,
    QNormed,
    KvRaw,
    KvNormed,
    KvCache,
    Heads,
    HeadsXq,
    Low,
    LowXq,
    AttnOut,
    AfterAttn,
    FfnCur,
    FfnIn,
    RouterLogits,
    Selected,
    ExpertWeights,
    GateSh,
    UpSh,
    MidSh,
    MidShXq,
    FfnShared,
    IgpuFfnIn,
    IgpuSelected,
    IgpuWeights,
    IgpuXq,
    Mid,
    MidXq,
    IgpuMoe,
    MoeRecv,
    NextHc,
    HeadFlat,
    HeadPre,
    HeadW,
    HeadEmbd,
    HeadNorm,
    HeadXq,
    Logits,
}

/// A weight.
#[derive(Clone, Copy, PartialEq, Eq, Structural, Debug)]
pub enum Weight {
    Enorm,
    EProj,
    Hnorm,
    HProj,
    HcAttnFn,
    HcAttn,
    AttnNorm,
    AttnQA,
    QANorm,
    AttnQB,
    AttnKv,
    KvANorm,
    AttnOutputA,
    AttnOutputB,
    HcFfnFn,
    HcFfn,
    FfnNorm,
    GateInp,
    GateShexp,
    UpShexp,
    DownShexp,
    HcHeadFn,
    HcHead,
    OutNorm,
    /// The main model's vocabulary.
    Output,
}

/// One operation.
#[derive(Clone, Copy, PartialEq, Eq, Structural, Debug)]
pub enum DraftOp {
    /// From the host to the first device.
    Upload { dst: Buf, src: Buf, n: u32 },
    /// Root mean square with a weight.
    Norm { dst: Buf, src: Buf, weight: Weight, n: u32 },
    /// Root mean square of each row without one.
    PlainNorm { dst: Buf, src: Buf, rows: u32, n: u32 },
    Quantize { dst: Buf, src: Buf, n: u32 },
    /// With quantized weights.
    Project { dst: Buf, weight: Weight, src: Buf, rows: u32, cols: u32 },
    ProjectF16 { dst: Buf, weight: Weight, src: Buf, rows: u32, cols: u32 },
    ProjectGrouped { dst: Buf, weight: Weight, src: Buf, group: u32, rank: u32, groups: u32 },
    /// Repeats a row, on the host.
    Repeat { dst: Buf, src: Buf, rows: u32, n: u32 },
    /// Root mean square of each row with a weight, on the host.
    HostNorm { dst: Buf, src: Buf, weight: Weight, rows: u32, n: u32 },
    /// Copies a row out, on the host.
    TakeRow { dst: Buf, src: Buf, row: u32, n: u32 },
    /// Copies a row in, on the host.
    PutRow { dst: Buf, src: Buf, row: u32, n: u32 },
    Copy { dst: Buf, src: Buf },
    AddInto { dst: Buf, src: Buf, n: u32 },
    Sinkhorn { dst: Buf, src: Buf, weight: Weight },
    /// The weighted sum of the residual copies.
    Collapse { dst: Buf, src: Buf, by: Buf },
    /// A half-layer's result blended into the residual copies.
    Blend { dst: Buf, src: Buf, residual: Buf, by: Buf },
    Rope { buf: Buf, rows: u32, n_rot: u32, pos: u32 },
    RopeBack { buf: Buf, rows: u32, n_rot: u32, pos: u32 },
    Fp8 { buf: Buf, n: u32 },
    RoundF16 { buf: Buf, n: u32 },
    KvAppend { dst: Buf, src: Buf, slot: u32 },
    Attend { dst: Buf, q: Buf, kv: Buf, n_kv: u32 },
    RouterTopk { selected: Buf, weights: Buf, src: Buf, n: u32, k: u32 },
    Swiglu { dst: Buf, gate: Buf, up: Buf, n: u32 },
    Sigmoid { dst: Buf, src: Buf, weight: Weight, n: u32 },
    /// From one device to the other.
    Push { dst: Buf, src: Buf, lane: Lane },
    /// Waits until a lane is idle.
    Sync { lane: Lane },
    /// Makes a device the current one.
    UseDevice { second: bool },
    QuantizeK { dst: Buf, src: Buf, blocks: u32 },
    PairSwiglu {
        dst: Buf,
        src: Buf,
        weights: Buf,
        selected: Buf,
        bytes_per_expert: u32,
        experts: u32,
        n: u32,
        blocks: u32,
    },
    Down {
        dst: Buf,
        src: Buf,
        selected: Buf,
        bytes_per_expert: u32,
        mid_bytes: u32,
        experts: u32,
        n: u32,
        blocks: u32,
    },
}

/// Values of the buffers that only the draft needs.
#[derive(Clone, Copy, PartialEq, Eq, Structural, Debug)]
pub struct MtpScratch {
    pub mtp_embed: u32,
    pub mtp_enorm: u32,
    pub mtp_eproj: u32,
    pub mtp_eproj_hc: u32,
    pub mtp_hnorm_hc: u32,
    pub mtp_hproj_hc: u32,
    pub mtp_input_hc: u32,
    pub mtp_next_hc: u32,
    pub mtp_logits: u32,
    pub row_dev: u32,
    pub row_out_dev: u32,
}

impl MtpScratch {
    /// The sizes of the draft's buffers.
    pub fn sizes(n_vocab: u32) -> (r: Self)
        ensures
            r == (MtpScratch {
                mtp_embed: N_EMBD,
                mtp_enorm: N_EMBD,
                mtp_eproj: N_EMBD,
                mtp_eproj_hc: HC_DIM,
                mtp_hnorm_hc: HC_DIM,
                mtp_hproj_hc: HC_DIM,
                mtp_input_hc: HC_DIM,
                mtp_next_hc: HC_DIM,
                mtp_logits: n_vocab,
                row_dev: N_EMBD,
                row_out_dev: N_EMBD,
            }),
            // A row's buffers hold a row, and a residual's one for each copy.
            r.mtp_enorm == r.mtp_embed,
            r.mtp_eproj == r.mtp_embed,
            r.row_dev == r.mtp_embed,
            r.row_out_dev == r.mtp_embed,
            r.mtp_eproj_hc == N_HC * r.mtp_embed,
            r.mtp_hnorm_hc == N_HC * r.mtp_embed,
            r.mtp_hproj_hc == N_HC * r.mtp_embed,
            r.mtp_input_hc == N_HC * r.mtp_embed,
            r.mtp_next_hc == N_HC * r.mtp_embed,
    {
        MtpScratch {
            mtp_embed: N_EMBD,
            mtp_enorm: N_EMBD,
            mtp_eproj: N_EMBD,
            mtp_eproj_hc: HC_DIM,
            mtp_hnorm_hc: HC_DIM,
            mtp_hproj_hc: HC_DIM,
            mtp_input_hc: HC_DIM,
            mtp_next_hc: HC_DIM,
            mtp_logits: n_vocab,
            row_dev: N_EMBD,
            row_out_dev: N_EMBD,
        }
    }
}

/// The token's own share: its row, normed and projected, once for each residual copy.
pub open spec fn embed_ops(ops: Seq<DraftOp>) -> Seq<DraftOp> {
    ops.push(
        DraftOp::Upload { dst: Buf::Embed, src: Buf::TokenRow, n: N_EMBD },
    ).push(
        DraftOp::Norm { dst: Buf::Enorm, src: Buf::Embed, weight: Weight::Enorm, n: N_EMBD },
    ).push(
        DraftOp::Quantize { dst: Buf::Xq, src: Buf::Enorm, n: N_EMBD },
    ).push(
        DraftOp::Project { dst: Buf::Eproj, weight: Weight::EProj, src: Buf::Xq, rows: N_EMBD, cols: N_EMBD },
    ).push(
        DraftOp::Sync { lane: Lane::Compute },
    ).push(
        DraftOp::Repeat { dst: Buf::EprojHc, src: Buf::Eproj, rows: N_HC, n: N_EMBD },
    )
}

fn embed(ops: &mut Vec<DraftOp>)
    ensures
        final(ops)@ == embed_ops(old(ops)@),
{
    ops.push(DraftOp::Upload { dst: Buf::Embed, src: Buf::TokenRow, n: N_EMBD });
    ops.push(DraftOp::Norm { dst: Buf::Enorm, src: Buf::Embed, weight: Weight::Enorm, n: N_EMBD });
    ops.push(DraftOp::Quantize { dst: Buf::Xq, src: Buf::Enorm, n: N_EMBD });
    ops.push(DraftOp::Project { dst: Buf::Eproj, weight: Weight::EProj, src: Buf::Xq, rows: N_EMBD, cols: N_EMBD });
    ops.push(DraftOp::Sync { lane: Lane::Compute });
    ops.push(DraftOp::Repeat { dst: Buf::EprojHc, src: Buf::Eproj, rows: N_HC, n: N_EMBD });
}

/// One residual copy, projected.
pub open spec fn project_row_ops(ops: Seq<DraftOp>, row: u32) -> Seq<DraftOp> {
    ops.push(
        DraftOp::TakeRow { dst: Buf::Row, src: Buf::HnormHc, row, n: N_EMBD },
    ).push(
        DraftOp::Quantize { dst: Buf::Xq, src: Buf::Row, n: N_EMBD },
    ).push(
        DraftOp::Project { dst: Buf::RowOut, weight: Weight::HProj, src: Buf::Xq, rows: N_EMBD, cols: N_EMBD },
    ).push(
        DraftOp::Sync { lane: Lane::Compute },
    ).push(
        DraftOp::PutRow { dst: Buf::HprojHc, src: Buf::RowOut, row, n: N_EMBD },
    )
}

fn project_row(ops: &mut Vec<DraftOp>, row: u32)
    ensures
        final(ops)@ == project_row_ops(old(ops)@, row),
{
    ops.push(DraftOp::TakeRow { dst: Buf::Row, src: Buf::HnormHc, row, n: N_EMBD });
    ops.push(DraftOp::Quantize { dst: Buf::Xq, src: Buf::Row, n: N_EMBD });
    ops.push(DraftOp::Project { dst: Buf::RowOut, weight: Weight::HProj, src: Buf::Xq, rows: N_EMBD, cols: N_EMBD });
    ops.push(DraftOp::Sync { lane: Lane::Compute });
    ops.push(DraftOp::PutRow { dst: Buf::HprojHc, src: Buf::RowOut, row, n: N_EMBD });
}

/// The first `rows` residual copies, projected one after the other.
pub open spec fn project_rows_ops(ops: Seq<DraftOp>, rows: nat) -> Seq<DraftOp>
    decreases rows,
{
    if rows == 0 {
        ops
    } else {
        project_row_ops(project_rows_ops(ops, (rows - 1) as nat), (rows - 1) as u32)
    }
}

/// The residual's share: each copy normed and projected.
pub open spec fn residual_ops(ops: Seq<DraftOp>) -> Seq<DraftOp> {
    project_rows_ops(
        ops.push(
            DraftOp::HostNorm {
                dst: Buf::HnormHc,
                src: Buf::PrevHc,
                weight: Weight::Hnorm,
                rows: N_HC,
                n: N_EMBD,
            },
        ),
        N_HC as nat,
    )
}

fn residual(ops: &mut Vec<DraftOp>)
    ensures
        final(ops)@ == residual_ops(old(ops)@),
{
    ops.push(
        DraftOp::HostNorm {
            dst: Buf::HnormHc,
            src: Buf::PrevHc,
            weight: Weight::Hnorm,
            rows: N_HC,
            n: N_EMBD,
        },
    );
    let ghost start = ops@;
    let mut row: u32 = 0;
    while row < N_HC
        invariant
            row <= N_HC,
            ops@ == project_rows_ops(start, row as nat),
        decreases N_HC - row,
    {
        project_row(ops, row);
        row = row + 1;
    }
}

/// Both shares in one.
pub open spec fn join_ops(ops: Seq<DraftOp>) -> Seq<DraftOp> {
    ops.push(
        DraftOp::Copy { dst: Buf::InputHc, src: Buf::EprojHc },
    ).push(
        DraftOp::AddInto { dst: Buf::InputHc, src: Buf::HprojHc, n: HC_DIM },
    )
}

fn join(ops: &mut Vec<DraftOp>)
    ensures
        final(ops)@ == join_ops(old(ops)@),
{
    ops.push(DraftOp::Copy { dst: Buf::InputHc, src: Buf::EprojHc });
    ops.push(DraftOp::AddInto { dst: Buf::InputHc, src: Buf::HprojHc, n: HC_DIM });
}

/// The residual copies collapsed for attention.
pub open spec fn collapse_attn_ops(ops: Seq<DraftOp>) -> Seq<DraftOp> {
    ops.push(
        DraftOp::PlainNorm { dst: Buf::Flat, src: Buf::InputHc, rows: 1, n: HC_DIM },
    ).push(
        DraftOp::ProjectF16 { dst: Buf::Mix, weight: Weight::HcAttnFn, src: Buf::Flat, rows: HC_MIX_DIM, cols: HC_DIM },
    ).push(
        DraftOp::Sinkhorn { dst: Buf::Split, src: Buf::Mix, weight: Weight::HcAttn },
    ).push(
        DraftOp::Collapse { dst: Buf::AttnCur, src: Buf::InputHc, by: Buf::Split },
    ).push(
        DraftOp::Norm { dst: Buf::AttnIn, src: Buf::AttnCur, weight: Weight::AttnNorm, n: N_EMBD },
    )
}

fn collapse_attn(ops: &mut Vec<DraftOp>)
    ensures
        final(ops)@ == collapse_attn_ops(old(ops)@),
{
    ops.push(DraftOp::PlainNorm { dst: Buf::Flat, src: Buf::InputHc, rows: 1, n: HC_DIM });
    ops.push(DraftOp::ProjectF16 { dst: Buf::Mix, weight: Weight::HcAttnFn, src: Buf::Flat, rows: HC_MIX_DIM, cols: HC_DIM });
    ops.push(DraftOp::Sinkhorn { dst: Buf::Split, src: Buf::Mix, weight: Weight::HcAttn });
    ops.push(DraftOp::Collapse { dst: Buf::AttnCur, src: Buf::InputHc, by: Buf::Split });
    ops.push(DraftOp::Norm { dst: Buf::AttnIn, src: Buf::AttnCur, weight: Weight::AttnNorm, n: N_EMBD });
}

/// The query.
pub open spec fn query_ops(ops: Seq<DraftOp>, n_rot: u32, pos: u32) -> Seq<DraftOp> {
    ops.push(
        DraftOp::Quantize { dst: Buf::Xq, src: Buf::AttnIn, n: N_EMBD },
    ).push(
        DraftOp::Project { dst: Buf::Qr, weight: Weight::AttnQA, src: Buf::Xq, rows: N_LORA_Q, cols: N_EMBD },
    ).push(
        DraftOp::Norm { dst: Buf::QrNormed, src: Buf::Qr, weight: Weight::QANorm, n: N_LORA_Q },
    ).push(
        DraftOp::Quantize { dst: Buf::QrXq, src: Buf::QrNormed, n: N_LORA_Q },
    ).push(
        DraftOp::Project { dst: Buf::Q, weight: Weight::AttnQB, src: Buf::QrXq, rows: Q_FLAT, cols: N_LORA_Q },
    ).push(
        DraftOp::PlainNorm { dst: Buf::QNormed, src: Buf::Q, rows: N_HEAD, n: N_HEAD_DIM },
    ).push(
        DraftOp::Rope { buf: Buf::QNormed, rows: N_HEAD, n_rot, pos },
    )
}

fn query(ops: &mut Vec<DraftOp>, n_rot: u32, pos: u32)
    ensures
        final(ops)@ == query_ops(old(ops)@, n_rot, pos),
{
    ops.push(DraftOp::Quantize { dst: Buf::Xq, src: Buf::AttnIn, n: N_EMBD });
    ops.push(DraftOp::Project { dst: Buf::Qr, weight: Weight::AttnQA, src: Buf::Xq, rows: N_LORA_Q, cols: N_EMBD });
    ops.push(DraftOp::Norm { dst: Buf::QrNormed, src: Buf::Qr, weight: Weight::QANorm, n: N_LORA_Q });
    ops.push(DraftOp::Quantize { dst: Buf::QrXq, src: Buf::QrNormed, n: N_LORA_Q });
    ops.push(DraftOp::Project { dst: Buf::Q, weight: Weight::AttnQB, src: Buf::QrXq, rows: Q_FLAT, cols: N_LORA_Q });
    ops.push(DraftOp::PlainNorm { dst: Buf::QNormed, src: Buf::Q, rows: N_HEAD, n: N_HEAD_DIM });
    ops.push(DraftOp::Rope { buf: Buf::QNormed, rows: N_HEAD, n_rot, pos });
}

/// The token's key, added to the draft layer's own cache.
pub open spec fn keys_ops(ops: Seq<DraftOp>, n_rot: u32, pos: u32, slot: u32) -> Seq<DraftOp> {
    ops.push(
        DraftOp::Project { dst: Buf::KvRaw, weight: Weight::AttnKv, src: Buf::Xq, rows: N_HEAD_DIM, cols: N_EMBD },
    ).push(
        DraftOp::Norm { dst: Buf::KvNormed, src: Buf::KvRaw, weight: Weight::KvANorm, n: N_HEAD_DIM },
    ).push(
        DraftOp::Rope { buf: Buf::KvNormed, rows: 1, n_rot, pos },
    ).push(
        DraftOp::Fp8 { buf: Buf::KvNormed, n: (N_HEAD_DIM - n_rot) as u32 },
    ).push(
        DraftOp::RoundF16 { buf: Buf::KvNormed, n: N_HEAD_DIM },
    ).push(
        DraftOp::KvAppend { dst: Buf::KvCache, src: Buf::KvNormed, slot },
    )
}

fn keys(ops: &mut Vec<DraftOp>, n_rot: u32, pos: u32, slot: u32)
    requires
        n_rot <= N_HEAD_DIM,
    ensures
        final(ops)@ == keys_ops(old(ops)@, n_rot, pos, slot),
{
    ops.push(DraftOp::Project { dst: Buf::KvRaw, weight: Weight::AttnKv, src: Buf::Xq, rows: N_HEAD_DIM, cols: N_EMBD });
    ops.push(DraftOp::Norm { dst: Buf::KvNormed, src: Buf::KvRaw, weight: Weight::KvANorm, n: N_HEAD_DIM });
    ops.push(DraftOp::Rope { buf: Buf::KvNormed, rows: 1, n_rot, pos });
    ops.push(DraftOp::Fp8 { buf: Buf::KvNormed, n: (N_HEAD_DIM - n_rot) as u32 });
    ops.push(DraftOp::RoundF16 { buf: Buf::KvNormed, n: N_HEAD_DIM });
    ops.push(DraftOp::KvAppend { dst: Buf::KvCache, src: Buf::KvNormed, slot });
}

/// Attention over the window, and its projection.
pub open spec fn attention_ops(ops: Seq<DraftOp>, d: MtpDims, pos: u32, n_kv: u32) -> Seq<DraftOp> {
    ops.push(
        DraftOp::Attend { dst: Buf::Heads, q: Buf::QNormed, kv: Buf::KvCache, n_kv },
    ).push(
        DraftOp::RopeBack { buf: Buf::Heads, rows: N_HEAD, n_rot: d.n_rot, pos },
    ).push(
        DraftOp::Quantize { dst: Buf::HeadsXq, src: Buf::Heads, n: Q_FLAT },
    ).push(
        DraftOp::ProjectGrouped { dst: Buf::Low, weight: Weight::AttnOutputA, src: Buf::HeadsXq, group: d.group_dim, rank: d.rank, groups: d.n_groups },
    ).push(
        DraftOp::Quantize { dst: Buf::LowXq, src: Buf::Low, n: d.out_low },
    ).push(
        DraftOp::Project { dst: Buf::AttnOut, weight: Weight::AttnOutputB, src: Buf::LowXq, rows: N_EMBD, cols: d.out_low },
    ).push(
        DraftOp::Blend { dst: Buf::AfterAttn, src: Buf::AttnOut, residual: Buf::InputHc, by: Buf::Split },
    )
}

fn attention(ops: &mut Vec<DraftOp>, d: MtpDims, pos: u32, n_kv: u32)
    ensures
        final(ops)@ == attention_ops(old(ops)@, d, pos, n_kv),
{
    ops.push(DraftOp::Attend { dst: Buf::Heads, q: Buf::QNormed, kv: Buf::KvCache, n_kv });
    ops.push(DraftOp::RopeBack { buf: Buf::Heads, rows: N_HEAD, n_rot: d.n_rot, pos });
    ops.push(DraftOp::Quantize { dst: Buf::HeadsXq, src: Buf::Heads, n: Q_FLAT });
    ops.push(DraftOp::ProjectGrouped { dst: Buf::Low, weight: Weight::AttnOutputA, src: Buf::HeadsXq, group: d.group_dim, rank: d.rank, groups: d.n_groups });
    ops.push(DraftOp::Quantize { dst: Buf::LowXq, src: Buf::Low, n: d.out_low });
    ops.push(DraftOp::Project { dst: Buf::AttnOut, weight: Weight::AttnOutputB, src: Buf::LowXq, rows: N_EMBD, cols: d.out_low });
    ops.push(DraftOp::Blend { dst: Buf::AfterAttn, src: Buf::AttnOut, residual: Buf::InputHc, by: Buf::Split });
}

/// The residual copies collapsed for the feed-forward half.
pub open spec fn collapse_ffn_ops(ops: Seq<DraftOp>) -> Seq<DraftOp> {
    ops.push(
        DraftOp::PlainNorm { dst: Buf::Flat, src: Buf::AfterAttn, rows: 1, n: HC_DIM },
    ).push(
        DraftOp::ProjectF16 { dst: Buf::Mix, weight: Weight::HcFfnFn, src: Buf::Flat, rows: HC_MIX_DIM, cols: HC_DIM },
    ).push(
        DraftOp::Sinkhorn { dst: Buf::Split, src: Buf::Mix, weight: Weight::HcFfn },
    ).push(
        DraftOp::Collapse { dst: Buf::FfnCur, src: Buf::AfterAttn, by: Buf::Split },
    ).push(
        DraftOp::Norm { dst: Buf::FfnIn, src: Buf::FfnCur, weight: Weight::FfnNorm, n: N_EMBD },
    )
}

fn collapse_ffn(ops: &mut Vec<DraftOp>)
    ensures
        final(ops)@ == collapse_ffn_ops(old(ops)@),
{
    ops.push(DraftOp::PlainNorm { dst: Buf::Flat, src: Buf::AfterAttn, rows: 1, n: HC_DIM });
    ops.push(DraftOp::ProjectF16 { dst: Buf::Mix, weight: Weight::HcFfnFn, src: Buf::Flat, rows: HC_MIX_DIM, cols: HC_DIM });
    ops.push(DraftOp::Sinkhorn { dst: Buf::Split, src: Buf::Mix, weight: Weight::HcFfn });
    ops.push(DraftOp::Collapse { dst: Buf::FfnCur, src: Buf::AfterAttn, by: Buf::Split });
    ops.push(DraftOp::Norm { dst: Buf::FfnIn, src: Buf::FfnCur, weight: Weight::FfnNorm, n: N_EMBD });
}

/// The experts that the learned router picks.
pub open spec fn route_ops(ops: Seq<DraftOp>) -> Seq<DraftOp> {
    ops.push(
        DraftOp::ProjectF16 { dst: Buf::RouterLogits, weight: Weight::GateInp, src: Buf::FfnIn, rows: N_EXPERT, cols: N_EMBD },
    ).push(
        DraftOp::RouterTopk { selected: Buf::Selected, weights: Buf::ExpertWeights, src: Buf::RouterLogits, n: N_EXPERT, k: N_EXPERT_USED as u32 },
    )
}

fn route(ops: &mut Vec<DraftOp>)
    ensures
        final(ops)@ == route_ops(old(ops)@),
{
    ops.push(DraftOp::ProjectF16 { dst: Buf::RouterLogits, weight: Weight::GateInp, src: Buf::FfnIn, rows: N_EXPERT, cols: N_EMBD });
    ops.push(DraftOp::RouterTopk { selected: Buf::Selected, weights: Buf::ExpertWeights, src: Buf::RouterLogits, n: N_EXPERT, k: N_EXPERT_USED as u32 });
}

/// The shared expert.
pub open spec fn shared_ops(ops: Seq<DraftOp>) -> Seq<DraftOp> {
    ops.push(
        DraftOp::Quantize { dst: Buf::Xq, src: Buf::FfnIn, n: N_EMBD },
    ).push(
        DraftOp::Project { dst: Buf::GateSh, weight: Weight::GateShexp, src: Buf::Xq, rows: N_FF_SHARED, cols: N_EMBD },
    ).push(
        DraftOp::Project { dst: Buf::UpSh, weight: Weight::UpShexp, src: Buf::Xq, rows: N_FF_SHARED, cols: N_EMBD },
    ).push(
        DraftOp::Swiglu { dst: Buf::MidSh, gate: Buf::GateSh, up: Buf::UpSh, n: N_FF_SHARED },
    ).push(
        DraftOp::Quantize { dst: Buf::MidShXq, src: Buf::MidSh, n: N_FF_SHARED },
    ).push(
        DraftOp::Project { dst: Buf::FfnShared, weight: Weight::DownShexp, src: Buf::MidShXq, rows: N_EMBD, cols: N_FF_SHARED },
    )
}

fn shared(ops: &mut Vec<DraftOp>)
    ensures
        final(ops)@ == shared_ops(old(ops)@),
{
    ops.push(DraftOp::Quantize { dst: Buf::Xq, src: Buf::FfnIn, n: N_EMBD });
    ops.push(DraftOp::Project { dst: Buf::GateSh, weight: Weight::GateShexp, src: Buf::Xq, rows: N_FF_SHARED, cols: N_EMBD });
    ops.push(DraftOp::Project { dst: Buf::UpSh, weight: Weight::UpShexp, src: Buf::Xq, rows: N_FF_SHARED, cols: N_EMBD });
    ops.push(DraftOp::Swiglu { dst: Buf::MidSh, gate: Buf::GateSh, up: Buf::UpSh, n: N_FF_SHARED });
    ops.push(DraftOp::Quantize { dst: Buf::MidShXq, src: Buf::MidSh, n: N_FF_SHARED });
    ops.push(DraftOp::Project { dst: Buf::FfnShared, weight: Weight::DownShexp, src: Buf::MidShXq, rows: N_EMBD, cols: N_FF_SHARED });
}

/// What the second device needs, sent to it.
pub open spec fn send_ops(ops: Seq<DraftOp>) -> Seq<DraftOp> {
    ops.push(
        DraftOp::Sync { lane: Lane::Compute },
    ).push(
        DraftOp::Push { dst: Buf::IgpuFfnIn, src: Buf::FfnIn, lane: Lane::Xfer },
    ).push(
        DraftOp::Push { dst: Buf::IgpuSelected, src: Buf::Selected, lane: Lane::Xfer },
    ).push(
        DraftOp::Push { dst: Buf::IgpuWeights, src: Buf::ExpertWeights, lane: Lane::Xfer },
    ).push(
        DraftOp::Sync { lane: Lane::Xfer },
    )
}

fn send(ops: &mut Vec<DraftOp>)
    ensures
        final(ops)@ == send_ops(old(ops)@),
{
    ops.push(DraftOp::Sync { lane: Lane::Compute });
    ops.push(DraftOp::Push { dst: Buf::IgpuFfnIn, src: Buf::FfnIn, lane: Lane::Xfer });
    ops.push(DraftOp::Push { dst: Buf::IgpuSelected, src: Buf::Selected, lane: Lane::Xfer });
    ops.push(DraftOp::Push { dst: Buf::IgpuWeights, src: Buf::ExpertWeights, lane: Lane::Xfer });
    ops.push(DraftOp::Sync { lane: Lane::Xfer });
}

/// The routed experts, on the second device, and their sum sent back.
pub open spec fn routed_ops(ops: Seq<DraftOp>, bpe: u32) -> Seq<DraftOp> {
    ops.push(
        DraftOp::UseDevice { second: true },
    ).push(
        DraftOp::QuantizeK { dst: Buf::IgpuXq, src: Buf::IgpuFfnIn, blocks: BLOCKS_Q8K_GATE_IN },
    ).push(
        DraftOp::PairSwiglu { dst: Buf::Mid, src: Buf::IgpuXq, weights: Buf::IgpuWeights, selected: Buf::IgpuSelected, bytes_per_expert: bpe, experts: N_EXPERT_USED as u32, n: N_FF_EXP, blocks: BLOCKS_Q8K_GATE_IN },
    ).push(
        DraftOp::QuantizeK { dst: Buf::MidXq, src: Buf::Mid, blocks: DRAFT_MID_BLOCKS },
    ).push(
        DraftOp::Down { dst: Buf::IgpuMoe, src: Buf::MidXq, selected: Buf::IgpuSelected, bytes_per_expert: bpe, mid_bytes: DRAFT_MID_BYTES, experts: N_EXPERT_USED as u32, n: N_EMBD, blocks: BLOCKS_Q8K_DOWN_IN },
    ).push(
        DraftOp::Sync { lane: Lane::IgpuCompute },
    ).push(
        DraftOp::Push { dst: Buf::MoeRecv, src: Buf::IgpuMoe, lane: Lane::IgpuXfer },
    ).push(
        DraftOp::Sync { lane: Lane::IgpuXfer },
    ).push(
        DraftOp::UseDevice { second: false },
    )
}

fn routed(ops: &mut Vec<DraftOp>, bpe: u32)
    ensures
        final(ops)@ == routed_ops(old(ops)@, bpe),
{
    ops.push(DraftOp::UseDevice { second: true });
    ops.push(DraftOp::QuantizeK { dst: Buf::IgpuXq, src: Buf::IgpuFfnIn, blocks: BLOCKS_Q8K_GATE_IN });
    ops.push(DraftOp::PairSwiglu { dst: Buf::Mid, src: Buf::IgpuXq, weights: Buf::IgpuWeights, selected: Buf::IgpuSelected, bytes_per_expert: bpe, experts: N_EXPERT_USED as u32, n: N_FF_EXP, blocks: BLOCKS_Q8K_GATE_IN });
    ops.push(DraftOp::QuantizeK { dst: Buf::MidXq, src: Buf::Mid, blocks: DRAFT_MID_BLOCKS });
    ops.push(DraftOp::Down { dst: Buf::IgpuMoe, src: Buf::MidXq, selected: Buf::IgpuSelected, bytes_per_expert: bpe, mid_bytes: DRAFT_MID_BYTES, experts: N_EXPERT_USED as u32, n: N_EMBD, blocks: BLOCKS_Q8K_DOWN_IN });
    ops.push(DraftOp::Sync { lane: Lane::IgpuCompute });
    ops.push(DraftOp::Push { dst: Buf::MoeRecv, src: Buf::IgpuMoe, lane: Lane::IgpuXfer });
    ops.push(DraftOp::Sync { lane: Lane::IgpuXfer });
    ops.push(DraftOp::UseDevice { second: false });
}

/// The sums of the experts, blended into the residual copies.
pub open spec fn combine_ops(ops: Seq<DraftOp>) -> Seq<DraftOp> {
    ops.push(
        DraftOp::AddInto { dst: Buf::MoeRecv, src: Buf::FfnShared, n: N_EMBD },
    ).push(
        DraftOp::Blend { dst: Buf::NextHc, src: Buf::MoeRecv, residual: Buf::AfterAttn, by: Buf::Split },
    )
}

fn combine(ops: &mut Vec<DraftOp>)
    ensures
        final(ops)@ == combine_ops(old(ops)@),
{
    ops.push(DraftOp::AddInto { dst: Buf::MoeRecv, src: Buf::FfnShared, n: N_EMBD });
    ops.push(DraftOp::Blend { dst: Buf::NextHc, src: Buf::MoeRecv, residual: Buf::AfterAttn, by: Buf::Split });
}

/// The logits, through the main model's vocabulary.
pub open spec fn mtp_head_ops(ops: Seq<DraftOp>, n_vocab: u32) -> Seq<DraftOp> {
    ops.push(
        DraftOp::PlainNorm { dst: Buf::HeadFlat, src: Buf::NextHc, rows: 1, n: HC_DIM },
    ).push(
        DraftOp::ProjectF16 { dst: Buf::HeadPre, weight: Weight::HcHeadFn, src: Buf::HeadFlat, rows: N_HC, cols: HC_DIM },
    ).push(
        DraftOp::Sigmoid { dst: Buf::HeadW, src: Buf::HeadPre, weight: Weight::HcHead, n: N_HC },
    ).push(
        DraftOp::Collapse { dst: Buf::HeadEmbd, src: Buf::NextHc, by: Buf::HeadW },
    ).push(
        DraftOp::Norm { dst: Buf::HeadNorm, src: Buf::HeadEmbd, weight: Weight::OutNorm, n: N_EMBD },
    ).push(
        DraftOp::Quantize { dst: Buf::HeadXq, src: Buf::HeadNorm, n: N_EMBD },
    ).push(
        DraftOp::Project { dst: Buf::Logits, weight: Weight::Output, src: Buf::HeadXq, rows: n_vocab, cols: N_EMBD },
    )
}

fn mtp_head(ops: &mut Vec<DraftOp>, n_vocab: u32)
    ensures
        final(ops)@ == mtp_head_ops(old(ops)@, n_vocab),
{
    ops.push(DraftOp::PlainNorm { dst: Buf::HeadFlat, src: Buf::NextHc, rows: 1, n: HC_DIM });
    ops.push(DraftOp::ProjectF16 { dst: Buf::HeadPre, weight: Weight::HcHeadFn, src: Buf::HeadFlat, rows: N_HC, cols: HC_DIM });
    ops.push(DraftOp::Sigmoid { dst: Buf::HeadW, src: Buf::HeadPre, weight: Weight::HcHead, n: N_HC });
    ops.push(DraftOp::Collapse { dst: Buf::HeadEmbd, src: Buf::NextHc, by: Buf::HeadW });
    ops.push(DraftOp::Norm { dst: Buf::HeadNorm, src: Buf::HeadEmbd, weight: Weight::OutNorm, n: N_EMBD });
    ops.push(DraftOp::Quantize { dst: Buf::HeadXq, src: Buf::HeadNorm, n: N_EMBD });
    ops.push(DraftOp::Project { dst: Buf::Logits, weight: Weight::Output, src: Buf::HeadXq, rows: n_vocab, cols: N_EMBD });
}

/// The slot of the cache that a token's key goes to, with `n_raw` keys in it. The
/// last slot takes every key once the window is full.
pub open spec fn draft_slot(n_raw: u32) -> u32 {
    if n_raw < SWA_WINDOW - 1 {
        n_raw
    } else {
        (SWA_WINDOW - 1) as u32
    }
}

/// The keys in the cache after one more, which are those that attention reads.
pub open spec fn draft_keys(n_raw: u32) -> u32 {
    if n_raw < SWA_WINDOW {
        (n_raw + 1) as u32
    } else {
        SWA_WINDOW
    }
}

/// Bytes of one expert's part of a routed weight.
pub open spec fn expert_bytes(block_bytes: u32) -> u32 {
    (N_EMBD * N_FF_EXP * block_bytes / 256) as u32
}

/// The draft layer.
pub open spec fn mtp_layer_ops(ops: Seq<DraftOp>, d: MtpDims, n_raw: u32, pos: u32) -> Seq<DraftOp> {
    let a = query_ops(collapse_attn_ops(ops), d.n_rot, pos);
    let b = keys_ops(a, d.n_rot, pos, draft_slot(n_raw));
    let c = collapse_ffn_ops(attention_ops(b, d, pos, draft_keys(n_raw)));
    let e = send_ops(shared_ops(route_ops(c)));
    combine_ops(routed_ops(e, expert_bytes(d.block_bytes)))
}

/// Adds the operations of the draft layer, which reads the joined input and leaves
/// the next residual.
pub fn forward_mtp_layer(ops: &mut Vec<DraftOp>, d: MtpDims, n_raw: u32, pos: u32)
    requires
        d.n_rot <= N_HEAD_DIM,
        d.block_bytes <= 0xffff,
        n_raw < u32::MAX,
    ensures
        final(ops)@ == mtp_layer_ops(old(ops)@, d, n_raw, pos),
{
    let slot: u32 = if n_raw < SWA_WINDOW - 1 {
        n_raw
    } else {
        SWA_WINDOW - 1
    };
    let n_kv: u32 = if n_raw < SWA_WINDOW {
        n_raw + 1
    } else {
        SWA_WINDOW
    };
    assert(N_EMBD * N_FF_EXP * d.block_bytes / 256 == 46080 * d.block_bytes) by (nonlinear_arith)
        requires
            N_EMBD == 5120,
            N_FF_EXP == 2304,
    ;
    let bpe: u32 = 46080 * d.block_bytes;
    collapse_attn(ops);
    query(ops, d.n_rot, pos);
    keys(ops, d.n_rot, pos, slot);
    attention(ops, d, pos, n_kv);
    collapse_ffn(ops);
    route(ops);
    shared(ops);
    send(ops);
    routed(ops, bpe);
    combine(ops);
}

/// Adds the operations of the draft's head, which reads the next residual and leaves
/// the logits.
pub fn forward_mtp_head(ops: &mut Vec<DraftOp>, n_vocab: u32)
    ensures
        final(ops)@ == mtp_head_ops(old(ops)@, n_vocab),
{
    mtp_head(ops, n_vocab);
}

/// Why there is no draft.
#[derive(Clone, Copy, PartialEq, Eq, Structural, Debug)]
pub enum DraftError {
    /// The residual has another length.
    PrevHc { len: usize },
    /// The token's row has another length.
    Embd { len: usize },
}

/// A draft: what is to be done, and the keys in the draft layer's cache when it is
/// done.
pub struct DraftPlan {
    pub ops: Vec<DraftOp>,
    pub n_raw: u32,
}

/// The operations of a draft.
pub open spec fn draft_ops(d: MtpDims, n_raw: u32, pos: u32) -> Seq<DraftOp> {
    let start = seq![DraftOp::UseDevice { second: false }];
    let joined = join_ops(residual_ops(embed_ops(start)));
    mtp_head_ops(mtp_layer_ops(joined, d, n_raw, pos), d.n_vocab).push(
        DraftOp::UseDevice { second: false },
    ).push(DraftOp::Sync { lane: Lane::Compute })
}

/// One draft step, of a residual with `prev_hc` values and a token's row with `embd`
/// values at position `pos`. The logits are left on the first device.
pub fn forward_mtp_draft(d: MtpDims, prev_hc: usize, embd: usize, n_raw: u32, pos: u32) -> (r:
    Result<DraftPlan, DraftError>)
    requires
        d.n_rot <= N_HEAD_DIM,
        d.block_bytes <= 0xffff,
        n_raw < u32::MAX,
    ensures
        match r {
            Ok(plan) => {
                &&& prev_hc == HC_DIM
                &&& embd == N_EMBD
                &&& plan.ops@ == draft_ops(d, n_raw, pos)
                &&& plan.n_raw == draft_keys(n_raw)
            },
            Err(e) => e == if prev_hc != HC_DIM {
                DraftError::PrevHc { len: prev_hc }
            } else {
                DraftError::Embd { len: embd }
            },
        },
        r.is_ok() <==> prev_hc == HC_DIM && embd == N_EMBD,
{
    if prev_hc != HC_DIM as usize {
        return Err(DraftError::PrevHc { len: prev_hc });
    }
    if embd != N_EMBD as usize {
        return Err(DraftError::Embd { len: embd });
    }
    let mut ops: Vec<DraftOp> = Vec::new();
    ops.push(DraftOp::UseDevice { second: false });
    assert(ops@ =~= seq![DraftOp::UseDevice { second: false }]);
    embed(&mut ops);
    residual(&mut ops);
    join(&mut ops);
    forward_mtp_layer(&mut ops, d, n_raw, pos);
    forward_mtp_head(&mut ops, d.n_vocab);
    ops.push(DraftOp::UseDevice { second: false });
    ops.push(DraftOp::Sync { lane: Lane::Compute });
    let next: u32 = if n_raw < SWA_WINDOW {
        n_raw + 1
    } else {
        SWA_WINDOW
    };
    Ok(DraftPlan { ops, n_raw: next })
}

/// The cache never holds more keys than the window, a key goes to a slot in it, and
/// attention reads that slot.
pub proof fn a_drafts_key_is_read(n_raw: u32)
    requires
        n_raw <= SWA_WINDOW,
    ensures
        draft_slot(n_raw) < draft_keys(n_raw) <= SWA_WINDOW,
{
}

} // verus!
