//! What a draft computes: the value that each operation leaves, followed from the
//! last token's row and the main model's residual to the logits.

use vstd::prelude::*;
use crate::config::{
    HC_MIX_DIM, N_EMBD, N_EXPERT, N_EXPERT_USED, N_FF_EXP, N_FF_SHARED, N_HC, N_HEAD,
    N_HEAD_DIM, N_LORA_Q, SWA_WINDOW,
};
use crate::layer_ops::Lane;
use crate::mtp;
use crate::mtp::{Buf, DraftOp, MtpDims, Weight};

verus! {

/// A value, by how it was computed.
pub enum Val {
    /// What a buffer held in front of the draft.
    Given(Buf),
    Normed(Weight, Box<Val>),
    /// Rows that were normed without a weight.
    PlainNormed(u32, Box<Val>),
    /// Rows that were normed with the same weight each.
    NormedRows(Weight, u32, Box<Val>),
    Quantized(Box<Val>),
    Projected(Weight, Box<Val>),
    Grouped(Weight, u32, u32, u32, Box<Val>),
    /// The same row again and again.
    Repeated(u32, Box<Val>),
    Row(u32, Box<Val>),
    WithRow(Box<Val>, u32, Box<Val>),
    Sum(Box<Val>, Box<Val>),
    Split(Weight, Box<Val>),
    Collapsed(Box<Val>, Box<Val>),
    /// A half-layer's result, its residual, and what it is blended by.
    Blended(Box<Val>, Box<Val>, Box<Val>),
    Rotated(u32, u32, Box<Val>),
    RotatedBack(u32, u32, Box<Val>),
    InFp8(u32, Box<Val>),
    Rounded(Box<Val>),
    /// A cache with one more key.
    Appended(Box<Val>, u32, Box<Val>),
    /// A query over the first keys of a cache.
    Attended(Box<Val>, Box<Val>, u32),
    Picks(u32, Box<Val>),
    PickWeights(u32, Box<Val>),
    Gated(Box<Val>, Box<Val>),
    Squashed(Weight, Box<Val>),
    /// The inner values of picked experts: input, weights, picks.
    Inner(Box<Val>, Box<Val>, Box<Val>),
    /// The sum of picked experts: inner values, picks.
    Outer(Box<Val>, Box<Val>),
}

pub open spec fn normed(w: Weight, v: Val) -> Val {
    Val::Normed(w, Box::new(v))
}

pub open spec fn quantized(v: Val) -> Val {
    Val::Quantized(Box::new(v))
}

pub open spec fn projected(w: Weight, v: Val) -> Val {
    Val::Projected(w, Box::new(v))
}

pub open spec fn plain(rows: u32, v: Val) -> Val {
    Val::PlainNormed(rows, Box::new(v))
}

/// The values of the buffers after one more operation.
pub open spec fn after_op(s: Map<Buf, Val>, op: DraftOp) -> Map<Buf, Val> {
    match op {
        DraftOp::Upload { dst, src, .. } => s.insert(dst, s[src]),
        DraftOp::Norm { dst, src, weight, .. } => s.insert(dst, normed(weight, s[src])),
        DraftOp::PlainNorm { dst, src, rows, .. } => s.insert(dst, plain(rows, s[src])),
        DraftOp::Quantize { dst, src, .. } => s.insert(dst, quantized(s[src])),
        DraftOp::Project { dst, weight, src, .. } => s.insert(dst, projected(weight, s[src])),
        DraftOp::ProjectF16 { dst, weight, src, .. } => s.insert(dst, projected(weight, s[src])),
        DraftOp::ProjectGrouped { dst, weight, src, group, rank, groups } => s.insert(
            dst,
            Val::Grouped(weight, group, rank, groups, Box::new(s[src])),
        ),
        DraftOp::Repeat { dst, src, rows, .. } => s.insert(dst, Val::Repeated(rows, Box::new(s[src]))),
        DraftOp::HostNorm { dst, src, weight, rows, .. } => s.insert(
            dst,
            Val::NormedRows(weight, rows, Box::new(s[src])),
        ),
        DraftOp::TakeRow { dst, src, row, .. } => s.insert(dst, Val::Row(row, Box::new(s[src]))),
        DraftOp::PutRow { dst, src, row, .. } => s.insert(
            dst,
            Val::WithRow(Box::new(s[dst]), row, Box::new(s[src])),
        ),
        DraftOp::Copy { dst, src } => s.insert(dst, s[src]),
        DraftOp::AddInto { dst, src, .. } => s.insert(dst, Val::Sum(Box::new(s[dst]), Box::new(s[src]))),
        DraftOp::Sinkhorn { dst, src, weight } => s.insert(dst, Val::Split(weight, Box::new(s[src]))),
        DraftOp::Collapse { dst, src, by } => s.insert(
            dst,
            Val::Collapsed(Box::new(s[src]), Box::new(s[by])),
        ),
        DraftOp::Blend { dst, src, residual, by } => s.insert(
            dst,
            Val::Blended(Box::new(s[src]), Box::new(s[residual]), Box::new(s[by])),
        ),
        DraftOp::Rope { buf, n_rot, pos, .. } => s.insert(buf, Val::Rotated(n_rot, pos, Box::new(s[buf]))),
        DraftOp::RopeBack { buf, n_rot, pos, .. } => s.insert(
            buf,
            Val::RotatedBack(n_rot, pos, Box::new(s[buf])),
        ),
        DraftOp::Fp8 { buf, n } => s.insert(buf, Val::InFp8(n, Box::new(s[buf]))),
        DraftOp::RoundF16 { buf, .. } => s.insert(buf, Val::Rounded(Box::new(s[buf]))),
        DraftOp::KvAppend { dst, src, slot } => s.insert(
            dst,
            Val::Appended(Box::new(s[dst]), slot, Box::new(s[src])),
        ),
        DraftOp::Attend { dst, q, kv, n_kv } => s.insert(
            dst,
            Val::Attended(Box::new(s[q]), Box::new(s[kv]), n_kv),
        ),
        DraftOp::RouterTopk { selected, weights, src, k, .. } => s.insert(
            selected,
            Val::Picks(k, Box::new(s[src])),
        ).insert(weights, Val::PickWeights(k, Box::new(s[src]))),
        DraftOp::Swiglu { dst, gate, up, .. } => s.insert(
            dst,
            Val::Gated(Box::new(s[gate]), Box::new(s[up])),
        ),
        DraftOp::Sigmoid { dst, src, weight, .. } => s.insert(
            dst,
            Val::Squashed(weight, Box::new(s[src])),
        ),
        DraftOp::Push { dst, src, .. } => s.insert(dst, s[src]),
        DraftOp::Sync { .. } => s,
        DraftOp::UseDevice { .. } => s,
        DraftOp::QuantizeK { dst, src, .. } => s.insert(dst, quantized(s[src])),
        DraftOp::PairSwiglu { dst, src, weights, selected, .. } => s.insert(
            dst,
            Val::Inner(Box::new(s[src]), Box::new(s[weights]), Box::new(s[selected])),
        ),
        DraftOp::Down { dst, src, selected, .. } => s.insert(
            dst,
            Val::Outer(Box::new(s[src]), Box::new(s[selected])),
        ),
    }
}

/// The values of the buffers after some operations.
pub open spec fn values(ops: Seq<DraftOp>) -> Map<Buf, Val>
    decreases ops.len(),
{
    if ops.len() == 0 {
        Map::new(|b: Buf| true, |b: Buf| Val::Given(b))
    } else {
        after_op(values(ops.drop_last()), ops.last())
    }
}

broadcast proof fn lemma_push_values(ops: Seq<DraftOp>, op: DraftOp)
    ensures
        #[trigger] values(ops.push(op)) == after_op(values(ops), op),
{
    assert(ops.push(op).drop_last() =~= ops);
}

/// The last token's share: its row, normed and projected, for every residual copy.
pub open spec fn token_share() -> Val {
    Val::Repeated(
        N_HC,
        Box::new(projected(Weight::EProj, quantized(normed(Weight::Enorm, Val::Given(Buf::TokenRow))))),
    )
}

/// The context's share in the first `n` residual copies: each copy of the main
/// model's residual, normed and projected.
pub open spec fn context_share(n: nat) -> Val
    decreases n,
{
    if n == 0 {
        Val::Given(Buf::HprojHc)
    } else {
        let normed = Val::NormedRows(Weight::Hnorm, N_HC, Box::new(Val::Given(Buf::PrevHc)));
        let row = Val::Row((n - 1) as u32, Box::new(normed));
        Val::WithRow(
            Box::new(context_share((n - 1) as nat)),
            (n - 1) as u32,
            Box::new(projected(Weight::HProj, quantized(row))),
        )
    }
}

/// What the draft layer starts from: the sum of both shares.
pub open spec fn draft_input() -> Val {
    Val::Sum(Box::new(token_share()), Box::new(context_share(N_HC as nat)))
}

/// How the residual copies are weighted in front of one half of the layer.
pub open spec fn split_of(x: Val, by: Weight, scale: Weight) -> Val {
    Val::Split(scale, Box::new(projected(by, plain(1, x))))
}

pub open spec fn half_input(x: Val, by: Weight, scale: Weight, norm: Weight) -> Val {
    normed(norm, Val::Collapsed(Box::new(x), Box::new(split_of(x, by, scale))))
}

pub open spec fn query_of(a: Val, n_rot: u32, pos: u32) -> Val {
    let low = quantized(normed(Weight::QANorm, projected(Weight::AttnQA, quantized(a))));
    Val::Rotated(n_rot, pos, Box::new(plain(N_HEAD, projected(Weight::AttnQB, low))))
}

pub open spec fn key_of(a: Val, n_rot: u32, pos: u32) -> Val {
    let key = normed(Weight::KvANorm, projected(Weight::AttnKv, quantized(a)));
    Val::Rounded(
        Box::new(
            Val::InFp8(
                (N_HEAD_DIM - n_rot) as u32,
                Box::new(Val::Rotated(n_rot, pos, Box::new(key))),
            ),
        ),
    )
}

/// The draft layer's cache with the token's key in `slot`.
pub open spec fn cache_with(x: Val, n_rot: u32, pos: u32, slot: u32) -> Val {
    let a = half_input(x, Weight::HcAttnFn, Weight::HcAttn, Weight::AttnNorm);
    Val::Appended(Box::new(Val::Given(Buf::KvCache)), slot, Box::new(key_of(a, n_rot, pos)))
}

/// The residual behind attention, which reads `n_kv` keys.
pub open spec fn behind_attention(x: Val, d: MtpDims, pos: u32, slot: u32, n_kv: u32) -> Val {
    let a = half_input(x, Weight::HcAttnFn, Weight::HcAttn, Weight::AttnNorm);
    let heads = Val::Attended(
        Box::new(query_of(a, d.n_rot, pos)),
        Box::new(cache_with(x, d.n_rot, pos, slot)),
        n_kv,
    );
    let back = Val::RotatedBack(d.n_rot, pos, Box::new(heads));
    let low = Val::Grouped(Weight::AttnOutputA, d.group_dim, d.rank, d.n_groups, Box::new(quantized(back)));
    let out = projected(Weight::AttnOutputB, quantized(low));
    Val::Blended(
        Box::new(out),
        Box::new(x),
        Box::new(split_of(x, Weight::HcAttnFn, Weight::HcAttn)),
    )
}

pub open spec fn shared_sum(a: Val) -> Val {
    let gated = Val::Gated(
        Box::new(projected(Weight::GateShexp, quantized(a))),
        Box::new(projected(Weight::UpShexp, quantized(a))),
    );
    projected(Weight::DownShexp, quantized(gated))
}

pub open spec fn routed_sum(a: Val) -> Val {
    let scores = projected(Weight::GateInp, a);
    let picks = Val::Picks(N_EXPERT_USED as u32, Box::new(scores));
    let weights = Val::PickWeights(N_EXPERT_USED as u32, Box::new(scores));
    let inner = Val::Inner(Box::new(quantized(a)), Box::new(weights), Box::new(picks));
    Val::Outer(Box::new(quantized(inner)), Box::new(picks))
}

/// The residual behind the experts: the routed ones' sum and the shared one's.
pub open spec fn behind_experts(x: Val) -> Val {
    let a = half_input(x, Weight::HcFfnFn, Weight::HcFfn, Weight::FfnNorm);
    Val::Blended(
        Box::new(Val::Sum(Box::new(routed_sum(a)), Box::new(shared_sum(a)))),
        Box::new(x),
        Box::new(split_of(x, Weight::HcFfnFn, Weight::HcFfn)),
    )
}

/// The logits of a residual, through the main model's vocabulary.
pub open spec fn logits_of(x: Val) -> Val {
    let by = Val::Squashed(Weight::HcHead, Box::new(projected(Weight::HcHeadFn, plain(1, x))));
    let row = normed(Weight::OutNorm, Val::Collapsed(Box::new(x), Box::new(by)));
    projected(Weight::Output, quantized(row))
}

proof fn lemma_rows(ops: Seq<DraftOp>, n: nat)
    requires
        n <= N_HC,
        values(ops)[Buf::HnormHc] == Val::NormedRows(
            Weight::Hnorm,
            N_HC,
            Box::new(Val::Given(Buf::PrevHc)),
        ),
        values(ops)[Buf::HprojHc] == Val::Given(Buf::HprojHc),
    ensures
        ({
            let t = values(mtp::project_rows_ops(ops, n));
            &&& t[Buf::HprojHc] == context_share(n)
            &&& t[Buf::HnormHc] == values(ops)[Buf::HnormHc]
            &&& t[Buf::EprojHc] == values(ops)[Buf::EprojHc]
            &&& t[Buf::KvCache] == values(ops)[Buf::KvCache]
        }),
    decreases n,
{
    broadcast use lemma_push_values;

    if n > 0 {
        lemma_rows(ops, (n - 1) as nat);
    }
}

proof fn lemma_input(start: Seq<DraftOp>)
    requires
        forall|b: Buf| #[trigger] values(start)[b] == Val::Given(b),
    ensures
        ({
            let t = values(mtp::join_ops(mtp::residual_ops(mtp::embed_ops(start))));
            &&& t[Buf::InputHc] == draft_input()
            &&& t[Buf::KvCache] == Val::Given(Buf::KvCache)
        }),
{
    broadcast use lemma_push_values;

    let a = mtp::embed_ops(start);
    assert(values(a)[Buf::EprojHc] == token_share());
    assert(values(a)[Buf::PrevHc] == Val::Given(Buf::PrevHc));
    assert(values(a)[Buf::HprojHc] == Val::Given(Buf::HprojHc));
    assert(values(a)[Buf::KvCache] == Val::Given(Buf::KvCache));
    let b = a.push(
        DraftOp::HostNorm {
            dst: Buf::HnormHc,
            src: Buf::PrevHc,
            weight: Weight::Hnorm,
            rows: N_HC,
            n: N_EMBD,
        },
    );
    lemma_rows(b, N_HC as nat);
}

proof fn lemma_attention(ops: Seq<DraftOp>, x: Val, d: MtpDims, pos: u32, slot: u32, n_kv: u32)
    requires
        values(ops)[Buf::InputHc] == x,
        values(ops)[Buf::KvCache] == Val::Given(Buf::KvCache),
    ensures
        ({
            let b = mtp::keys_ops(
                mtp::query_ops(mtp::collapse_attn_ops(ops), d.n_rot, pos),
                d.n_rot,
                pos,
                slot,
            );
            let t = values(mtp::attention_ops(b, d, pos, n_kv));
            &&& t[Buf::AfterAttn] == behind_attention(x, d, pos, slot, n_kv)
            &&& t[Buf::KvCache] == cache_with(x, d.n_rot, pos, slot)
        }),
{
    broadcast use lemma_push_values;

    let at = half_input(x, Weight::HcAttnFn, Weight::HcAttn, Weight::AttnNorm);
    let split = split_of(x, Weight::HcAttnFn, Weight::HcAttn);
    let c = mtp::collapse_attn_ops(ops);
    assert(values(c)[Buf::AttnIn] == at);
    assert(values(c)[Buf::Split] == split);
    assert(values(c)[Buf::InputHc] == x);
    assert(values(c)[Buf::KvCache] == Val::Given(Buf::KvCache));
    let q = mtp::query_ops(c, d.n_rot, pos);
    assert(values(q)[Buf::QNormed] == query_of(at, d.n_rot, pos));
    assert(values(q)[Buf::Xq] == quantized(at));
    assert(values(q)[Buf::Split] == split);
    assert(values(q)[Buf::InputHc] == x);
    assert(values(q)[Buf::KvCache] == Val::Given(Buf::KvCache));
    let k = mtp::keys_ops(q, d.n_rot, pos, slot);
    assert(values(k)[Buf::KvCache] == cache_with(x, d.n_rot, pos, slot));
    assert(values(k)[Buf::QNormed] == query_of(at, d.n_rot, pos));
    assert(values(k)[Buf::Split] == split);
    assert(values(k)[Buf::InputHc] == x);
}

proof fn lemma_experts(ops: Seq<DraftOp>, x: Val, bpe: u32)
    requires
        values(ops)[Buf::AfterAttn] == x,
    ensures
        ({
            let e = mtp::send_ops(mtp::shared_ops(mtp::route_ops(mtp::collapse_ffn_ops(ops))));
            let t = values(mtp::combine_ops(mtp::routed_ops(e, bpe)));
            &&& t[Buf::NextHc] == behind_experts(x)
            &&& t[Buf::KvCache] == values(ops)[Buf::KvCache]
        }),
{
    broadcast use lemma_push_values;

    let a = half_input(x, Weight::HcFfnFn, Weight::HcFfn, Weight::FfnNorm);
    let split = split_of(x, Weight::HcFfnFn, Weight::HcFfn);
    let scores = projected(Weight::GateInp, a);
    let picks = Val::Picks(N_EXPERT_USED as u32, Box::new(scores));
    let weights = Val::PickWeights(N_EXPERT_USED as u32, Box::new(scores));
    let cache = values(ops)[Buf::KvCache];
    let c = mtp::collapse_ffn_ops(ops);
    assert(values(c)[Buf::FfnIn] == a);
    assert(values(c)[Buf::Split] == split);
    assert(values(c)[Buf::AfterAttn] == x);
    assert(values(c)[Buf::KvCache] == cache);
    let r = mtp::route_ops(c);
    assert(values(r)[Buf::Selected] == picks);
    assert(values(r)[Buf::ExpertWeights] == weights);
    assert(values(r)[Buf::FfnIn] == a);
    assert(values(r)[Buf::Split] == split);
    assert(values(r)[Buf::AfterAttn] == x);
    assert(values(r)[Buf::KvCache] == cache);
    let h = mtp::shared_ops(r);
    assert(values(h)[Buf::FfnShared] == shared_sum(a));
    assert(values(h)[Buf::Selected] == picks);
    assert(values(h)[Buf::ExpertWeights] == weights);
    assert(values(h)[Buf::FfnIn] == a);
    assert(values(h)[Buf::Split] == split);
    assert(values(h)[Buf::AfterAttn] == x);
    assert(values(h)[Buf::KvCache] == cache);
    let e = mtp::send_ops(h);
    assert(values(e)[Buf::FfnShared] == shared_sum(a));
    assert(values(e)[Buf::IgpuSelected] == picks);
    assert(values(e)[Buf::IgpuWeights] == weights);
    assert(values(e)[Buf::IgpuFfnIn] == a);
    assert(values(e)[Buf::Split] == split);
    assert(values(e)[Buf::AfterAttn] == x);
    assert(values(e)[Buf::KvCache] == cache);
    let m = mtp::routed_ops(e, bpe);
    assert(values(m)[Buf::MoeRecv] == routed_sum(a));
    assert(values(m)[Buf::FfnShared] == shared_sum(a));
    assert(values(m)[Buf::Split] == split);
    assert(values(m)[Buf::AfterAttn] == x);
    assert(values(m)[Buf::KvCache] == cache);
}

proof fn lemma_head(ops: Seq<DraftOp>, x: Val, n_vocab: u32)
    requires
        values(ops)[Buf::NextHc] == x,
    ensures
        values(mtp::mtp_head_ops(ops, n_vocab))[Buf::Logits] == logits_of(x),
        values(mtp::mtp_head_ops(ops, n_vocab))[Buf::KvCache] == values(ops)[Buf::KvCache],
        values(mtp::mtp_head_ops(ops, n_vocab))[Buf::NextHc] == x,
{
    broadcast use lemma_push_values;

}

/// The logits of a draft are those of one layer over the sum of two shares: the last
/// token's row, and the main model's residual. The layer attends to the cache with
/// the token's own key in it, then adds the routed experts' sum and the shared one's.
/// The keys fill the cache in order up to the window, and attention reads them all.
pub proof fn a_draft_computes_its_layer(d: MtpDims, n_raw: u32, pos: u32)
    ensures
        ({
            let slot = if n_raw < SWA_WINDOW {
                n_raw
            } else {
                (SWA_WINDOW - 1) as u32
            };
            let n_kv = (slot + 1) as u32;
            let t = values(mtp::draft_ops(d, n_raw, pos));
            let x = behind_attention(draft_input(), d, pos, slot, n_kv);
            &&& t[Buf::Logits] == logits_of(behind_experts(x))
            &&& t[Buf::NextHc] == behind_experts(x)
            &&& t[Buf::KvCache] == cache_with(draft_input(), d.n_rot, pos, slot)
            &&& mtp::draft_keys(n_raw) == n_kv
        }),
{
    let slot = mtp::draft_slot(n_raw);
    let n_kv = mtp::draft_keys(n_raw);
    let none = Seq::<DraftOp>::empty();
    let first = DraftOp::UseDevice { second: false };
    let start = seq![first];
    assert(start =~= none.push(first));
    lemma_push_values(none, first);
    assert(forall|b: Buf| #[trigger] values(start)[b] == Val::Given(b));
    lemma_input(start);
    let a = mtp::join_ops(mtp::residual_ops(mtp::embed_ops(start)));
    lemma_attention(a, draft_input(), d, pos, slot, n_kv);
    let b = mtp::attention_ops(
        mtp::keys_ops(mtp::query_ops(mtp::collapse_attn_ops(a), d.n_rot, pos), d.n_rot, pos, slot),
        d,
        pos,
        n_kv,
    );
    let x = behind_attention(draft_input(), d, pos, slot, n_kv);
    lemma_experts(b, x, mtp::expert_bytes(d.block_bytes));
    let layer = mtp::mtp_layer_ops(a, d, n_raw, pos);
    lemma_head(layer, behind_experts(x), d.n_vocab);
    let head = mtp::mtp_head_ops(layer, d.n_vocab);
    lemma_push_values(head, first);
    lemma_push_values(head.push(first), DraftOp::Sync { lane: Lane::Compute });
}

/// Values of a buffer.
pub open spec fn extent(b: Buf, d: MtpDims) -> int {
    match b {
        Buf::PrevHc | Buf::EprojHc | Buf::HnormHc | Buf::HprojHc | Buf::InputHc | Buf::Flat
        | Buf::AfterAttn | Buf::NextHc | Buf::HeadFlat => N_HC * N_EMBD,
        Buf::Mix | Buf::Split => HC_MIX_DIM as int,
        Buf::Qr | Buf::QrNormed | Buf::QrXq => N_LORA_Q as int,
        Buf::Q | Buf::QNormed | Buf::Heads | Buf::HeadsXq => N_HEAD * N_HEAD_DIM,
        Buf::KvRaw | Buf::KvNormed => N_HEAD_DIM as int,
        Buf::KvCache => SWA_WINDOW * N_HEAD_DIM,
        Buf::Low | Buf::LowXq => d.out_low as int,
        Buf::RouterLogits => N_EXPERT as int,
        Buf::Selected | Buf::ExpertWeights | Buf::IgpuSelected | Buf::IgpuWeights => N_EXPERT_USED as int,
        Buf::GateSh | Buf::UpSh | Buf::MidSh | Buf::MidShXq => N_FF_SHARED as int,
        Buf::Mid | Buf::MidXq => N_EXPERT_USED * N_FF_EXP,
        Buf::HeadPre | Buf::HeadW => N_HC as int,
        Buf::Logits => d.n_vocab as int,
        _ => N_EMBD as int,
    }
}

/// An operation covers the whole of what it reads and writes, and no more. A
/// quantized block has 256 values, and takes 292 bytes.
pub open spec fn covers(op: DraftOp, d: MtpDims) -> bool {
    match op {
        DraftOp::Upload { dst, src, n } => n == extent(dst, d) && n == extent(src, d),
        DraftOp::Norm { dst, src, n, .. } => n == extent(dst, d) && n == extent(src, d),
        DraftOp::PlainNorm { dst, src, rows, n } => rows * n == extent(dst, d) && rows * n == extent(src, d),
        DraftOp::Quantize { dst, src, n } => n == extent(dst, d) && n == extent(src, d),
        DraftOp::Project { dst, src, rows, cols, .. } => rows == extent(dst, d) && cols == extent(src, d),
        DraftOp::ProjectF16 { dst, src, rows, cols, .. } => rows == extent(dst, d) && cols == extent(src, d),
        DraftOp::ProjectGrouped { dst, src, group, rank, groups, .. } => groups * rank == extent(dst, d)
            && groups * group == extent(src, d),
        DraftOp::Repeat { dst, src, rows, n } => rows * n == extent(dst, d) && n == extent(src, d),
        DraftOp::HostNorm { dst, src, rows, n, .. } => rows * n == extent(dst, d) && rows * n == extent(src, d),
        DraftOp::TakeRow { dst, src, row, n } => n == extent(dst, d) && (row + 1) * n <= extent(src, d),
        DraftOp::PutRow { dst, src, row, n } => n == extent(src, d) && (row + 1) * n <= extent(dst, d),
        DraftOp::Copy { dst, src } => extent(dst, d) == extent(src, d),
        DraftOp::AddInto { dst, src, n } => n == extent(dst, d) && n == extent(src, d),
        DraftOp::Sinkhorn { dst, src, .. } => extent(dst, d) == extent(src, d),
        DraftOp::Collapse { dst, src, .. } => N_HC * extent(dst, d) == extent(src, d),
        DraftOp::Blend { dst, src, residual, .. } => extent(dst, d) == extent(residual, d) && N_HC * extent(src, d)
            == extent(dst, d),
        DraftOp::Rope { buf, rows, n_rot, .. } => rows * N_HEAD_DIM == extent(buf, d) && n_rot == d.n_rot,
        DraftOp::RopeBack { buf, rows, n_rot, .. } => rows * N_HEAD_DIM == extent(buf, d) && n_rot == d.n_rot,
        DraftOp::Fp8 { buf, n } => n + d.n_rot == extent(buf, d),
        DraftOp::RoundF16 { buf, n } => n == extent(buf, d),
        DraftOp::KvAppend { dst, src, slot } => (slot + 1) * extent(src, d) <= extent(dst, d),
        DraftOp::Attend { dst, q, kv, n_kv } => extent(dst, d) == extent(q, d) && n_kv * N_HEAD_DIM
            <= extent(kv, d),
        DraftOp::RouterTopk { selected, weights, src, n, k } => n == extent(src, d) && k == extent(selected, d)
            && k == extent(weights, d),
        DraftOp::Swiglu { dst, gate, up, n } => n == extent(dst, d) && n == extent(gate, d) && n == extent(up, d),
        DraftOp::Sigmoid { dst, src, n, .. } => n == extent(dst, d) && n == extent(src, d),
        DraftOp::Push { dst, src, .. } => extent(dst, d) == extent(src, d),
        DraftOp::Sync { .. } => true,
        DraftOp::UseDevice { .. } => true,
        DraftOp::QuantizeK { dst, src, blocks } => blocks * 256 == extent(src, d) && extent(dst, d) == extent(src, d),
        DraftOp::PairSwiglu { dst, src, weights, selected, bytes_per_expert, experts, n, blocks } => {
            &&& experts * n == extent(dst, d)
            &&& blocks * 256 == extent(src, d)
            &&& experts == extent(selected, d)
            &&& experts == extent(weights, d)
            &&& bytes_per_expert == n * blocks * d.block_bytes
        },
        DraftOp::Down { dst, src, selected, bytes_per_expert, mid_bytes, experts, n, blocks } => {
            &&& n == extent(dst, d)
            &&& experts * (blocks * 256) == extent(src, d)
            &&& mid_bytes == blocks * 292
            &&& experts == extent(selected, d)
            &&& bytes_per_expert == n * blocks * d.block_bytes
        },
    }
}

pub open spec fn all_cover(ops: Seq<DraftOp>, d: MtpDims) -> bool
    decreases ops.len(),
{
    ops.len() == 0 || (all_cover(ops.drop_last(), d) && covers(ops.last(), d))
}

broadcast proof fn lemma_push_cover(ops: Seq<DraftOp>, op: DraftOp, d: MtpDims)
    ensures
        #[trigger] all_cover(ops.push(op), d) == (all_cover(ops, d) && covers(op, d)),
{
    assert(ops.push(op).drop_last() =~= ops);
}

proof fn lemma_rows_cover(ops: Seq<DraftOp>, d: MtpDims, n: nat)
    requires
        n <= N_HC,
        all_cover(ops, d),
    ensures
        all_cover(mtp::project_rows_ops(ops, n), d),
    decreases n,
{
    broadcast use lemma_push_cover;

    if n > 0 {
        lemma_rows_cover(ops, d, (n - 1) as nat);
        assert(n * N_EMBD <= N_HC * N_EMBD) by (nonlinear_arith)
            requires
                n <= N_HC,
        ;
    }
}

#[verifier::rlimit(40)]
proof fn lemma_layer_covers(ops: Seq<DraftOp>, d: MtpDims, n_raw: u32, pos: u32)
    requires
        all_cover(ops, d),
        d.n_rot <= N_HEAD_DIM,
        d.block_bytes <= 0xffff,
        d.n_groups * d.rank == d.out_low,
        d.n_groups * d.group_dim == N_HEAD * N_HEAD_DIM,
    ensures
        all_cover(mtp::mtp_layer_ops(ops, d, n_raw, pos), d),
{
    broadcast use lemma_push_cover;

    let slot = mtp::draft_slot(n_raw);
    let n_kv = mtp::draft_keys(n_raw);
    let bpe = mtp::expert_bytes(d.block_bytes);
    assert(bpe == 46080 * d.block_bytes) by {
        assert(N_EMBD * N_FF_EXP * d.block_bytes / 256 == 46080 * d.block_bytes) by (nonlinear_arith)
            requires
                N_EMBD == 5120,
                N_FF_EXP == 2304,
        ;
    }
    let a = mtp::collapse_attn_ops(ops);
    assert(all_cover(a, d));
    let b = mtp::query_ops(a, d.n_rot, pos);
    assert(all_cover(b, d));
    let c = mtp::keys_ops(b, d.n_rot, pos, slot);
    assert(all_cover(c, d));
    let e = mtp::attention_ops(c, d, pos, n_kv);
    assert(all_cover(e, d));
    let f = mtp::collapse_ffn_ops(e);
    assert(all_cover(f, d));
    let g = mtp::route_ops(f);
    assert(all_cover(g, d));
    let h = mtp::shared_ops(g);
    assert(all_cover(h, d));
    let i = mtp::send_ops(h);
    assert(all_cover(i, d));
    let j = mtp::routed_ops(i, bpe);
    assert(all_cover(j, d));
}

/// Every operation of a draft covers the whole of its buffers: nothing is left over
/// from before, and nothing is written past an end.
pub proof fn a_drafts_operations_cover_their_buffers(d: MtpDims, n_raw: u32, pos: u32)
    requires
        d.n_rot <= N_HEAD_DIM,
        d.block_bytes <= 0xffff,
        d.n_groups * d.rank == d.out_low,
        d.n_groups * d.group_dim == N_HEAD * N_HEAD_DIM,
    ensures
        all_cover(mtp::draft_ops(d, n_raw, pos), d),
{
    let none = Seq::<DraftOp>::empty();
    let first = DraftOp::UseDevice { second: false };
    let start = seq![first];
    assert(start =~= none.push(first));
    lemma_push_cover(none, first, d);
    let a = mtp::embed_ops(start);
    assert(all_cover(a, d)) by {
        broadcast use lemma_push_cover;

    }
    let normed = DraftOp::HostNorm {
        dst: Buf::HnormHc,
        src: Buf::PrevHc,
        weight: Weight::Hnorm,
        rows: N_HC,
        n: N_EMBD,
    };
    lemma_push_cover(a, normed, d);
    lemma_rows_cover(a.push(normed), d, N_HC as nat);
    let b = mtp::residual_ops(a);
    let joined = mtp::join_ops(b);
    assert(all_cover(joined, d)) by {
        broadcast use lemma_push_cover;

    }
    lemma_layer_covers(joined, d, n_raw, pos);
    let layer = mtp::mtp_layer_ops(joined, d, n_raw, pos);
    let head = mtp::mtp_head_ops(layer, d.n_vocab);
    assert(all_cover(head, d)) by {
        broadcast use lemma_push_cover;

    }
    lemma_push_cover(head, first, d);
    lemma_push_cover(head.push(first), DraftOp::Sync { lane: Lane::Compute }, d);
}

} // verus!
