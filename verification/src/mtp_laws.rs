//! What holds of every draft: a value is computed before it is read, and it has
//! settled before another lane, another device or the host reads it.

use vstd::prelude::*;
use crate::config::{N_EMBD, N_HC};
use crate::layer_ops::Lane;
use crate::mtp;
use crate::mtp::{Buf, DraftOp, MtpDims, Weight};

verus! {

/// Where a buffer's value stands.
pub enum Place {
    /// It has none yet.
    Unset,
    /// Everyone can read it.
    Settled,
    /// A lane is still at it.
    Pending(Lane),
}

/// The lane that an operation runs on. The host waits for its own.
pub open spec fn lane_of(op: DraftOp) -> Option<Lane> {
    match op {
        DraftOp::Upload { .. } => None,
        DraftOp::Repeat { .. } => None,
        DraftOp::HostNorm { .. } => None,
        DraftOp::TakeRow { .. } => None,
        DraftOp::PutRow { .. } => None,
        DraftOp::Copy { .. } => None,
        DraftOp::Push { lane, .. } => Some(lane),
        DraftOp::QuantizeK { .. } => Some(Lane::IgpuCompute),
        DraftOp::PairSwiglu { .. } => Some(Lane::IgpuCompute),
        DraftOp::Down { .. } => Some(Lane::IgpuCompute),
        _ => Some(Lane::Compute),
    }
}

/// An operation reads a buffer.
pub open spec fn reads(op: DraftOp, b: Buf) -> bool {
    match op {
        DraftOp::Upload { src, .. } => b == src,
        DraftOp::Norm { src, .. } => b == src,
        DraftOp::PlainNorm { src, .. } => b == src,
        DraftOp::Quantize { src, .. } => b == src,
        DraftOp::Project { src, .. } => b == src,
        DraftOp::ProjectF16 { src, .. } => b == src,
        DraftOp::ProjectGrouped { src, .. } => b == src,
        DraftOp::Repeat { src, .. } => b == src,
        DraftOp::HostNorm { src, .. } => b == src,
        DraftOp::TakeRow { src, .. } => b == src,
        DraftOp::PutRow { src, .. } => b == src,
        DraftOp::Copy { src, .. } => b == src,
        DraftOp::AddInto { dst, src, .. } => b == src || b == dst,
        DraftOp::Sinkhorn { src, .. } => b == src,
        DraftOp::Collapse { src, by, .. } => b == src || b == by,
        DraftOp::Blend { src, residual, by, .. } => b == src || b == residual || b == by,
        DraftOp::Rope { buf, .. } => b == buf,
        DraftOp::RopeBack { buf, .. } => b == buf,
        DraftOp::Fp8 { buf, .. } => b == buf,
        DraftOp::RoundF16 { buf, .. } => b == buf,
        DraftOp::KvAppend { dst, src, .. } => b == src || b == dst,
        DraftOp::Attend { q, kv, .. } => b == q || b == kv,
        DraftOp::RouterTopk { src, .. } => b == src,
        DraftOp::Swiglu { gate, up, .. } => b == gate || b == up,
        DraftOp::Sigmoid { src, .. } => b == src,
        DraftOp::Push { src, .. } => b == src,
        DraftOp::Sync { .. } => false,
        DraftOp::UseDevice { .. } => false,
        DraftOp::QuantizeK { src, .. } => b == src,
        DraftOp::PairSwiglu { src, weights, selected, .. } => b == src || b == weights || b
            == selected,
        DraftOp::Down { src, selected, .. } => b == src || b == selected,
    }
}

/// An operation writes a buffer.
pub open spec fn writes(op: DraftOp, b: Buf) -> bool {
    match op {
        DraftOp::Upload { dst, .. } => b == dst,
        DraftOp::Norm { dst, .. } => b == dst,
        DraftOp::PlainNorm { dst, .. } => b == dst,
        DraftOp::Quantize { dst, .. } => b == dst,
        DraftOp::Project { dst, .. } => b == dst,
        DraftOp::ProjectF16 { dst, .. } => b == dst,
        DraftOp::ProjectGrouped { dst, .. } => b == dst,
        DraftOp::Repeat { dst, .. } => b == dst,
        DraftOp::HostNorm { dst, .. } => b == dst,
        DraftOp::TakeRow { dst, .. } => b == dst,
        DraftOp::PutRow { dst, .. } => b == dst,
        DraftOp::Copy { dst, .. } => b == dst,
        DraftOp::AddInto { dst, .. } => b == dst,
        DraftOp::Sinkhorn { dst, .. } => b == dst,
        DraftOp::Collapse { dst, .. } => b == dst,
        DraftOp::Blend { dst, .. } => b == dst,
        DraftOp::Rope { buf, .. } => b == buf,
        DraftOp::RopeBack { buf, .. } => b == buf,
        DraftOp::Fp8 { buf, .. } => b == buf,
        DraftOp::RoundF16 { buf, .. } => b == buf,
        DraftOp::KvAppend { dst, .. } => b == dst,
        DraftOp::Attend { dst, .. } => b == dst,
        DraftOp::RouterTopk { selected, weights, .. } => b == selected || b == weights,
        DraftOp::Swiglu { dst, .. } => b == dst,
        DraftOp::Sigmoid { dst, .. } => b == dst,
        DraftOp::Push { dst, .. } => b == dst,
        DraftOp::Sync { .. } => false,
        DraftOp::UseDevice { .. } => false,
        DraftOp::QuantizeK { dst, .. } => b == dst,
        DraftOp::PairSwiglu { dst, .. } => b == dst,
        DraftOp::Down { dst, .. } => b == dst,
    }
}

/// Where a value stands after one more operation.
pub open spec fn moved(p: Place, op: DraftOp, b: Buf) -> Place {
    if writes(op, b) {
        match lane_of(op) {
            Some(l) => Place::Pending(l),
            None => Place::Settled,
        }
    } else {
        match op {
            DraftOp::Sync { lane } => if p == Place::Pending(lane) {
                Place::Settled
            } else {
                p
            },
            _ => p,
        }
    }
}

/// Where a buffer's value stands after some operations. The token's row, the main
/// model's residual and the cache are there from the start.
pub open spec fn place(ops: Seq<DraftOp>, b: Buf) -> Place
    decreases ops.len(),
{
    if ops.len() == 0 {
        if b == Buf::TokenRow || b == Buf::PrevHc || b == Buf::KvCache {
            Place::Settled
        } else {
            Place::Unset
        }
    } else {
        moved(place(ops.drop_last(), b), ops.last(), b)
    }
}

/// A value can be read on a lane, or by the host.
pub open spec fn usable(p: Place, lane: Option<Lane>) -> bool {
    match p {
        Place::Unset => false,
        Place::Settled => true,
        Place::Pending(l) => lane == Some(l),
    }
}

/// An operation finds what it reads.
pub open spec fn finds(ops: Seq<DraftOp>, op: DraftOp) -> bool {
    forall|b: Buf| #[trigger] reads(op, b) ==> usable(place(ops, b), lane_of(op))
}

/// Every operation finds what it reads.
pub open spec fn sound(ops: Seq<DraftOp>) -> bool
    decreases ops.len(),
{
    ops.len() == 0 || (sound(ops.drop_last()) && finds(ops.drop_last(), ops.last()))
}

broadcast proof fn lemma_place_push(ops: Seq<DraftOp>, op: DraftOp, b: Buf)
    ensures
        #[trigger] place(ops.push(op), b) == moved(place(ops, b), op, b),
{
    assert(ops.push(op).drop_last() =~= ops);
}

broadcast proof fn lemma_sound_push(ops: Seq<DraftOp>, op: DraftOp)
    ensures
        #[trigger] sound(ops.push(op)) == (sound(ops) && finds(ops, op)),
{
    assert(ops.push(op).drop_last() =~= ops);
}

/// A value is there for the first device's lane.
spec fn ready(ops: Seq<DraftOp>, b: Buf) -> bool {
    usable(place(ops, b), Some(Lane::Compute))
}

/// A value is there for everyone.
spec fn there(ops: Seq<DraftOp>, b: Buf) -> bool {
    place(ops, b) == Place::Settled
}

proof fn lemma_embed(ops: Seq<DraftOp>)
    requires
        sound(ops),
        there(ops, Buf::TokenRow),
        there(ops, Buf::PrevHc),
        there(ops, Buf::KvCache),
    ensures
        sound(mtp::embed_ops(ops)),
        there(mtp::embed_ops(ops), Buf::EprojHc),
        there(mtp::embed_ops(ops), Buf::PrevHc),
        there(mtp::embed_ops(ops), Buf::KvCache),
{
    broadcast use {lemma_place_push, lemma_sound_push};

}

proof fn lemma_project_row(ops: Seq<DraftOp>, row: u32)
    requires
        sound(ops),
        there(ops, Buf::HnormHc),
        there(ops, Buf::EprojHc),
        there(ops, Buf::KvCache),
    ensures
        sound(mtp::project_row_ops(ops, row)),
        there(mtp::project_row_ops(ops, row), Buf::HnormHc),
        there(mtp::project_row_ops(ops, row), Buf::EprojHc),
        there(mtp::project_row_ops(ops, row), Buf::KvCache),
        there(mtp::project_row_ops(ops, row), Buf::HprojHc),
{
    broadcast use {lemma_place_push, lemma_sound_push};

}

proof fn lemma_project_rows(ops: Seq<DraftOp>, rows: nat)
    requires
        sound(ops),
        there(ops, Buf::HnormHc),
        there(ops, Buf::EprojHc),
        there(ops, Buf::KvCache),
    ensures
        sound(mtp::project_rows_ops(ops, rows)),
        there(mtp::project_rows_ops(ops, rows), Buf::HnormHc),
        there(mtp::project_rows_ops(ops, rows), Buf::EprojHc),
        there(mtp::project_rows_ops(ops, rows), Buf::KvCache),
        rows > 0 ==> there(mtp::project_rows_ops(ops, rows), Buf::HprojHc),
    decreases rows,
{
    if rows > 0 {
        lemma_project_rows(ops, (rows - 1) as nat);
        lemma_project_row(mtp::project_rows_ops(ops, (rows - 1) as nat), (rows - 1) as u32);
    }
}

proof fn lemma_residual(ops: Seq<DraftOp>)
    requires
        sound(ops),
        there(ops, Buf::PrevHc),
        there(ops, Buf::EprojHc),
        there(ops, Buf::KvCache),
    ensures
        sound(mtp::residual_ops(ops)),
        there(mtp::residual_ops(ops), Buf::EprojHc),
        there(mtp::residual_ops(ops), Buf::HprojHc),
        there(mtp::residual_ops(ops), Buf::KvCache),
{
    broadcast use {lemma_place_push, lemma_sound_push};

    let normed = ops.push(
        DraftOp::HostNorm {
            dst: Buf::HnormHc,
            src: Buf::PrevHc,
            weight: mtp::Weight::Hnorm,
            rows: crate::config::N_HC,
            n: crate::config::N_EMBD,
        },
    );
    assert(sound(normed) && there(normed, Buf::HnormHc));
    lemma_project_rows(normed, crate::config::N_HC as nat);
}

proof fn lemma_join(ops: Seq<DraftOp>)
    requires
        sound(ops),
        there(ops, Buf::EprojHc),
        there(ops, Buf::HprojHc),
        there(ops, Buf::KvCache),
    ensures
        sound(mtp::join_ops(ops)),
        ready(mtp::join_ops(ops), Buf::InputHc),
        ready(mtp::join_ops(ops), Buf::KvCache),
{
    broadcast use {lemma_place_push, lemma_sound_push};

}

proof fn lemma_collapse_attn(ops: Seq<DraftOp>)
    requires
        sound(ops),
        ready(ops, Buf::InputHc),
        ready(ops, Buf::KvCache),
    ensures
        sound(mtp::collapse_attn_ops(ops)),
        ready(mtp::collapse_attn_ops(ops), Buf::InputHc),
        ready(mtp::collapse_attn_ops(ops), Buf::KvCache),
        ready(mtp::collapse_attn_ops(ops), Buf::Split),
        ready(mtp::collapse_attn_ops(ops), Buf::AttnIn),
{
    broadcast use {lemma_place_push, lemma_sound_push};

}

proof fn lemma_query(ops: Seq<DraftOp>, n_rot: u32, pos: u32)
    requires
        sound(ops),
        ready(ops, Buf::InputHc),
        ready(ops, Buf::KvCache),
        ready(ops, Buf::Split),
        ready(ops, Buf::AttnIn),
    ensures
        sound(mtp::query_ops(ops, n_rot, pos)),
        ready(mtp::query_ops(ops, n_rot, pos), Buf::InputHc),
        ready(mtp::query_ops(ops, n_rot, pos), Buf::KvCache),
        ready(mtp::query_ops(ops, n_rot, pos), Buf::Split),
        ready(mtp::query_ops(ops, n_rot, pos), Buf::Xq),
        ready(mtp::query_ops(ops, n_rot, pos), Buf::QNormed),
{
    broadcast use {lemma_place_push, lemma_sound_push};

}

proof fn lemma_keys(ops: Seq<DraftOp>, n_rot: u32, pos: u32, slot: u32)
    requires
        sound(ops),
        ready(ops, Buf::InputHc),
        ready(ops, Buf::KvCache),
        ready(ops, Buf::Split),
        ready(ops, Buf::Xq),
        ready(ops, Buf::QNormed),
    ensures
        sound(mtp::keys_ops(ops, n_rot, pos, slot)),
        ready(mtp::keys_ops(ops, n_rot, pos, slot), Buf::InputHc),
        ready(mtp::keys_ops(ops, n_rot, pos, slot), Buf::KvCache),
        ready(mtp::keys_ops(ops, n_rot, pos, slot), Buf::Split),
        ready(mtp::keys_ops(ops, n_rot, pos, slot), Buf::QNormed),
{
    broadcast use {lemma_place_push, lemma_sound_push};

}

proof fn lemma_attention(ops: Seq<DraftOp>, d: MtpDims, pos: u32, n_kv: u32)
    requires
        sound(ops),
        ready(ops, Buf::InputHc),
        ready(ops, Buf::KvCache),
        ready(ops, Buf::Split),
        ready(ops, Buf::QNormed),
    ensures
        sound(mtp::attention_ops(ops, d, pos, n_kv)),
        ready(mtp::attention_ops(ops, d, pos, n_kv), Buf::AfterAttn),
{
    broadcast use {lemma_place_push, lemma_sound_push};

}

proof fn lemma_collapse_ffn(ops: Seq<DraftOp>)
    requires
        sound(ops),
        ready(ops, Buf::AfterAttn),
    ensures
        sound(mtp::collapse_ffn_ops(ops)),
        ready(mtp::collapse_ffn_ops(ops), Buf::AfterAttn),
        ready(mtp::collapse_ffn_ops(ops), Buf::Split),
        ready(mtp::collapse_ffn_ops(ops), Buf::FfnIn),
{
    broadcast use {lemma_place_push, lemma_sound_push};

}

proof fn lemma_route(ops: Seq<DraftOp>)
    requires
        sound(ops),
        ready(ops, Buf::AfterAttn),
        ready(ops, Buf::Split),
        ready(ops, Buf::FfnIn),
    ensures
        sound(mtp::route_ops(ops)),
        ready(mtp::route_ops(ops), Buf::AfterAttn),
        ready(mtp::route_ops(ops), Buf::Split),
        ready(mtp::route_ops(ops), Buf::FfnIn),
        ready(mtp::route_ops(ops), Buf::Selected),
        ready(mtp::route_ops(ops), Buf::ExpertWeights),
{
    broadcast use {lemma_place_push, lemma_sound_push};

}

proof fn lemma_shared(ops: Seq<DraftOp>)
    requires
        sound(ops),
        ready(ops, Buf::AfterAttn),
        ready(ops, Buf::Split),
        ready(ops, Buf::FfnIn),
        ready(ops, Buf::Selected),
        ready(ops, Buf::ExpertWeights),
    ensures
        sound(mtp::shared_ops(ops)),
        ready(mtp::shared_ops(ops), Buf::AfterAttn),
        ready(mtp::shared_ops(ops), Buf::Split),
        ready(mtp::shared_ops(ops), Buf::FfnIn),
        ready(mtp::shared_ops(ops), Buf::Selected),
        ready(mtp::shared_ops(ops), Buf::ExpertWeights),
        ready(mtp::shared_ops(ops), Buf::FfnShared),
{
    broadcast use {lemma_place_push, lemma_sound_push};

}

proof fn lemma_send(ops: Seq<DraftOp>)
    requires
        sound(ops),
        ready(ops, Buf::AfterAttn),
        ready(ops, Buf::Split),
        ready(ops, Buf::FfnIn),
        ready(ops, Buf::Selected),
        ready(ops, Buf::ExpertWeights),
        ready(ops, Buf::FfnShared),
    ensures
        sound(mtp::send_ops(ops)),
        there(mtp::send_ops(ops), Buf::AfterAttn),
        there(mtp::send_ops(ops), Buf::Split),
        there(mtp::send_ops(ops), Buf::FfnShared),
        there(mtp::send_ops(ops), Buf::IgpuFfnIn),
        there(mtp::send_ops(ops), Buf::IgpuSelected),
        there(mtp::send_ops(ops), Buf::IgpuWeights),
{
    broadcast use {lemma_place_push, lemma_sound_push};

}

proof fn lemma_routed(ops: Seq<DraftOp>, bpe: u32)
    requires
        sound(ops),
        there(ops, Buf::AfterAttn),
        there(ops, Buf::Split),
        there(ops, Buf::FfnShared),
        there(ops, Buf::IgpuFfnIn),
        there(ops, Buf::IgpuSelected),
        there(ops, Buf::IgpuWeights),
    ensures
        sound(mtp::routed_ops(ops, bpe)),
        there(mtp::routed_ops(ops, bpe), Buf::AfterAttn),
        there(mtp::routed_ops(ops, bpe), Buf::Split),
        there(mtp::routed_ops(ops, bpe), Buf::FfnShared),
        there(mtp::routed_ops(ops, bpe), Buf::MoeRecv),
{
    broadcast use {lemma_place_push, lemma_sound_push};

}

proof fn lemma_combine(ops: Seq<DraftOp>)
    requires
        sound(ops),
        there(ops, Buf::AfterAttn),
        there(ops, Buf::Split),
        there(ops, Buf::FfnShared),
        there(ops, Buf::MoeRecv),
    ensures
        sound(mtp::combine_ops(ops)),
        ready(mtp::combine_ops(ops), Buf::NextHc),
{
    broadcast use {lemma_place_push, lemma_sound_push};

}

proof fn lemma_mtp_head(ops: Seq<DraftOp>, n_vocab: u32)
    requires
        sound(ops),
        ready(ops, Buf::NextHc),
    ensures
        sound(mtp::mtp_head_ops(ops, n_vocab)),
        ready(mtp::mtp_head_ops(ops, n_vocab), Buf::Logits),
{
    broadcast use {lemma_place_push, lemma_sound_push};

}

proof fn lemma_mtp_layer(ops: Seq<DraftOp>, d: MtpDims, n_raw: u32, pos: u32)
    requires
        sound(ops),
        ready(ops, Buf::InputHc),
        ready(ops, Buf::KvCache),
    ensures
        sound(mtp::mtp_layer_ops(ops, d, n_raw, pos)),
        ready(mtp::mtp_layer_ops(ops, d, n_raw, pos), Buf::NextHc),
{
    lemma_collapse_attn(ops);
    let x = mtp::collapse_attn_ops(ops);
    lemma_query(x, d.n_rot, pos);
    let q = mtp::query_ops(x, d.n_rot, pos);
    lemma_keys(q, d.n_rot, pos, mtp::draft_slot(n_raw));
    let k = mtp::keys_ops(q, d.n_rot, pos, mtp::draft_slot(n_raw));
    lemma_attention(k, d, pos, mtp::draft_keys(n_raw));
    let t = mtp::attention_ops(k, d, pos, mtp::draft_keys(n_raw));
    lemma_collapse_ffn(t);
    let c = mtp::collapse_ffn_ops(t);
    lemma_route(c);
    let o = mtp::route_ops(c);
    lemma_shared(o);
    let s = mtp::shared_ops(o);
    lemma_send(s);
    let e = mtp::send_ops(s);
    lemma_routed(e, mtp::expert_bytes(d.block_bytes));
    let m = mtp::routed_ops(e, mtp::expert_bytes(d.block_bytes));
    lemma_combine(m);
}

/// In a draft every operation finds what it reads: the value was computed, and where
/// another lane, another device or the host computed it, it has settled. When the
/// draft is done, its logits are there for everyone.
pub proof fn a_draft_finds_what_it_reads(d: MtpDims, n_raw: u32, pos: u32)
    ensures
        sound(mtp::draft_ops(d, n_raw, pos)),
        place(mtp::draft_ops(d, n_raw, pos), Buf::Logits) == Place::Settled,
{
    let none = Seq::<DraftOp>::empty();
    let first = DraftOp::UseDevice { second: false };
    let start = seq![first];
    assert(start =~= none.push(first));
    lemma_sound_push(none, first);
    lemma_place_push(none, first, Buf::TokenRow);
    lemma_place_push(none, first, Buf::PrevHc);
    lemma_place_push(none, first, Buf::KvCache);
    lemma_embed(start);
    let a = mtp::embed_ops(start);
    lemma_residual(a);
    let b = mtp::residual_ops(a);
    lemma_join(b);
    let joined = mtp::join_ops(b);
    lemma_mtp_layer(joined, d, n_raw, pos);
    let layer = mtp::mtp_layer_ops(joined, d, n_raw, pos);
    lemma_mtp_head(layer, d.n_vocab);
    let head = mtp::mtp_head_ops(layer, d.n_vocab);
    let sync = DraftOp::Sync { lane: Lane::Compute };
    lemma_sound_push(head, first);
    lemma_sound_push(head.push(first), sync);
    lemma_place_push(head, first, Buf::Logits);
    lemma_place_push(head.push(first), sync, Buf::Logits);
}

/// The device that is current after some operations: is it the second one?
pub open spec fn device(ops: Seq<DraftOp>) -> Option<bool>
    decreases ops.len(),
{
    if ops.len() == 0 {
        None
    } else {
        match ops.last() {
            DraftOp::UseDevice { second } => Some(second),
            _ => device(ops.drop_last()),
        }
    }
}

/// An operation can be issued while a device is current: its lane is that device's. The
/// host's own work, and its waiting, go anywhere.
pub open spec fn belongs(op: DraftOp, second: Option<bool>) -> bool {
    match op {
        DraftOp::Sync { .. } => true,
        DraftOp::UseDevice { .. } => true,
        _ => match lane_of(op) {
            None => true,
            Some(Lane::IgpuCompute) => second == Some(true),
            Some(Lane::IgpuXfer) => second == Some(true),
            Some(_) => second == Some(false),
        },
    }
}

/// Every operation is issued to the device that is current.
pub open spec fn all_belong(ops: Seq<DraftOp>) -> bool
    decreases ops.len(),
{
    ops.len() == 0 || (all_belong(ops.drop_last()) && belongs(ops.last(), device(ops.drop_last())))
}

broadcast proof fn lemma_device_push(ops: Seq<DraftOp>, op: DraftOp)
    ensures
        #[trigger] device(ops.push(op)) == (match op {
            DraftOp::UseDevice { second } => Some(second),
            _ => device(ops),
        }),
{
    assert(ops.push(op).drop_last() =~= ops);
}

broadcast proof fn lemma_belong_push(ops: Seq<DraftOp>, op: DraftOp)
    ensures
        #[trigger] all_belong(ops.push(op)) == (all_belong(ops) && belongs(op, device(ops))),
{
    assert(ops.push(op).drop_last() =~= ops);
}

/// The first device is current, and everything was issued where it belongs.
spec fn on_first(ops: Seq<DraftOp>) -> bool {
    all_belong(ops) && device(ops) == Some(false)
}

proof fn lemma_rows_belong(ops: Seq<DraftOp>, rows: nat)
    requires
        on_first(ops),
    ensures
        on_first(mtp::project_rows_ops(ops, rows)),
    decreases rows,
{
    broadcast use {lemma_device_push, lemma_belong_push};

    if rows > 0 {
        lemma_rows_belong(ops, (rows - 1) as nat);
    }
}

#[verifier::rlimit(50)]
proof fn lemma_layer_belongs(ops: Seq<DraftOp>, d: MtpDims, n_raw: u32, pos: u32)
    requires
        on_first(ops),
    ensures
        on_first(mtp::mtp_layer_ops(ops, d, n_raw, pos)),
{
    broadcast use {lemma_device_push, lemma_belong_push};

    let a = mtp::collapse_attn_ops(ops);
    assert(on_first(a));
    let b = mtp::query_ops(a, d.n_rot, pos);
    assert(on_first(b));
    let c = mtp::keys_ops(b, d.n_rot, pos, mtp::draft_slot(n_raw));
    assert(on_first(c));
    let e = mtp::attention_ops(c, d, pos, mtp::draft_keys(n_raw));
    assert(on_first(e));
    let f = mtp::collapse_ffn_ops(e);
    assert(on_first(f));
    let g = mtp::send_ops(mtp::shared_ops(mtp::route_ops(f)));
    assert(on_first(g));
    let h = mtp::routed_ops(g, mtp::expert_bytes(d.block_bytes));
    assert(on_first(h));
}

/// Every operation of a draft is issued while its device is current, and the first
/// device is when the draft is done.
#[verifier::rlimit(50)]
pub proof fn a_drafts_operations_run_where_they_belong(d: MtpDims, n_raw: u32, pos: u32)
    ensures
        all_belong(mtp::draft_ops(d, n_raw, pos)),
        device(mtp::draft_ops(d, n_raw, pos)) == Some(false),
{
    broadcast use {lemma_device_push, lemma_belong_push};

    let first = DraftOp::UseDevice { second: false };
    let start = seq![first];
    assert(start =~= Seq::<DraftOp>::empty().push(first));
    let a = mtp::embed_ops(start);
    assert(on_first(a));
    let normed = a.push(
        DraftOp::HostNorm {
            dst: Buf::HnormHc,
            src: Buf::PrevHc,
            weight: Weight::Hnorm,
            rows: N_HC,
            n: N_EMBD,
        },
    );
    assert(on_first(normed));
    lemma_rows_belong(normed, N_HC as nat);
    let b = mtp::residual_ops(a);
    assert(on_first(b));
    let joined = mtp::join_ops(b);
    assert(on_first(joined));
    lemma_layer_belongs(joined, d, n_raw, pos);
}

/// A draft's cache grows by a key at a time until it has a window's, its newest key in
/// the last of them.
pub proof fn a_drafts_cache_grows_to_a_window(n_raw: u32)
    requires
        n_raw < u32::MAX,
    ensures
        mtp::draft_keys(n_raw) == (if n_raw < 128 {
            n_raw + 1
        } else {
            128
        }),
        mtp::draft_slot(n_raw) + 1 == mtp::draft_keys(n_raw),
{
}

} // verus!
