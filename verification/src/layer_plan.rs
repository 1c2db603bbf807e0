//! One layer from its residual to the next one.
//!
//! A layer runs in parts, because two of its decisions wait for the devices:
//! which experts the router picked, and what another machine answered. Each part
//! is the list of operations up to the next such point.

use vstd::prelude::*;
use crate::config::{N_EMBD, SWA_WINDOW};
use crate::layer_attention::attend;
use crate::layer_attention;
use crate::layer_compress::{compress, compress_index};
use crate::layer_compress;
use crate::layer_ops::{
    emit_if, DumpPoint, Lane, LayerError, LayerFacts, LayerKnobs, LayerState, MoeKind, Op, Signal,
    Site, TokenState,
};
use crate::layer_ops;

verus! {

/// The operations of one part, and why the layer stops behind them.
pub struct LayerPart {
    pub ops: Vec<Op>,
    pub stop: Option<LayerError>,
}

/// A layer on its way: what was issued, and what it has changed.
#[verifier::ext_equal]
pub struct LayerRun {
    pub ops: Seq<Op>,
    pub state: LayerState,
    pub token: TokenState,
    pub stop: Option<LayerError>,
}

/// The layer computes the mix of its attention half itself. Elsewhere the layer
/// before it has done so.
pub open spec fn opens(k: LayerKnobs, f: LayerFacts) -> bool {
    k.standalone || f.layer == 0 || f.engram
}

/// The layer leaves the next mix to the layer behind it.
pub open spec fn closes(k: LayerKnobs, f: LayerFacts) -> bool {
    k.standalone || f.next_engram is None || f.next_engram == Some(true)
}

/// Does the layer compute the mix of its attention half itself?
pub fn is_first_layer(k: &LayerKnobs, f: &LayerFacts) -> (r: bool)
    ensures
        r == opens(*k, *f),
{
    k.standalone || f.layer == 0 || f.engram
}

/// Does the layer leave the next mix to the layer behind it?
pub fn is_last_layer(k: &LayerKnobs, f: &LayerFacts) -> (r: bool)
    ensures
        r == closes(*k, *f),
{
    k.standalone || match f.next_engram {
        None => true,
        Some(e) => e,
    }
}

pub open spec fn src_signal(site: Site) -> Signal {
    match site {
        Site::Attn => Signal::HcSrcAttn,
        Site::Ffn => Signal::HcSrcFfn,
    }
}

pub open spec fn collapse_signal(site: Site) -> Signal {
    match site {
        Site::Attn => Signal::HcCollapseAttn,
        Site::Ffn => Signal::HcCollapseFfn,
    }
}

pub open spec fn mixes_signal(site: Site) -> Signal {
    match site {
        Site::Attn => Signal::HcMixesAttn,
        Site::Ffn => Signal::HcMixesFfn,
    }
}

/// The mix as one chain of kernels.
pub open spec fn chain_op(k: LayerKnobs, site: Site) -> Op {
    Op::MhcChain { site, norm: k.norm, ksplit: k.ksplit, carry: k.v41, wide_norm: k.wide_norm }
}

/// The mix in front of one half of the layer, behind `ops`.
pub open spec fn mix_ops(ops: Seq<Op>, k: LayerKnobs, site: Site) -> Seq<Op> {
    if k.mhc_split {
        ops.push(Op::Record { signal: src_signal(site), lane: Lane::Compute }).push(
            Op::Wait { signal: src_signal(site), lane: Lane::Hc },
        ).push(Op::MhcMixes { site, ksplit: k.ksplit }).push(Op::MhcCollapse { site }).push(
            Op::Record { signal: collapse_signal(site), lane: Lane::Compute },
        ).push(Op::Wait { signal: collapse_signal(site), lane: Lane::Hc }).push(
            Op::MhcCarry { site },
        ).push(Op::Record { signal: mixes_signal(site), lane: Lane::Hc })
    } else if k.mhc_fused {
        ops.push(Op::MhcFused { site })
    } else {
        ops.push(chain_op(k, site))
    }
}

/// Issues the mix in front of one half of the layer.
fn mix(k: &LayerKnobs, site: Site, ops: &mut Vec<Op>)
    ensures
        final(ops)@ == mix_ops(old(ops)@, *k, site),
{
    if k.mhc_split {
        let (src, collapse, mixes) = match site {
            Site::Attn => (Signal::HcSrcAttn, Signal::HcCollapseAttn, Signal::HcMixesAttn),
            Site::Ffn => (Signal::HcSrcFfn, Signal::HcCollapseFfn, Signal::HcMixesFfn),
        };
        ops.push(Op::Record { signal: src, lane: Lane::Compute });
        ops.push(Op::Wait { signal: src, lane: Lane::Hc });
        ops.push(Op::MhcMixes { site, ksplit: k.ksplit });
        ops.push(Op::MhcCollapse { site });
        ops.push(Op::Record { signal: collapse, lane: Lane::Compute });
        ops.push(Op::Wait { signal: collapse, lane: Lane::Hc });
        ops.push(Op::MhcCarry { site });
        ops.push(Op::Record { signal: mixes, lane: Lane::Hc });
    } else if k.mhc_fused {
        ops.push(Op::MhcFused { site });
    } else {
        ops.push(
            Op::MhcChain {
                site,
                norm: k.norm,
                ksplit: k.ksplit,
                carry: k.v41,
                wide_norm: k.wide_norm,
            },
        );
    }
}

/// A dump of one value, behind `ops`.
pub open spec fn dump_ops(ops: Seq<Op>, k: LayerKnobs, point: DumpPoint) -> Seq<Op> {
    if k.dump {
        ops.push(Op::Sync { lane: Lane::Compute }).push(Op::Dump { point })
    } else {
        ops
    }
}

fn dump(k: &LayerKnobs, point: DumpPoint, ops: &mut Vec<Op>)
    ensures
        final(ops)@ == dump_ops(old(ops)@, *k, point),
{
    if k.dump {
        ops.push(Op::Sync { lane: Lane::Compute });
        ops.push(Op::Dump { point });
    }
}

/// One lane's work is handed to another: by an event where the devices run side
/// by side, else by waiting for it to end.
pub open spec fn handoff_ops(
    ops: Seq<Op>,
    parallel: bool,
    signal: Signal,
    from: Lane,
    to: Lane,
) -> Seq<Op> {
    if parallel {
        ops.push(Op::Record { signal, lane: from }).push(Op::Wait { signal, lane: to })
    } else {
        ops.push(Op::Sync { lane: from })
    }
}

fn handoff(parallel: bool, signal: Signal, from: Lane, to: Lane, ops: &mut Vec<Op>)
    ensures
        final(ops)@ == handoff_ops(old(ops)@, parallel, signal, from, to),
{
    if parallel {
        ops.push(Op::Record { signal, lane: from });
        ops.push(Op::Wait { signal, lane: to });
    } else {
        ops.push(Op::Sync { lane: from });
    }
}

/// A lane's end is marked by an event, or waited for.
pub open spec fn mark_ops(ops: Seq<Op>, parallel: bool, signal: Signal, lane: Lane) -> Seq<Op> {
    if parallel {
        ops.push(Op::Record { signal, lane })
    } else {
        ops.push(Op::Sync { lane })
    }
}

fn mark(parallel: bool, signal: Signal, lane: Lane, ops: &mut Vec<Op>)
    ensures
        final(ops)@ == mark_ops(old(ops)@, parallel, signal, lane),
{
    if parallel {
        ops.push(Op::Record { signal, lane });
    } else {
        ops.push(Op::Sync { lane });
    }
}

/// The query and key/value projections run as one graph.
pub open spec fn one_graph(k: LayerKnobs) -> bool {
    k.qkv_graph && !k.standalone && !k.v41
}

/// The projections of a token at `pos`, behind `ops`.
pub open spec fn project_ops(ops: Seq<Op>, k: LayerKnobs, pos: u32, slot: u32) -> Seq<Op> {
    if one_graph(k) {
        ops.push(Op::QkvGraph { pos, slot })
    } else {
        dump_ops(
            ops.push(Op::QChain { norm_heads: !k.v41 }).push(Op::QRope { pos }),
            k,
            DumpPoint::QNormed,
        ).push(Op::KvProject).push(Op::KvNorm).push(Op::KvRope { pos }).push(
            Op::KvQuant { window: k.v41 },
        ).push(Op::KvRound).push(Op::KvAppend { slot })
    }
}

fn project(k: &LayerKnobs, pos: u32, slot: u32, ops: &mut Vec<Op>)
    ensures
        final(ops)@ == project_ops(old(ops)@, *k, pos, slot),
{
    if k.qkv_graph && !k.standalone && !k.v41 {
        ops.push(Op::QkvGraph { pos, slot });
    } else {
        ops.push(Op::QChain { norm_heads: !k.v41 });
        ops.push(Op::QRope { pos });
        dump(k, DumpPoint::QNormed, ops);
        ops.push(Op::KvProject);
        ops.push(Op::KvNorm);
        ops.push(Op::KvRope { pos });
        ops.push(Op::KvQuant { window: k.v41 });
        ops.push(Op::KvRound);
        ops.push(Op::KvAppend { slot });
    }
}

/// Why a layer cannot begin.
pub open spec fn begin_stop(f: LayerFacts, t: TokenState) -> Option<LayerError> {
    if f.igpu_layer != f.layer {
        Some(LayerError::LayerMismatch)
    } else if f.engram && !t.engram_ready {
        Some(LayerError::EngramNotStaged)
    } else {
        None
    }
}

/// What is issued in front of the projections, behind `ops`.
pub open spec fn begin_ops(ops: Seq<Op>, k: LayerKnobs, f: LayerFacts, t: TokenState) -> Seq<Op> {
    if f.igpu_layer != f.layer {
        ops
    } else {
        let ops = layer_ops::push_if(ops, k.v41 && f.layer == 0, Op::ResetMixCarry);
        if begin_stop(f, t) is Some {
            ops
        } else {
            let ops = layer_ops::push_if(ops, f.engram, Op::Engram);
            if opens(k, f) {
                layer_ops::push_if(
                    dump_ops(mix_ops(ops, k, Site::Attn), k, DumpPoint::AttnCur),
                    k.dump,
                    Op::Dump { point: DumpPoint::PreResidual },
                )
            } else {
                ops
            }
        }
    }
}

/// The layer up to the row that it adds to its window.
pub open spec fn begun(k: LayerKnobs, f: LayerFacts, pos: u32, s: LayerState, t: TokenState) -> LayerRun {
    let ops = begin_ops(Seq::empty(), k, f, t);
    let stop = begin_stop(f, t);
    if stop is Some {
        LayerRun { ops, state: s, token: t, stop }
    } else {
        let ops = project_ops(ops, k, pos, s.window.next_slot() as u32);
        LayerRun {
            ops: match s.window.wrap_copy(k.kv_rows) {
                Some(copy) => ops.push(Op::KvWrap { copy }),
                None => ops,
            },
            state: LayerState { window: s.window.appended(k.kv_rows), ..s },
            token: TokenState { engram_ready: t.engram_ready && !f.engram, ..t },
            stop,
        }
    }
}

/// The layer up to its compressed row.
pub open spec fn compressed(r: LayerRun, k: LayerKnobs, f: LayerFacts, pos: u32) -> LayerRun {
    if r.stop is Some {
        r
    } else {
        LayerRun {
            ops: layer_compress::compressor_ops(r.ops, k, f, pos, r.state.compressor),
            state: LayerState {
                compressor: layer_compress::compressor_after(k, f, pos, r.state.compressor),
                ..r.state
            },
            stop: layer_compress::compressor_stop(f, pos, r.state.compressor),
            ..r
        }
    }
}

/// The layer up to its indexer's compressed row.
pub open spec fn indexed(r: LayerRun, f: LayerFacts, pos: u32) -> LayerRun {
    if r.stop is Some {
        r
    } else {
        LayerRun {
            ops: layer_compress::indexer_compressor_ops(r.ops, f, pos, r.state.indexer),
            state: LayerState {
                indexer: layer_compress::indexer_after(f, pos, r.state.indexer),
                ..r.state
            },
            stop: layer_compress::indexer_stop(f, pos, r.state.indexer),
            ..r
        }
    }
}

/// The layer up to its attention.
pub open spec fn attended(r: LayerRun, k: LayerKnobs, f: LayerFacts, pos: u32) -> LayerRun {
    if r.stop is Some {
        r
    } else {
        LayerRun {
            ops: layer_attention::attention_ops(r.ops, k, f, pos, r.state, r.token),
            token: layer_attention::attention_token(k, f, r.state, r.token),
            stop: layer_attention::attention_stop(k, f, r.state, r.token),
            ..r
        }
    }
}

/// From attention to the feed-forward half's input, behind `ops`.
pub open spec fn output_ops(ops: Seq<Op>, k: LayerKnobs, pos: u32) -> Seq<Op> {
    let ops = dump_ops(ops.push(Op::OutRope { pos }), k, DumpPoint::Heads);
    let ops = dump_ops(ops.push(Op::OutProject), k, DumpPoint::AttnOut);
    let ops = layer_ops::push_if(
        ops,
        k.mhc_split,
        Op::Wait { signal: Signal::HcMixesAttn, lane: Lane::Compute },
    ).push(Op::MhcPostAttn);
    let ops = mix_ops(ops, k, Site::Ffn);
    mark_ops(
        handoff_ops(ops, k.parallel, Signal::AinReady, Lane::Compute, Lane::Xfer).push(
            Op::PushFfnInput,
        ),
        k.parallel,
        Signal::AinPushed,
        Lane::Xfer,
    )
}

/// The router, behind `ops`.
pub open spec fn router_ops(ops: Seq<Op>, k: LayerKnobs, f: LayerFacts) -> Seq<Op> {
    let ops = ops.push(Op::RouterLogits);
    if !f.hash_router {
        let ops = dump_ops(ops.push(Op::RouterTopk), k, DumpPoint::Selected);
        let ops = layer_ops::push_if(ops, k.dump, Op::Dump { point: DumpPoint::Weights });
        layer_ops::push_if(ops, k.dump, Op::Dump { point: DumpPoint::FfnIn })
    } else {
        layer_ops::push_if(ops.push(Op::Sync { lane: Lane::Compute }), f.hash_table, Op::HashRoute)
    }
}

/// Why the router stops.
pub open spec fn router_stop(f: LayerFacts) -> Option<LayerError> {
    if f.hash_router && !f.hash_table {
        Some(LayerError::NoHashTable)
    } else {
        None
    }
}

/// The picks' way to the second device, behind `ops`.
pub open spec fn select_ops(ops: Seq<Op>, k: LayerKnobs, seq: u32) -> Seq<Op> {
    let ops = handoff_ops(
        ops.push(Op::RecordPicks),
        k.parallel,
        Signal::SelectedReady,
        Lane::Compute,
        Lane::Xfer,
    ).push(Op::PushSelected);
    layer_ops::push_if(
        mark_ops(ops, k.parallel, Signal::SelectedPushed, Lane::Xfer),
        k.parallel,
        Op::RaiseMoeSignal { seq },
    )
}

/// The layer up to the router's picks.
pub open spec fn routed(r: LayerRun, k: LayerKnobs, f: LayerFacts, pos: u32) -> LayerRun {
    if r.stop is Some {
        r
    } else {
        let ops = router_ops(output_ops(r.ops, k, pos), k, f);
        LayerRun {
            ops: if router_stop(f) is Some {
                ops
            } else {
                select_ops(ops, k, r.token.seq)
            },
            stop: router_stop(f),
            ..r
        }
    }
}

/// A layer's first part.
pub open spec fn first_part(k: LayerKnobs, f: LayerFacts, pos: u32, s: LayerState, t: TokenState) -> LayerRun {
    routed(attended(indexed(compressed(begun(k, f, pos, s, t), k, f, pos), f, pos), k, f, pos), k, f, pos)
}

/// Issues the output projection and what follows it up to the router.
fn output(k: &LayerKnobs, pos: u32, ops: &mut Vec<Op>)
    ensures
        final(ops)@ == output_ops(old(ops)@, *k, pos),
{
    ops.push(Op::OutRope { pos });
    dump(k, DumpPoint::Heads, ops);
    ops.push(Op::OutProject);
    dump(k, DumpPoint::AttnOut, ops);
    emit_if(ops, k.mhc_split, Op::Wait { signal: Signal::HcMixesAttn, lane: Lane::Compute });
    ops.push(Op::MhcPostAttn);
    mix(k, Site::Ffn, ops);
    handoff(k.parallel, Signal::AinReady, Lane::Compute, Lane::Xfer, ops);
    ops.push(Op::PushFfnInput);
    mark(k.parallel, Signal::AinPushed, Lane::Xfer, ops);
}

/// Issues the router and hands its picks over.
fn route(k: &LayerKnobs, f: &LayerFacts, seq: u32, ops: &mut Vec<Op>) -> (r: Option<LayerError>)
    ensures
        r == router_stop(*f),
        final(ops)@ == (if router_stop(*f) is Some {
            router_ops(old(ops)@, *k, *f)
        } else {
            select_ops(router_ops(old(ops)@, *k, *f), *k, seq)
        }),
{
    ops.push(Op::RouterLogits);
    if !f.hash_router {
        ops.push(Op::RouterTopk);
        dump(k, DumpPoint::Selected, ops);
        emit_if(ops, k.dump, Op::Dump { point: DumpPoint::Weights });
        emit_if(ops, k.dump, Op::Dump { point: DumpPoint::FfnIn });
    } else {
        ops.push(Op::Sync { lane: Lane::Compute });
        if !f.hash_table {
            return Some(LayerError::NoHashTable);
        }
        ops.push(Op::HashRoute);
    }
    ops.push(Op::RecordPicks);
    handoff(k.parallel, Signal::SelectedReady, Lane::Compute, Lane::Xfer, ops);
    ops.push(Op::PushSelected);
    mark(k.parallel, Signal::SelectedPushed, Lane::Xfer, ops);
    emit_if(ops, k.parallel, Op::RaiseMoeSignal { seq });
    None
}

/// Issues what comes before the router, up to attention.
fn attention_part(
    k: &LayerKnobs,
    f: &LayerFacts,
    pos: u32,
    s: &mut LayerState,
    t: &mut TokenState,
    ops: &mut Vec<Op>,
) -> (stop: Option<LayerError>)
    requires
        pos < u32::MAX,
        old(s).window.next_slot() < k.kv_rows,
        old(s).window.raw_off + SWA_WINDOW < u32::MAX,
        layer_compress::has_room(old(s).compressor),
        old(s).indexer matches Some(i) ==> i.n_comp < u32::MAX,
        old(ops)@ == Seq::<Op>::empty(),
    ensures
        (LayerRun { ops: final(ops)@, state: *final(s), token: *final(t), stop }) == attended(
            indexed(compressed(begun(*k, *f, pos, *old(s), *old(t)), *k, *f, pos), *f, pos),
            *k,
            *f,
            pos,
        ),
{
    if f.igpu_layer != f.layer {
        return Some(LayerError::LayerMismatch);
    }
    emit_if(ops, k.v41 && f.layer == 0, Op::ResetMixCarry);
    if f.engram {
        if !t.engram_ready {
            return Some(LayerError::EngramNotStaged);
        }
        ops.push(Op::Engram);
        t.engram_ready = false;
    }
    if is_first_layer(k, f) {
        mix(k, Site::Attn, ops);
        dump(k, DumpPoint::AttnCur, ops);
        emit_if(ops, k.dump, Op::Dump { point: DumpPoint::PreResidual });
    }
    let mut window = s.window;
    let append = window.append(k.kv_rows);
    project(k, pos, append.slot, ops);
    s.window = window;
    if let Some(copy) = append.wrap {
        ops.push(Op::KvWrap { copy });
    }
    let mut comp = s.compressor;
    let r = compress(k, f, pos, &mut comp, ops);
    s.compressor = comp;
    if let Err(e) = r {
        return Some(e);
    }
    let mut index = s.indexer;
    let r = compress_index(f, pos, &mut index, ops);
    s.indexer = index;
    if let Err(e) = r {
        return Some(e);
    }
    let now = *s;
    match attend(k, f, pos, &now, t, ops) {
        Ok(_) => None,
        Err(e) => Some(e),
    }
}

/// A layer's first part: everything up to the router's picks.
pub fn begin_layer(
    k: &LayerKnobs,
    f: &LayerFacts,
    pos: u32,
    s: &mut LayerState,
    t: &mut TokenState,
) -> (part: LayerPart)
    requires
        pos < u32::MAX,
        old(s).window.next_slot() < k.kv_rows,
        old(s).window.raw_off + SWA_WINDOW < u32::MAX,
        layer_compress::has_room(old(s).compressor),
        old(s).indexer matches Some(i) ==> i.n_comp < u32::MAX,
    ensures
        (LayerRun { ops: part.ops@, state: *final(s), token: *final(t), stop: part.stop })
            == first_part(*k, *f, pos, *old(s), *old(t)),
{
    let mut ops: Vec<Op> = Vec::new();
    let stop = attention_part(k, f, pos, s, t, &mut ops);
    if stop.is_some() {
        return LayerPart { ops, stop };
    }
    output(k, pos, &mut ops);
    let stop = route(k, f, t.seq, &mut ops);
    LayerPart { ops, stop }
}

/// How the routed experts of a layer are computed.
#[derive(Clone, Copy, PartialEq, Eq, Structural, Debug)]
pub struct MoeSetup {
    /// Another machine computes some of the picks.
    pub split_on: bool,
    /// The experts come from a pager's pool.
    pub paged: bool,
    /// The second device's part was issued ahead of the token.
    pub preissued: bool,
    /// Picks that the first device takes at most.
    pub hot_cap: u32,
}

/// The shared expert is issued behind the other machine's work.
pub open spec fn defers_shared(k: LayerKnobs, m: MoeSetup) -> bool {
    k.presubmit && k.parallel && m.split_on
}

/// The experts' input is quantized ahead of the picks.
pub open spec fn hoists_input(k: LayerKnobs, f: LayerFacts, m: MoeSetup) -> bool {
    defers_shared(k, m) && !f.hot
}

/// Why the second device cannot compute the routed experts.
pub open spec fn moe_stop(f: LayerFacts, m: MoeSetup) -> Option<LayerError> {
    if !m.preissued && !m.paged && f.igpu_packed && !f.hot_remap {
        Some(LayerError::PackedWithoutRemap)
    } else {
        None
    }
}

/// The way of the routed experts' sum back to the first device, behind `ops`.
pub open spec fn return_ops(ops: Seq<Op>, k: LayerKnobs) -> Seq<Op> {
    mark_ops(
        handoff_ops(ops, k.parallel, Signal::MoeDone, Lane::IgpuCompute, Lane::IgpuXfer).push(
            Op::PushMoe,
        ),
        k.parallel,
        Signal::MoeArrived,
        Lane::IgpuXfer,
    )
}

fn send_back(k: &LayerKnobs, ops: &mut Vec<Op>)
    ensures
        final(ops)@ == return_ops(old(ops)@, *k),
{
    handoff(k.parallel, Signal::MoeDone, Lane::IgpuCompute, Lane::IgpuXfer, ops);
    ops.push(Op::PushMoe);
    mark(k.parallel, Signal::MoeArrived, Lane::IgpuXfer, ops);
}

/// The routed experts from resident weights.
pub open spec fn resident_moe(f: LayerFacts, m: MoeSetup) -> Op {
    if f.hot_remap {
        Op::RoutedMoe { kind: MoeKind::HetSplit, cap: m.hot_cap }
    } else {
        Op::RoutedMoe { kind: MoeKind::Plain, cap: 0 }
    }
}

/// A layer's second part, behind `ops`: up to the picks where a pager needs them,
/// else up to the routed experts' sum.
pub open spec fn moe_ops(ops: Seq<Op>, k: LayerKnobs, f: LayerFacts, m: MoeSetup) -> Seq<Op> {
    let ops = layer_ops::push_if(ops, k.parallel && !defers_shared(k, m), Op::SharedExpert);
    let ops = layer_ops::push_if(ops, hoists_input(k, f, m), Op::QuantizeMoeInput);
    let ops = layer_ops::push_if(ops, k.parallel && f.hot, Op::HotMoe);
    if m.preissued {
        ops
    } else {
        let ops = layer_ops::push_if(
            ops,
            k.parallel,
            Op::Wait { signal: Signal::SelectedPushed, lane: Lane::IgpuCompute },
        );
        if m.paged {
            ops.push(Op::Sync { lane: Lane::Compute }).push(Op::ReadPicks)
        } else if moe_stop(f, m) is Some {
            ops
        } else {
            return_ops(ops.push(resident_moe(f, m)), k)
        }
    }
}

/// A layer's second part.
pub fn start_moe(k: &LayerKnobs, f: &LayerFacts, m: &MoeSetup) -> (part: LayerPart)
    ensures
        part.ops@ == moe_ops(Seq::empty(), *k, *f, *m),
        part.stop == moe_stop(*f, *m),
{
    let mut ops: Vec<Op> = Vec::new();
    let deferred = k.presubmit && k.parallel && m.split_on;
    emit_if(&mut ops, k.parallel && !deferred, Op::SharedExpert);
    emit_if(&mut ops, deferred && !f.hot, Op::QuantizeMoeInput);
    emit_if(&mut ops, k.parallel && f.hot, Op::HotMoe);
    if m.preissued {
        return LayerPart { ops, stop: None };
    }
    emit_if(
        &mut ops,
        k.parallel,
        Op::Wait { signal: Signal::SelectedPushed, lane: Lane::IgpuCompute },
    );
    if m.paged {
        ops.push(Op::Sync { lane: Lane::Compute });
        ops.push(Op::ReadPicks);
        return LayerPart { ops, stop: None };
    }
    if f.hot_remap {
        ops.push(Op::RoutedMoe { kind: MoeKind::HetSplit, cap: m.hot_cap });
    } else if f.igpu_packed {
        return LayerPart { ops, stop: Some(LayerError::PackedWithoutRemap) };
    } else {
        ops.push(Op::RoutedMoe { kind: MoeKind::Plain, cap: 0 });
    }
    send_back(k, &mut ops);
    LayerPart { ops, stop: None }
}

/// The work that the picks decide, where a pager serves them, behind `ops`.
/// `remote` tells whether another machine has a share in them.
pub open spec fn pick_ops(
    ops: Seq<Op>,
    k: LayerKnobs,
    f: LayerFacts,
    m: MoeSetup,
    remote: bool,
    cap: u32,
) -> Seq<Op> {
    let ops = if remote {
        let ops = if hoists_input(k, f, m) {
            ops
        } else {
            ops.push(Op::QuantizeMoeInput).push(Op::Sync { lane: Lane::Compute })
        };
        ops.push(Op::Submit)
    } else {
        ops
    };
    let ops = layer_ops::push_if(ops, defers_shared(k, m), Op::SharedExpert).push(
        Op::Ensure { batched: k.batch_miss },
    );
    let ops = layer_ops::push_if(ops, remote, Op::MarkRemote).push(Op::VerifyRouting);
    return_ops(ops.push(Op::RoutedMoe { kind: MoeKind::Paged, cap }), k)
}

/// The work that the picks decide.
pub fn serve_picks(k: &LayerKnobs, f: &LayerFacts, m: &MoeSetup, remote: bool, cap: u32) -> (ops: Vec<Op>)
    ensures
        ops@ == pick_ops(Seq::empty(), *k, *f, *m, remote, cap),
{
    let mut ops: Vec<Op> = Vec::new();
    let deferred = k.presubmit && k.parallel && m.split_on;
    if remote {
        if !(deferred && !f.hot) {
            ops.push(Op::QuantizeMoeInput);
            ops.push(Op::Sync { lane: Lane::Compute });
        }
        ops.push(Op::Submit);
    }
    emit_if(&mut ops, deferred, Op::SharedExpert);
    ops.push(Op::Ensure { batched: k.batch_miss });
    emit_if(&mut ops, remote, Op::MarkRemote);
    ops.push(Op::VerifyRouting);
    ops.push(Op::RoutedMoe { kind: MoeKind::Paged, cap });
    send_back(k, &mut ops);
    ops
}

/// The second device's part of a layer that is issued ahead of the token.
pub open spec fn ahead_ops(seq: u32) -> Seq<Op> {
    Seq::<Op>::empty().push(Op::WaitMoeSignal { seq }).push(Op::RoutedMoe { kind: MoeKind::Plain, cap: 0 }).push(
        Op::Record { signal: Signal::MoeDone, lane: Lane::IgpuCompute },
    ).push(Op::Wait { signal: Signal::MoeDone, lane: Lane::IgpuXfer }).push(Op::PushMoe).push(
        Op::Record { signal: Signal::MoeArrived, lane: Lane::IgpuXfer },
    )
}

/// Issues the second device's part of a layer ahead of the token, behind a wait
/// for the layer's signal to reach the token's sequence `seq`.
pub fn issue_igpu_moe(seq: u32) -> (ops: Vec<Op>)
    ensures
        ops@ == ahead_ops(seq),
{
    let mut ops: Vec<Op> = Vec::new();
    ops.push(Op::WaitMoeSignal { seq });
    ops.push(Op::RoutedMoe { kind: MoeKind::Plain, cap: 0 });
    ops.push(Op::Record { signal: Signal::MoeDone, lane: Lane::IgpuCompute });
    ops.push(Op::Wait { signal: Signal::MoeDone, lane: Lane::IgpuXfer });
    ops.push(Op::PushMoe);
    ops.push(Op::Record { signal: Signal::MoeArrived, lane: Lane::IgpuXfer });
    ops
}

/// From the routed experts' sum to the other machine's answer, behind `ops`.
/// `pending` tells whether one is awaited.
pub open spec fn arrive_ops(ops: Seq<Op>, k: LayerKnobs, pending: bool) -> Seq<Op> {
    let ops = layer_ops::push_if(ops, !k.parallel, Op::SharedExpert);
    let ops = layer_ops::push_if(
        ops,
        k.parallel,
        Op::Wait { signal: Signal::MoeArrived, lane: Lane::Compute },
    );
    let ops = layer_ops::push_if(
        dump_ops(ops, k, DumpPoint::FfnShared),
        k.dump,
        Op::Dump { point: DumpPoint::FfnRouted },
    );
    layer_ops::push_if(ops, pending, Op::AwaitRemote)
}

/// Waits for the routed experts' sum.
pub fn await_moe(k: &LayerKnobs, pending: bool) -> (ops: Vec<Op>)
    ensures
        ops@ == arrive_ops(Seq::empty(), *k, pending),
{
    let mut ops: Vec<Op> = Vec::new();
    emit_if(&mut ops, !k.parallel, Op::SharedExpert);
    emit_if(&mut ops, k.parallel, Op::Wait { signal: Signal::MoeArrived, lane: Lane::Compute });
    dump(k, DumpPoint::FfnShared, &mut ops);
    emit_if(&mut ops, k.dump, Op::Dump { point: DumpPoint::FfnRouted });
    emit_if(&mut ops, pending, Op::AwaitRemote);
    ops
}

/// Why the other machine's answer is no partial sum: it has the wrong length.
pub open spec fn partial_stop(partial: Option<usize>) -> Option<LayerError> {
    if partial matches Some(len) && len != N_EMBD {
        Some(LayerError::PartialLength)
    } else {
        None
    }
}

/// A layer's last part, behind `ops`. `partial` is the length of the other
/// machine's answer, where one was awaited.
pub open spec fn finish_ops(ops: Seq<Op>, k: LayerKnobs, f: LayerFacts, partial: Option<usize>) -> Seq<
    Op,
> {
    if partial_stop(partial) is Some {
        ops
    } else {
        let ops = layer_ops::push_if(ops, partial is Some, Op::AddRemote).push(Op::AddShared);
        let ops = layer_ops::push_if(ops, f.hot, Op::AddHot).push(Op::MhcPostFfn);
        let ops = layer_ops::push_if(ops, !closes(k, f), chain_op(k, Site::Attn));
        layer_ops::push_if(ops, !k.parallel, Op::Sync { lane: Lane::Compute })
    }
}

/// A layer's last part: the sum of its partial sums, and the residual.
pub fn finish_layer(k: &LayerKnobs, f: &LayerFacts, partial: Option<usize>) -> (part: LayerPart)
    ensures
        part.ops@ == finish_ops(Seq::empty(), *k, *f, partial),
        part.stop == partial_stop(partial),
{
    let mut ops: Vec<Op> = Vec::new();
    if let Some(len) = partial {
        if len != N_EMBD as usize {
            return LayerPart { ops, stop: Some(LayerError::PartialLength) };
        }
        ops.push(Op::AddRemote);
    }
    ops.push(Op::AddShared);
    emit_if(&mut ops, f.hot, Op::AddHot);
    ops.push(Op::MhcPostFfn);
    if !is_last_layer(k, f) {
        ops.push(
            Op::MhcChain {
                site: Site::Attn,
                norm: k.norm,
                ksplit: k.ksplit,
                carry: k.v41,
                wide_norm: k.wide_norm,
            },
        );
    }
    emit_if(&mut ops, !k.parallel, Op::Sync { lane: Lane::Compute });
    LayerPart { ops, stop: None }
}

/// The label under which the last part is timed.
pub fn combine_label(k: &LayerKnobs, f: &LayerFacts) -> (r: &'static str)
    ensures
        r@ == (if closes(*k, *f) {
            "dgpu.ffn_combine"@
        } else {
            "dgpu.ffn_combine+next_pre_attn"@
        }),
{
    if is_last_layer(k, f) {
        "dgpu.ffn_combine"
    } else {
        "dgpu.ffn_combine+next_pre_attn"
    }
}

} // verus!
