//! The device work of one decoder layer, as a list of operations.
//!
//! Which operations a layer needs, in which order and with which numbers, is
//! decided here and in the modules that build on this one. Issuing an operation
//! to a device is the caller's part.

use vstd::prelude::*;
use crate::knobs::NormKernel;
use crate::kv_window::{KvCopy, KvWindow};

verus! {

/// A queue of one of the two devices.
#[derive(Clone, Copy, PartialEq, Eq, Structural, Debug)]
pub enum Lane {
    Compute,
    Xfer,
    Hc,
    IgpuCompute,
    IgpuXfer,
}

/// An event that one lane records and another waits for.
#[derive(Clone, Copy, PartialEq, Eq, Structural, Debug)]
pub enum Signal {
    AinReady,
    AinPushed,
    SelectedReady,
    SelectedPushed,
    MoeDone,
    MoeArrived,
    HcSrcAttn,
    HcCollapseAttn,
    HcMixesAttn,
    HcSrcFfn,
    HcCollapseFfn,
    HcMixesFfn,
}

/// The half of the layer that a residual mix feeds.
#[derive(Clone, Copy, PartialEq, Eq, Structural, Debug)]
pub enum Site {
    Attn,
    Ffn,
}

/// The kernel that scores the indexer's keys.
#[derive(Clone, Copy, PartialEq, Eq, Structural, Debug)]
pub enum ScoreKernel {
    /// Packed keys, vector units.
    Packed,
    /// Packed keys, matrix units.
    PackedWmma,
    /// 16-bit keys, matrix units, many workgroups.
    WideWmma,
    /// 16-bit keys, matrix units, one workgroup.
    Wmma,
    /// 16-bit keys, vector units.
    Plain,
}

/// The compressed rows that attention reads.
#[derive(Clone, Copy, PartialEq, Eq, Structural, Debug)]
pub enum CompRows {
    /// No compressed rows.
    Absent,
    /// The rows that an indexer gathered.
    Gathered,
    /// The layer's own store.
    Dense,
}

/// A value that can be dumped for inspection.
#[derive(Clone, Copy, PartialEq, Eq, Structural, Debug)]
pub enum DumpPoint {
    AttnCur,
    PreResidual,
    QNormed,
    Heads,
    AttnOut,
    Selected,
    Weights,
    FfnIn,
    FfnShared,
    FfnRouted,
}

/// The routed part of the feed-forward half on the second device.
#[derive(Clone, Copy, PartialEq, Eq, Structural, Debug)]
pub enum MoeKind {
    /// Every expert from the resident weights.
    Plain,
    /// The experts that the first device does not hold.
    HetSplit,
    /// From the pager's pool.
    Paged,
}

/// One operation.
#[derive(Clone, Copy, PartialEq, Eq, Structural, Debug)]
pub enum Op {
    Record { signal: Signal, lane: Lane },
    Wait { signal: Signal, lane: Lane },
    Sync { lane: Lane },
    Dump { point: DumpPoint },
    /// The first layer's mix is the first residual copy alone.
    ResetMixCarry,
    Engram,
    MhcMixes { site: Site, ksplit: u32 },
    MhcCollapse { site: Site },
    MhcCarry { site: Site },
    MhcFused { site: Site },
    MhcChain { site: Site, norm: NormKernel, ksplit: u32, carry: bool, wide_norm: bool },
    QkvGraph { pos: u32, slot: u32 },
    QChain { norm_heads: bool },
    QRope { pos: u32 },
    KvProject,
    KvNorm,
    KvRope { pos: u32 },
    KvQuant { window: bool },
    KvRound,
    KvAppend { slot: u32 },
    KvWrap { copy: KvCopy },
    CompProject { gated: bool },
    CompStateWrite { row: u32, pos_mod: u32 },
    CompPool,
    CompNorm,
    IndexKey { pos: u32 },
    CompRope { pos: u32 },
    CompFp4,
    CompFp8,
    CompRound,
    CompShuffle,
    IndexKeyAppend { row: u32 },
    CompAppend { row: u32, packed: bool },
    IdxProject,
    IdxStateWrite { row: u32, pos_mod: u32 },
    IdxPool,
    IdxNorm,
    IdxRope { pos: u32 },
    IdxQat,
    IdxRound,
    IdxShuffle,
    IdxAppend { row: u32, packed: bool },
    AttnSwa { raw_off: u32, n_raw: u32 },
    IndexerQuery,
    IndexerRope { pos: u32 },
    IndexerQat { fp4: bool },
    IndexerHeadWeights,
    IndexerScale,
    IndexerScore { kernel: ScoreKernel, n: u32 },
    IndexerTopk { n: u32 },
    IndexerCheck { n: u32 },
    IndexerGather { packed: bool },
    AttnScore { wide: bool, rows: CompRows, n_raw: u32, n_comp: u32 },
    AttnSoftmax { n_raw: u32, n_comp: u32 },
    AttnSum { rows: CompRows, n_raw: u32, n_comp: u32 },
    AttnReduce,
    AttnSoftmaxSum { rows: CompRows, n_raw: u32, n_comp: u32 },
    OutRope { pos: u32 },
    OutProject,
    MhcPostAttn,
    PushFfnInput,
    RouterLogits,
    RouterTopk,
    HashRoute,
    RecordPicks,
    PushSelected,
    /// Sets the layer's signal to the token's sequence: the picks are there.
    RaiseMoeSignal { seq: u32 },
    /// Holds the second device until the layer's signal has reached `seq`. Unlike
    /// a wait for an event, it looks when the device gets there, so it may be
    /// issued before the signal is raised.
    WaitMoeSignal { seq: u32 },
    SharedExpert,
    QuantizeMoeInput,
    HotMoe,
    ReadPicks,
    Submit,
    Ensure { batched: bool },
    MarkRemote,
    VerifyRouting,
    RoutedMoe { kind: MoeKind, cap: u32 },
    PushMoe,
    AwaitRemote,
    AddRemote,
    AddShared,
    AddHot,
    MhcPostFfn,
}

/// Why a layer cannot go on.
#[derive(Clone, Copy, PartialEq, Eq, Structural, Debug)]
pub enum LayerError {
    /// The two devices' weights are of different layers.
    LayerMismatch,
    /// A layer with engram weights ran before its rows were staged.
    EngramNotStaged,
    /// A layer that reuses a store runs without one.
    NoStore,
    NoCompressorState,
    /// The main store holds packed index keys.
    MainStorePacked,
    NoIndexerCompressorWeights,
    NoIndexerCompressorState,
    /// The indexer's store is neither of 16-bit nor of packed keys.
    IndexerStore,
    NoIndexerWeights,
    /// The one-workgroup scoring kernel does not read packed keys.
    NarrowScorePacked,
    /// More rows than the store's 16-bit head holds.
    DenseRows,
    /// A hash router without its table.
    NoHashTable,
    /// Packed experts without the map that finds them.
    PackedWithoutRemap,
    /// A remote partial of another length than the residual's.
    PartialLength,
}

/// How a store keeps its rows.
#[derive(Clone, Copy, PartialEq, Eq, Structural, Debug)]
pub enum Store {
    F16,
    Fp8,
    E2m1,
}

/// A layer's compressed rows.
#[derive(Clone, Copy, PartialEq, Eq, Structural, Debug)]
pub struct CompressorState {
    pub store: Store,
    /// Rows in the store.
    pub n_comp: u32,
    /// The store keeps index keys too.
    pub index_key: bool,
    /// Index keys in the store.
    pub n_index_comp: u32,
}

/// The compressed rows of a layer's indexer.
#[derive(Clone, Copy, PartialEq, Eq, Structural, Debug)]
pub struct IndexerState {
    pub store: Store,
    pub n_comp: u32,
}

/// What one layer keeps from token to token.
#[derive(Clone, Copy, PartialEq, Eq, Structural, Debug)]
pub struct LayerState {
    pub window: KvWindow,
    pub compressor: Option<CompressorState>,
    pub indexer: Option<IndexerState>,
}

/// What a token's layers hand to each other.
#[derive(Clone, Copy, PartialEq, Eq, Structural, Debug)]
pub struct TokenState {
    /// Engram rows are staged.
    pub engram_ready: bool,
    /// Layer whose store the gathered rows came from; -1 for none.
    pub gather_src: i32,
    /// Rows gathered from it.
    pub gather_rows: u32,
    /// The token's place in the sequence of tokens, from 1 on.
    pub seq: u32,
}

/// A layer's weights and place, as far as decisions depend on them.
#[derive(Clone, Copy, PartialEq, Eq, Structural, Debug)]
pub struct LayerFacts {
    pub layer: i32,
    /// The layer that the second device's weights are of.
    pub igpu_layer: i32,
    /// Tokens per compressed row; 0 for a layer without them.
    pub ratio: u32,
    pub engram: bool,
    /// Does the next layer have engram weights? `None` after the last layer.
    pub next_engram: Option<bool>,
    pub compressor: bool,
    pub indexer: bool,
    /// The indexer has weights for index keys.
    pub indexer_keys: bool,
    pub indexer_compressor: bool,
    /// Layer whose store this one reuses.
    pub kv_source: Option<i32>,
    pub hash_router: bool,
    pub hash_table: bool,
    /// The first device holds some of the layer's routed experts.
    pub hot: bool,
    pub igpu_packed: bool,
    pub hot_remap: bool,
}

/// The switches that a layer's decisions depend on.
#[derive(Clone, Copy, PartialEq, Eq, Structural, Debug)]
pub struct LayerKnobs {
    /// The model computes its mixes one half-layer ahead.
    pub v41: bool,
    /// The two devices run side by side.
    pub parallel: bool,
    /// Every layer issues its own first and last part.
    pub standalone: bool,
    pub dump: bool,
    pub mhc_split: bool,
    pub mhc_fused: bool,
    pub norm: NormKernel,
    pub ksplit: u32,
    pub wide_norm: bool,
    pub qkv_graph: bool,
    pub index_k: bool,
    pub indexer_force: bool,
    pub indexer_off: bool,
    pub indexer_wide: bool,
    pub indexer_wmma: bool,
    pub indexer_check: bool,
    pub comp_cap: u32,
    pub wide_score: bool,
    pub split_sum: bool,
    pub presubmit: bool,
    pub batch_miss: bool,
    /// Slots of the key/value cache.
    pub kv_rows: u32,
}

/// A list with one more operation, where `cond` holds.
pub open spec fn push_if(ops: Seq<Op>, cond: bool, op: Op) -> Seq<Op> {
    if cond {
        ops.push(op)
    } else {
        ops
    }
}

/// Adds an operation, where `cond` holds.
pub fn emit_if(ops: &mut Vec<Op>, cond: bool, op: Op)
    ensures
        final(ops)@ == push_if(old(ops)@, cond, op),
{
    if cond {
        ops.push(op);
    }
}

} // verus!
