//! What the operations of a layer compute: the value that each of them leaves,
//! followed from the residual that enters the layer to the one that leaves it.
//! Kernels that compute the same leave the same value.

use vstd::prelude::*;
use crate::kv_window::KvCopy;
use crate::layer_ops::{CompRows, MoeKind, Op, Site};

verus! {

/// What a layer's operations read and write.
pub enum Cell {
    Residual,
    /// The weights of the residual copies that the half-layer before has left.
    Carry,
    AttnMix,
    AttnIn,
    FfnMix,
    FfnIn,
    QueryLow,
    Query,
    KeyRow,
    Cache,
    CompOut,
    CompState,
    CompRow,
    Store,
    IndexKey,
    StoreKeys,
    IdxOut,
    IdxState,
    IdxRow,
    IdxStore,
    IdxQuery,
    IdxWeights,
    IdxScores,
    Choice,
    Chosen,
    Scores,
    Probs,
    Partials,
    Heads,
    AttnOut,
    AfterAttn,
    /// What the second device has of the feed-forward half's input and the picks.
    SentIn,
    SentPicks,
    RouterScores,
    Picks,
    HostPicks,
    ExpertIn,
    Shared,
    Hot,
    Answer,
    Paged,
    Routed,
    /// The sum of the experts on the first device.
    Sum,
}

/// A value, by how it was computed.
pub enum Term {
    /// A value that was there before.
    Given(nat),
    Nothing,
    /// The first residual copy alone.
    FirstCopy,
    /// What one operation makes of a value.
    Made(Op, Box<Term>),
    Mix(Site, Box<Term>),
    /// The part of a mix that weighs the copies for a half-layer's input.
    InputPart(Box<Term>),
    HalfIn(Site, Box<Term>, Box<Term>),
    /// A half-layer's result, blended into a residual by a mix.
    Blended(Box<Term>, Box<Term>, Box<Term>),
    QueryLow(Box<Term>),
    Query(bool, Box<Term>),
    /// A list with a value at a place.
    Put(Box<Term>, u32, Box<Term>),
    /// The same, in the packed form of a store.
    PutPacked(Box<Term>, u32, Box<Term>),
    Wrapped(KvCopy, Box<Term>),
    /// A query and its weights, scored against the first keys of the stores.
    KeyScores(Box<Term>, Box<Term>, Box<Term>, Box<Term>, u32),
    /// The rows of a store that a choice names.
    Gathered(Box<Term>, Box<Term>),
    /// Attention over the window alone.
    WindowHeads(Box<Term>, Box<Term>, u32, u32),
    /// A query scored against raw rows and compressed rows.
    RowScores(Box<Term>, Box<Term>, Box<Term>, u32, u32),
    Softmax(Box<Term>, u32, u32),
    /// Raw rows and compressed rows, weighted.
    Weighted(Box<Term>, Box<Term>, Box<Term>, u32, u32),
    /// A pool that holds the experts of some picks.
    Ready(Box<Term>),
    /// Routed experts of an input and picks, of the pool that serves them.
    Experts(MoeKind, u32, Box<Term>, Box<Term>, Box<Term>),
    HotExperts(Box<Term>, Box<Term>),
    RemoteExperts(Box<Term>, Box<Term>),
    Plus(Box<Term>, Box<Term>),
}

pub open spec fn made(op: Op, t: Term) -> Term {
    Term::Made(op, Box::new(t))
}

pub open spec fn plus(a: Term, b: Term) -> Term {
    Term::Plus(Box::new(a), Box::new(b))
}

pub open spec fn mix_of(site: Site, x: Term) -> Term {
    Term::Mix(site, Box::new(x))
}

pub open spec fn input_part(mix: Term) -> Term {
    Term::InputPart(Box::new(mix))
}

/// A half-layer's input: the residual's copies, weighted and normed.
pub open spec fn half_in(site: Site, x: Term, weights: Term) -> Term {
    Term::HalfIn(site, Box::new(x), Box::new(weights))
}

pub open spec fn put(list: Term, at: u32, x: Term) -> Term {
    Term::Put(Box::new(list), at, Box::new(x))
}

pub open spec fn blended(out: Term, x: Term, mix: Term) -> Term {
    Term::Blended(Box::new(out), Box::new(x), Box::new(mix))
}

/// The token's own row for the window.
pub open spec fn key_row(x: Term, pos: u32, window: bool) -> Term {
    made(
        Op::KvRound,
        made(Op::KvQuant { window }, made(Op::KvRope { pos }, made(Op::KvNorm, made(Op::KvProject, x)))),
    )
}

pub open spec fn mix_cell(site: Site) -> Cell {
    match site {
        Site::Attn => Cell::AttnMix,
        Site::Ffn => Cell::FfnMix,
    }
}

pub open spec fn in_cell(site: Site) -> Cell {
    match site {
        Site::Attn => Cell::AttnIn,
        Site::Ffn => Cell::FfnIn,
    }
}

/// The residual that a half of the layer starts from.
pub open spec fn source(site: Site) -> Cell {
    match site {
        Site::Attn => Cell::Residual,
        Site::Ffn => Cell::AfterAttn,
    }
}

/// The compressed rows that attention reads.
pub open spec fn rows_of(s: Map<Cell, Term>, rows: CompRows) -> Term {
    match rows {
        CompRows::Absent => Term::Nothing,
        CompRows::Gathered => s[Cell::Chosen],
        CompRows::Dense => s[Cell::Store],
    }
}

/// A value that is changed in its place by one operation.
pub open spec fn changed(s: Map<Cell, Term>, c: Cell, op: Op) -> Map<Cell, Term> {
    s.insert(c, made(op, s[c]))
}

/// The values after one more operation.
pub open spec fn after_op(s: Map<Cell, Term>, op: Op) -> Map<Cell, Term> {
    match op {
        Op::ResetMixCarry => s.insert(Cell::Carry, Term::FirstCopy),
        Op::Engram => changed(s, Cell::Residual, op),
        // The mix of a half, and the input that it or the one before weighs.
        Op::MhcMixes { site, .. } => s.insert(mix_cell(site), mix_of(site, s[source(site)])),
        Op::MhcCollapse { site } => s.insert(
            in_cell(site),
            half_in(site, s[source(site)], s[Cell::Carry]),
        ),
        Op::MhcCarry { site } => s.insert(Cell::Carry, input_part(s[mix_cell(site)])),
        Op::MhcFused { site } => {
            let m = mix_of(site, s[source(site)]);
            s.insert(mix_cell(site), m).insert(
                in_cell(site),
                half_in(site, s[source(site)], input_part(m)),
            )
        },
        Op::MhcChain { site, carry, .. } => {
            let m = mix_of(site, s[source(site)]);
            let weights = if carry {
                s[Cell::Carry]
            } else {
                input_part(m)
            };
            let t = s.insert(mix_cell(site), m).insert(
                in_cell(site),
                half_in(site, s[source(site)], weights),
            );
            if carry {
                t.insert(Cell::Carry, input_part(m))
            } else {
                t
            }
        },
        Op::QkvGraph { pos, slot } => {
            let x = s[Cell::AttnIn];
            let row = key_row(x, pos, false);
            s.insert(Cell::QueryLow, Term::QueryLow(Box::new(x))).insert(
                Cell::Query,
                made(Op::QRope { pos }, Term::Query(true, Box::new(x))),
            ).insert(Cell::KeyRow, row).insert(Cell::Cache, put(s[Cell::Cache], slot, row))
        },
        Op::QChain { norm_heads } => {
            let x = s[Cell::AttnIn];
            s.insert(Cell::QueryLow, Term::QueryLow(Box::new(x))).insert(
                Cell::Query,
                Term::Query(norm_heads, Box::new(x)),
            )
        },
        Op::QRope { .. } => changed(s, Cell::Query, op),
        Op::KvProject => s.insert(Cell::KeyRow, made(op, s[Cell::AttnIn])),
        Op::KvNorm | Op::KvRope { .. } | Op::KvQuant { .. } | Op::KvRound => changed(s, Cell::KeyRow, op),
        Op::KvAppend { slot } => s.insert(Cell::Cache, put(s[Cell::Cache], slot, s[Cell::KeyRow])),
        Op::KvWrap { copy } => s.insert(Cell::Cache, Term::Wrapped(copy, Box::new(s[Cell::Cache]))),
        Op::CompProject { .. } => {
            let v = made(op, s[Cell::AttnIn]);
            s.insert(Cell::CompOut, v).insert(Cell::CompRow, v)
        },
        Op::CompStateWrite { row, .. } => s.insert(
            Cell::CompState,
            put(s[Cell::CompState], row, made(op, s[Cell::CompOut])),
        ),
        Op::CompPool => s.insert(Cell::CompRow, made(op, s[Cell::CompState])),
        Op::CompNorm | Op::CompRope { .. } | Op::CompFp4 | Op::CompFp8 | Op::CompRound => changed(
            s,
            Cell::CompRow,
            op,
        ),
        Op::IndexKey { .. } => s.insert(Cell::IndexKey, made(op, s[Cell::CompRow])),
        Op::CompShuffle => changed(s, Cell::CompState, op),
        Op::IndexKeyAppend { row } => s.insert(
            Cell::StoreKeys,
            put(s[Cell::StoreKeys], row, s[Cell::IndexKey]),
        ),
        Op::CompAppend { row, packed } => s.insert(
            Cell::Store,
            if packed {
                Term::PutPacked(Box::new(s[Cell::Store]), row, Box::new(s[Cell::CompRow]))
            } else {
                put(s[Cell::Store], row, s[Cell::CompRow])
            },
        ),
        Op::IdxProject => s.insert(Cell::IdxOut, made(op, s[Cell::AttnIn])),
        Op::IdxStateWrite { row, .. } => s.insert(
            Cell::IdxState,
            put(s[Cell::IdxState], row, made(op, s[Cell::IdxOut])),
        ),
        Op::IdxPool => s.insert(Cell::IdxRow, made(op, s[Cell::IdxState])),
        Op::IdxNorm | Op::IdxRope { .. } | Op::IdxQat | Op::IdxRound => changed(s, Cell::IdxRow, op),
        Op::IdxShuffle => changed(s, Cell::IdxState, op),
        Op::IdxAppend { row, packed } => s.insert(
            Cell::IdxStore,
            if packed {
                Term::PutPacked(Box::new(s[Cell::IdxStore]), row, Box::new(s[Cell::IdxRow]))
            } else {
                put(s[Cell::IdxStore], row, s[Cell::IdxRow])
            },
        ),
        Op::AttnSwa { raw_off, n_raw } => s.insert(
            Cell::Heads,
            Term::WindowHeads(Box::new(s[Cell::Query]), Box::new(s[Cell::Cache]), raw_off, n_raw),
        ),
        Op::IndexerQuery => s.insert(Cell::IdxQuery, made(op, s[Cell::QueryLow])),
        Op::IndexerRope { .. } | Op::IndexerQat { .. } => changed(s, Cell::IdxQuery, op),
        Op::IndexerHeadWeights => s.insert(Cell::IdxWeights, made(op, s[Cell::AttnIn])),
        Op::IndexerScale => changed(s, Cell::IdxWeights, op),
        Op::IndexerScore { n, .. } => s.insert(
            Cell::IdxScores,
            Term::KeyScores(
                Box::new(s[Cell::IdxQuery]),
                Box::new(s[Cell::IdxWeights]),
                Box::new(s[Cell::StoreKeys]),
                Box::new(s[Cell::IdxStore]),
                n,
            ),
        ),
        Op::IndexerTopk { .. } => s.insert(Cell::Choice, made(op, s[Cell::IdxScores])),
        Op::IndexerGather { .. } => s.insert(
            Cell::Chosen,
            Term::Gathered(Box::new(s[Cell::Store]), Box::new(s[Cell::Choice])),
        ),
        Op::AttnScore { rows, n_raw, n_comp, .. } => s.insert(
            Cell::Scores,
            Term::RowScores(
                Box::new(s[Cell::Query]),
                Box::new(s[Cell::Cache]),
                Box::new(rows_of(s, rows)),
                n_raw,
                n_comp,
            ),
        ),
        Op::AttnSoftmax { n_raw, n_comp } => s.insert(
            Cell::Probs,
            Term::Softmax(Box::new(s[Cell::Scores]), n_raw, n_comp),
        ),
        Op::AttnSum { rows, n_raw, n_comp } => s.insert(
            Cell::Partials,
            Term::Weighted(
                Box::new(s[Cell::Probs]),
                Box::new(s[Cell::Cache]),
                Box::new(rows_of(s, rows)),
                n_raw,
                n_comp,
            ),
        ),
        Op::AttnReduce => s.insert(Cell::Heads, s[Cell::Partials]),
        Op::AttnSoftmaxSum { rows, n_raw, n_comp } => s.insert(
            Cell::Heads,
            Term::Weighted(
                Box::new(Term::Softmax(Box::new(s[Cell::Scores]), n_raw, n_comp)),
                Box::new(s[Cell::Cache]),
                Box::new(rows_of(s, rows)),
                n_raw,
                n_comp,
            ),
        ),
        Op::OutRope { .. } => changed(s, Cell::Heads, op),
        Op::OutProject => s.insert(Cell::AttnOut, made(op, s[Cell::Heads])),
        Op::MhcPostAttn => s.insert(
            Cell::AfterAttn,
            blended(s[Cell::AttnOut], s[Cell::Residual], s[Cell::AttnMix]),
        ),
        Op::PushFfnInput => s.insert(Cell::SentIn, s[Cell::FfnIn]),
        Op::RouterLogits => s.insert(Cell::RouterScores, made(op, s[Cell::FfnIn])),
        Op::RouterTopk => s.insert(Cell::Picks, made(op, s[Cell::RouterScores])),
        Op::HashRoute => s.insert(Cell::Picks, made(op, s[Cell::RouterScores])),
        Op::PushSelected => s.insert(Cell::SentPicks, s[Cell::Picks]),
        Op::SharedExpert => s.insert(Cell::Shared, made(op, s[Cell::FfnIn])),
        Op::QuantizeMoeInput => s.insert(Cell::ExpertIn, made(op, s[Cell::FfnIn])),
        Op::HotMoe => s.insert(
            Cell::Hot,
            Term::HotExperts(Box::new(s[Cell::FfnIn]), Box::new(s[Cell::Picks])),
        ),
        Op::ReadPicks => s.insert(Cell::HostPicks, s[Cell::Picks]),
        Op::Submit => s.insert(
            Cell::Answer,
            Term::RemoteExperts(Box::new(s[Cell::ExpertIn]), Box::new(s[Cell::HostPicks])),
        ),
        Op::Ensure { .. } => s.insert(Cell::Paged, Term::Ready(Box::new(s[Cell::HostPicks]))),
        Op::MarkRemote => changed(s, Cell::Paged, op),
        Op::RoutedMoe { kind, cap } => s.insert(
            Cell::Routed,
            Term::Experts(
                kind,
                cap,
                Box::new(s[Cell::SentIn]),
                Box::new(s[Cell::SentPicks]),
                Box::new(s[Cell::Paged]),
            ),
        ),
        Op::PushMoe => s.insert(Cell::Sum, s[Cell::Routed]),
        Op::AddRemote => s.insert(Cell::Sum, plus(s[Cell::Sum], s[Cell::Answer])),
        Op::AddShared => s.insert(Cell::Sum, plus(s[Cell::Sum], s[Cell::Shared])),
        Op::AddHot => s.insert(Cell::Sum, plus(s[Cell::Sum], s[Cell::Hot])),
        Op::MhcPostFfn => s.insert(
            Cell::Residual,
            blended(s[Cell::Sum], s[Cell::AfterAttn], s[Cell::FfnMix]),
        ),
        Op::Record { .. } | Op::Wait { .. } | Op::Sync { .. } | Op::Dump { .. } | Op::RecordPicks
        | Op::RaiseMoeSignal { .. } | Op::WaitMoeSignal { .. } | Op::IndexerCheck { .. }
        | Op::VerifyRouting | Op::AwaitRemote => s,
    }
}

/// The values after some operations, from those in `start`.
pub open spec fn values(start: Map<Cell, Term>, ops: Seq<Op>) -> Map<Cell, Term>
    decreases ops.len(),
{
    if ops.len() == 0 {
        start
    } else {
        after_op(values(start, ops.drop_last()), ops.last())
    }
}

pub broadcast proof fn lemma_push_values(start: Map<Cell, Term>, ops: Seq<Op>, op: Op)
    ensures
        #[trigger] values(start, ops.push(op)) == after_op(values(start, ops), op),
{
    assert(ops.push(op).drop_last() =~= ops);
}

pub proof fn lemma_values_behind(start: Map<Cell, Term>, a: Seq<Op>, b: Seq<Op>)
    ensures
        values(start, a + b) == values(values(start, a), b),
    decreases b.len(),
{
    if b.len() == 0 {
        assert(a + b =~= a);
    } else {
        lemma_values_behind(start, a, b.drop_last());
        assert((a + b).drop_last() =~= a + b.drop_last());
        assert((a + b).last() == b.last());
    }
}

} // verus!
