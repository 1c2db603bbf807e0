//! A layer computes its residual: whatever kernels it is issued as, the values that
//! it leaves are these, of those that it found.

use vstd::prelude::*;
use crate::layer_attention;
use crate::layer_compress;
use crate::layer_ops::{
    CompRows, CompressorState, DumpPoint, IndexerState, Lane, LayerFacts, LayerKnobs, LayerState, MoeKind,
    Op, Signal, Site, Store, TokenState,
};
use crate::layer_ops;
use crate::layer_plan::MoeSetup;
use crate::layer_plan;
use crate::layer_values::{Cell, Term};
use crate::layer_values;

verus! {

/// Only the values of `cells` differ.
pub open spec fn keeps(v: Map<Cell, Term>, w: Map<Cell, Term>, cells: Set<Cell>) -> bool {
    forall|c: Cell| !cells.contains(c) ==> #[trigger] w[c] == v[c]
}

/// The kernels of the mix are those that the model has: one that runs it on a lane
/// of its own, or as one kernel.
pub open spec fn mixes_agree(k: LayerKnobs) -> bool {
    (k.mhc_split ==> k.v41) && !(k.mhc_fused && k.v41)
}

/// The weights of a half-layer's input: those that the half before has left, where
/// the model computes them ahead, else those of its own mix.
pub open spec fn weights(k: LayerKnobs, site: Site, x: Term, carry: Term) -> Term {
    if k.v41 {
        carry
    } else {
        layer_values::input_part(layer_values::mix_of(site, x))
    }
}

proof fn lemma_mix(start: Map<Cell, Term>, ops: Seq<Op>, k: LayerKnobs, site: Site)
    requires
        mixes_agree(k),
    ensures
        ({
            let v = layer_values::values(start, ops);
            let w = layer_values::values(start, layer_plan::mix_ops(ops, k, site));
            let x = v[layer_values::source(site)];
            let m = layer_values::mix_of(site, x);
            &&& keeps(
                v,
                w,
                set![Cell::Carry, layer_values::mix_cell(site), layer_values::in_cell(site)],
            )
            &&& w[layer_values::mix_cell(site)] == m
            &&& w[layer_values::in_cell(site)] == layer_values::half_in(
                site,
                x,
                weights(k, site, x, v[Cell::Carry]),
            )
            &&& w[Cell::Carry] == if k.v41 {
                layer_values::input_part(m)
            } else {
                v[Cell::Carry]
            }
        }),
{
    broadcast use layer_values::lemma_push_values;

}

proof fn lemma_dump(start: Map<Cell, Term>, ops: Seq<Op>, k: LayerKnobs, point: DumpPoint)
    ensures
        layer_values::values(start, layer_plan::dump_ops(ops, k, point)) == layer_values::values(
            start,
            ops,
        ),
{
    broadcast use layer_values::lemma_push_values;

}

/// The residual that the layer works on.
pub open spec fn entering(f: LayerFacts, v: Map<Cell, Term>) -> Term {
    if f.engram {
        layer_values::made(Op::Engram, v[Cell::Residual])
    } else {
        v[Cell::Residual]
    }
}

/// The weights that the half-layer in front has left: for the first layer the first
/// residual copy alone.
pub open spec fn carry_in(k: LayerKnobs, f: LayerFacts, v: Map<Cell, Term>) -> Term {
    if k.v41 && f.layer == 0 {
        Term::FirstCopy
    } else {
        v[Cell::Carry]
    }
}

/// The layer's own mix in front of attention is its first. Elsewhere the layer in
/// front has computed it.
pub open spec fn starts(k: LayerKnobs, f: LayerFacts) -> bool {
    k.standalone || f.layer == 0 || f.engram
}

pub open spec fn attn_mix(k: LayerKnobs, f: LayerFacts, v: Map<Cell, Term>) -> Term {
    if starts(k, f) {
        layer_values::mix_of(Site::Attn, entering(f, v))
    } else {
        v[Cell::AttnMix]
    }
}

pub open spec fn attn_in(k: LayerKnobs, f: LayerFacts, v: Map<Cell, Term>) -> Term {
    if starts(k, f) {
        layer_values::half_in(
            Site::Attn,
            entering(f, v),
            weights(k, Site::Attn, entering(f, v), carry_in(k, f, v)),
        )
    } else {
        v[Cell::AttnIn]
    }
}

/// The weights that the attention half leaves.
pub open spec fn carry_on(k: LayerKnobs, f: LayerFacts, v: Map<Cell, Term>) -> Term {
    if k.v41 && starts(k, f) {
        layer_values::input_part(attn_mix(k, f, v))
    } else {
        carry_in(k, f, v)
    }
}

proof fn lemma_begin(v: Map<Cell, Term>, k: LayerKnobs, f: LayerFacts, t: TokenState)
    requires
        mixes_agree(k),
        layer_plan::begin_stop(f, t) is None,
    ensures
        ({
            let w = layer_values::values(v, layer_plan::begin_ops(Seq::empty(), k, f, t));
            &&& keeps(v, w, set![Cell::Residual, Cell::Carry, Cell::AttnMix, Cell::AttnIn])
            &&& w[Cell::Residual] == entering(f, v)
            &&& w[Cell::Carry] == carry_on(k, f, v)
            &&& w[Cell::AttnMix] == attn_mix(k, f, v)
            &&& w[Cell::AttnIn] == attn_in(k, f, v)
        }),
{
    broadcast use layer_values::lemma_push_values;

    let ops = Seq::<Op>::empty();
    let ops = layer_ops::push_if(ops, k.v41 && f.layer == 0, Op::ResetMixCarry);
    let ops = layer_ops::push_if(ops, f.engram, Op::Engram);
    lemma_mix(v, ops, k, Site::Attn);
    lemma_dump(v, layer_plan::mix_ops(ops, k, Site::Attn), k, DumpPoint::AttnCur);
}

/// The query of the token, of its position.
pub open spec fn query(k: LayerKnobs, x: Term, pos: u32) -> Term {
    layer_values::made(Op::QRope { pos }, Term::Query(!k.v41, Box::new(x)))
}

/// The cache with the token's own row behind the window, and the copy to its front
/// that may follow.
pub open spec fn cache_then(k: LayerKnobs, s: LayerState, pos: u32, x: Term, cache: Term) -> Term {
    let written = layer_values::put(
        cache,
        (s.window.raw_off + s.window.n_raw) as u32,
        layer_values::key_row(x, pos, k.v41),
    );
    match s.window.wrap_copy(k.kv_rows) {
        Some(copy) => Term::Wrapped(copy, Box::new(written)),
        None => written,
    }
}

proof fn lemma_project(
    start: Map<Cell, Term>,
    ops: Seq<Op>,
    k: LayerKnobs,
    pos: u32,
    slot: u32,
)
    ensures
        ({
            let v = layer_values::values(start, ops);
            let w = layer_values::values(start, layer_plan::project_ops(ops, k, pos, slot));
            let x = v[Cell::AttnIn];
            &&& keeps(v, w, set![Cell::QueryLow, Cell::Query, Cell::KeyRow, Cell::Cache])
            &&& w[Cell::QueryLow] == Term::QueryLow(Box::new(x))
            &&& w[Cell::Query] == query(k, x, pos)
            &&& w[Cell::Cache] == layer_values::put(
                v[Cell::Cache],
                slot,
                layer_values::key_row(x, pos, k.v41),
            )
        }),
{
    broadcast use layer_values::lemma_push_values;

    if !layer_plan::one_graph(k) {
        lemma_dump(
            start,
            ops.push(Op::QChain { norm_heads: !k.v41 }).push(Op::QRope { pos }),
            k,
            DumpPoint::QNormed,
        );
    }
}

proof fn lemma_begun(
    v: Map<Cell, Term>,
    k: LayerKnobs,
    f: LayerFacts,
    pos: u32,
    s: LayerState,
    t: TokenState,
)
    requires
        mixes_agree(k),
        layer_plan::begin_stop(f, t) is None,
    ensures
        ({
            let w = layer_values::values(v, layer_plan::begun(k, f, pos, s, t).ops);
            let x = attn_in(k, f, v);
            &&& keeps(
                v,
                w,
                set![
                    Cell::Residual,
                    Cell::Carry,
                    Cell::AttnMix,
                    Cell::AttnIn,
                    Cell::QueryLow,
                    Cell::Query,
                    Cell::KeyRow,
                    Cell::Cache,
                ],
            )
            &&& w[Cell::Residual] == entering(f, v)
            &&& w[Cell::Carry] == carry_on(k, f, v)
            &&& w[Cell::AttnMix] == attn_mix(k, f, v)
            &&& w[Cell::AttnIn] == x
            &&& w[Cell::QueryLow] == Term::QueryLow(Box::new(x))
            &&& w[Cell::Query] == query(k, x, pos)
            &&& w[Cell::Cache] == cache_then(k, s, pos, x, v[Cell::Cache])
        }),
{
    broadcast use layer_values::lemma_push_values;

    lemma_begin(v, k, f, t);
    let ops = layer_plan::begin_ops(Seq::empty(), k, f, t);
    lemma_project(v, ops, k, pos, s.window.next_slot() as u32);
}

/// A token at `pos` is the last of a row's.
pub open spec fn ends_a_row(ratio: u32, pos: u32) -> bool {
    (pos + 1) % (ratio as int) == 0
}

/// The slot of a running state that a token at `pos` takes. A row of four tokens
/// keeps the ones in front of it too.
pub open spec fn state_slot(ratio: u32, pos: u32) -> u32 {
    if ratio == 4 {
        (4 + pos % 4) as u32
    } else {
        pos % ratio
    }
}

/// The position of the first token of the row that ends at `pos`.
pub open spec fn first_of_row(ratio: u32, pos: u32) -> u32 {
    (pos + 1 - ratio) as u32
}

/// The token's share in a compressed row.
pub open spec fn share(f: LayerFacts, x: Term) -> Term {
    layer_values::made(Op::CompProject { gated: f.ratio != 1 }, x)
}

/// The running state with the token's share. A row of one token has none.
pub open spec fn state_then(f: LayerFacts, pos: u32, x: Term, state: Term) -> Term {
    if f.ratio == 1 {
        state
    } else {
        let row = state_slot(f.ratio, pos);
        layer_values::put(
            state,
            row,
            layer_values::made(Op::CompStateWrite { row, pos_mod: pos % f.ratio }, share(f, x)),
        )
    }
}

/// A new row, as its tokens pool to.
pub open spec fn pooled_row(f: LayerFacts, pos: u32, x: Term, state: Term) -> Term {
    layer_values::made(
        Op::CompNorm,
        if f.ratio == 1 {
            share(f, x)
        } else {
            layer_values::made(Op::CompPool, state_then(f, pos, x, state))
        },
    )
}

/// A new row as the store takes it: of the position of its first token, rounded
/// as the model rounds it. A store that packs its rows rounds them itself.
pub open spec fn stored_row(
    k: LayerKnobs,
    f: LayerFacts,
    pos: u32,
    store: Store,
    x: Term,
    state: Term,
) -> Term {
    let roped = layer_values::made(
        Op::CompRope { pos: first_of_row(f.ratio, pos) },
        pooled_row(f, pos, x, state),
    );
    if k.v41 {
        layer_values::made(Op::CompFp4, roped)
    } else if store == Store::Fp8 {
        roped
    } else {
        layer_values::made(Op::CompRound, layer_values::made(Op::CompFp8, roped))
    }
}

/// A list with a row behind its first `n`.
pub open spec fn added(list: Term, n: u32, packed: bool, row: Term) -> Term {
    if packed {
        Term::PutPacked(Box::new(list), n, Box::new(row))
    } else {
        layer_values::put(list, n, row)
    }
}

/// What the compressor of a layer with rows of its own leaves.
pub open spec fn comp_then(
    k: LayerKnobs,
    f: LayerFacts,
    pos: u32,
    c: CompressorState,
    v: Map<Cell, Term>,
    w: Map<Cell, Term>,
) -> bool {
    let x = v[Cell::AttnIn];
    let state = state_then(f, pos, x, v[Cell::CompState]);
    if ends_a_row(f.ratio, pos) {
        &&& w[Cell::CompState] == if f.ratio == 4 {
            layer_values::made(Op::CompShuffle, state)
        } else {
            state
        }
        &&& w[Cell::Store] == added(
            v[Cell::Store],
            c.n_comp,
            c.store == Store::Fp8,
            stored_row(k, f, pos, c.store, x, v[Cell::CompState]),
        )
        &&& w[Cell::StoreKeys] == if k.index_k && c.index_key {
            layer_values::put(
                v[Cell::StoreKeys],
                c.n_index_comp,
                if f.indexer_keys {
                    layer_values::made(
                        Op::IndexKey { pos: first_of_row(f.ratio, pos) },
                        pooled_row(f, pos, x, v[Cell::CompState]),
                    )
                } else {
                    v[Cell::IndexKey]
                },
            )
        } else {
            v[Cell::StoreKeys]
        }
    } else {
        &&& w[Cell::CompState] == state
        &&& w[Cell::Store] == v[Cell::Store]
        &&& w[Cell::StoreKeys] == v[Cell::StoreKeys]
    }
}

pub open spec fn comp_cells() -> Set<Cell> {
    set![
        Cell::CompOut,
        Cell::CompState,
        Cell::CompRow,
        Cell::Store,
        Cell::IndexKey,
        Cell::StoreKeys,
    ]
}

proof fn lemma_row(
    start: Map<Cell, Term>,
    ops: Seq<Op>,
    k: LayerKnobs,
    f: LayerFacts,
    pos: u32,
    c: CompressorState,
)
    requires
        c.store != Store::E2m1,
    ensures
        ({
            let v = layer_values::values(start, ops);
            let w = layer_values::values(start, layer_compress::row_ops(ops, k, f, pos, c));
            let pooled = layer_values::made(
                Op::CompNorm,
                if f.ratio == 1 {
                    v[Cell::CompRow]
                } else {
                    layer_values::made(Op::CompPool, v[Cell::CompState])
                },
            );
            let first = first_of_row(f.ratio, pos);
            let roped = layer_values::made(Op::CompRope { pos: first }, pooled);
            &&& keeps(v, w, comp_cells())
            &&& w[Cell::CompState] == if f.ratio == 4 {
                layer_values::made(Op::CompShuffle, v[Cell::CompState])
            } else {
                v[Cell::CompState]
            }
            &&& w[Cell::Store] == added(
                v[Cell::Store],
                c.n_comp,
                c.store == Store::Fp8,
                if k.v41 {
                    layer_values::made(Op::CompFp4, roped)
                } else if c.store == Store::Fp8 {
                    roped
                } else {
                    layer_values::made(Op::CompRound, layer_values::made(Op::CompFp8, roped))
                },
            )
            &&& w[Cell::StoreKeys] == if k.index_k && c.index_key {
                layer_values::put(
                    v[Cell::StoreKeys],
                    c.n_index_comp,
                    if f.indexer_keys {
                        layer_values::made(Op::IndexKey { pos: first }, pooled)
                    } else {
                        v[Cell::IndexKey]
                    },
                )
            } else {
                v[Cell::StoreKeys]
            }
        }),
{
    broadcast use layer_values::lemma_push_values;

}

proof fn lemma_compressor(
    start: Map<Cell, Term>,
    ops: Seq<Op>,
    k: LayerKnobs,
    f: LayerFacts,
    pos: u32,
    c: Option<CompressorState>,
)
    requires
        layer_compress::compressor_stop(f, pos, c) is None,
    ensures
        ({
            let v = layer_values::values(start, ops);
            let w = layer_values::values(start, layer_compress::compressor_ops(ops, k, f, pos, c));
            &&& keeps(v, w, comp_cells())
            &&& f.ratio > 0 && f.compressor ==> comp_then(k, f, pos, c->0, v, w)
            &&& !(f.ratio > 0 && f.compressor) ==> w == v
        }),
{
    broadcast use layer_values::lemma_push_values;

    if f.ratio > 0 && f.compressor {
        let some = c->0;
        let ops = ops.push(Op::CompProject { gated: f.ratio != 1 });
        let ops = layer_ops::push_if(
            ops,
            f.ratio != 1,
            Op::CompStateWrite {
                row: layer_compress::state_row(f.ratio, pos) as u32,
                pos_mod: pos % f.ratio,
            },
        );
        if layer_compress::completes_row(f.ratio, pos) {
            lemma_row(start, ops, k, f, pos, some);
        }
    }
}

/// What the indexer's compressor leaves.
pub open spec fn idx_then(pos: u32, i: IndexerState, v: Map<Cell, Term>, w: Map<Cell, Term>) -> bool {
    let row = state_slot(4, pos);
    let state = layer_values::put(
        v[Cell::IdxState],
        row,
        layer_values::made(
            Op::IdxStateWrite { row, pos_mod: pos % 4 },
            layer_values::made(Op::IdxProject, v[Cell::AttnIn]),
        ),
    );
    if ends_a_row(4, pos) {
        let turned = layer_values::made(
            Op::IdxQat,
            layer_values::made(
                Op::IdxRope { pos: first_of_row(4, pos) },
                layer_values::made(Op::IdxNorm, layer_values::made(Op::IdxPool, state)),
            ),
        );
        &&& w[Cell::IdxState] == layer_values::made(Op::IdxShuffle, state)
        &&& w[Cell::IdxStore] == added(
            v[Cell::IdxStore],
            i.n_comp,
            i.store == Store::E2m1,
            if i.store == Store::E2m1 {
                turned
            } else {
                layer_values::made(Op::IdxRound, turned)
            },
        )
    } else {
        &&& w[Cell::IdxState] == state
        &&& w[Cell::IdxStore] == v[Cell::IdxStore]
    }
}

proof fn lemma_indexer_compressor(
    start: Map<Cell, Term>,
    ops: Seq<Op>,
    f: LayerFacts,
    pos: u32,
    i: Option<IndexerState>,
)
    requires
        layer_compress::indexer_stop(f, pos, i) is None,
    ensures
        ({
            let v = layer_values::values(start, ops);
            let w = layer_values::values(
                start,
                layer_compress::indexer_compressor_ops(ops, f, pos, i),
            );
            &&& keeps(v, w, set![Cell::IdxOut, Cell::IdxState, Cell::IdxRow, Cell::IdxStore])
            &&& f.ratio == 4 ==> idx_then(pos, i->0, v, w)
            &&& f.ratio != 4 ==> w == v
        }),
{
    broadcast use layer_values::lemma_push_values;

}

/// The choice of an indexer among its keys, for a token at `pos`: the best of its
/// scores of them.
pub open spec fn choice(pos: u32, fp4: bool, n: u32, v: Map<Cell, Term>) -> Term {
    let query = layer_values::made(
        Op::IndexerQat { fp4 },
        layer_values::made(
            Op::IndexerRope { pos },
            layer_values::made(Op::IndexerQuery, v[Cell::QueryLow]),
        ),
    );
    let heads = layer_values::made(
        Op::IndexerScale,
        layer_values::made(Op::IndexerHeadWeights, v[Cell::AttnIn]),
    );
    layer_values::made(
        Op::IndexerTopk { n },
        Term::KeyScores(
            Box::new(query),
            Box::new(heads),
            Box::new(v[Cell::StoreKeys]),
            Box::new(v[Cell::IdxStore]),
            n,
        ),
    )
}

/// The gathered rows behind the indexer: its own choice of the store's rows, where
/// it has made one.
pub open spec fn chosen_then(
    k: LayerKnobs,
    f: LayerFacts,
    pos: u32,
    s: LayerState,
    v: Map<Cell, Term>,
) -> Term {
    if f.ratio > 0 && layer_attention::sparse(k, f, s) {
        Term::Gathered(
            Box::new(v[Cell::Store]),
            Box::new(
                choice(
                    pos,
                    layer_attention::keys_in_store(k, s),
                    layer_attention::index_keys(k, s),
                    v,
                ),
            ),
        )
    } else {
        v[Cell::Chosen]
    }
}

/// The heads of attention over raw rows and compressed rows: the rows, weighted by
/// the softmax of the query's scores of the same rows.
pub open spec fn mixed_heads(query: Term, cache: Term, rows: Term, n_raw: u32, n: u32) -> Term {
    let scores = Term::RowScores(Box::new(query), Box::new(cache), Box::new(rows), n_raw, n);
    Term::Weighted(
        Box::new(Term::Softmax(Box::new(scores), n_raw, n)),
        Box::new(cache),
        Box::new(rows),
        n_raw,
        n,
    )
}

/// The heads that attention leaves, over the window and the rows that it reads.
pub open spec fn heads(
    k: LayerKnobs,
    f: LayerFacts,
    pos: u32,
    s: LayerState,
    t: TokenState,
    v: Map<Cell, Term>,
) -> Term {
    if f.ratio == 0 {
        Term::WindowHeads(
            Box::new(v[Cell::Query]),
            Box::new(v[Cell::Cache]),
            s.window.raw_off,
            s.window.n_raw,
        )
    } else {
        let (rows, n) = layer_attention::attended(k, f, s, t);
        mixed_heads(
            v[Cell::Query],
            v[Cell::Cache],
            match rows {
                CompRows::Absent => Term::Nothing,
                CompRows::Gathered => chosen_then(k, f, pos, s, v),
                CompRows::Dense => v[Cell::Store],
            },
            s.window.n_raw,
            n,
        )
    }
}

pub open spec fn attention_cells() -> Set<Cell> {
    set![
        Cell::IdxQuery,
        Cell::IdxWeights,
        Cell::IdxScores,
        Cell::Choice,
        Cell::Chosen,
        Cell::Scores,
        Cell::Probs,
        Cell::Partials,
        Cell::Heads,
    ]
}

proof fn lemma_indexer(
    start: Map<Cell, Term>,
    ops: Seq<Op>,
    k: LayerKnobs,
    f: LayerFacts,
    pos: u32,
    s: LayerState,
)
    requires
        f.ratio > 0,
        layer_attention::sparse(k, f, s),
        layer_attention::indexer_fault(k, f, s) is None,
    ensures
        ({
            let v = layer_values::values(start, ops);
            let w = layer_values::values(start, layer_attention::indexer_ops(ops, k, f, pos, s));
            &&& keeps(v, w, attention_cells())
            &&& w[Cell::Chosen] == chosen_then(k, f, pos, s, v)
        }),
{
    broadcast use layer_values::lemma_push_values;

}

proof fn lemma_attention(
    start: Map<Cell, Term>,
    ops: Seq<Op>,
    k: LayerKnobs,
    f: LayerFacts,
    pos: u32,
    s: LayerState,
    t: TokenState,
)
    requires
        layer_attention::attention_stop(k, f, s, t) is None,
    ensures
        ({
            let v = layer_values::values(start, ops);
            let w = layer_values::values(
                start,
                layer_attention::attention_ops(ops, k, f, pos, s, t),
            );
            &&& keeps(v, w, attention_cells())
            &&& w[Cell::Chosen] == chosen_then(k, f, pos, s, v)
            &&& w[Cell::Heads] == heads(k, f, pos, s, t, v)
        }),
{
    broadcast use layer_values::lemma_push_values;

    if f.ratio > 0 && layer_attention::sparse(k, f, s) {
        lemma_indexer(start, ops, k, f, pos, s);
    }
}

/// The residual behind attention.
pub open spec fn after_attention(pos: u32, heads: Term, x: Term, mix: Term) -> Term {
    layer_values::blended(
        layer_values::made(Op::OutProject, layer_values::made(Op::OutRope { pos }, heads)),
        x,
        mix,
    )
}

proof fn lemma_output(start: Map<Cell, Term>, ops: Seq<Op>, k: LayerKnobs, pos: u32)
    requires
        mixes_agree(k),
    ensures
        ({
            let v = layer_values::values(start, ops);
            let w = layer_values::values(start, layer_plan::output_ops(ops, k, pos));
            let x = after_attention(pos, v[Cell::Heads], v[Cell::Residual], v[Cell::AttnMix]);
            let m = layer_values::mix_of(Site::Ffn, x);
            &&& keeps(
                v,
                w,
                set![
                    Cell::Heads,
                    Cell::AttnOut,
                    Cell::AfterAttn,
                    Cell::Carry,
                    Cell::FfnMix,
                    Cell::FfnIn,
                    Cell::SentIn,
                ],
            )
            &&& w[Cell::AfterAttn] == x
            &&& w[Cell::FfnMix] == m
            &&& w[Cell::FfnIn] == layer_values::half_in(
                Site::Ffn,
                x,
                weights(k, Site::Ffn, x, v[Cell::Carry]),
            )
            &&& w[Cell::SentIn] == w[Cell::FfnIn]
            &&& w[Cell::Carry] == if k.v41 {
                layer_values::input_part(m)
            } else {
                v[Cell::Carry]
            }
        }),
{
    broadcast use layer_values::lemma_push_values;

    let a = ops.push(Op::OutRope { pos });
    lemma_dump(start, a, k, DumpPoint::Heads);
    let a = layer_plan::dump_ops(a, k, DumpPoint::Heads).push(Op::OutProject);
    lemma_dump(start, a, k, DumpPoint::AttnOut);
    let a = layer_plan::dump_ops(a, k, DumpPoint::AttnOut);
    let a = layer_ops::push_if(
        a,
        k.mhc_split,
        Op::Wait { signal: Signal::HcMixesAttn, lane: Lane::Compute },
    ).push(Op::MhcPostAttn);
    lemma_mix(start, a, k, Site::Ffn);
}

/// The router's picks, of its scores of the input.
pub open spec fn picks(f: LayerFacts, x: Term) -> Term {
    layer_values::made(
        if f.hash_router {
            Op::HashRoute
        } else {
            Op::RouterTopk
        },
        layer_values::made(Op::RouterLogits, x),
    )
}

proof fn lemma_router(start: Map<Cell, Term>, ops: Seq<Op>, k: LayerKnobs, f: LayerFacts, seq: u32)
    requires
        layer_plan::router_stop(f) is None,
    ensures
        ({
            let v = layer_values::values(start, ops);
            let w = layer_values::values(
                start,
                layer_plan::select_ops(layer_plan::router_ops(ops, k, f), k, seq),
            );
            &&& keeps(v, w, set![Cell::RouterScores, Cell::Picks, Cell::SentPicks])
            &&& w[Cell::Picks] == picks(f, v[Cell::FfnIn])
            &&& w[Cell::SentPicks] == w[Cell::Picks]
        }),
{
    broadcast use layer_values::lemma_push_values;

    if !f.hash_router {
        lemma_dump(
            start,
            ops.push(Op::RouterLogits).push(Op::RouterTopk),
            k,
            DumpPoint::Selected,
        );
    }
}

/// What a layer's first part leaves of the values in front of it.
pub open spec fn first_half(
    k: LayerKnobs,
    f: LayerFacts,
    pos: u32,
    s: LayerState,
    now: LayerState,
    t: TokenState,
    v: Map<Cell, Term>,
    w: Map<Cell, Term>,
) -> bool {
    let x = attn_in(k, f, v);
    let entered = v.insert(Cell::AttnIn, x);
    let heads = heads(k, f, pos, now, t, w.insert(Cell::Chosen, v[Cell::Chosen]));
    let mid = after_attention(pos, heads, entering(f, v), attn_mix(k, f, v));
    let ffn = layer_values::half_in(
        Site::Ffn,
        mid,
        weights(k, Site::Ffn, mid, carry_on(k, f, v)),
    );
    // The rows that the layer keeps.
    &&& w[Cell::Cache] == cache_then(k, s, pos, x, v[Cell::Cache])
    &&& if f.ratio > 0 && f.compressor {
        comp_then(k, f, pos, s.compressor->0, entered, w)
    } else {
        w[Cell::CompState] == v[Cell::CompState] && w[Cell::Store] == v[Cell::Store]
            && w[Cell::StoreKeys] == v[Cell::StoreKeys]
    }
    &&& if f.ratio == 4 {
        idx_then(pos, s.indexer->0, entered, w)
    } else {
        w[Cell::IdxState] == v[Cell::IdxState] && w[Cell::IdxStore] == v[Cell::IdxStore]
    }
    // Attention.
    &&& w[Cell::AttnIn] == x
    &&& w[Cell::QueryLow] == Term::QueryLow(Box::new(x))
    &&& w[Cell::Query] == query(k, x, pos)
    &&& w[Cell::Chosen] == chosen_then(
        k,
        f,
        pos,
        now,
        w.insert(Cell::Chosen, v[Cell::Chosen]),
    )
    &&& w[Cell::AfterAttn] == mid
    // The feed-forward half's input and picks, on both devices.
    &&& w[Cell::FfnMix] == layer_values::mix_of(Site::Ffn, mid)
    &&& w[Cell::Carry] == if k.v41 {
        layer_values::input_part(layer_values::mix_of(Site::Ffn, mid))
    } else {
        carry_in(k, f, v)
    }
    &&& w[Cell::FfnIn] == ffn
    &&& w[Cell::SentIn] == ffn
    &&& w[Cell::Picks] == picks(f, ffn)
    &&& w[Cell::SentPicks] == picks(f, ffn)
}

/// The first part of a layer computes the rows that it keeps, its attention half,
/// and the input and picks of its feed-forward half, whatever kernels it uses. It
/// leaves what the second half computes alone.
pub proof fn a_layer_computes_its_first_half(
    k: LayerKnobs,
    f: LayerFacts,
    pos: u32,
    s: LayerState,
    t: TokenState,
    v: Map<Cell, Term>,
)
    requires
        mixes_agree(k),
        layer_plan::first_part(k, f, pos, s, t).stop is None,
    ensures
        ({
            let r = layer_plan::first_part(k, f, pos, s, t);
            let w = layer_values::values(v, r.ops);
            &&& first_half(k, f, pos, s, r.state, t, v, w)
            &&& w[Cell::Shared] == v[Cell::Shared]
            &&& w[Cell::Hot] == v[Cell::Hot]
            &&& w[Cell::Answer] == v[Cell::Answer]
            &&& w[Cell::Paged] == v[Cell::Paged]
            &&& w[Cell::Sum] == v[Cell::Sum]
        }),
{
    let begun = layer_plan::begun(k, f, pos, s, t);
    let compressed = layer_plan::compressed(begun, k, f, pos);
    let indexed = layer_plan::indexed(compressed, f, pos);
    let attended = layer_plan::attended(indexed, k, f, pos);
    lemma_begun(v, k, f, pos, s, t);
    lemma_compressor(v, begun.ops, k, f, pos, begun.state.compressor);
    lemma_indexer_compressor(v, compressed.ops, f, pos, compressed.state.indexer);
    lemma_attention(v, indexed.ops, k, f, pos, indexed.state, indexed.token);
    lemma_output(v, attended.ops, k, pos);
    lemma_router(v, layer_plan::output_ops(attended.ops, k, pos), k, f, attended.token.seq);
    let a = layer_values::values(v, begun.ops);
    let b = layer_values::values(v, compressed.ops);
    let c = layer_values::values(v, indexed.ops);
    let w = layer_values::values(v, layer_plan::first_part(k, f, pos, s, t).ops);
    assert(w[Cell::Chosen] == chosen_then(k, f, pos, indexed.state, c));
    assert(c[Cell::Chosen] == v[Cell::Chosen]);
}

/// Everything that a layer issues, in the order of its data: what was issued ahead
/// of the token waits for the picks, so it runs behind the first part.
pub open spec fn in_order(
    k: LayerKnobs,
    f: LayerFacts,
    pos: u32,
    s: LayerState,
    t: TokenState,
    m: MoeSetup,
    remote: bool,
    cap: u32,
    partial: Option<usize>,
) -> Seq<Op> {
    let ops = layer_plan::first_part(k, f, pos, s, t).ops;
    let ops = ops + if m.preissued {
        layer_plan::ahead_ops(t.seq)
    } else {
        Seq::empty()
    };
    let ops = ops + layer_plan::moe_ops(Seq::empty(), k, f, m);
    let ops = ops + if m.paged && !m.preissued {
        layer_plan::pick_ops(Seq::empty(), k, f, m, remote, cap)
    } else {
        Seq::empty()
    };
    let ops = ops + layer_plan::arrive_ops(Seq::empty(), k, partial is Some);
    ops + layer_plan::finish_ops(Seq::empty(), k, f, partial)
}

/// The routed experts' sum on the second device, of what was sent to it.
pub open spec fn routed_sum(
    f: LayerFacts,
    m: MoeSetup,
    remote: bool,
    cap: u32,
    x: Term,
    picked: Term,
    pool: Term,
) -> Term {
    let x = Box::new(x);
    if m.preissued {
        Term::Experts(MoeKind::Plain, 0, x, Box::new(picked), Box::new(pool))
    } else if m.paged {
        // The pool is made ready for the picks, and what is not this machine's is
        // taken out of it.
        let ready = Term::Ready(Box::new(picked));
        let own = if remote {
            layer_values::made(Op::MarkRemote, ready)
        } else {
            ready
        };
        Term::Experts(MoeKind::Paged, cap, x, Box::new(picked), Box::new(own))
    } else if f.hot_remap {
        Term::Experts(MoeKind::HetSplit, m.hot_cap, x, Box::new(picked), Box::new(pool))
    } else {
        Term::Experts(MoeKind::Plain, 0, x, Box::new(picked), Box::new(pool))
    }
}

/// The feed-forward half's result: the routed experts, with the other machine's
/// share where it has one, the shared expert, and the first device's own experts
/// where it has some.
pub open spec fn experts_sum(
    f: LayerFacts,
    m: MoeSetup,
    remote: bool,
    cap: u32,
    partial: Option<usize>,
    x: Term,
    picked: Term,
    pool: Term,
) -> Term {
    let sum = routed_sum(f, m, remote, cap, x, picked, pool);
    let sum = if partial is Some {
        layer_values::plus(
            sum,
            Term::RemoteExperts(
                Box::new(layer_values::made(Op::QuantizeMoeInput, x)),
                Box::new(picked),
            ),
        )
    } else {
        sum
    };
    let sum = layer_values::plus(sum, layer_values::made(Op::SharedExpert, x));
    if f.hot {
        layer_values::plus(sum, Term::HotExperts(Box::new(x), Box::new(picked)))
    } else {
        sum
    }
}

/// The layer leaves the next mix to the layer behind it.
pub open spec fn ends(k: LayerKnobs, f: LayerFacts) -> bool {
    k.standalone || f.next_engram is None || f.next_engram == Some(true)
}

/// The setup is one that a layer runs with: the shared expert is put off only where
/// the picks are served, the first device has experts only beside the second, and
/// an answer is awaited only of what was sent.
pub open spec fn runs(
    k: LayerKnobs,
    f: LayerFacts,
    m: MoeSetup,
    remote: bool,
    partial: Option<usize>,
) -> bool {
    &&& k.presubmit && k.parallel && m.split_on ==> m.paged && !m.preissued
    &&& f.hot ==> k.parallel
    &&& partial is Some ==> remote && m.paged && !m.preissued
}

/// The values behind the first part, the second and, where there is one, the part
/// that serves the picks.
proof fn lemma_moe(
    u: Map<Cell, Term>,
    k: LayerKnobs,
    f: LayerFacts,
    m: MoeSetup,
    remote: bool,
    cap: u32,
    seq: u32,
)
    requires
        layer_plan::moe_stop(f, m) is None,
        k.presubmit && k.parallel && m.split_on ==> m.paged && !m.preissued,
        f.hot ==> k.parallel,
        u[Cell::SentIn] == u[Cell::FfnIn],
        u[Cell::SentPicks] == u[Cell::Picks],
    ensures
        ({
            let a = layer_values::values(
                u,
                if m.preissued {
                    layer_plan::ahead_ops(seq)
                } else {
                    Seq::empty()
                },
            );
            let b = layer_values::values(a, layer_plan::moe_ops(Seq::empty(), k, f, m));
            let w = layer_values::values(
                b,
                if m.paged && !m.preissued {
                    layer_plan::pick_ops(Seq::empty(), k, f, m, remote, cap)
                } else {
                    Seq::empty()
                },
            );
            let x = u[Cell::FfnIn];
            let picked = u[Cell::Picks];
            &&& keeps(
                u,
                w,
                set![
                    Cell::HostPicks,
                    Cell::ExpertIn,
                    Cell::Shared,
                    Cell::Hot,
                    Cell::Answer,
                    Cell::Paged,
                    Cell::Routed,
                    Cell::Sum,
                ],
            )
            &&& w[Cell::Sum] == routed_sum(f, m, remote, cap, x, picked, u[Cell::Paged])
            &&& k.parallel ==> w[Cell::Shared] == layer_values::made(Op::SharedExpert, x)
            &&& f.hot ==> w[Cell::Hot] == Term::HotExperts(Box::new(x), Box::new(picked))
            &&& remote && m.paged && !m.preissued ==> w[Cell::Answer] == Term::RemoteExperts(
                Box::new(layer_values::made(Op::QuantizeMoeInput, x)),
                Box::new(picked),
            )
        }),
{
    broadcast use layer_values::lemma_push_values;

    assert(layer_values::values(u, Seq::empty()) == u);
    let a = layer_values::values(
        u,
        if m.preissued {
            layer_plan::ahead_ops(seq)
        } else {
            Seq::empty()
        },
    );
    assert(layer_values::values(a, Seq::empty()) == a);
    let b = layer_values::values(a, layer_plan::moe_ops(Seq::empty(), k, f, m));
    assert(layer_values::values(b, Seq::empty()) == b);
}

proof fn lemma_finish(
    u: Map<Cell, Term>,
    k: LayerKnobs,
    f: LayerFacts,
    partial: Option<usize>,
)
    requires
        layer_plan::partial_stop(partial) is None,
        k.parallel ==> u[Cell::Shared] == layer_values::made(Op::SharedExpert, u[Cell::FfnIn]),
    ensures
        ({
            let a = layer_values::values(
                u,
                layer_plan::arrive_ops(Seq::empty(), k, partial is Some),
            );
            let w = layer_values::values(a, layer_plan::finish_ops(Seq::empty(), k, f, partial));
            let sum = if partial is Some {
                layer_values::plus(u[Cell::Sum], u[Cell::Answer])
            } else {
                u[Cell::Sum]
            };
            let sum = layer_values::plus(
                sum,
                layer_values::made(Op::SharedExpert, u[Cell::FfnIn]),
            );
            let sum = if f.hot {
                layer_values::plus(sum, u[Cell::Hot])
            } else {
                sum
            };
            let x = layer_values::blended(sum, u[Cell::AfterAttn], u[Cell::FfnMix]);
            let m = layer_values::mix_of(Site::Attn, x);
            &&& keeps(
                u,
                w,
                set![
                    Cell::Shared,
                    Cell::Sum,
                    Cell::Residual,
                    Cell::AttnMix,
                    Cell::AttnIn,
                    Cell::Carry,
                ],
            )
            &&& w[Cell::Residual] == x
            &&& if ends(k, f) {
                w[Cell::AttnMix] == u[Cell::AttnMix] && w[Cell::AttnIn] == u[Cell::AttnIn]
                    && w[Cell::Carry] == u[Cell::Carry]
            } else {
                w[Cell::AttnMix] == m && w[Cell::AttnIn] == layer_values::half_in(
                    Site::Attn,
                    x,
                    weights(k, Site::Attn, x, u[Cell::Carry]),
                ) && w[Cell::Carry] == if k.v41 {
                    layer_values::input_part(m)
                } else {
                    u[Cell::Carry]
                }
            }
        }),
{
    broadcast use layer_values::lemma_push_values;

    assert(layer_values::values(u, Seq::empty()) == u);
    let b = layer_ops::push_if(Seq::empty(), !k.parallel, Op::SharedExpert);
    let b = layer_ops::push_if(
        b,
        k.parallel,
        Op::Wait { signal: Signal::MoeArrived, lane: Lane::Compute },
    );
    lemma_dump(u, b, k, DumpPoint::FfnShared);
    let a = layer_values::values(u, layer_plan::arrive_ops(Seq::empty(), k, partial is Some));
    assert(layer_values::values(a, Seq::empty()) == a);
}

/// A layer computes the residual behind it: that behind its attention half, with the
/// sum of its experts blended in by the mix of its feed-forward half. It leaves the
/// next layer's input with it, unless that layer computes its own.
pub proof fn a_layer_computes_its_residual(
    k: LayerKnobs,
    f: LayerFacts,
    pos: u32,
    s: LayerState,
    t: TokenState,
    m: MoeSetup,
    remote: bool,
    cap: u32,
    partial: Option<usize>,
    v: Map<Cell, Term>,
)
    requires
        mixes_agree(k),
        runs(k, f, m, remote, partial),
        layer_plan::first_part(k, f, pos, s, t).stop is None,
        layer_plan::moe_stop(f, m) is None,
        layer_plan::partial_stop(partial) is None,
    ensures
        ({
            let u = layer_values::values(v, layer_plan::first_part(k, f, pos, s, t).ops);
            let w = layer_values::values(
                v,
                in_order(k, f, pos, s, t, m, remote, cap, partial),
            );
            let x = layer_values::blended(
                experts_sum(f, m, remote, cap, partial, u[Cell::FfnIn], u[Cell::Picks], v[Cell::Paged]),
                u[Cell::AfterAttn],
                u[Cell::FfnMix],
            );
            &&& first_half(
                k,
                f,
                pos,
                s,
                layer_plan::first_part(k, f, pos, s, t).state,
                t,
                v,
                u,
            )
            &&& w[Cell::Residual] == x
            &&& if ends(k, f) {
                w[Cell::Carry] == u[Cell::Carry]
            } else {
                &&& w[Cell::AttnMix] == layer_values::mix_of(Site::Attn, x)
                &&& w[Cell::AttnIn] == layer_values::half_in(
                    Site::Attn,
                    x,
                    weights(k, Site::Attn, x, u[Cell::Carry]),
                )
                &&& w[Cell::Carry] == if k.v41 {
                    layer_values::input_part(layer_values::mix_of(Site::Attn, x))
                } else {
                    u[Cell::Carry]
                }
            }
            // The rows of the first half stay.
            &&& w[Cell::Cache] == u[Cell::Cache]
            &&& w[Cell::Store] == u[Cell::Store]
            &&& w[Cell::StoreKeys] == u[Cell::StoreKeys]
            &&& w[Cell::CompState] == u[Cell::CompState]
            &&& w[Cell::IdxStore] == u[Cell::IdxStore]
            &&& w[Cell::IdxState] == u[Cell::IdxState]
            &&& w[Cell::Chosen] == u[Cell::Chosen]
        }),
{
    a_layer_computes_its_first_half(k, f, pos, s, t, v);
    let o0 = layer_plan::first_part(k, f, pos, s, t).ops;
    let u = layer_values::values(v, o0);
    let p1 = if m.preissued {
        layer_plan::ahead_ops(t.seq)
    } else {
        Seq::empty()
    };
    let p2 = layer_plan::moe_ops(Seq::empty(), k, f, m);
    let p3 = if m.paged && !m.preissued {
        layer_plan::pick_ops(Seq::empty(), k, f, m, remote, cap)
    } else {
        Seq::empty()
    };
    let p4 = layer_plan::arrive_ops(Seq::empty(), k, partial is Some);
    let p5 = layer_plan::finish_ops(Seq::empty(), k, f, partial);
    layer_values::lemma_values_behind(v, o0, p1);
    layer_values::lemma_values_behind(v, o0 + p1, p2);
    layer_values::lemma_values_behind(v, o0 + p1 + p2, p3);
    layer_values::lemma_values_behind(v, o0 + p1 + p2 + p3, p4);
    layer_values::lemma_values_behind(v, o0 + p1 + p2 + p3 + p4, p5);
    lemma_moe(u, k, f, m, remote, cap, t.seq);
    let behind = layer_values::values(v, o0 + p1 + p2 + p3);
    lemma_finish(behind, k, f, partial);
}

} // verus!
