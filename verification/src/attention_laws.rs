//! What attention reads: every compressed row, unless an indexer has chosen among
//! them or a cap is set. So no token before this one is out of its reach.

use vstd::prelude::*;
use crate::config::ATTN_MIXED_MAX_KEYS;
use crate::layer_attention;
use crate::layer_compress;
use crate::layer_ops::{
    CompRows, CompressorState, IndexerState, LayerError, LayerFacts, LayerKnobs, LayerState, Op, ScoreKernel,
    Store, TokenState,
};
use crate::layer_plan::MoeSetup;
use crate::layer_plan;

verus! {

/// The keys are kept beside the rows of the main store.
pub open spec fn beside(k: LayerKnobs, c: CompressorState) -> bool {
    k.v41 && c.index_key
}

/// The keys that the layer's indexer has.
pub open spec fn keys(k: LayerKnobs, s: LayerState, c: CompressorState) -> int {
    if beside(k, c) {
        c.n_index_comp as int
    } else {
        match s.indexer {
            Some(i) => i.n_comp as int,
            None => 0,
        }
    }
}

/// The layers with an indexer of their own, where keys are kept beside the rows.
pub open spec fn choosing_layers() -> Set<int> {
    set![2int, 8, 14, 20, 24, 28, 32, 36]
}

/// There is something for the layer to choose: more keys than it would take. A
/// layer that is forced to chooses among fewer too.
pub open spec fn has_a_choice(k: LayerKnobs, f: LayerFacts, s: LayerState, c: CompressorState) -> bool {
    if beside(k, c) {
        k.index_k && choosing_layers().contains(f.layer as int) && keys(k, s, c) > if k.indexer_force {
            0int
        } else {
            512
        }
    } else {
        f.ratio == 4 && keys(k, s, c) > 512
    }
}

/// The layer whose store is read.
pub open spec fn owner(f: LayerFacts) -> i32 {
    match f.kv_source {
        Some(l) => l,
        None => f.layer,
    }
}

/// An earlier layer has chosen among the rows of the same store.
pub open spec fn was_chosen(k: LayerKnobs, f: LayerFacts, t: TokenState) -> bool {
    k.v41 && k.index_k && !choosing_layers().contains(f.layer as int) && t.gather_src == owner(f)
}

/// The store's rows can be read as they stand.
pub open spec fn readable(c: CompressorState) -> bool {
    c.store == Store::F16 || (c.store == Store::Fp8 && c.n_comp <= 512)
}

/// An operation of attention proper reads these rows and no others.
pub open spec fn reads(op: Op, rows: CompRows, raw: u32, comp: u32) -> bool {
    match op {
        Op::AttnScore { rows: r, n_raw, n_comp, .. } => r == rows && n_raw == raw && n_comp == comp,
        Op::AttnSoftmax { n_raw, n_comp } => n_raw == raw && n_comp == comp,
        Op::AttnSum { rows: r, n_raw, n_comp } => r == rows && n_raw == raw && n_comp == comp,
        Op::AttnSoftmaxSum { rows: r, n_raw, n_comp } => r == rows && n_raw == raw && n_comp == comp,
        Op::AttnSwa { .. } => false,
        _ => true,
    }
}

/// Everything behind the first `from` operations reads these rows, and does both
/// halves of attention: the last of it leaves the heads, behind a score.
pub open spec fn attends_to(ops: Seq<Op>, from: int, rows: CompRows, raw: u32, comp: u32) -> bool {
    &&& from < ops.len()
    &&& forall|i: int| from <= i < ops.len() ==> reads(#[trigger] ops[i], rows, raw, comp)
    &&& exists|i: int| from <= i < ops.len() && #[trigger] ops[i] is AttnScore
    &&& ops.last() is AttnSoftmaxSum || (ops.last() is AttnReduce && ops[ops.len() - 2] is AttnSum
        && ops[ops.len() - 3] is AttnSoftmax)
}

/// A layer chooses where there is something to choose and choosing is on, and
/// nowhere else.
pub proof fn a_layer_chooses_where_there_is_a_choice(
    k: LayerKnobs,
    f: LayerFacts,
    s: LayerState,
    c: CompressorState,
)
    requires
        s.compressor == Some(c),
    ensures
        layer_attention::sparse(k, f, s) <==> !k.indexer_off && has_a_choice(k, f, s, c),
        layer_attention::index_keys(k, s) as int == if keys(k, s, c) < ATTN_MIXED_MAX_KEYS {
            keys(k, s, c)
        } else {
            ATTN_MIXED_MAX_KEYS as int
        },
{
    assert(choosing_layers().contains(f.layer as int) <==> layer_attention::index_source(f.layer));
}

proof fn lemma_mixed(
    ops: Seq<Op>,
    k: LayerKnobs,
    s: LayerState,
    from: int,
    rows: CompRows,
    n: u32,
)
    requires
        0 <= from <= ops.len(),
        forall|i: int|
            from <= i < ops.len() ==> reads(#[trigger] ops[i], rows, s.window.n_raw, n),
    ensures
        attends_to(
            layer_attention::mixed_ops(ops, k, s.window, rows, n),
            from,
            rows,
            s.window.n_raw,
            n,
        ),
{
    let after = layer_attention::mixed_ops(ops, k, s.window, rows, n);
    assert(after[ops.len() as int] is AttnScore);
    assert forall|i: int| from <= i < after.len() implies reads(
        #[trigger] after[i],
        rows,
        s.window.n_raw,
        n,
    ) by {
        if i < ops.len() {
            assert(after[i] == ops[i]);
        }
    }
}

/// Without a cap, a layer that neither chooses rows nor reads the choice of another
/// attends to every row of its store, beside the whole window.
pub proof fn without_a_choice_every_row_is_read(
    ops: Seq<Op>,
    k: LayerKnobs,
    f: LayerFacts,
    pos: u32,
    s: LayerState,
    t: TokenState,
    c: CompressorState,
)
    requires
        f.ratio > 0,
        s.compressor == Some(c),
        k.comp_cap == 0,
        k.indexer_off || !has_a_choice(k, f, s, c),
        !was_chosen(k, f, t),
        readable(c),
    ensures
        layer_attention::attention_stop(k, f, s, t) is None,
        layer_attention::attention_token(k, f, s, t) == t,
        layer_attention::attended(k, f, s, t).1 == c.n_comp,
        c.n_comp > 0 ==> layer_attention::attended(k, f, s, t).0 == CompRows::Dense,
        attends_to(
            layer_attention::attention_ops(ops, k, f, pos, s, t),
            ops.len() as int,
            if c.n_comp > 0 {
                CompRows::Dense
            } else {
                CompRows::Absent
            },
            s.window.n_raw,
            c.n_comp,
        ),
{
    a_layer_chooses_where_there_is_a_choice(k, f, s, c);
    assert(choosing_layers().contains(f.layer as int) <==> layer_attention::index_source(f.layer));
    let (rows, n) = layer_attention::attended(k, f, s, t);
    lemma_mixed(ops, k, s, ops.len() as int, rows, n);
}

/// A cap reads no more rows than it allows, and as many as it allows and the
/// store has.
pub proof fn a_cap_reads_the_rows_that_it_allows(
    ops: Seq<Op>,
    k: LayerKnobs,
    f: LayerFacts,
    pos: u32,
    s: LayerState,
    t: TokenState,
    c: CompressorState,
)
    requires
        f.ratio > 0,
        s.compressor == Some(c),
        c.n_comp > 0,
        k.comp_cap > 0,
        k.indexer_off || !has_a_choice(k, f, s, c),
        !was_chosen(k, f, t),
        readable(c),
    ensures
        layer_attention::attention_stop(k, f, s, t) is None,
        attends_to(
            layer_attention::attention_ops(ops, k, f, pos, s, t),
            ops.len() as int,
            CompRows::Dense,
            s.window.n_raw,
            if c.n_comp <= k.comp_cap {
                c.n_comp
            } else {
                k.comp_cap
            },
        ),
{
    a_layer_chooses_where_there_is_a_choice(k, f, s, c);
    assert(choosing_layers().contains(f.layer as int) <==> layer_attention::index_source(f.layer));
    let (rows, n) = layer_attention::attended(k, f, s, t);
    lemma_mixed(ops, k, s, ops.len() as int, rows, n);
}

/// A layer that reads the choice of another reads as many rows as that one has
/// gathered, and issues no choice of its own.
pub proof fn a_choice_is_read_as_it_was_made(
    ops: Seq<Op>,
    k: LayerKnobs,
    f: LayerFacts,
    pos: u32,
    s: LayerState,
    t: TokenState,
    c: CompressorState,
)
    requires
        f.ratio > 0,
        s.compressor == Some(c),
        c.n_comp > 0,
        was_chosen(k, f, t),
        k.indexer_off || !has_a_choice(k, f, s, c),
    ensures
        layer_attention::attention_stop(k, f, s, t) is None,
        layer_attention::attention_token(k, f, s, t) == t,
        attends_to(
            layer_attention::attention_ops(ops, k, f, pos, s, t),
            ops.len() as int,
            CompRows::Gathered,
            s.window.n_raw,
            t.gather_rows,
        ),
        layer_attention::attention_ops(ops, k, f, pos, s, t)[ops.len() as int] is AttnScore,
{
    a_layer_chooses_where_there_is_a_choice(k, f, s, c);
    assert(choosing_layers().contains(f.layer as int) <==> layer_attention::index_source(f.layer));
    let (rows, n) = layer_attention::attended(k, f, s, t);
    lemma_mixed(ops, k, s, ops.len() as int, rows, n);
}

/// There is a kernel that scores the layer's keys.
pub open spec fn scorable(k: LayerKnobs, s: LayerState, c: CompressorState) -> bool {
    beside(k, c) || (s.indexer matches Some(i) && (i.store == Store::F16 || (i.store == Store::E2m1
        && (!k.indexer_wmma || k.indexer_wide))))
}

/// A layer that chooses scores every key that it has (as many as attention can take
/// at most), picks among all that it scored, gathers what it picked, and attends to
/// that: to as many rows as a choice takes, or all where it has fewer. A choice by
/// keys beside the rows is left to the layers that share the store.
pub proof fn a_choice_is_made_among_all_the_keys(
    ops: Seq<Op>,
    k: LayerKnobs,
    f: LayerFacts,
    pos: u32,
    s: LayerState,
    t: TokenState,
    c: CompressorState,
)
    requires
        f.ratio > 0,
        s.compressor == Some(c),
        !k.indexer_off,
        has_a_choice(k, f, s, c),
        f.indexer,
        scorable(k, s, c),
        c.store != Store::E2m1,
    ensures
        layer_attention::attention_stop(k, f, s, t) is None,
        ({
            let after = layer_attention::attention_ops(ops, k, f, pos, s, t);
            let from = ops.len() as int;
            let n = keys(k, s, c);
            let scored = if n < ATTN_MIXED_MAX_KEYS {
                n as u32
            } else {
                ATTN_MIXED_MAX_KEYS
            };
            let taken = if n < 512 {
                n as u32
            } else {
                512u32
            };
            let left = layer_attention::attention_token(k, f, s, t);
            &&& attends_to(after, from, CompRows::Gathered, s.window.n_raw, taken)
            &&& after.take(from) == ops
            &&& after[from] == Op::IndexerQuery
            &&& after[from + 1] == (Op::IndexerRope { pos })
            &&& after[from + 2] == (Op::IndexerQat { fp4: beside(k, c) })
            &&& after[from + 3] == Op::IndexerHeadWeights
            &&& after[from + 4] == Op::IndexerScale
            &&& after[from + 5] is IndexerScore
            &&& after[from + 5]->IndexerScore_n == scored
            &&& after[from + 6] == (Op::IndexerTopk { n: scored })
            &&& after[from + if k.indexer_check {
                8int
            } else {
                7
            }] == (Op::IndexerGather { packed: c.store == Store::Fp8 })
            &&& beside(k, c) ==> left.gather_src == owner(f) && left.gather_rows == taken
            &&& !beside(k, c) ==> left == t
            &&& left.engram_ready == t.engram_ready && left.seq == t.seq
        }),
{
    a_layer_chooses_where_there_is_a_choice(k, f, s, c);
    let (rows, n) = layer_attention::attended(k, f, s, t);
    let before = layer_attention::indexer_ops(ops, k, f, pos, s);
    let from = ops.len() as int;
    assert(before.take(from) =~= ops);
    lemma_mixed(before, k, s, from, rows, n);
    let after = layer_attention::attention_ops(ops, k, f, pos, s, t);
    assert(after.take(from) =~= ops);
}

/// Every token up to this one is in the reach of attention that reads all rows: it
/// is in the window, or a row that is read was made of it.
pub proof fn every_past_token_is_in_reach(
    k: LayerKnobs,
    f: LayerFacts,
    pos: u32,
    s: LayerState,
    t: TokenState,
    c: CompressorState,
    past: u32,
)
    requires
        layer_compress::compresses(f),
        f.ratio <= 128,
        pos < u32::MAX,
        s.compressor == Some(c),
        c.store != Store::E2m1,
        // The layer has seen every token in front of this one.
        c.n_comp == pos / f.ratio,
        s.window.n_raw == (if pos < 128 {
            pos
        } else {
            128
        }),
        k.comp_cap == 0,
        past <= pos,
        ({
            let now = LayerState {
                window: s.window.appended(k.kv_rows),
                compressor: layer_compress::compressor_after(k, f, pos, s.compressor),
                ..s
            };
            &&& k.indexer_off || !has_a_choice(k, f, now, now.compressor->0)
            &&& !was_chosen(k, f, t)
            &&& readable(now.compressor->0)
        }),
    ensures
        ({
            let now = LayerState {
                window: s.window.appended(k.kv_rows),
                compressor: layer_compress::compressor_after(k, f, pos, s.compressor),
                ..s
            };
            ||| pos - past < now.window.n_raw
            ||| past / f.ratio < layer_attention::attended(k, f, now, t).1
        }),
{
    let now = LayerState {
        window: s.window.appended(k.kv_rows),
        compressor: layer_compress::compressor_after(k, f, pos, s.compressor),
        ..s
    };
    layer_compress::rows_follow_the_tokens(k, f, pos, c);
    without_a_choice_every_row_is_read(Seq::empty(), k, f, pos, now, t, now.compressor->0);
    let r = f.ratio as int;
    let n = (pos + 1) / r;
    if past as int / r >= n {
        vstd::arithmetic::div_mod::lemma_fundamental_div_mod(past as int, r);
        vstd::arithmetic::div_mod::lemma_fundamental_div_mod(pos + 1, r);
        assert(past >= r * n) by (nonlinear_arith)
            requires
                past as int == r * (past as int / r) + past as int % r,
                past as int % r >= 0,
                past as int / r >= n,
                r > 0,
        ;
    }
}

/// Keys are scored by a kernel that reads them as they are kept: packed ones by one for
/// packed keys, others by one for 16-bit keys, on the matrix units where these are
/// asked for. Keys beside the rows have the one kernel.
pub proof fn a_kernel_reads_the_keys_as_they_are_kept(
    k: LayerKnobs,
    s: LayerState,
    c: CompressorState,
    i: IndexerState,
)
    requires
        s.compressor == Some(c),
        s.indexer == Some(i),
    ensures
        ({
            let r = layer_attention::score_kernel_of(k, s);
            let packed = beside(k, c) || i.store == Store::E2m1;
            &&& r is Ok <==> scorable(k, s, c)
            &&& r matches Ok(kernel) ==> {
                &&& packed <==> kernel == ScoreKernel::Packed || kernel == ScoreKernel::PackedWmma
                &&& beside(k, c) ==> kernel == ScoreKernel::Packed
                &&& !beside(k, c) ==> (k.indexer_wmma <==> kernel == ScoreKernel::PackedWmma
                    || kernel == ScoreKernel::WideWmma || kernel == ScoreKernel::Wmma)
                &&& kernel == ScoreKernel::WideWmma ==> k.indexer_wide
                &&& kernel == ScoreKernel::Wmma ==> !k.indexer_wide
            }
            &&& r matches Err(e) ==> e == if i.store == Store::Fp8 {
                LayerError::IndexerStore
            } else {
                LayerError::NarrowScorePacked
            }
        }),
{
}

/// Attention is refused where it has to choose and cannot, and where it has to read a
/// store whose rows cannot be read as they stand; nowhere else.
pub proof fn attention_stops_where_it_cannot_read(
    k: LayerKnobs,
    f: LayerFacts,
    s: LayerState,
    t: TokenState,
    c: CompressorState,
)
    requires
        s.compressor == Some(c),
    ensures
        ({
            let stop = layer_attention::attention_stop(k, f, s, t);
            let chooses = !k.indexer_off && has_a_choice(k, f, s, c);
            &&& f.ratio == 0 ==> stop is None
            &&& f.ratio > 0 && chooses ==> {
                &&& !f.indexer ==> stop == Some(LayerError::NoIndexerWeights)
                &&& f.indexer && scorable(k, s, c) ==> stop == if c.store == Store::E2m1 {
                    Some(LayerError::MainStorePacked)
                } else {
                    None
                }
                &&& f.indexer && !scorable(k, s, c) ==> stop is Some
            }
            &&& f.ratio > 0 && !chooses && (was_chosen(k, f, t) || c.n_comp == 0) ==> stop is None
            &&& f.ratio > 0 && !chooses && !was_chosen(k, f, t) && c.n_comp > 0 ==> stop
                == if readable(c) {
                None
            } else {
                Some(LayerError::DenseRows)
            }
        }),
{
    a_layer_chooses_where_there_is_a_choice(k, f, s, c);
    assert(choosing_layers().contains(f.layer as int) <==> layer_attention::index_source(f.layer));
}

/// A layer with compressed rows is refused where it has no store for them, or one that
/// takes no rows when one is due; its indexer where it lacks its weights, its store, or
/// has one that takes no keys when one is due.
pub proof fn compression_stops_where_it_has_no_store(
    f: LayerFacts,
    pos: u32,
    c: Option<CompressorState>,
    i: Option<IndexerState>,
)
    ensures
        ({
            let stop = layer_compress::compressor_stop(f, pos, c);
            let due = (pos + 1) % (f.ratio as int) == 0;
            &&& f.ratio == 0 ==> stop is None
            &&& f.ratio > 0 && c is None ==> stop == Some(
                if f.compressor {
                    LayerError::NoCompressorState
                } else {
                    LayerError::NoStore
                },
            )
            &&& f.ratio > 0 && c is Some && (!f.compressor || !due) ==> stop is None
            &&& f.ratio > 0 && f.compressor && due ==> (c matches Some(x) ==> stop == if x.store
                == Store::E2m1 {
                Some(LayerError::MainStorePacked)
            } else {
                None
            })
        }),
        ({
            let stop = layer_compress::indexer_stop(f, pos, i);
            let due = (pos + 1) % 4 == 0;
            &&& f.ratio != 4 ==> stop is None
            &&& f.ratio == 4 && !f.indexer_compressor ==> stop == Some(
                LayerError::NoIndexerCompressorWeights,
            )
            &&& f.ratio == 4 && f.indexer_compressor && i is None ==> stop == Some(
                LayerError::NoIndexerCompressorState,
            )
            &&& f.ratio == 4 && f.indexer_compressor ==> (i matches Some(x) ==> stop == if due
                && x.store == Store::Fp8 {
                Some(LayerError::IndexerStore)
            } else {
                None
            })
        }),
{
}

/// A layer's other parts are refused where the two devices' weights are of different
/// layers, engram rows are missing, a hash router has no table, packed experts have no
/// map, or the other machine's answer has another length than the residual's row.
pub proof fn a_layer_stops_where_something_is_missing(
    f: LayerFacts,
    t: TokenState,
    m: MoeSetup,
    partial: Option<usize>,
)
    ensures
        layer_plan::begin_stop(f, t) == if f.igpu_layer != f.layer {
            Some(LayerError::LayerMismatch)
        } else if f.engram && !t.engram_ready {
            Some(LayerError::EngramNotStaged)
        } else {
            None
        },
        layer_plan::router_stop(f) is Some <==> f.hash_router && !f.hash_table,
        layer_plan::router_stop(f) matches Some(e) ==> e == LayerError::NoHashTable,
        layer_plan::moe_stop(f, m) is Some <==> f.igpu_packed && !f.hot_remap && !m.paged
            && !m.preissued,
        layer_plan::moe_stop(f, m) matches Some(e) ==> e == LayerError::PackedWithoutRemap,
        layer_plan::partial_stop(partial) is Some <==> partial is Some && partial != Some(5120usize),
        layer_plan::partial_stop(partial) matches Some(e) ==> e == LayerError::PartialLength,
{
}

/// Behind a token that completes a row a store has one row more, and one key more where
/// it keeps keys, so the next ones are put behind them; behind any other token it has
/// what it had. The same holds of the indexer's own store.
pub proof fn a_completed_row_is_counted(
    k: LayerKnobs,
    f: LayerFacts,
    pos: u32,
    c: CompressorState,
    i: IndexerState,
)
    requires
        c.n_comp < u32::MAX,
        c.n_index_comp < u32::MAX,
        i.n_comp < u32::MAX,
    ensures
        ({
            let after = layer_compress::compressor_after(k, f, pos, Some(c));
            let due = f.ratio > 0 && f.compressor && (pos + 1) % (f.ratio as int) == 0;
            &&& after is Some
            &&& after->0.store == c.store && after->0.index_key == c.index_key
            &&& after->0.n_comp == c.n_comp + if due && c.store != Store::E2m1 {
                1int
            } else {
                0
            }
            &&& after->0.n_index_comp == c.n_index_comp + if due && k.index_k && c.index_key {
                1int
            } else {
                0
            }
        }),
        ({
            let after = layer_compress::indexer_after(f, pos, Some(i));
            let due = f.ratio == 4 && f.indexer_compressor && (pos + 1) % 4 == 0;
            &&& after is Some
            &&& after->0.store == i.store
            &&& after->0.n_comp == i.n_comp + if due && i.store != Store::Fp8 {
                1int
            } else {
                0
            }
        }),
        layer_compress::compressor_after(k, f, pos, None) is None,
        layer_compress::indexer_after(f, pos, None) is None,
{
}

/// A layer whose first part goes through leaves the token its place in the sequence,
/// has used up the engram rows where it needed some and only there, and has changed
/// what was gathered only where it chose by keys beside its rows. Its state has the new
/// row in the window, and in the stores what is due.
pub proof fn a_layer_leaves_the_token_what_it_needs(
    k: LayerKnobs,
    f: LayerFacts,
    pos: u32,
    s: LayerState,
    t: TokenState,
)
    requires
        layer_plan::first_part(k, f, pos, s, t).stop is None,
    ensures
        ({
            let r = layer_plan::first_part(k, f, pos, s, t);
            &&& r.token.seq == t.seq
            &&& f.engram ==> t.engram_ready && !r.token.engram_ready
            &&& !f.engram ==> r.token.engram_ready == t.engram_ready
            &&& r.state.window == s.window.appended(k.kv_rows)
            &&& r.state.compressor == layer_compress::compressor_after(k, f, pos, s.compressor)
            &&& r.state.indexer == layer_compress::indexer_after(f, pos, s.indexer)
            &&& f.ratio == 0 || k.indexer_off || !k.v41 ==> r.token.gather_src == t.gather_src
                && r.token.gather_rows == t.gather_rows
            &&& r.state.compressor matches Some(c) ==> !(beside(k, c) && has_a_choice(
                k,
                f,
                r.state,
                c,
            )) ==> r.token.gather_src == t.gather_src && r.token.gather_rows == t.gather_rows
        }),
{
    let r = layer_plan::first_part(k, f, pos, s, t);
    if let Some(c) = r.state.compressor {
        a_layer_chooses_where_there_is_a_choice(k, f, r.state, c);
    }
}

} // verus!
