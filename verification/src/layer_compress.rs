//! Compressed rows: when a layer adds one, and the work that this takes.

use vstd::prelude::*;
use crate::layer_ops::{emit_if, CompressorState, IndexerState, LayerError, LayerFacts, LayerKnobs, Op, Store};
use crate::layer_ops;

verus! {

/// A token at `pos` completes a compressed row.
pub open spec fn completes_row(ratio: u32, pos: u32) -> bool {
    ratio > 0 && (pos + 1) % (ratio as int) == 0
}

/// The slot of the running state that a token at `pos` writes.
pub open spec fn state_row(ratio: u32, pos: u32) -> int {
    if ratio == 4 {
        4 + pos % ratio
    } else {
        (pos % ratio) as int
    }
}

/// The position of the first token of the row that a token at `pos` completes.
pub open spec fn row_start(ratio: u32, pos: u32) -> int {
    pos + 1 - ratio
}

/// Does a token at `pos` complete a compressed row?
pub fn comp_fires(ratio: u32, pos: u32) -> (r: bool)
    requires
        pos < u32::MAX,
    ensures
        r == completes_row(ratio, pos),
{
    ratio > 0 && (pos + 1) % ratio == 0
}

/// A row that is completed starts at a position.
pub proof fn lemma_row_start(ratio: u32, pos: u32)
    requires
        completes_row(ratio, pos),
    ensures
        row_start(ratio, pos) >= 0,
{
    if pos + 1 < ratio {
        vstd::arithmetic::div_mod::lemma_small_mod((pos + 1) as nat, ratio as nat);
    }
}

/// How a new row is rounded to what its store keeps, behind `ops`.
pub open spec fn rounded(ops: Seq<Op>, k: LayerKnobs, store: Store) -> Seq<Op> {
    if k.v41 {
        ops.push(Op::CompFp4)
    } else if store != Store::Fp8 {
        ops.push(Op::CompFp8).push(Op::CompRound)
    } else {
        ops
    }
}

/// The work of completing a row, behind `ops`.
pub open spec fn row_ops(
    ops: Seq<Op>,
    k: LayerKnobs,
    f: LayerFacts,
    pos: u32,
    c: CompressorState,
) -> Seq<Op> {
    let start = row_start(f.ratio, pos) as u32;
    let ops = layer_ops::push_if(ops, f.ratio != 1, Op::CompPool).push(Op::CompNorm);
    let ops = layer_ops::push_if(ops, k.index_k && f.indexer_keys, Op::IndexKey { pos: start });
    let ops = rounded(ops.push(Op::CompRope { pos: start }), k, c.store);
    let ops = layer_ops::push_if(ops, f.ratio == 4, Op::CompShuffle);
    let ops = layer_ops::push_if(
        ops,
        k.index_k && c.index_key,
        Op::IndexKeyAppend { row: c.n_index_comp },
    );
    layer_ops::push_if(
        ops,
        c.store != Store::E2m1,
        Op::CompAppend { row: c.n_comp, packed: c.store == Store::Fp8 },
    )
}

/// The store after a row was completed. A store of index keys alone takes no row.
pub open spec fn row_added(k: LayerKnobs, c: CompressorState) -> CompressorState {
    CompressorState {
        n_index_comp: if k.index_k && c.index_key {
            (c.n_index_comp + 1) as u32
        } else {
            c.n_index_comp
        },
        n_comp: if c.store != Store::E2m1 {
            (c.n_comp + 1) as u32
        } else {
            c.n_comp
        },
        ..c
    }
}

/// The layer has compressed rows of its own to keep up.
pub open spec fn compresses(f: LayerFacts) -> bool {
    f.ratio > 0 && f.compressor
}

/// The compressor's work for a token at `pos`, behind `ops`.
pub open spec fn compressor_ops(
    ops: Seq<Op>,
    k: LayerKnobs,
    f: LayerFacts,
    pos: u32,
    c: Option<CompressorState>,
) -> Seq<Op> {
    if !compresses(f) {
        ops
    } else {
        let ops = ops.push(Op::CompProject { gated: f.ratio != 1 });
        match c {
            None => ops,
            Some(c) => {
                let ops = layer_ops::push_if(
                    ops,
                    f.ratio != 1,
                    Op::CompStateWrite {
                        row: state_row(f.ratio, pos) as u32,
                        pos_mod: pos % f.ratio,
                    },
                );
                if completes_row(f.ratio, pos) {
                    row_ops(ops, k, f, pos, c)
                } else {
                    ops
                }
            },
        }
    }
}

/// The store after the compressor's work.
pub open spec fn compressor_after(
    k: LayerKnobs,
    f: LayerFacts,
    pos: u32,
    c: Option<CompressorState>,
) -> Option<CompressorState> {
    match c {
        Some(s) => if compresses(f) && completes_row(f.ratio, pos) {
            Some(row_added(k, s))
        } else {
            c
        },
        None => None,
    }
}

/// Why the compressor stops.
pub open spec fn compressor_stop(
    f: LayerFacts,
    pos: u32,
    c: Option<CompressorState>,
) -> Option<LayerError> {
    if f.ratio == 0 {
        None
    } else {
        match c {
            None => if f.compressor {
                Some(LayerError::NoCompressorState)
            } else {
                Some(LayerError::NoStore)
            },
            Some(s) => if f.compressor && completes_row(f.ratio, pos) && s.store == Store::E2m1 {
                Some(LayerError::MainStorePacked)
            } else {
                None
            },
        }
    }
}

/// The counts of a store have room for one more row.
pub open spec fn has_room(c: Option<CompressorState>) -> bool {
    c matches Some(s) ==> s.n_comp < u32::MAX && s.n_index_comp < u32::MAX
}

/// Completes a row.
fn complete_row(k: &LayerKnobs, f: &LayerFacts, pos: u32, c: &mut CompressorState, ops: &mut Vec<Op>)
    requires
        completes_row(f.ratio, pos),
        pos < u32::MAX,
        has_room(Some(*old(c))),
    ensures
        final(ops)@ == row_ops(old(ops)@, *k, *f, pos, *old(c)),
        *final(c) == row_added(*k, *old(c)),
{
    proof {
        lemma_row_start(f.ratio, pos);
    }
    let start: u32 = pos + 1 - f.ratio;
    let packed = c.store == Store::Fp8;
    let keys = k.index_k && c.index_key;
    emit_if(ops, f.ratio != 1, Op::CompPool);
    ops.push(Op::CompNorm);
    emit_if(ops, k.index_k && f.indexer_keys, Op::IndexKey { pos: start });
    ops.push(Op::CompRope { pos: start });
    if k.v41 {
        ops.push(Op::CompFp4);
    } else if !packed {
        ops.push(Op::CompFp8);
        ops.push(Op::CompRound);
    }
    emit_if(ops, f.ratio == 4, Op::CompShuffle);
    emit_if(ops, keys, Op::IndexKeyAppend { row: c.n_index_comp });
    if keys {
        c.n_index_comp = c.n_index_comp + 1;
    }
    if c.store != Store::E2m1 {
        ops.push(Op::CompAppend { row: c.n_comp, packed });
        c.n_comp = c.n_comp + 1;
    }
}

/// Runs the compressor for a token at `pos`.
pub fn compress(
    k: &LayerKnobs,
    f: &LayerFacts,
    pos: u32,
    comp: &mut Option<CompressorState>,
    ops: &mut Vec<Op>,
) -> (r: Result<(), LayerError>)
    requires
        pos < u32::MAX,
        has_room(*old(comp)),
    ensures
        final(ops)@ == compressor_ops(old(ops)@, *k, *f, pos, *old(comp)),
        *final(comp) == compressor_after(*k, *f, pos, *old(comp)),
        r == (match compressor_stop(*f, pos, *old(comp)) {
            None => Ok::<(), LayerError>(()),
            Some(e) => Err(e),
        }),
{
    if f.ratio > 0 && !f.compressor && comp.is_none() {
        return Err(LayerError::NoStore);
    }
    if f.ratio == 0 || !f.compressor {
        return Ok(());
    }
    ops.push(Op::CompProject { gated: f.ratio != 1 });
    match *comp {
        None => {
            Err(LayerError::NoCompressorState)
        },
        Some(s) => {
            let mut c = s;
            let pos_mod: u32 = pos % f.ratio;
            let row: u32 = if f.ratio == 4 {
                4 + pos_mod
            } else {
                pos_mod
            };
            emit_if(ops, f.ratio != 1, Op::CompStateWrite { row, pos_mod });
            if comp_fires(f.ratio, pos) {
                complete_row(k, f, pos, &mut c, ops);
                *comp = Some(c);
                if c.store == Store::E2m1 {
                    return Err(LayerError::MainStorePacked);
                }
                return Ok(());
            }
            Ok(())
        },
    }
}

/// The work of completing a row of the indexer, behind `ops`.
pub open spec fn indexer_row_ops(ops: Seq<Op>, pos: u32, s: IndexerState) -> Seq<Op> {
    let start = row_start(4, pos) as u32;
    let ops = ops.push(Op::IdxPool).push(Op::IdxNorm).push(Op::IdxRope { pos: start }).push(
        Op::IdxQat,
    );
    let ops = layer_ops::push_if(ops, s.store != Store::E2m1, Op::IdxRound).push(Op::IdxShuffle);
    layer_ops::push_if(
        ops,
        s.store != Store::Fp8,
        Op::IdxAppend { row: s.n_comp, packed: s.store == Store::E2m1 },
    )
}

/// The work of the indexer's compressor for a token at `pos`, behind `ops`.
pub open spec fn indexer_compressor_ops(
    ops: Seq<Op>,
    f: LayerFacts,
    pos: u32,
    i: Option<IndexerState>,
) -> Seq<Op> {
    if f.ratio != 4 || !f.indexer_compressor {
        ops
    } else {
        match i {
            None => ops,
            Some(s) => {
                let ops = ops.push(Op::IdxProject).push(
                    Op::IdxStateWrite { row: state_row(4, pos) as u32, pos_mod: pos % 4 },
                );
                if completes_row(4, pos) {
                    indexer_row_ops(ops, pos, s)
                } else {
                    ops
                }
            },
        }
    }
}

/// The indexer's store after its compressor's work.
pub open spec fn indexer_after(f: LayerFacts, pos: u32, i: Option<IndexerState>) -> Option<
    IndexerState,
> {
    match i {
        Some(s) => if f.ratio == 4 && f.indexer_compressor && completes_row(4, pos) && s.store
            != Store::Fp8 {
            Some(IndexerState { n_comp: (s.n_comp + 1) as u32, ..s })
        } else {
            i
        },
        None => None,
    }
}

/// Why the indexer's compressor stops.
pub open spec fn indexer_stop(f: LayerFacts, pos: u32, i: Option<IndexerState>) -> Option<
    LayerError,
> {
    if f.ratio != 4 {
        None
    } else if !f.indexer_compressor {
        Some(LayerError::NoIndexerCompressorWeights)
    } else {
        match i {
            None => Some(LayerError::NoIndexerCompressorState),
            Some(s) => if completes_row(4, pos) && s.store == Store::Fp8 {
                Some(LayerError::IndexerStore)
            } else {
                None
            },
        }
    }
}

/// Runs the indexer's compressor for a token at `pos`.
pub fn compress_index(
    f: &LayerFacts,
    pos: u32,
    index: &mut Option<IndexerState>,
    ops: &mut Vec<Op>,
) -> (r: Result<(), LayerError>)
    requires
        pos < u32::MAX,
        *old(index) matches Some(s) ==> s.n_comp < u32::MAX,
    ensures
        final(ops)@ == indexer_compressor_ops(old(ops)@, *f, pos, *old(index)),
        *final(index) == indexer_after(*f, pos, *old(index)),
        r == (match indexer_stop(*f, pos, *old(index)) {
            None => Ok::<(), LayerError>(()),
            Some(e) => Err(e),
        }),
{
    if f.ratio != 4 {
        return Ok(());
    }
    if !f.indexer_compressor {
        return Err(LayerError::NoIndexerCompressorWeights);
    }
    match *index {
        None => {
            Err(LayerError::NoIndexerCompressorState)
        },
        Some(s) => {
            let pos_mod: u32 = pos % 4;
            ops.push(Op::IdxProject);
            ops.push(Op::IdxStateWrite { row: 4 + pos_mod, pos_mod });
            if !comp_fires(4, pos) {
                return Ok(());
            }
            proof {
                lemma_row_start(4, pos);
            }
            ops.push(Op::IdxPool);
            ops.push(Op::IdxNorm);
            ops.push(Op::IdxRope { pos: pos + 1 - 4 });
            ops.push(Op::IdxQat);
            emit_if(ops, s.store != Store::E2m1, Op::IdxRound);
            ops.push(Op::IdxShuffle);
            if s.store == Store::Fp8 {
                return Err(LayerError::IndexerStore);
            }
            ops.push(Op::IdxAppend { row: s.n_comp, packed: s.store == Store::E2m1 });
            *index = Some(IndexerState { n_comp: s.n_comp + 1, ..s });
            Ok(())
        },
    }
}

/// A layer that has seen every token from the first holds one row for each
/// `ratio` of them, and a new row starts where the last one ended.
pub proof fn rows_follow_the_tokens(
    k: LayerKnobs,
    f: LayerFacts,
    pos: u32,
    c: CompressorState,
)
    requires
        compresses(f),
        c.store != Store::E2m1,
        pos < u32::MAX,
        c.n_comp == pos / f.ratio,
    ensures
        ({
            let after = compressor_after(k, f, pos, Some(c))->0;
            &&& after.n_comp == (pos + 1) / (f.ratio as int)
            &&& completes_row(f.ratio, pos) ==> row_start(f.ratio, pos) == c.n_comp * f.ratio
        }),
{
    let r = f.ratio as int;
    let p = pos as int;
    vstd::arithmetic::div_mod::lemma_fundamental_div_mod(p, r);
    vstd::arithmetic::div_mod::lemma_fundamental_div_mod(p + 1, r);
    let q = p / r;
    let m = p % r;
    assert(p == r * q + m && 0 <= m < r);
    if m == r - 1 {
        assert(p + 1 == r * (q + 1)) by (nonlinear_arith)
            requires
                p == r * q + m,
                m == r - 1,
        ;
        vstd::arithmetic::div_mod::lemma_fundamental_div_mod_converse(p + 1, r, q + 1, 0);
        assert(c.n_comp * f.ratio == r * q) by (nonlinear_arith)
            requires
                c.n_comp == q,
                f.ratio == r,
        ;
        assert(q + 1 <= u32::MAX) by (nonlinear_arith)
            requires
                p + 1 == r * (q + 1),
                p < u32::MAX,
                q >= 0,
                r >= 1,
        ;
    } else {
        vstd::arithmetic::div_mod::lemma_fundamental_div_mod_converse(p + 1, r, q, m + 1);
    }
}

/// The indexer's store keeps pace with the main one, so both hold a row for the
/// same tokens.
pub proof fn both_stores_keep_pace(
    k: LayerKnobs,
    f: LayerFacts,
    pos: u32,
    c: CompressorState,
    i: IndexerState,
)
    requires
        f.ratio == 4,
        compresses(f),
        f.indexer_compressor,
        c.store != Store::E2m1,
        i.store != Store::Fp8,
        c.n_comp == i.n_comp,
    ensures
        (compressor_after(k, f, pos, Some(c))->0).n_comp == (indexer_after(
            f,
            pos,
            Some(i),
        )->0).n_comp,
{
}

} // verus!
