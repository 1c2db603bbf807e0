//! Attention over the live window and the compressed rows.

use vstd::prelude::*;
use crate::config::{ATTN_MIXED_MAX_KEYS, INDEXER_TOP_K};
use crate::kv_window::KvWindow;
use crate::layer_ops::{
    emit_if, CompRows, LayerError, LayerFacts, LayerKnobs, LayerState, Op, ScoreKernel, Store,
    TokenState,
};
use crate::layer_ops;

verus! {

/// Rows of a packed store that are kept in 16 bits too.
pub const FP8_KV_HEAD_ROWS: u32 = 512;

/// The layer runs an indexer of its own.
pub open spec fn index_source(layer: i32) -> bool {
    layer == 2 || layer == 8 || layer == 14 || layer == 20 || layer == 24 || layer == 28 || layer
        == 32 || layer == 36
}

/// Does the layer run an indexer of its own? Other layers share the choice of
/// one that does.
pub fn is_index_source_layer(v41: bool, layer: i32) -> (r: bool)
    ensures
        r == (v41 && index_source(layer)),
{
    v41 && (layer == 2 || layer == 8 || layer == 14 || layer == 20 || layer == 24 || layer == 28
        || layer == 32 || layer == 36)
}

pub open spec fn least(a: u32, b: u32) -> u32 {
    if a < b {
        a
    } else {
        b
    }
}

fn min_u32(a: u32, b: u32) -> (r: u32)
    ensures
        r == least(a, b),
{
    if a < b {
        a
    } else {
        b
    }
}

/// The index keys are in the main store.
pub open spec fn keys_in_store(k: LayerKnobs, s: LayerState) -> bool {
    k.v41 && (s.compressor matches Some(c) && c.index_key)
}

/// Keys that an indexer scores.
pub open spec fn index_keys(k: LayerKnobs, s: LayerState) -> u32 {
    if keys_in_store(k, s) {
        least(s.compressor->0.n_index_comp, ATTN_MIXED_MAX_KEYS)
    } else {
        match s.indexer {
            Some(i) => least(i.n_comp, ATTN_MIXED_MAX_KEYS),
            None => 0,
        }
    }
}

/// The layer chooses rows by its indexer. Where it has no more rows than it
/// would choose, it reads them all instead.
pub open spec fn sparse(k: LayerKnobs, f: LayerFacts, s: LayerState) -> bool {
    &&& !k.indexer_off
    &&& if keys_in_store(k, s) {
        k.index_k && index_source(f.layer) && index_keys(k, s) > if k.indexer_force {
            0
        } else {
            INDEXER_TOP_K
        }
    } else {
        f.ratio == 4 && index_keys(k, s) > INDEXER_TOP_K
    }
}

/// Rows in the layer's store.
pub open spec fn store_rows(s: LayerState) -> u32 {
    match s.compressor {
        Some(c) => c.n_comp,
        None => 0,
    }
}

/// The layer whose store this one reads.
pub open spec fn store_layer(f: LayerFacts) -> i32 {
    match f.kv_source {
        Some(l) => l,
        None => f.layer,
    }
}

/// The layer reads the rows that an earlier one gathered from the same store.
pub open spec fn reuses_gather(k: LayerKnobs, f: LayerFacts, s: LayerState, t: TokenState) -> bool {
    k.v41 && k.index_k && !sparse(k, f, s) && !index_source(f.layer) && store_rows(s) > 0
        && t.gather_src == store_layer(f)
}

/// The compressed rows that attention reads.
pub open spec fn attended(k: LayerKnobs, f: LayerFacts, s: LayerState, t: TokenState) -> (
    CompRows,
    u32,
) {
    if reuses_gather(k, f, s, t) {
        (CompRows::Gathered, t.gather_rows)
    } else if sparse(k, f, s) {
        (CompRows::Gathered, least(INDEXER_TOP_K, index_keys(k, s)))
    } else if store_rows(s) > 0 {
        (
            CompRows::Dense,
            if k.comp_cap > 0 {
                least(store_rows(s), k.comp_cap)
            } else {
                store_rows(s)
            },
        )
    } else {
        (CompRows::Absent, 0)
    }
}

/// The kernel that scores the keys.
pub open spec fn score_kernel_of(k: LayerKnobs, s: LayerState) -> Result<ScoreKernel, LayerError> {
    if keys_in_store(k, s) {
        Ok(ScoreKernel::Packed)
    } else {
        match s.indexer->0.store {
            Store::E2m1 => if !k.indexer_wmma {
                Ok(ScoreKernel::Packed)
            } else if k.indexer_wide {
                Ok(ScoreKernel::PackedWmma)
            } else {
                Err(LayerError::NarrowScorePacked)
            },
            Store::F16 => if !k.indexer_wmma {
                Ok(ScoreKernel::Plain)
            } else if k.indexer_wide {
                Ok(ScoreKernel::WideWmma)
            } else {
                Ok(ScoreKernel::Wmma)
            },
            Store::Fp8 => Err(LayerError::IndexerStore),
        }
    }
}

/// A layer with compressed rows has a store of them.
pub open spec fn ready(f: LayerFacts, s: LayerState) -> bool {
    f.ratio > 0 ==> s.compressor is Some
}

/// Why the indexer stops.
pub open spec fn indexer_fault(k: LayerKnobs, f: LayerFacts, s: LayerState) -> Option<LayerError> {
    if !f.indexer {
        Some(LayerError::NoIndexerWeights)
    } else {
        match score_kernel_of(k, s) {
            Err(e) => Some(e),
            Ok(_) => if s.compressor->0.store == Store::E2m1 {
                Some(LayerError::MainStorePacked)
            } else {
                None
            },
        }
    }
}

/// The indexer's work, behind `ops`.
pub open spec fn indexer_ops(
    ops: Seq<Op>,
    k: LayerKnobs,
    f: LayerFacts,
    pos: u32,
    s: LayerState,
) -> Seq<Op> {
    if !f.indexer {
        ops
    } else {
        let n = index_keys(k, s);
        let ops = ops.push(Op::IndexerQuery).push(Op::IndexerRope { pos }).push(
            Op::IndexerQat { fp4: keys_in_store(k, s) },
        ).push(Op::IndexerHeadWeights).push(Op::IndexerScale);
        match score_kernel_of(k, s) {
            Err(_) => ops,
            Ok(kernel) => {
                let ops = ops.push(Op::IndexerScore { kernel, n }).push(Op::IndexerTopk { n });
                let ops = layer_ops::push_if(ops, k.indexer_check, Op::IndexerCheck { n });
                layer_ops::push_if(
                    ops,
                    s.compressor->0.store != Store::E2m1,
                    Op::IndexerGather { packed: s.compressor->0.store == Store::Fp8 },
                )
            },
        }
    }
}

/// What later layers learn of the indexer's choice.
pub open spec fn gathered(k: LayerKnobs, f: LayerFacts, s: LayerState, t: TokenState) -> TokenState {
    if keys_in_store(k, s) && indexer_fault(k, f, s) is None {
        TokenState {
            gather_src: store_layer(f),
            gather_rows: least(INDEXER_TOP_K, index_keys(k, s)),
            ..t
        }
    } else {
        t
    }
}

/// Chooses the kernel that scores the keys.
fn score_kernel(k: &LayerKnobs, s: &LayerState) -> (r: Result<ScoreKernel, LayerError>)
    requires
        keys_in_store(*k, *s) || s.indexer is Some,
    ensures
        r == score_kernel_of(*k, *s),
{
    if let Some(c) = s.compressor {
        if k.v41 && c.index_key {
            return Ok(ScoreKernel::Packed);
        }
    }
    match s.indexer {
        None => Ok(ScoreKernel::Packed),
        Some(i) => match i.store {
            Store::E2m1 => if !k.indexer_wmma {
                Ok(ScoreKernel::Packed)
            } else if k.indexer_wide {
                Ok(ScoreKernel::PackedWmma)
            } else {
                Err(LayerError::NarrowScorePacked)
            },
            Store::F16 => if !k.indexer_wmma {
                Ok(ScoreKernel::Plain)
            } else if k.indexer_wide {
                Ok(ScoreKernel::WideWmma)
            } else {
                Ok(ScoreKernel::Wmma)
            },
            Store::Fp8 => Err(LayerError::IndexerStore),
        },
    }
}

/// Counts the keys that an indexer scores; are they in the main store?
fn count_keys(k: &LayerKnobs, s: &LayerState) -> (r: (u32, bool))
    ensures
        r.0 == index_keys(*k, *s),
        r.1 == keys_in_store(*k, *s),
{
    if let Some(c) = s.compressor {
        if k.v41 && c.index_key {
            return (min_u32(c.n_index_comp, ATTN_MIXED_MAX_KEYS), true);
        }
    }
    match s.indexer {
        Some(i) => (min_u32(i.n_comp, ATTN_MIXED_MAX_KEYS), false),
        None => (0, false),
    }
}

/// Does the layer choose rows by its indexer?
pub fn use_sparse(k: &LayerKnobs, f: &LayerFacts, s: &LayerState) -> (r: bool)
    ensures
        r == sparse(*k, *f, *s),
{
    let (n, keys) = count_keys(k, s);
    let chosen = if keys {
        let sparse_min: u32 = if k.indexer_force {
            0
        } else {
            INDEXER_TOP_K
        };
        k.index_k && is_index_source_layer(true, f.layer) && n > sparse_min
    } else {
        f.ratio == 4 && n > INDEXER_TOP_K
    };
    chosen && !k.indexer_off
}

/// Runs the layer's indexer.
fn run_indexer(
    k: &LayerKnobs,
    f: &LayerFacts,
    pos: u32,
    s: &LayerState,
    t: &mut TokenState,
    ops: &mut Vec<Op>,
) -> (r: Result<(), LayerError>)
    requires
        sparse(*k, *f, *s),
        ready(*f, *s),
        f.ratio > 0,
    ensures
        final(ops)@ == indexer_ops(old(ops)@, *k, *f, pos, *s),
        *final(t) == gathered(*k, *f, *s, *old(t)),
        r == (match indexer_fault(*k, *f, *s) {
            None => Ok::<(), LayerError>(()),
            Some(e) => Err(e),
        }),
{
    if !f.indexer {
        return Err(LayerError::NoIndexerWeights);
    }
    let (n, keys) = count_keys(k, s);
    ops.push(Op::IndexerQuery);
    ops.push(Op::IndexerRope { pos });
    ops.push(Op::IndexerQat { fp4: keys });
    ops.push(Op::IndexerHeadWeights);
    ops.push(Op::IndexerScale);
    match score_kernel(k, s) {
        Err(e) => Err(e),
        Ok(kernel) => {
            ops.push(Op::IndexerScore { kernel, n });
            ops.push(Op::IndexerTopk { n });
            emit_if(ops, k.indexer_check, Op::IndexerCheck { n });
            let store = match s.compressor {
                Some(c) => c.store,
                None => Store::F16,
            };
            if store == Store::E2m1 {
                return Err(LayerError::MainStorePacked);
            }
            ops.push(Op::IndexerGather { packed: store == Store::Fp8 });
            if keys {
                t.gather_src = match f.kv_source {
                    Some(l) => l,
                    None => f.layer,
                };
                t.gather_rows = min_u32(INDEXER_TOP_K, n);
            }
            Ok(())
        },
    }
}

/// Why attention over `rows` of the store stops.
pub open spec fn dense_fault(rows: CompRows, s: LayerState) -> Option<LayerError> {
    if rows == CompRows::Dense && (s.compressor->0.store == Store::E2m1 || (s.compressor->0.store
        == Store::Fp8 && store_rows(s) > FP8_KV_HEAD_ROWS)) {
        Some(LayerError::DenseRows)
    } else {
        None
    }
}

/// The scoring and weighting of attention, behind `ops`.
pub open spec fn mixed_ops(ops: Seq<Op>, k: LayerKnobs, w: KvWindow, rows: CompRows, n: u32) -> Seq<
    Op,
> {
    let ops = ops.push(Op::AttnScore { wide: k.wide_score, rows, n_raw: w.n_raw, n_comp: n });
    if k.split_sum {
        ops.push(Op::AttnSoftmax { n_raw: w.n_raw, n_comp: n }).push(
            Op::AttnSum { rows, n_raw: w.n_raw, n_comp: n },
        ).push(Op::AttnReduce)
    } else {
        ops.push(Op::AttnSoftmaxSum { rows, n_raw: w.n_raw, n_comp: n })
    }
}

/// The token's state after the indexer, where it ran.
pub open spec fn attention_token(k: LayerKnobs, f: LayerFacts, s: LayerState, t: TokenState) -> TokenState {
    if f.ratio > 0 && sparse(k, f, s) {
        gathered(k, f, s, t)
    } else {
        t
    }
}

/// Why attention stops.
pub open spec fn attention_stop(k: LayerKnobs, f: LayerFacts, s: LayerState, t: TokenState) -> Option<
    LayerError,
> {
    if f.ratio == 0 {
        None
    } else if sparse(k, f, s) && indexer_fault(k, f, s) is Some {
        indexer_fault(k, f, s)
    } else {
        dense_fault(attended(k, f, s, t).0, s)
    }
}

/// Attention's work, behind `ops`.
pub open spec fn attention_ops(
    ops: Seq<Op>,
    k: LayerKnobs,
    f: LayerFacts,
    pos: u32,
    s: LayerState,
    t: TokenState,
) -> Seq<Op> {
    if f.ratio == 0 {
        ops.push(Op::AttnSwa { raw_off: s.window.raw_off, n_raw: s.window.n_raw })
    } else {
        let ops = if sparse(k, f, s) {
            indexer_ops(ops, k, f, pos, s)
        } else {
            ops
        };
        if attention_stop(k, f, s, t) is Some {
            ops
        } else {
            let (rows, n) = attended(k, f, s, t);
            mixed_ops(ops, k, s.window, rows, n)
        }
    }
}

/// Runs attention for a token at `pos`.
pub fn attend(
    k: &LayerKnobs,
    f: &LayerFacts,
    pos: u32,
    s: &LayerState,
    t: &mut TokenState,
    ops: &mut Vec<Op>,
) -> (r: Result<(), LayerError>)
    requires
        ready(*f, *s),
    ensures
        final(ops)@ == attention_ops(old(ops)@, *k, *f, pos, *s, *old(t)),
        *final(t) == attention_token(*k, *f, *s, *old(t)),
        r == (match attention_stop(*k, *f, *s, *old(t)) {
            None => Ok::<(), LayerError>(()),
            Some(e) => Err(e),
        }),
{
    if f.ratio == 0 {
        ops.push(Op::AttnSwa { raw_off: s.window.raw_off, n_raw: s.window.n_raw });
        return Ok(());
    }
    let (n_comp, store) = match s.compressor {
        Some(c) => (c.n_comp, c.store),
        None => (0, Store::F16),
    };
    let chosen = use_sparse(k, f, s);
    let (n_index, _keys) = count_keys(k, s);
    let src: i32 = match f.kv_source {
        Some(l) => l,
        None => f.layer,
    };
    let reused = k.v41 && k.index_k && !chosen && !is_index_source_layer(true, f.layer) && n_comp
        > 0 && t.gather_src == src;
    let (rows, n) = if reused {
        (CompRows::Gathered, t.gather_rows)
    } else if chosen {
        (CompRows::Gathered, min_u32(INDEXER_TOP_K, n_index))
    } else if n_comp > 0 {
        (
            CompRows::Dense,
            if k.comp_cap > 0 {
                min_u32(n_comp, k.comp_cap)
            } else {
                n_comp
            },
        )
    } else {
        (CompRows::Absent, 0)
    };
    if chosen {
        match run_indexer(k, f, pos, s, t, ops) {
            Ok(_) => {},
            Err(e) => {
                return Err(e);
            },
        }
    }
    if rows == CompRows::Dense && (store == Store::E2m1 || (store == Store::Fp8 && n_comp
        > FP8_KV_HEAD_ROWS)) {
        return Err(LayerError::DenseRows);
    }
    let n_raw: u32 = s.window.n_raw;
    ops.push(Op::AttnScore { wide: k.wide_score, rows, n_raw, n_comp: n });
    if k.split_sum {
        ops.push(Op::AttnSoftmax { n_raw, n_comp: n });
        ops.push(Op::AttnSum { rows, n_raw, n_comp: n });
        ops.push(Op::AttnReduce);
    } else {
        ops.push(Op::AttnSoftmaxSum { rows, n_raw, n_comp: n });
    }
    Ok(())
}

/// The faults of an indexer's choice among `n` keys.
#[derive(Clone, Copy, PartialEq, Eq, Structural, Debug)]
pub struct SelectionFaults {
    /// Entries that name no key.
    pub oob: usize,
    /// Entries that name a key again.
    pub dup: usize,
    /// Keys that no entry names.
    pub missing: usize,
}

/// An entry that names a key.
pub open spec fn names_key(i: i32, n: u32) -> bool {
    0 <= i && i < n
}

/// Counts the positions of `sel` that a test holds of.
pub open spec fn count_at(sel: Seq<i32>, upto: int, test: spec_fn(int) -> bool) -> nat
    decreases upto,
{
    if upto <= 0 {
        0
    } else {
        count_at(sel, upto - 1, test) + if test(upto - 1) {
            1nat
        } else {
            0
        }
    }
}

/// Counts the keys below `n` that no entry of `sel` names.
pub open spec fn count_missing(sel: Seq<i32>, upto: int) -> nat
    decreases upto,
{
    if upto <= 0 {
        0
    } else {
        count_missing(sel, upto - 1) + if sel.contains((upto - 1) as i32) {
            0nat
        } else {
            1
        }
    }
}

/// Holds an indexer's choice against the `n` keys that it chose from.
pub fn selection_faults(sel: &[i32], n: u32) -> (r: SelectionFaults)
    requires
        n <= i32::MAX,
    ensures
        r.oob == count_at(sel@, sel.len() as int, |j: int| !names_key(sel@[j], n)),
        r.dup == count_at(
            sel@,
            sel.len() as int,
            |j: int| names_key(sel@[j], n) && sel@.take(j).contains(sel@[j]),
        ),
        r.missing == count_missing(sel@, n as int),
{
    let ghost out_of = |j: int| !names_key(sel@[j], n);
    let ghost again = |j: int| names_key(sel@[j], n) && sel@.take(j).contains(sel@[j]);
    let mut seen: Vec<bool> = Vec::new();
    let mut i: u32 = 0;
    while i < n
        invariant
            i <= n,
            seen.len() == i,
            forall|e: int| 0 <= e < i ==> !(#[trigger] seen@[e]),
        decreases n - i,
    {
        seen.push(false);
        i = i + 1;
    }
    let mut oob: usize = 0;
    let mut dup: usize = 0;
    let mut j: usize = 0;
    assert(sel@.take(0) =~= Seq::<i32>::empty());
    while j < sel.len()
        invariant
            j <= sel.len(),
            n <= i32::MAX,
            seen.len() == n,
            out_of == (|j: int| !names_key(sel@[j], n)),
            again == (|j: int| names_key(sel@[j], n) && sel@.take(j).contains(sel@[j])),
            oob == count_at(sel@, j as int, out_of),
            dup == count_at(sel@, j as int, again),
            oob <= j,
            dup <= j,
            forall|e: int|
                0 <= e < n ==> #[trigger] seen@[e] == sel@.take(j as int).contains(e as i32),
        decreases sel.len() - j,
    {
        let v: i32 = sel[j];
        let ghost before = sel@.take(j as int);
        let ghost after = sel@.take(j + 1);
        assert(after =~= before.push(v));
        assert forall|x: i32| #[trigger] after.contains(x) == (before.contains(x) || x == v) by {
            if before.contains(x) {
                let m = choose|m: int| 0 <= m < before.len() && before[m] == x;
                assert(after[m] == x);
            }
            if x == v {
                assert(after[j as int] == x);
            }
        }
        if v < 0 || v as u32 >= n {
            oob = oob + 1;
        } else if seen[v as usize] {
            dup = dup + 1;
        } else {
            seen.set(v as usize, true);
        }
        j = j + 1;
    }
    assert(sel@.take(sel.len() as int) =~= sel@);
    let mut missing: usize = 0;
    let mut e: u32 = 0;
    while e < n
        invariant
            e <= n,
            n <= i32::MAX,
            seen.len() == n,
            missing <= e,
            missing == count_missing(sel@, e as int),
            forall|e: int| 0 <= e < n ==> #[trigger] seen@[e] == sel@.contains(e as i32),
        decreases n - e,
    {
        if !seen[e as usize] {
            missing = missing + 1;
        }
        e = e + 1;
    }
    SelectionFaults { oob, dup, missing }
}

/// A choice without faults names every key, each exactly once.
pub proof fn a_faultless_choice_is_a_permutation(sel: Seq<i32>, n: u32)
    requires
        n <= i32::MAX,
        count_at(sel, sel.len() as int, |j: int| !names_key(sel[j], n)) == 0,
        count_at(
            sel,
            sel.len() as int,
            |j: int| names_key(sel[j], n) && sel.take(j).contains(sel[j]),
        ) == 0,
        count_missing(sel, n as int) == 0,
    ensures
        sel.no_duplicates(),
        forall|e: i32| sel.contains(e) <==> 0 <= e && e < n,
{
    let out_of = |j: int| !names_key(sel[j], n);
    let again = |j: int| names_key(sel[j], n) && sel.take(j).contains(sel[j]);
    lemma_none_counted(sel, sel.len() as int, out_of);
    lemma_none_counted(sel, sel.len() as int, again);
    lemma_none_missing(sel, n as int);
    assert forall|e: i32| sel.contains(e) implies 0 <= e && e < n by {
        let j = choose|j: int| 0 <= j < sel.len() && sel[j] == e;
        assert(!out_of(j));
    }
    assert forall|i: int, j: int| 0 <= i < j < sel.len() implies sel[i] != sel[j] by {
        assert(!again(j));
        assert(!out_of(j));
        assert(sel.take(j)[i] == sel[i]);
    }
}

proof fn lemma_none_counted(sel: Seq<i32>, upto: int, test: spec_fn(int) -> bool)
    requires
        count_at(sel, upto, test) == 0,
    ensures
        forall|j: int| 0 <= j < upto ==> !(#[trigger] test(j)),
    decreases upto,
{
    if upto > 0 {
        lemma_none_counted(sel, upto - 1, test);
    }
}

proof fn lemma_none_missing(sel: Seq<i32>, upto: int)
    requires
        0 <= upto <= i32::MAX,
        count_missing(sel, upto) == 0,
    ensures
        forall|e: i32| 0 <= e && e < upto ==> sel.contains(e),
    decreases upto,
{
    if upto > 0 {
        lemma_none_missing(sel, upto - 1);
    }
}

/// Attention never reads more gathered rows than the indexer gathered: its own
/// choice holds as many as it names, and a shared one as many as were published.
pub proof fn gathered_rows_are_there(k: LayerKnobs, f: LayerFacts, s: LayerState, t: TokenState)
    requires
        sparse(k, f, s),
        keys_in_store(k, s),
        indexer_fault(k, f, s) is None,
    ensures
        attended(k, f, s, t) == (CompRows::Gathered, gathered(k, f, s, t).gather_rows),
        gathered(k, f, s, t).gather_rows <= INDEXER_TOP_K,
        gathered(k, f, s, t).gather_rows <= index_keys(k, s),
{
}

/// A layer that is no index source reads what was gathered from its own store,
/// and never another store's rows.
pub proof fn a_shared_choice_is_of_the_same_store(
    k: LayerKnobs,
    f: LayerFacts,
    s: LayerState,
    t: TokenState,
)
    requires
        !sparse(k, f, s),
        attended(k, f, s, t).0 == CompRows::Gathered,
    ensures
        t.gather_src == store_layer(f),
        attended(k, f, s, t).1 == t.gather_rows,
{
}

} // verus!
