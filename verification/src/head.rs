//! The model's head: the last residual collapsed, normed and projected onto the
//! vocabulary. For a few rows at once the preparation stays row by row, with the
//! same kernels as for one row, and only the vocabulary is read once for all.

use vstd::prelude::*;
use crate::config::{HC_DIM, HC_MIX_DIM, N_EMBD};
use crate::dispatch::{dense_matvec, GgufType, NoKernel, VectorInput};
use crate::dispatch;

verus! {

/// One operation of the head.
#[derive(Clone, Copy, PartialEq, Eq, Structural, Debug)]
pub enum HeadOp {
    UseFirstDevice,
    /// Collapses the residual copies at `residual` with the mix at `carry`.
    Collapse { residual: u64, carry: u64 },
    Norm,
    /// Quantizes to the places `xq` and `xscale`.
    Quantize { xq: u64, xscale: u64 },
    QuantizeK { blocks: u32 },
    /// One row, with blocks of 4-bit weights.
    VocabGemm { rows: u32, blocks: u32 },
    /// One row.
    VocabMatvec { input: VectorInput },
    /// Some rows, reading the vocabulary once.
    VocabPacked { rows: u32 },
}

/// The preparation of one row.
pub open spec fn row_ops(ops: Seq<HeadOp>, i: nat) -> Seq<HeadOp> {
    ops.push(
        HeadOp::Collapse { residual: (i * HC_DIM) as u64, carry: (i * HC_MIX_DIM) as u64 },
    ).push(HeadOp::Norm).push(
        HeadOp::Quantize { xq: (i * N_EMBD) as u64, xscale: (i * (N_EMBD / 32)) as u64 },
    )
}

/// The preparation of the first `b` rows, one after the other.
pub open spec fn rows_ops(ops: Seq<HeadOp>, b: nat) -> Seq<HeadOp>
    decreases b,
{
    if b == 0 {
        ops
    } else {
        row_ops(rows_ops(ops, (b - 1) as nat), (b - 1) as nat)
    }
}

/// The head of `b` rows at once.
pub open spec fn batch_ops(b: u32) -> Seq<HeadOp> {
    rows_ops(seq![HeadOp::UseFirstDevice], b as nat).push(HeadOp::VocabPacked { rows: b })
}

/// Can `b` rows go through the head at once? The packed kernel reads one format, and
/// the staging buffers have room for `max` rows.
pub open spec fn batches(b: u32, max: usize, output: GgufType) -> bool {
    0 < b <= max && output == GgufType::Q8_0
}

/// The head of `b` contiguous rows, which reads the vocabulary once. `None` where the
/// caller has to take the rows one by one.
pub fn forward_head_batch(b: u32, max: usize, output: GgufType) -> (r: Option<Vec<HeadOp>>)
    ensures
        match r {
            Some(ops) => batches(b, max, output) && ops@ == batch_ops(b),
            None => !batches(b, max, output),
        },
{
    if b == 0 || b as usize > max {
        return None;
    }
    if output != GgufType::Q8_0 {
        return None;
    }
    let mut ops: Vec<HeadOp> = Vec::new();
    ops.push(HeadOp::UseFirstDevice);
    let ghost start = seq![HeadOp::UseFirstDevice];
    assert(ops@ =~= start);
    let mut i: u32 = 0;
    while i < b
        invariant
            i <= b,
            ops@ == rows_ops(start, i as nat),
        decreases b - i,
    {
        let at: u64 = i as u64;
        assert(at * HC_DIM <= u64::MAX && at * HC_MIX_DIM <= u64::MAX && at * N_EMBD <= u64::MAX
            && at * (N_EMBD / 32) <= u64::MAX) by (nonlinear_arith)
            requires
                at <= u32::MAX,
                HC_DIM == 20480,
                HC_MIX_DIM == 24,
                N_EMBD == 5120,
        ;
        ops.push(
            HeadOp::Collapse { residual: at * HC_DIM as u64, carry: at * HC_MIX_DIM as u64 },
        );
        ops.push(HeadOp::Norm);
        ops.push(
            HeadOp::Quantize { xq: at * N_EMBD as u64, xscale: at * (N_EMBD as u64 / 32) },
        );
        i = i + 1;
    }
    ops.push(HeadOp::VocabPacked { rows: b });
    Some(ops)
}

/// The head of one row: what is to be done, and why it cannot be finished.
pub struct HeadPlan {
    pub ops: Vec<HeadOp>,
    pub stop: Option<NoKernel>,
}

/// The preparation of a single row.
pub open spec fn prepare_ops(output: GgufType) -> Seq<HeadOp> {
    let ops = seq![HeadOp::UseFirstDevice].push(
        HeadOp::Collapse { residual: 0, carry: 0 },
    ).push(HeadOp::Norm);
    if output == GgufType::Q8_0 {
        ops.push(HeadOp::Quantize { xq: 0, xscale: 0 })
    } else {
        ops
    }
}

/// The head of one row.
pub open spec fn head_ops(output: GgufType) -> Seq<HeadOp> {
    let ops = prepare_ops(output);
    match output {
        GgufType::Q4_K => ops.push(HeadOp::QuantizeK { blocks: 16 }).push(
            HeadOp::VocabGemm { rows: 1, blocks: 16 },
        ),
        GgufType::Q8_0 => ops.push(HeadOp::VocabMatvec { input: VectorInput::Quantized }),
        _ => if dispatch::k_quant(output) {
            ops.push(HeadOp::VocabMatvec { input: VectorInput::Float })
        } else {
            ops
        },
    }
}

/// The head of one row. A format that no kernel reads is found only when the row is
/// prepared.
pub fn forward_head(output: GgufType) -> (r: HeadPlan)
    ensures
        r.ops@ == head_ops(output),
        r.stop == (if output == GgufType::Q8_0 || dispatch::k_quant(output) {
            None::<NoKernel>
        } else {
            Some(NoKernel { dtype: output })
        }),
{
    let mut ops: Vec<HeadOp> = Vec::new();
    ops.push(HeadOp::UseFirstDevice);
    assert(ops@ =~= seq![HeadOp::UseFirstDevice]);
    ops.push(HeadOp::Collapse { residual: 0, carry: 0 });
    ops.push(HeadOp::Norm);
    if output == GgufType::Q8_0 {
        ops.push(HeadOp::Quantize { xq: 0, xscale: 0 });
    }
    if output == GgufType::Q4_K {
        ops.push(HeadOp::QuantizeK { blocks: 16 });
        ops.push(HeadOp::VocabGemm { rows: 1, blocks: 16 });
        return HeadPlan { ops, stop: None };
    }
    match dense_matvec(output) {
        Ok(input) => {
            ops.push(HeadOp::VocabMatvec { input });
            HeadPlan { ops, stop: None }
        },
        Err(e) => HeadPlan { ops, stop: Some(e) },
    }
}

/// How often the vocabulary is read.
pub open spec fn vocabulary_reads(ops: Seq<HeadOp>) -> nat
    decreases ops.len(),
{
    if ops.len() == 0 {
        0
    } else {
        let before = vocabulary_reads(ops.drop_last());
        match ops.last() {
            HeadOp::VocabGemm { .. } => before + 1,
            HeadOp::VocabMatvec { .. } => before + 1,
            HeadOp::VocabPacked { .. } => before + 1,
            _ => before,
        }
    }
}

proof fn lemma_reads_push(ops: Seq<HeadOp>, op: HeadOp)
    ensures
        vocabulary_reads(ops.push(op)) == vocabulary_reads(ops) + match op {
            HeadOp::VocabGemm { .. } => 1nat,
            HeadOp::VocabMatvec { .. } => 1,
            HeadOp::VocabPacked { .. } => 1,
            _ => 0,
        },
{
    assert(ops.push(op).drop_last() =~= ops);
}

proof fn lemma_rows_reads(ops: Seq<HeadOp>, b: nat)
    ensures
        vocabulary_reads(rows_ops(ops, b)) == vocabulary_reads(ops),
    decreases b,
{
    if b > 0 {
        let i = (b - 1) as nat;
        lemma_rows_reads(ops, i);
        let p = rows_ops(ops, i);
        let c = HeadOp::Collapse { residual: (i * HC_DIM) as u64, carry: (i * HC_MIX_DIM) as u64 };
        lemma_reads_push(p, c);
        lemma_reads_push(p.push(c), HeadOp::Norm);
        lemma_reads_push(
            p.push(c).push(HeadOp::Norm),
            HeadOp::Quantize { xq: (i * N_EMBD) as u64, xscale: (i * (N_EMBD / 32)) as u64 },
        );
    }
}

/// However many rows there are, the vocabulary is read once.
pub proof fn the_vocabulary_is_read_once(b: u32)
    ensures
        vocabulary_reads(batch_ops(b)) == 1,
{
    let start = seq![HeadOp::UseFirstDevice];
    assert(start.drop_last() =~= Seq::<HeadOp>::empty());
    reveal_with_fuel(vocabulary_reads, 2);
    lemma_rows_reads(start, b as nat);
    lemma_reads_push(rows_ops(start, b as nat), HeadOp::VocabPacked { rows: b });
}

/// A row of a batch is prepared with the operations of a single row, at its own
/// places.
pub proof fn a_row_is_prepared_as_it_is_alone(b: u32, i: u32)
    requires
        i < b,
    ensures
        prepare_ops(GgufType::Q8_0) == row_ops(seq![HeadOp::UseFirstDevice], 0),
        batch_ops(b).subrange(1 + 3 * i, 4 + 3 * i) == row_ops(Seq::empty(), i as nat),
{
    let start = seq![HeadOp::UseFirstDevice];
    assert(0 * HC_DIM == 0 && 0 * HC_MIX_DIM == 0 && 0 * N_EMBD == 0 && 0 * (N_EMBD / 32) == 0)
        by (nonlinear_arith);
    lemma_row_place(start, b as nat, i as nat);
    assert(batch_ops(b).subrange(1 + 3 * i, 4 + 3 * i) =~= rows_ops(start, b as nat).subrange(
        1 + 3 * i,
        4 + 3 * i,
    ));
}

proof fn lemma_row_place(ops: Seq<HeadOp>, b: nat, i: nat)
    ensures
        rows_ops(ops, b).len() == ops.len() + 3 * b,
        i < b ==> rows_ops(ops, b).subrange(
            (ops.len() + 3 * i) as int,
            (ops.len() + 3 * i + 3) as int,
        ) == row_ops(
            Seq::empty(),
            i,
        ),
    decreases b,
{
    if b > 0 {
        let p = (b - 1) as nat;
        lemma_row_place(ops, p, i);
        let at: int = (ops.len() + 3 * i) as int;
        if i < p {
            assert(rows_ops(ops, b).subrange(at, at + 3) =~= rows_ops(ops, p).subrange(
                at,
                at + 3,
            ));
        } else if i == p {
            assert(rows_ops(ops, b).subrange(at, at + 3) =~= row_ops(Seq::empty(), i));
        }
    }
}

} // verus!
