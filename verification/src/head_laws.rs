//! What the head computes: the product of the vocabulary and the last residual, its
//! copies collapsed and normed.

use vstd::prelude::*;
use crate::config::{HC_DIM, HC_MIX_DIM, N_EMBD};
use crate::dispatch::{GgufType, VectorInput};
use crate::head::HeadOp;
use crate::head;

verus! {

/// A value of the head, by how it was computed.
pub enum HeadTerm {
    /// A value that was there before.
    Given(nat),
    /// The residual copies at one place, weighed by the mix at another.
    Collapsed(u64, u64),
    Normed(Box<HeadTerm>),
    Quantized(Box<HeadTerm>),
    QuantizedK(u32, Box<HeadTerm>),
    /// The vocabulary's product with one row.
    Vocabulary(Box<HeadTerm>),
}

/// What the head's operations read and write.
#[verifier::ext_equal]
pub struct HeadValues {
    pub current: HeadTerm,
    pub normed: HeadTerm,
    /// The quantized rows, by the places of their values and scales.
    pub rows: Map<(u64, u64), HeadTerm>,
    pub blocks: HeadTerm,
    pub logits: HeadTerm,
    /// Rows that the packed kernel has read.
    pub packed: u32,
}

/// The values after one more operation.
pub open spec fn after_op(v: HeadValues, op: HeadOp) -> HeadValues {
    match op {
        HeadOp::UseFirstDevice => v,
        HeadOp::Collapse { residual, carry } => HeadValues {
            current: HeadTerm::Collapsed(residual, carry),
            ..v
        },
        HeadOp::Norm => HeadValues { normed: HeadTerm::Normed(Box::new(v.current)), ..v },
        HeadOp::Quantize { xq, xscale } => HeadValues {
            rows: v.rows.insert((xq, xscale), HeadTerm::Quantized(Box::new(v.normed))),
            ..v
        },
        HeadOp::QuantizeK { blocks } => HeadValues {
            blocks: HeadTerm::QuantizedK(blocks, Box::new(v.normed)),
            ..v
        },
        HeadOp::VocabGemm { .. } => HeadValues {
            logits: HeadTerm::Vocabulary(Box::new(v.blocks)),
            ..v
        },
        HeadOp::VocabMatvec { input } => HeadValues {
            logits: HeadTerm::Vocabulary(
                Box::new(
                    match input {
                        VectorInput::Quantized => v.rows[(0u64, 0u64)],
                        VectorInput::Float => v.normed,
                    },
                ),
            ),
            ..v
        },
        HeadOp::VocabPacked { rows } => HeadValues { packed: rows, ..v },
    }
}

/// The values after some operations.
pub open spec fn values(v: HeadValues, ops: Seq<HeadOp>) -> HeadValues
    decreases ops.len(),
{
    if ops.len() == 0 {
        v
    } else {
        after_op(values(v, ops.drop_last()), ops.last())
    }
}

broadcast proof fn lemma_push_values(v: HeadValues, ops: Seq<HeadOp>, op: HeadOp)
    ensures
        #[trigger] values(v, ops.push(op)) == after_op(values(v, ops), op),
{
    assert(ops.push(op).drop_last() =~= ops);
}

/// The row that the vocabulary is multiplied with, of copies and a mix at two places.
pub open spec fn prepared(residual: u64, carry: u64) -> HeadTerm {
    HeadTerm::Normed(Box::new(HeadTerm::Collapsed(residual, carry)))
}

/// The head of one row is the vocabulary's product with the prepared row, in the form
/// that the vocabulary's format is read with. A format that nothing reads gets none.
pub proof fn the_head_projects_the_last_residual(v: HeadValues, output: GgufType)
    ensures
        ({
            let w = values(v, head::head_ops(output));
            let row = prepared(0, 0);
            match output {
                GgufType::Q8_0 => w.logits == HeadTerm::Vocabulary(
                    Box::new(HeadTerm::Quantized(Box::new(row))),
                ),
                GgufType::Q4_K => w.logits == HeadTerm::Vocabulary(
                    Box::new(HeadTerm::QuantizedK(16, Box::new(row))),
                ),
                GgufType::Q5_K => w.logits == HeadTerm::Vocabulary(Box::new(row)),
                GgufType::Q6_K => w.logits == HeadTerm::Vocabulary(Box::new(row)),
                _ => w.logits == v.logits,
            }
        }),
        head::head_ops(output)[0] == HeadOp::UseFirstDevice,
{
    broadcast use lemma_push_values;

    let first = seq![HeadOp::UseFirstDevice];
    assert(first =~= Seq::<HeadOp>::empty().push(HeadOp::UseFirstDevice));
    assert(values(v, Seq::empty()) == v);
}

proof fn lemma_rows(v: HeadValues, b: nat, i: nat)
    requires
        i < b <= u32::MAX,
    ensures
        ({
            let w = values(v, head::rows_ops(seq![HeadOp::UseFirstDevice], b));
            let place = ((5120 * i) as u64, (160 * i) as u64);
            w.rows.contains_key(place) && w.rows[place] == HeadTerm::Quantized(
                Box::new(prepared((20480 * i) as u64, (24 * i) as u64)),
            )
        }),
    decreases b,
{
    broadcast use lemma_push_values;

    let last = (b - 1) as nat;
    assert(last * HC_DIM == 20480 * last && last * HC_MIX_DIM == 24 * last && last * N_EMBD == 5120
        * last && last * (N_EMBD / 32) == 160 * last) by (nonlinear_arith)
        requires
            HC_DIM == 20480,
            HC_MIX_DIM == 24,
            N_EMBD == 5120,
    ;
    if i < last {
        lemma_rows(v, last, i);
        assert((5120 * i) as u64 != (5120 * last) as u64);
    }
}

/// The rows of a batch are prepared each of its own copies and mix, and stand at places
/// of their own, where the packed kernel reads all of them.
pub proof fn a_batch_projects_every_row(v: HeadValues, b: u32, i: u32, j: u32)
    requires
        i < b,
        j < b,
    ensures
        ({
            let w = values(v, head::batch_ops(b));
            let place = ((5120 * i) as u64, (160 * i) as u64);
            &&& w.rows[place] == HeadTerm::Quantized(
                Box::new(prepared((20480 * i) as u64, (24 * i) as u64)),
            )
            &&& w.packed == b
            &&& i != j ==> place != ((5120 * j) as u64, (160 * j) as u64)
        }),
{
    broadcast use lemma_push_values;

    lemma_rows(v, b as nat, i as nat);
}

/// Rows go through the head at once where there are some, the staging buffers have
/// room for them, and the vocabulary has the format that the packed kernel reads.
pub proof fn rows_that_fit_go_at_once(b: u32, max: usize, output: GgufType)
    ensures
        head::batches(b, max, output) <==> 1 <= b && b <= max && output == GgufType::Q8_0,
{
}

} // verus!
