//! The shape of a histogram of misses.

use vstd::prelude::*;
use crate::counts::{count_nonzero, sum_of, sum_of_largest};
use crate::counts;

verus! {

/// Layers of the histogram.
pub const HIST_LAYERS: usize = 40;

/// Experts per layer of the histogram.
pub const HIST_EXPERTS: usize = 384;

/// How the misses of a window are spread.
pub struct MissShape {
    /// Misses in the window.
    pub total: u64,
    /// Experts that were missed.
    pub distinct: u32,
    /// Misses of the sixteen experts that were missed most.
    pub top16: u64,
    /// Misses of each layer; empty where there was no miss.
    pub by_layer: Vec<u64>,
}

/// The histogram's entries as counts.
pub open spec fn widened(hist: Seq<u32>) -> Seq<u64> {
    hist.map_values(|v: u32| v as u64)
}

/// The entries of one layer.
pub open spec fn layer_part(hist: Seq<u32>, l: int) -> Seq<u64> {
    widened(hist).subrange(l * HIST_EXPERTS, (l + 1) * HIST_EXPERTS)
}

/// The shape of a histogram.
pub open spec fn is_shape(hist: Seq<u32>, m: MissShape) -> bool {
    &&& m.total == counts::sum(widened(hist))
    &&& m.distinct == counts::nonzero(widened(hist))
    &&& m.top16 == counts::top_sum(widened(hist), 16)
    &&& if m.total == 0 {
        m.by_layer@ == Seq::<u64>::empty()
    } else {
        &&& m.by_layer.len() == HIST_LAYERS
        &&& forall|l: int|
            0 <= l < HIST_LAYERS ==> #[trigger] m.by_layer@[l] == counts::sum(layer_part(hist, l))
    }
}

/// Counts of 32 bits cannot sum to more than this.
proof fn lemma_sum_bound(s: Seq<u64>, each: nat)
    requires
        forall|i: int| 0 <= i < s.len() ==> #[trigger] s[i] <= each,
    ensures
        counts::sum(s) <= s.len() * each,
    decreases s.len(),
{
    if s.len() > 0 {
        lemma_sum_bound(s.drop_last(), each);
        assert(s.len() * each == (s.len() - 1) * each + each) by (nonlinear_arith)
            requires
                s.len() > 0,
        ;
    } else {
        assert(s.len() * each == 0) by (nonlinear_arith)
            requires
                s.len() == 0,
        ;
    }
}

proof fn lemma_no_sum(s: Seq<u64>)
    requires
        counts::sum(s) == 0,
    ensures
        counts::nonzero(s) == 0,
    decreases s.len(),
{
    if s.len() > 0 {
        lemma_no_sum(s.drop_last());
    }
}

proof fn lemma_nonzero_bound(s: Seq<u64>)
    ensures
        counts::nonzero(s) <= s.len(),
    decreases s.len(),
{
    if s.len() > 0 {
        lemma_nonzero_bound(s.drop_last());
    }
}

/// The sums of the layers.
fn layer_sums(vals: &Vec<u64>, Ghost(hist): Ghost<Seq<u32>>) -> (r: Vec<u64>)
    requires
        hist.len() == HIST_LAYERS * HIST_EXPERTS,
        vals@ == widened(hist),
    ensures
        r.len() == HIST_LAYERS,
        forall|l: int|
            0 <= l < HIST_LAYERS ==> #[trigger] r@[l] == counts::sum(layer_part(hist, l)),
{
    let mut out: Vec<u64> = Vec::new();
    let mut l: usize = 0;
    while l < HIST_LAYERS
        invariant
            l <= HIST_LAYERS,
            hist.len() == HIST_LAYERS * HIST_EXPERTS,
            vals@ == widened(hist),
            out.len() == l,
            forall|j: int| 0 <= j < l ==> #[trigger] out@[j] == counts::sum(layer_part(hist, j)),
        decreases HIST_LAYERS - l,
    {
        let lo: usize = l * HIST_EXPERTS;
        let hi: usize = lo + HIST_EXPERTS;
        let part = vstd::slice::slice_subrange(vals.as_slice(), lo, hi);
        assert(part@ =~= layer_part(hist, l as int));
        proof {
            assert forall|i: int| 0 <= i < part@.len() implies #[trigger] part@[i] <= u32::MAX by {
                assert(part@[i] == hist[lo + i] as u64);
            }
            lemma_sum_bound(part@, u32::MAX as nat);
            assert(part@.len() * u32::MAX <= u64::MAX) by (nonlinear_arith)
                requires
                    part@.len() == 384,
            ;
        }
        out.push(sum_of(part));
        l = l + 1;
    }
    out
}

/// The shape of a histogram.
pub fn miss_shape(hist: &Vec<u32>) -> (m: MissShape)
    requires
        hist.len() == HIST_LAYERS * HIST_EXPERTS,
    ensures
        is_shape(hist@, m),
{
    let mut vals: Vec<u64> = Vec::new();
    let mut i: usize = 0;
    while i < hist.len()
        invariant
            i <= hist.len(),
            vals.len() == i,
            forall|j: int| 0 <= j < i ==> #[trigger] vals@[j] == hist@[j],
        decreases hist.len() - i,
    {
        vals.push(hist[i] as u64);
        i = i + 1;
    }
    assert(vals@ =~= widened(hist@));
    proof {
        lemma_sum_bound(vals@, u32::MAX as nat);
        assert(vals@.len() * u32::MAX <= u64::MAX) by (nonlinear_arith)
            requires
                vals@.len() == 15360,
        ;
        lemma_nonzero_bound(vals@);
        counts::the_largest_share_grows(vals@, 16);
    }
    let total = sum_of(vals.as_slice());
    if total == 0 {
        proof {
            lemma_no_sum(vals@);
        }
        return MissShape { total: 0, distinct: 0, top16: 0, by_layer: Vec::new() };
    }
    let distinct = count_nonzero(vals.as_slice()) as u32;
    let top16 = sum_of_largest(vals.as_slice(), 16);
    let by_layer = layer_sums(&vals, Ghost(hist@));
    MissShape { total, distinct, top16, by_layer }
}

proof fn lemma_layers_sum(hist: Seq<u32>, by_layer: Seq<u64>, n: int)
    requires
        hist.len() == HIST_LAYERS * HIST_EXPERTS,
        by_layer.len() == HIST_LAYERS,
        forall|l: int| 0 <= l < HIST_LAYERS ==> #[trigger] by_layer[l] == counts::sum(layer_part(hist, l)),
        0 <= n <= HIST_LAYERS,
    ensures
        counts::sum(by_layer.take(n)) == counts::sum(widened(hist).take(n * HIST_EXPERTS)),
    decreases n,
{
    let w = widened(hist);
    if n > 0 {
        lemma_layers_sum(hist, by_layer, n - 1);
        assert(by_layer.take(n).drop_last() =~= by_layer.take(n - 1));
        let lo = (n - 1) * HIST_EXPERTS;
        assert(w.take(n * HIST_EXPERTS) =~= w.take(lo) + layer_part(hist, n - 1));
        counts::lemma_sum_joined(w.take(lo), layer_part(hist, n - 1));
    } else {
        assert(by_layer.take(0) =~= Seq::empty());
        assert(w.take(0) =~= Seq::empty());
    }
}

/// The misses of the layers sum to all misses. The sixteen experts that were missed
/// most have a share of them, and where no more than sixteen were missed, all.
pub proof fn a_shape_adds_up(hist: Seq<u32>, m: MissShape)
    requires
        hist.len() == HIST_LAYERS * HIST_EXPERTS,
        is_shape(hist, m),
    ensures
        counts::sum(m.by_layer@) == m.total,
        m.top16 <= m.total,
        m.total > 0 ==> m.top16 > 0,
        m.distinct <= 16 ==> m.top16 == m.total,
{
    counts::the_largest_share_grows(widened(hist), 16);
    if m.distinct <= 16 {
        counts::few_counts_are_the_whole(widened(hist), 16);
    }
    if m.total > 0 {
        counts::the_largest_share_is_positive(widened(hist), 16);
        lemma_layers_sum(hist, m.by_layer@, HIST_LAYERS as int);
        assert(m.by_layer@.take(HIST_LAYERS as int) =~= m.by_layer@);
        assert(widened(hist).take(HIST_LAYERS * HIST_EXPERTS) =~= widened(hist));
    }
}

/// A histogram that was just emptied has no misses.
pub proof fn an_emptied_histogram_has_no_misses(hist: Seq<u32>, m: MissShape)
    requires
        forall|i: int| 0 <= i < hist.len() ==> #[trigger] hist[i] == 0,
        is_shape(hist, m),
    ensures
        m.total == 0,
        m.distinct == 0,
        m.top16 == 0,
        m.by_layer@ == Seq::<u64>::empty(),
{
    let w = widened(hist);
    assert forall|i: int| 0 <= i < w.len() implies #[trigger] w[i] <= 0 by {
        assert(hist[i] == 0);
    }
    lemma_sum_bound(w, 0);
    assert(w.len() * 0 == 0);
    lemma_no_sum(w);
    counts::the_largest_share_grows(w, 16);
}

/// One more miss of one expert is one more in all.
pub proof fn lemma_one_more(hist: Seq<u32>, i: int)
    requires
        0 <= i < hist.len(),
        hist[i] < u32::MAX,
    ensures
        counts::sum(widened(hist.update(i, (hist[i] + 1) as u32))) == counts::sum(widened(hist)) + 1,
    decreases hist.len(),
{
    let more = hist.update(i, (hist[i] + 1) as u32);
    let (w, v) = (widened(hist), widened(more));
    if i == hist.len() - 1 {
        assert(v.drop_last() =~= w.drop_last());
    } else {
        lemma_one_more(hist.drop_last(), i);
        assert(hist.drop_last().update(i, (hist[i] + 1) as u32) =~= more.drop_last());
        assert(widened(hist.drop_last()) =~= w.drop_last());
        assert(widened(more.drop_last()) =~= v.drop_last());
    }
}

} // verus!
