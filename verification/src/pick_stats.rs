//! Statistics of the experts that the router picks.

use vstd::prelude::*;
use crate::config::{N_EXPERT, N_EXPERT_USED, N_LAYER};
use crate::counts::sum_of_largest;
use crate::counts;
use crate::routing;
use crate::text::{push_decimal, push_signed, push_text};
use crate::text;

verus! {

/// A layer's counts after the picks of `sel` were added.
pub open spec fn with_picks(row: Seq<u64>, sel: Seq<i32>) -> Seq<u64>
    decreases sel.len(),
{
    if sel.len() == 0 {
        row
    } else {
        let before = with_picks(row, sel.drop_last());
        let e = sel.last();
        if routing::is_expert(e) {
            before.update(e as int, before[e as int].wrapping_add(1))
        } else {
            before
        }
    }
}

/// How often every expert was picked, layer by layer.
pub struct ExpertStats {
    counts: Vec<Vec<u64>>,
    tokens: u64,
}

/// The state of [`ExpertStats`].
#[verifier::ext_equal]
pub struct ExpertCounts {
    pub layers: Seq<Seq<u64>>,
    pub tokens: u64,
}

impl ExpertCounts {
    /// There is a count for every expert of every layer.
    pub open spec fn wf(self) -> bool {
        &&& self.layers.len() == N_LAYER
        &&& forall|l: int| 0 <= l < N_LAYER ==> (#[trigger] self.layers[l]).len() == N_EXPERT
    }
}

impl View for ExpertStats {
    type V = ExpertCounts;

    closed spec fn view(&self) -> ExpertCounts {
        ExpertCounts {
            layers: self.counts@.map_values(|row: Vec<u64>| row@),
            tokens: self.tokens,
        }
    }
}

impl ExpertStats {
    /// Nothing was picked yet.
    pub fn new() -> (r: ExpertStats)
        ensures
            r@.wf(),
            r@.tokens == 0,
            forall|l: int, e: int|
                0 <= l < N_LAYER && 0 <= e < N_EXPERT ==> #[trigger] r@.layers[l][e] == 0,
    {
        let mut counts: Vec<Vec<u64>> = Vec::new();
        let mut l: usize = 0;
        while l < 40
            invariant
                l <= 40,
                counts.len() == l,
                forall|j: int|
                    0 <= j < l ==> (#[trigger] counts@[j]).len() == N_EXPERT && forall|e: int|
                        0 <= e < N_EXPERT ==> #[trigger] counts@[j]@[e] == 0,
            decreases 40 - l,
        {
            counts.push(vec![0u64; 384]);
            l = l + 1;
        }
        ExpertStats { counts, tokens: 0 }
    }

    /// Adds the picks of one layer. Returns whether this ended the token and a
    /// summary is due, which it is every 32 tokens.
    pub fn record(&mut self, layer: usize, sel: &[i32]) -> (due: bool)
        requires
            old(self)@.wf(),
            layer < N_LAYER,
        ensures
            final(self)@.wf(),
            final(self)@.layers == old(self)@.layers.update(
                layer as int,
                with_picks(old(self)@.layers[layer as int], sel@),
            ),
            final(self)@.tokens == (if layer == N_LAYER - 1 {
                old(self)@.tokens.wrapping_add(1)
            } else {
                old(self)@.tokens
            }),
            due == (layer == N_LAYER - 1 && final(self)@.tokens % 32 == 0),
    {
        let ghost before = self@.layers;
        let mut row: Vec<u64> = Vec::new();
        assert(before[layer as int] == self.counts@[layer as int]@);
        let mut i: usize = 0;
        while i < 384
            invariant
                i <= 384,
                layer < self.counts.len(),
                self.counts@[layer as int].len() == 384,
                row@ == self.counts@[layer as int]@.take(i as int),
            decreases 384 - i,
        {
            row.push(self.counts[layer][i]);
            assert(row@ =~= self.counts@[layer as int]@.take(i + 1));
            i = i + 1;
        }
        assert(row@ =~= before[layer as int]);
        let mut k: usize = 0;
        assert(sel@.take(0) =~= Seq::<i32>::empty());
        while k < sel.len()
            invariant
                k <= sel.len(),
                row.len() == N_EXPERT,
                row@ == with_picks(before[layer as int], sel@.take(k as int)),
            decreases sel.len() - k,
        {
            let e: i32 = sel[k];
            assert(sel@.take(k + 1).drop_last() =~= sel@.take(k as int));
            if e >= 0 && (e as u32) < N_EXPERT {
                let n: u64 = row[e as usize];
                row.set(e as usize, n.wrapping_add(1));
            }
            k = k + 1;
        }
        assert(sel@.take(sel.len() as int) =~= sel@);
        let ghost new_row = row@;
        self.counts.set(layer, row);
        assert(self@.layers =~= before.update(layer as int, new_row));
        if layer == 39 {
            self.tokens = self.tokens.wrapping_add(1);
            self.tokens % 32 == 0
        } else {
            false
        }
    }

    /// The counts of one layer.
    pub fn layer(&self, layer: usize) -> (r: &[u64])
        requires
            self@.wf(),
            layer < N_LAYER,
        ensures
            r@ == self@.layers[layer as int],
    {
        self.counts[layer].as_slice()
    }

    /// Tokens so far.
    pub fn tokens(&self) -> (r: u64)
        ensures
            r == self@.tokens,
    {
        self.tokens
    }

    /// Over all layers: the picks of each layer's 16 most picked experts, those of
    /// its 32 most picked, and all picks. `None` where a sum does not fit.
    pub fn hit_sums(&self) -> (r: Option<(u64, u64, u64)>)
        requires
            self@.wf(),
        ensures
            r is None <==> total_picks(self@.layers, N_LAYER as int) > u64::MAX,
            r matches Some(s) ==> {
                &&& s.0 == total_top(self@.layers, 16, N_LAYER as int)
                &&& s.1 == total_top(self@.layers, 32, N_LAYER as int)
                &&& s.2 == total_picks(self@.layers, N_LAYER as int)
            },
    {
        let mut top16: u64 = 0;
        let mut top32: u64 = 0;
        let mut all: u64 = 0;
        let mut l: usize = 0;
        while l < 40
            invariant
                l <= 40,
                self@.wf(),
                self.counts.len() == 40,
                top16 == total_top(self@.layers, 16, l as int),
                top32 == total_top(self@.layers, 32, l as int),
                all == total_picks(self@.layers, l as int),
                top16 <= all,
                top32 <= all,
            decreases 40 - l,
        {
            let ghost row = self@.layers[l as int];
            assert(self.counts@[l as int]@ == row);
            proof {
                lemma_total_grows(self@.layers, l + 1, 40);
                counts::the_largest_share_grows(row, 16);
                counts::the_largest_share_grows(row, 32);
            }
            let sum: Option<u64> = checked_sum(self.counts[l].as_slice());
            match sum {
                None => {
                    return None;
                },
                Some(n) => {
                    match all.checked_add(n) {
                        None => {
                            return None;
                        },
                        Some(m) => {
                            all = m;
                        },
                    }
                },
            }
            top16 = top16 + sum_of_largest(self.counts[l].as_slice(), 16);
            top32 = top32 + sum_of_largest(self.counts[l].as_slice(), 32);
            l = l + 1;
        }
        Some((top16, top32, all))
    }
}

/// The sum of some counts, where it fits.
fn checked_sum(v: &[u64]) -> (r: Option<u64>)
    ensures
        r == (if counts::sum(v@) <= u64::MAX {
            Some(counts::sum(v@) as u64)
        } else {
            None
        }),
{
    let mut n: u64 = 0;
    let mut i: usize = 0;
    while i < v.len()
        invariant
            i <= v.len(),
            n == counts::sum(v@.take(i as int)),
        decreases v.len() - i,
    {
        assert(v@.take(i + 1).drop_last() =~= v@.take(i as int));
        proof {
            counts::lemma_sum_take(v@, i + 1);
        }
        match n.checked_add(v[i]) {
            None => {
                return None;
            },
            Some(m) => {
                n = m;
            },
        }
        i = i + 1;
    }
    assert(v@.take(v.len() as int) =~= v@);
    Some(n)
}

/// All picks of the layers below `n`.
pub open spec fn total_picks(layers: Seq<Seq<u64>>, n: int) -> nat
    decreases n,
{
    if n <= 0 {
        0
    } else {
        total_picks(layers, n - 1) + counts::sum(layers[n - 1])
    }
}

/// The picks of the `k` most picked experts of each of the layers below `n`.
pub open spec fn total_top(layers: Seq<Seq<u64>>, k: nat, n: int) -> nat
    decreases n,
{
    if n <= 0 {
        0
    } else {
        total_top(layers, k, n - 1) + counts::top_sum(layers[n - 1], k)
    }
}

proof fn lemma_total_grows(layers: Seq<Seq<u64>>, m: int, n: int)
    requires
        m <= n,
    ensures
        total_picks(layers, m) <= total_picks(layers, n),
    decreases n - m,
{
    if m < n {
        lemma_total_grows(layers, m, n - 1);
    }
}

/// The text of a ranking: places and their counts.
pub open spec fn ranking_text(order: Seq<usize>, counts: Seq<u64>, n: int) -> Seq<char>
    decreases n,
{
    if n <= 0 {
        Seq::empty()
    } else {
        let before = ranking_text(order, counts, n - 1);
        let place = order[n - 1];
        (if n == 1 {
            before
        } else {
            before.push(',')
        }) + text::decimal(place as nat).push(':') + text::decimal(counts[place as int] as nat)
    }
}

/// Writes the first `limit` places of a ranking and their counts, and a line
/// feed.
pub fn ranking_line(order: &Vec<usize>, counts: &[u64], limit: usize) -> (r: String)
    requires
        forall|i: int| 0 <= i < order.len() ==> #[trigger] order@[i] < counts.len(),
    ensures
        r@ == ranking_text(
            order@,
            counts@,
            if limit < order.len() {
                limit as int
            } else {
                order.len() as int
            },
        ).push('\n'),
{
    let mut out = String::new();
    let n: usize = if limit < order.len() {
        limit
    } else {
        order.len()
    };
    let mut i: usize = 0;
    while i < n
        invariant
            i <= n <= order.len(),
            forall|i: int| 0 <= i < order.len() ==> #[trigger] order@[i] < counts.len(),
            out@ == ranking_text(order@, counts@, i as int),
        decreases n - i,
    {
        let ghost start = out@;
        if i > 0 {
            out.push(',');
        }
        let ghost parted = out@;
        let place: usize = order[i];
        push_decimal(&mut out, place as u64);
        out.push(':');
        push_decimal(&mut out, counts[place]);
        assert(out@ =~= parted + text::decimal(place as nat).push(':') + text::decimal(
            counts@[place as int] as nat,
        ));
        i = i + 1;
    }
    out.push('\n');
    out
}

/// The sequence of picks, token after token.
pub struct PickTrace {
    ids: Vec<u16>,
    tokens: u64,
}

/// A pick as it is kept: within 16 bits.
pub open spec fn kept_id(e: i32) -> u16 {
    if e < 0 {
        0
    } else if e > u16::MAX {
        u16::MAX
    } else {
        e as u16
    }
}

impl View for PickTrace {
    type V = (Seq<u16>, u64);

    closed spec fn view(&self) -> (Seq<u16>, u64) {
        (self.ids@, self.tokens)
    }
}

impl PickTrace {
    /// Nothing was picked yet.
    pub fn new() -> (r: PickTrace)
        ensures
            r@.0 == Seq::<u16>::empty(),
            r@.1 == 0,
    {
        PickTrace { ids: Vec::new(), tokens: 0 }
    }

    /// Adds the picks of one layer. Returns whether this ended the token and the
    /// trace is to be written, which it is every 64 tokens.
    pub fn record(&mut self, layer: usize, sel: &[i32]) -> (due: bool)
        ensures
            final(self)@.0 == old(self)@.0 + sel@.map_values(|e: i32| kept_id(e)),
            final(self)@.1 == (if layer == N_LAYER - 1 {
                old(self)@.1.wrapping_add(1)
            } else {
                old(self)@.1
            }),
            due == (layer == N_LAYER - 1 && final(self)@.1 % 64 == 0),
    {
        let ghost before = self.ids@;
        let mut i: usize = 0;
        while i < sel.len()
            invariant
                i <= sel.len(),
                self.tokens == old(self).tokens,
                self.ids@ == before + sel@.take(i as int).map_values(|e: i32| kept_id(e)),
            decreases sel.len() - i,
        {
            let e: i32 = sel[i];
            let id: u16 = if e < 0 {
                0
            } else if e > 65535 {
                65535
            } else {
                e as u16
            };
            self.ids.push(id);
            assert(self.ids@ =~= before + sel@.take(i + 1).map_values(|e: i32| kept_id(e)));
            i = i + 1;
        }
        assert(sel@.take(sel.len() as int) =~= sel@);
        if layer == 39 {
            self.tokens = self.tokens.wrapping_add(1);
            self.tokens % 64 == 0
        } else {
            false
        }
    }

    /// The trace in little-endian bytes.
    pub fn bytes(&self) -> (r: Vec<u8>)
        ensures
            r.len() == 2 * self@.0.len(),
            forall|i: int|
                0 <= i < self@.0.len() ==> #[trigger] self@.0[i] == r@[2 * i] as int + 256 * r@[2
                    * i + 1],
    {
        let mut out: Vec<u8> = Vec::new();
        let mut i: usize = 0;
        while i < self.ids.len()
            invariant
                i <= self.ids.len(),
                out.len() == 2 * i,
                forall|j: int|
                    0 <= j < i ==> #[trigger] self.ids@[j] == out@[2 * j] as int + 256 * out@[2 * j
                        + 1],
            decreases self.ids.len() - i,
        {
            let id: u16 = self.ids[i];
            out.push((id % 256) as u8);
            out.push((id / 256) as u8);
            i = i + 1;
        }
        out
    }
}

/// Counts how many picks of a layer are experts that the first device holds.
pub fn held_picks(held: &[bool], sel: &[i32]) -> (r: usize)
    requires
        held.len() >= N_EXPERT,
    ensures
        r == held_count(held@, sel@),
        r <= sel.len(),
{
    let mut n: usize = 0;
    let mut i: usize = 0;
    while i < sel.len()
        invariant
            i <= sel.len(),
            held.len() >= N_EXPERT,
            n <= i,
            n == held_count(held@, sel@.take(i as int)),
        decreases sel.len() - i,
    {
        let e: i32 = sel[i];
        assert(sel@.take(i + 1).drop_last() =~= sel@.take(i as int));
        if e >= 0 && (e as u32) < N_EXPERT && held[e as usize] {
            n = n + 1;
        }
        i = i + 1;
    }
    assert(sel@.take(sel.len() as int) =~= sel@);
    n
}

/// How many picks are experts that a device holds.
pub open spec fn held_count(held: Seq<bool>, sel: Seq<i32>) -> nat
    decreases sel.len(),
{
    if sel.len() == 0 {
        0
    } else {
        held_count(held, sel.drop_last()) + if routing::is_expert(sel.last()) && held[sel.last() as int] {
            1nat
        } else {
            0
        }
    }
}

/// Tokens whose picks were counted on the device, by phase.
#[derive(Debug, Clone, Copy, PartialEq, Eq, Structural)]
pub struct SelTokens {
    pub prefill: u64,
    pub decode: u64,
}

impl SelTokens {
    /// No token was counted yet.
    pub fn new() -> (r: SelTokens)
        ensures
            r.prefill == 0,
            r.decode == 0,
    {
        SelTokens { prefill: 0, decode: 0 }
    }

    /// Counts the picks of some tokens at one layer: how many picks the device
    /// adds to the phase's counts, `None` where it adds none. A token is counted
    /// at the first layer.
    pub fn record_sel_stats(&mut self, on: bool, is_prefill: bool, layer: u32, tokens: u32) -> (r: Option<u32>)
        requires
            tokens * N_EXPERT_USED <= u32::MAX,
        ensures
            r == (if on && tokens > 0 {
                Some((tokens * N_EXPERT_USED) as u32)
            } else {
                None
            }),
            *final(self) == (if on && tokens > 0 && layer == 0 {
                if is_prefill {
                    SelTokens {
                        prefill: old(self).prefill.wrapping_add(tokens as u64),
                        ..*old(self)
                    }
                } else {
                    SelTokens { decode: old(self).decode.wrapping_add(tokens as u64), ..*old(self) }
                }
            } else {
                *old(self)
            }),
    {
        if !on || tokens == 0 {
            return None;
        }
        if layer == 0 {
            if is_prefill {
                self.prefill = self.prefill.wrapping_add(tokens as u64);
            } else {
                self.decode = self.decode.wrapping_add(tokens as u64);
            }
        }
        Some(tokens * N_EXPERT_USED as u32)
    }

    /// The tokens counted since the last call, prefill's first.
    pub fn harvest_sel_stats(&mut self) -> (r: (u64, u64))
        ensures
            r == (old(self).prefill, old(self).decode),
            final(self).prefill == 0,
            final(self).decode == 0,
    {
        let r = (self.prefill, self.decode);
        self.prefill = 0;
        self.decode = 0;
        r
    }
}

/// Some numbers, with a space between each and the next.
pub open spec fn spaced(ids: Seq<i32>) -> Seq<char>
    decreases ids.len(),
{
    if ids.len() == 0 {
        Seq::empty()
    } else if ids.len() == 1 {
        text::signed(ids[0] as int)
    } else {
        spaced(ids.drop_last()).push(' ') + text::signed(ids.last() as int)
    }
}

/// The line of a decoded token's picks in a trace.
pub fn pick_line(layer: i32, ids: &[i32]) -> (r: String)
    ensures
        r@ == ("D "@ + text::signed(layer as int)).push(' ') + spaced(ids@),
{
    let mut out = String::new();
    push_text(&mut out, "D ");
    push_signed(&mut out, layer);
    out.push(' ');
    let ghost head = out@;
    assert(head =~= ("D "@ + text::signed(layer as int)).push(' '));
    let mut i: usize = 0;
    assert(ids@.take(0) =~= Seq::<i32>::empty());
    assert(head =~= head + spaced(ids@.take(0)));
    while i < ids.len()
        invariant
            i <= ids.len(),
            out@ == head + spaced(ids@.take(i as int)),
        decreases ids.len() - i,
    {
        if i > 0 {
            out.push(' ');
        }
        push_signed(&mut out, ids[i]);
        assert(ids@.take(i + 1).drop_last() =~= ids@.take(i as int));
        assert(out@ =~= head + spaced(ids@.take(i + 1)));
        i = i + 1;
    }
    assert(ids@.take(ids@.len() as int) =~= ids@);
    out
}

} // verus!
