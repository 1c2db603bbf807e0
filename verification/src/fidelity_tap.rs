//! Taps on the router: a record of its picks and of the residuals, and a pin that
//! replaces its picks with given ones.

use vstd::prelude::*;
use crate::config::{N_EXPERT, N_EXPERT_USED};
use crate::routing;
use vstd::seq_lib;

verus! {

/// One pick of the router.
#[derive(Clone, Copy, Debug)]
pub struct PickRecord {
    /// A row of a batch; else a token at decode.
    pub batched: bool,
    pub layer: u16,
    /// Row within the call, and the call's rows.
    pub row: u32,
    pub rows: u32,
    /// Experts in the router's order.
    pub ids: [i32; 6],
}

/// The picks since the last take.
pub struct PickSink {
    on: bool,
    records: Vec<PickRecord>,
}

/// The state of a [`PickSink`].
#[verifier::ext_equal]
pub struct PickSinkState {
    pub on: bool,
    pub records: Seq<PickRecord>,
}

impl View for PickSink {
    type V = PickSinkState;

    closed spec fn view(&self) -> PickSinkState {
        PickSinkState { on: self.on, records: self.records@ }
    }
}

impl PickSink {
    /// A sink that is off and empty.
    pub fn new() -> (r: PickSink)
        ensures
            r@ == (PickSinkState { on: false, records: Seq::empty() }),
    {
        PickSink { on: false, records: Vec::new() }
    }
}

/// Turns the sink on or off. What it holds stays.
pub fn pick_sink_enable(s: &mut PickSink, on: bool)
    ensures
        final(s)@ == (PickSinkState { on, ..old(s)@ }),
{
    s.on = on;
}

/// Is the sink on?
pub fn pick_sink_on(s: &PickSink) -> (r: bool)
    ensures
        r == s@.on,
{
    s.on
}

/// A record holds the first six of `ids`, and -1 where there are fewer.
pub open spec fn kept_ids(ids: Seq<i32>) -> Seq<i32> {
    Seq::new(
        N_EXPERT_USED as nat,
        |i: int| if i < ids.len() {
            ids[i]
        } else {
            -1i32
        },
    )
}

/// Records a pick.
pub fn pick_sink_push(s: &mut PickSink, batched: bool, layer: usize, row: u32, rows: u32, ids: &[i32])
    ensures
        final(s)@.on == old(s)@.on,
        final(s)@.records.len() == old(s)@.records.len() + 1,
        final(s)@.records.drop_last() == old(s)@.records,
        ({
            let rec = final(s)@.records.last();
            &&& rec.batched == batched
            &&& rec.layer == layer as u16
            &&& rec.row == row
            &&& rec.rows == rows
            &&& rec.ids@ == kept_ids(ids@)
        }),
{
    let mut kept: [i32; 6] = [-1; 6];
    let n: usize = if ids.len() < 6 {
        ids.len()
    } else {
        6
    };
    let mut i: usize = 0;
    while i < n
        invariant
            i <= n <= 6,
            n <= ids.len(),
            forall|j: int| 0 <= j < i ==> #[trigger] kept@[j] == ids@[j],
            forall|j: int| i <= j < 6 ==> #[trigger] kept@[j] == -1,
        decreases n - i,
    {
        kept[i] = ids[i];
        i = i + 1;
    }
    assert(kept@ =~= kept_ids(ids@));
    s.records.push(PickRecord { batched, layer: layer as u16, row, rows, ids: kept });
    assert(s@.records.drop_last() =~= old(s)@.records);
}

/// Everything recorded since the last take, in order.
pub fn pick_sink_take(s: &mut PickSink) -> (r: Vec<PickRecord>)
    ensures
        r@ == old(s)@.records,
        final(s)@ == (PickSinkState { records: Seq::empty(), ..old(s)@ }),
{
    let mut out: Vec<PickRecord> = Vec::new();
    std::mem::swap(&mut out, &mut s.records);
    out
}

/// A layer's residual: the layer, and the bits of its values.
pub struct Residual {
    pub layer: u16,
    pub bits: Vec<u32>,
}

/// The residuals since the last take.
pub struct ResidualSink {
    on: bool,
    records: Vec<Residual>,
}

/// The state of a [`ResidualSink`].
#[verifier::ext_equal]
pub struct ResidualSinkState {
    pub on: bool,
    pub records: Seq<Residual>,
}

impl View for ResidualSink {
    type V = ResidualSinkState;

    closed spec fn view(&self) -> ResidualSinkState {
        ResidualSinkState { on: self.on, records: self.records@ }
    }
}

impl ResidualSink {
    /// A sink that is off and empty.
    pub fn new() -> (r: ResidualSink)
        ensures
            r@ == (ResidualSinkState { on: false, records: Seq::empty() }),
    {
        ResidualSink { on: false, records: Vec::new() }
    }
}

/// Turns the sink on or off. What it holds stays.
pub fn residual_sink_enable(s: &mut ResidualSink, on: bool)
    ensures
        final(s)@ == (ResidualSinkState { on, ..old(s)@ }),
{
    s.on = on;
}

/// Is the sink on?
pub fn residual_sink_on(s: &ResidualSink) -> (r: bool)
    ensures
        r == s@.on,
{
    s.on
}

/// Records the residual behind a layer.
pub fn residual_sink_push(s: &mut ResidualSink, layer: usize, bits: Vec<u32>)
    ensures
        final(s)@ == (ResidualSinkState {
            records: old(s)@.records.push(Residual { layer: layer as u16, bits }),
            ..old(s)@
        }),
{
    s.records.push(Residual { layer: layer as u16, bits });
}

/// Everything recorded since the last take, in order.
pub fn residual_sink_take(s: &mut ResidualSink) -> (r: Vec<Residual>)
    ensures
        r@ == old(s)@.records,
        final(s)@ == (ResidualSinkState { records: Seq::empty(), ..old(s)@ }),
{
    let mut out: Vec<Residual> = Vec::new();
    std::mem::swap(&mut out, &mut s.records);
    out
}

/// Why a pin table was refused.
#[derive(Debug, Clone, Copy, PartialEq, Eq, Structural)]
pub enum PinError {
    /// The picks are not one for each layer, position and rank.
    Length,
    /// A pick names no expert.
    ExpertId,
}

/// Picks for every layer and position of one sequence.
pub struct PinTable {
    n_layer: usize,
    n_pos: usize,
    ids: Vec<i32>,
}

/// The state of a [`PinTable`].
#[verifier::ext_equal]
pub struct PinPicks {
    pub n_layer: nat,
    pub n_pos: nat,
    pub ids: Seq<i32>,
}

impl PinPicks {
    /// There is a pick for each layer, position and rank, and each names an expert.
    pub open spec fn wf(self) -> bool {
        &&& self.ids.len() == self.n_layer * self.n_pos * N_EXPERT_USED
        &&& forall|i: int| 0 <= i < self.ids.len() ==> routing::is_expert(#[trigger] self.ids[i])
    }

    /// The picks of one layer at one position; `None` beyond the table.
    pub open spec fn at(self, layer: int, pos: int) -> Option<Seq<i32>> {
        if layer < self.n_layer && pos < self.n_pos {
            let o = (layer * self.n_pos + pos) * N_EXPERT_USED;
            Some(self.ids.subrange(o, o + N_EXPERT_USED))
        } else {
            None
        }
    }
}

impl View for PinTable {
    type V = PinPicks;

    closed spec fn view(&self) -> PinPicks {
        PinPicks { n_layer: self.n_layer as nat, n_pos: self.n_pos as nat, ids: self.ids@ }
    }
}

impl PinTable {
    /// A table of picks, by layer, position and rank.
    pub fn new(n_layer: usize, n_pos: usize, ids: Vec<i32>) -> (r: Result<PinTable, PinError>)
        ensures
            match r {
                Ok(t) => t@.wf() && t@ == (PinPicks {
                    n_layer: n_layer as nat,
                    n_pos: n_pos as nat,
                    ids: ids@,
                }),
                Err(PinError::Length) => ids.len() != n_layer * n_pos * N_EXPERT_USED,
                Err(PinError::ExpertId) => ids.len() == n_layer * n_pos * N_EXPERT_USED && exists|
                    i: int,
                |
                    0 <= i < ids.len() && !routing::is_expert(#[trigger] ids@[i]),
            },
    {
        let want: Option<usize> = match n_layer.checked_mul(n_pos) {
            Some(n) => n.checked_mul(6),
            None => None,
        };
        proof {
            if n_layer * n_pos > usize::MAX {
                assert(n_layer * n_pos * 6 > usize::MAX) by (nonlinear_arith)
                    requires
                        n_layer * n_pos > usize::MAX,
                ;
            }
        }
        match want {
            None => {
                return Err(PinError::Length);
            },
            Some(n) => {
                if ids.len() != n {
                    return Err(PinError::Length);
                }
            },
        }
        let mut i: usize = 0;
        while i < ids.len()
            invariant
                i <= ids.len(),
                ids.len() == n_layer * n_pos * N_EXPERT_USED,
                forall|j: int| 0 <= j < i ==> routing::is_expert(#[trigger] ids@[j]),
            decreases ids.len() - i,
        {
            let e: i32 = ids[i];
            if e < 0 || e as u32 >= N_EXPERT {
                assert(!routing::is_expert(ids@[i as int]));
                return Err(PinError::ExpertId);
            }
            i = i + 1;
        }
        Ok(PinTable { n_layer, n_pos, ids })
    }

    /// The picks of one layer at one position.
    pub fn get(&self, layer: usize, pos: u32) -> (r: Option<&[i32]>)
        requires
            self@.wf(),
        ensures
            match r {
                Some(s) => self@.at(layer as int, pos as int) == Some(s@) && s.len()
                    == N_EXPERT_USED,
                None => self@.at(layer as int, pos as int) is None,
            },
    {
        if layer >= self.n_layer || pos as u64 >= self.n_pos as u64 {
            return None;
        }
        let pos: usize = pos as usize;
        proof {
            let n = self.n_pos as int;
            assert(layer * n + pos + 1 <= self.n_layer * n) by (nonlinear_arith)
                requires
                    layer < self.n_layer,
                    pos < n,
            ;
            assert(0 <= layer * n) by (nonlinear_arith)
                requires
                    0 <= layer,
                    0 <= n,
            ;
            let all = self.n_layer * n;
            assert(self.ids.len() == all * 6);
            assert(layer * self.n_pos + pos + 1 <= all);
        }
        let o: usize = (layer * self.n_pos + pos) * 6;
        Some(vstd::slice::slice_subrange(self.ids.as_slice(), o, o + 6))
    }
}

/// The pin: a table of picks, where one is installed, and how many rows it has
/// changed.
pub struct Pin {
    table: Option<PinTable>,
    overrides: u64,
}

/// The state of a [`Pin`].
#[verifier::ext_equal]
pub struct PinState {
    pub table: Option<PinPicks>,
    pub overrides: u64,
}

impl PinState {
    pub open spec fn wf(self) -> bool {
        self.table matches Some(t) ==> t.wf()
    }
}

impl View for Pin {
    type V = PinState;

    closed spec fn view(&self) -> PinState {
        PinState {
            table: match self.table {
                Some(t) => Some(t@),
                None => None,
            },
            overrides: self.overrides,
        }
    }
}

impl Pin {
    /// No table is installed.
    pub fn new() -> (r: Pin)
        ensures
            r@ == (PinState { table: None, overrides: 0 }),
            r@.wf(),
    {
        Pin { table: None, overrides: 0 }
    }
}

/// Installs a table, or removes it, and starts counting anew.
pub fn pin_set(p: &mut Pin, table: Option<PinTable>)
    ensures
        final(p)@ == (PinState {
            table: match table {
                Some(t) => Some(t@),
                None => None,
            },
            overrides: 0,
        }),
{
    p.table = table;
    p.overrides = 0;
}

/// Is a table installed?
pub fn pin_on(p: &Pin) -> (r: bool)
    ensures
        r == (p@.table is Some),
{
    p.table.is_some()
}

/// Rows that the pin has changed since the last call.
pub fn pin_overrides_take(p: &mut Pin) -> (r: u64)
    ensures
        r == old(p)@.overrides,
        final(p)@ == (PinState { overrides: 0, ..old(p)@ }),
{
    let n = p.overrides;
    p.overrides = 0;
    n
}

/// The picks of one row.
pub open spec fn row_of(sel: Seq<i32>, r: int) -> Seq<i32> {
    sel.subrange(r * N_EXPERT_USED, (r + 1) * N_EXPERT_USED)
}

/// The picks that the table has for a row, where they differ from the row's. Their
/// order does not matter.
pub open spec fn replacement(t: PinPicks, layer: int, pos: int, row: Seq<i32>) -> Option<Seq<i32>> {
    match t.at(layer, pos) {
        Some(want) => if want.to_multiset() == row.to_multiset() {
            None
        } else {
            Some(want)
        },
        None => None,
    }
}

/// Have two rows the same picks, in any order?
fn same_picks(got: &[i32], want: &[i32]) -> (r: bool)
    requires
        got.len() == want.len(),
    ensures
        r == (want@.to_multiset() == got@.to_multiset()),
{
    let mut rest: Vec<i32> = Vec::new();
    let mut k: usize = 0;
    while k < want.len()
        invariant
            k <= want.len(),
            rest@ == want@.take(k as int),
        decreases want.len() - k,
    {
        rest.push(want[k]);
        assert(rest@ =~= want@.take(k + 1));
        k = k + 1;
    }
    assert(want@.take(want.len() as int) =~= want@);
    let mut i: usize = 0;
    proof {
        assert(got@.take(0) =~= Seq::<i32>::empty());
        assert(rest@.to_multiset().add(got@.take(0).to_multiset()) =~= want@.to_multiset()) by {
            broadcast use vstd::multiset::group_multiset_axioms;
            broadcast use seq_lib::group_to_multiset_ensures;

            got@.take(0).to_multiset_ensures();
        }
    }
    while i < got.len()
        invariant
            i <= got.len(),
            got.len() == want.len(),
            rest.len() + i == want.len(),
            rest@.to_multiset().add(got@.take(i as int).to_multiset()) == want@.to_multiset(),
        decreases got.len() - i,
    {
        let x: i32 = got[i];
        let mut j: usize = 0;
        while j < rest.len() && rest[j] != x
            invariant
                j <= rest.len(),
                forall|m: int| 0 <= m < j ==> #[trigger] rest@[m] != x,
            decreases rest.len() - j,
        {
            j = j + 1;
        }
        if j == rest.len() {
            proof {
                lemma_missing(rest@, got@, want@, i as int);
            }
            return false;
        }
        let ghost before = rest@;
        rest.remove(j);
        proof {
            broadcast use vstd::multiset::group_multiset_axioms;

            seq_lib::to_multiset_remove(before, j as int);
            seq_lib::to_multiset_build(got@.take(i as int), x);
            assert(got@.take(i + 1) =~= got@.take(i as int).push(x));
            assert(before.to_multiset().count(x) > 0) by {
                assert(before.contains(before[j as int]));
                seq_lib::to_multiset_contains(before, x);
            }
            assert(rest@.to_multiset().add(got@.take(i + 1).to_multiset()) =~= want@.to_multiset());
        }
        i = i + 1;
    }
    proof {
        broadcast use vstd::multiset::group_multiset_axioms;

        assert(got@.take(got.len() as int) =~= got@);
        assert(rest@ =~= Seq::<i32>::empty());
        rest@.to_multiset_ensures();
        assert(want@.to_multiset() =~= got@.to_multiset());
    }
    true
}

/// A pick that is left over has no partner.
proof fn lemma_missing(rest: Seq<i32>, got: Seq<i32>, want: Seq<i32>, i: int)
    requires
        0 <= i < got.len(),
        rest.to_multiset().add(got.take(i).to_multiset()) == want.to_multiset(),
        !rest.contains(got[i]),
    ensures
        want.to_multiset() != got.to_multiset(),
{
    broadcast use vstd::multiset::group_multiset_axioms;

    let x = got[i];
    seq_lib::to_multiset_contains(rest, x);
    seq_lib::to_multiset_build(got.take(i), x);
    assert(got.take(i + 1) =~= got.take(i).push(x));
    lemma_take_counts(got, i + 1, x);
    assert(rest.to_multiset().count(x) == 0);
    assert(want.to_multiset().count(x) == got.take(i).to_multiset().count(x));
}

proof fn lemma_take_counts(s: Seq<i32>, n: int, x: i32)
    requires
        0 <= n <= s.len(),
    ensures
        s.take(n).to_multiset().count(x) <= s.to_multiset().count(x),
    decreases s.len() - n,
{
    broadcast use vstd::multiset::group_multiset_axioms;

    if n == s.len() {
        assert(s.take(n) =~= s);
    } else {
        lemma_take_counts(s, n + 1, x);
        assert(s.take(n + 1) =~= s.take(n).push(s[n]));
        seq_lib::to_multiset_build(s.take(n), s[n]);
    }
}

/// The picks of a row after the pin.
pub open spec fn pinned_row(table: Option<PinPicks>, layer: int, pos: int, row: Seq<i32>) -> Seq<i32> {
    match table {
        Some(t) => match replacement(t, layer, pos, row) {
            Some(want) => want,
            None => row,
        },
        None => row,
    }
}

/// The pin changes a row.
pub open spec fn overridden(table: Option<PinPicks>, layer: int, pos: int, row: Seq<i32>) -> bool {
    table matches Some(t) && replacement(t, layer, pos, row) is Some
}

/// The rows below `n` that the pin changes.
pub open spec fn overridden_rows(
    table: Option<PinPicks>,
    layer: int,
    pos: Seq<u32>,
    sel: Seq<i32>,
    n: int,
) -> Seq<usize>
    decreases n,
{
    if n <= 0 {
        Seq::empty()
    } else {
        let below = overridden_rows(table, layer, pos, sel, n - 1);
        if overridden(table, layer, pos[n - 1] as int, row_of(sel, n - 1)) {
            below.push((n - 1) as usize)
        } else {
            below
        }
    }
}

/// Applies the pin to the rows of `sel`, of which row `r` is at position
/// `pos[r]`. A row whose picks differ from the table's, in whatever order, gets
/// the table's; all others stay. Returns the rows that were changed, in order,
/// whose weights the caller computes anew.
pub fn pin_apply(p: &mut Pin, layer: usize, pos: &[u32], sel: &mut Vec<i32>) -> (changed: Vec<usize>)
    requires
        old(p)@.wf(),
        pos.len() >= old(sel).len() / 6,
    ensures
        final(p)@.table == old(p)@.table,
        final(p)@.overrides == old(p)@.overrides.wrapping_add(changed.len() as u64),
        changed@ == overridden_rows(
            old(p)@.table,
            layer as int,
            pos@,
            old(sel)@,
            old(sel).len() as int / 6,
        ),
        final(sel).len() == old(sel).len(),
        forall|r: int|
            0 <= r < old(sel).len() as int / 6 ==> #[trigger] row_of(final(sel)@, r) == pinned_row(
                old(p)@.table,
                layer as int,
                pos@[r] as int,
                row_of(old(sel)@, r),
            ),
        forall|i: int|
            old(sel).len() as int / 6 * 6 <= i < old(sel).len() ==> #[trigger] final(sel)@[i] == old(
                sel,
            )@[i],
{
    let ghost sel0 = sel@;
    let ghost table = p@.table;
    let mut changed: Vec<usize> = Vec::new();
    let rows: usize = sel.len() / 6;
    match &p.table {
        None => {
            proof {
                lemma_unpinned(layer as int, pos@, sel0, rows as int);
            }
        },
        Some(t) => {
            let mut r: usize = 0;
            while r < rows
                invariant
                    r <= rows,
                    rows == sel0.len() / 6,
                    sel.len() == sel0.len(),
                    pos.len() >= rows,
                    table == Some(t@),
                    t@.wf(),
                    changed.len() <= r,
                    changed@ == overridden_rows(table, layer as int, pos@, sel0, r as int),
                    forall|q: int|
                        0 <= q < r ==> #[trigger] row_of(sel@, q) == pinned_row(
                            table,
                            layer as int,
                            pos@[q] as int,
                            row_of(sel0, q),
                        ),
                    forall|i: int| r * 6 <= i < sel0.len() ==> #[trigger] sel@[i] == sel0[i],
                decreases rows - r,
            {
                let ghost before = sel@;
                let o: usize = r * 6;
                assert(row_of(sel@, r as int) =~= row_of(sel0, r as int));
                if let Some(want) = t.get(layer, pos[r]) {
                    let got = vstd::slice::slice_subrange(sel.as_slice(), o, o + 6);
                    assert(got@ =~= row_of(sel0, r as int));
                    if !same_picks(got, want) {
                        let mut k: usize = 0;
                        while k < 6
                            invariant
                                k <= 6,
                                o == r * 6,
                                o + 6 <= sel.len(),
                                want.len() == 6,
                                sel.len() == before.len(),
                                forall|i: int|
                                    0 <= i < before.len() && !(o <= i < o + k) ==> #[trigger] sel@[i]
                                        == before[i],
                                forall|j: int| 0 <= j < k ==> sel@[o + j] == #[trigger] want@[j],
                            decreases 6 - k,
                        {
                            sel.set(o + k, want[k]);
                            k = k + 1;
                        }
                        assert(row_of(sel@, r as int) =~= want@);
                        changed.push(r);
                    }
                }
                assert forall|q: int| 0 <= q < r implies #[trigger] row_of(sel@, q) == pinned_row(
                    table,
                    layer as int,
                    pos@[q] as int,
                    row_of(sel0, q),
                ) by {
                    assert(row_of(sel@, q) =~= row_of(before, q));
                }
                r = r + 1;
            }
        },
    }
    p.overrides = p.overrides.wrapping_add(changed.len() as u64);
    changed
}

proof fn lemma_unpinned(layer: int, pos: Seq<u32>, sel: Seq<i32>, n: int)
    ensures
        overridden_rows(None, layer, pos, sel, n) == Seq::<usize>::empty(),
    decreases n,
{
    if n > 0 {
        lemma_unpinned(layer, pos, sel, n - 1);
    }
}

/// Applying the pin again changes nothing.
pub proof fn a_pinned_row_stays(table: Option<PinPicks>, layer: int, pos: int, row: Seq<i32>)
    ensures
        pinned_row(table, layer, pos, pinned_row(table, layer, pos, row)) == pinned_row(
            table,
            layer,
            pos,
            row,
        ),
        !overridden(table, layer, pos, pinned_row(table, layer, pos, row)),
{
}

/// A pinned row's picks are the table's, whatever they were.
pub proof fn a_pinned_row_has_the_tables_picks(t: PinPicks, layer: int, pos: int, row: Seq<i32>)
    requires
        t.at(layer, pos) is Some,
    ensures
        pinned_row(Some(t), layer, pos, row).to_multiset() == t.at(layer, pos)->0.to_multiset(),
{
}

} // verus!
