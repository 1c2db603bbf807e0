//! Replacing picks that would make the second device read from disk.
//!
//! Every row of a batch lists its picks in rank order, and alternatives. A
//! missing expert is replaced only if every row that picked it can do without;
//! otherwise it is read anyway and replacing it elsewhere would gain nothing.
//! The planner works on expert ids. Whether a swap moves too much of a row's
//! weight is asked of the caller, who keeps the weights.

use vstd::prelude::*;

verus! {

/// What came of a batch.
#[derive(Debug, Clone, Copy, PartialEq, Eq, Structural)]
pub struct SubOutcome {
    /// Distinct experts predicted to miss.
    pub predicted: u32,
    /// Of these, replaced in every row that picked them.
    pub avoided: u32,
    /// Picks rewritten.
    pub slots: u32,
    /// Predicted misses left alone.
    pub blocked: u32,
    /// Picks that the plan promised to rewrite and did not.
    pub failed: u32,
}

impl SubOutcome {
    /// Nothing was missing.
    pub fn none() -> (r: Self)
        ensures
            r == (SubOutcome { predicted: 0, avoided: 0, slots: 0, blocked: 0, failed: 0 }),
    {
        SubOutcome { predicted: 0, avoided: 0, slots: 0, blocked: 0, failed: 0 }
    }
}

/// Which picks may be replaced.
#[derive(Debug, Clone, Copy, PartialEq, Eq, Structural)]
pub struct SubRules {
    /// The heaviest rank that may be replaced, counted from 1.
    pub min_rank: usize,
    /// Alternatives per row that are looked at, at most.
    pub max_alt: usize,
}

/// One planning problem: the alternatives of every row, the missing experts, and
/// what the caller answers.
pub struct SubCase {
    pub alts: Seq<i32>,
    pub nu: int,
    /// Alternatives that a row of `alts` holds.
    pub na: int,
    /// Alternatives of a row that are looked at.
    pub tries: int,
    pub min_rank: int,
    pub missing: Seq<i32>,
    /// An alternative is served without a read.
    pub ok: spec_fn(i32) -> bool,
    /// In row `r`, after the choices made so far, replacing pick `k` by
    /// alternative `j` moves an acceptable weight.
    pub fits: spec_fn(int, Seq<Option<usize>>, int, int) -> bool,
}

/// A row while it is being planned.
#[verifier::ext_equal]
pub struct RowPlan {
    pub row: Seq<i32>,
    /// For each pick so far, the alternative that replaced it.
    pub chosen: Seq<Option<usize>>,
    /// Missing experts that this or an earlier row could not replace.
    pub failed: Seq<bool>,
}

/// Index of `e`, at or after `i`, or the length.
pub open spec fn index_in(s: Seq<i32>, e: i32, i: int) -> int
    decreases s.len() - i,
{
    if i >= s.len() || s[i] == e { i } else { index_in(s, e, i + 1) }
}

/// Number of true entries.
pub open spec fn count_true(s: Seq<bool>) -> nat
    decreases s.len(),
{
    if s.len() == 0 {
        0
    } else {
        count_true(s.drop_last()) + (if s.last() { 1nat } else { 0nat })
    }
}

/// Number of choices made.
pub open spec fn count_some(s: Seq<Option<usize>>) -> nat
    decreases s.len(),
{
    if s.len() == 0 {
        0
    } else {
        count_some(s.drop_last()) + (if s.last() is Some { 1nat } else { 0nat })
    }
}

/// The distinct picks that miss, in the order of the picks.
pub open spec fn missing_of(sel: Seq<i32>, miss: spec_fn(i32) -> bool) -> Seq<i32>
    decreases sel.len(),
{
    if sel.len() == 0 {
        Seq::empty()
    } else {
        let m = missing_of(sel.drop_last(), miss);
        let e = sel.last();
        if e >= 0 && !m.contains(e) && miss(e) { m.push(e) } else { m }
    }
}

impl SubCase {
    /// Alternative `j` may replace pick `k` of the row as it stands.
    pub open spec fn usable(self, r: int, p: RowPlan, k: int, j: int) -> bool {
        let a = self.alts[r * self.na + j];
        &&& a >= 0
        &&& !p.chosen.contains(Some(j as usize))
        &&& !p.row.contains(a)
        &&& (self.ok)(a)
        &&& (self.fits)(r, p.chosen, k, j)
    }

    /// The best-ranked usable alternative, at or after `j`.
    pub open spec fn best(self, r: int, p: RowPlan, k: int, j: int) -> Option<int>
        decreases self.tries - j,
    {
        if j >= self.tries {
            None
        } else if self.usable(r, p, k, j) {
            Some(j)
        } else {
            self.best(r, p, k, j + 1)
        }
    }

    /// The row after its next pick has been looked at.
    pub open spec fn next(self, r: int, p: RowPlan, blocked: Seq<bool>) -> RowPlan {
        let k = p.chosen.len() as int;
        let mi = index_in(self.missing, p.row[k], 0);
        if mi >= self.missing.len() || blocked[mi] {
            RowPlan { chosen: p.chosen.push(None), ..p }
        } else if k + 1 < self.min_rank {
            RowPlan { chosen: p.chosen.push(None), failed: p.failed.update(mi, true), ..p }
        } else {
            match self.best(r, p, k, 0) {
                Some(j) => RowPlan {
                    row: p.row.update(k, self.alts[r * self.na + j]),
                    chosen: p.chosen.push(Some(j as usize)),
                    ..p
                },
                None => RowPlan { chosen: p.chosen.push(None), failed: p.failed.update(mi, true), ..p },
            }
        }
    }

    /// The row after its first `n` picks have been looked at.
    pub open spec fn after(self, r: int, p: RowPlan, blocked: Seq<bool>, n: int) -> RowPlan
        decreases n,
    {
        if n <= 0 {
            p
        } else {
            self.next(r, self.after(r, p, blocked, n - 1), blocked)
        }
    }

    /// Row `r` of `sel` before planning.
    pub open spec fn start(self, sel: Seq<i32>, r: int, failed: Seq<bool>) -> RowPlan {
        RowPlan {
            row: sel.subrange(r * self.nu, r * self.nu + self.nu),
            chosen: Seq::empty(),
            failed,
        }
    }

    /// Row `r` after planning.
    pub open spec fn planned(self, sel: Seq<i32>, r: int, blocked: Seq<bool>, failed: Seq<bool>) -> RowPlan {
        self.after(r, self.start(sel, r, failed), blocked, self.nu)
    }

    /// The missing experts that one of the first `n` rows cannot replace.
    pub open spec fn failed_by(self, sel: Seq<i32>, blocked: Seq<bool>, n: int) -> Seq<bool>
        decreases n,
    {
        if n <= 0 {
            Seq::new(self.missing.len(), |i: int| false)
        } else {
            self.planned(sel, n - 1, blocked, self.failed_by(sel, blocked, n - 1)).failed
        }
    }

    /// The choices of the first `n` rows.
    pub open spec fn choices(self, sel: Seq<i32>, blocked: Seq<bool>, n: int) -> Seq<Option<usize>>
        decreases n,
    {
        if n <= 0 {
            Seq::empty()
        } else {
            self.choices(sel, blocked, n - 1) + self.planned(
                sel,
                n - 1,
                blocked,
                self.failed_by(sel, blocked, n - 1),
            ).chosen
        }
    }

    /// The first `n` rows after planning.
    pub open spec fn rewritten(self, sel: Seq<i32>, blocked: Seq<bool>, n: int) -> Seq<i32>
        decreases n,
    {
        if n <= 0 {
            Seq::empty()
        } else {
            self.rewritten(sel, blocked, n - 1) + self.planned(
                sel,
                n - 1,
                blocked,
                self.failed_by(sel, blocked, n - 1),
            ).row
        }
    }

    /// Some row picks the missing expert `i` at a rank that is too heavy, or has
    /// no alternative for it at all.
    pub open spec fn hopeless(self, sel: Seq<i32>, i: int, n: int) -> bool {
        exists|r: int, k: int| #![trigger sel[r * self.nu + k]]
            0 <= r < n && 0 <= k < self.nu && self.missing[i] == sel[r * self.nu + k] && (k + 1 < self.min_rank
                || !self.some_alternative(sel, r))
    }

    /// Row `r` has an alternative that it has not picked and that needs no read.
    pub open spec fn some_alternative(self, sel: Seq<i32>, r: int) -> bool {
        exists|j: int| #![trigger self.alts[r * self.na + j]]
            0 <= j < self.tries && self.alts[r * self.na + j] >= 0 && !sel.subrange(
                r * self.nu,
                r * self.nu + self.nu,
            ).contains(self.alts[r * self.na + j]) && (self.ok)(self.alts[r * self.na + j])
    }

    /// The experts that cannot be replaced: those of `blocked`, and whatever some
    /// row cannot replace once these are left alone, and so on.
    pub open spec fn settled(self, sel: Seq<i32>, blocked: Seq<bool>, b: int) -> Seq<bool>
        decreases blocked.len() - count_true(blocked),
    {
        let grown = either(blocked, self.failed_by(sel, blocked, b));
        if blocked.len() == self.missing.len() && count_true(grown) > count_true(blocked) && count_true(grown)
            <= blocked.len() {
            self.settled(sel, grown, b)
        } else {
            blocked
        }
    }
}

/// Entry by entry, either of the two.
pub open spec fn either(a: Seq<bool>, b: Seq<bool>) -> Seq<bool> {
    Seq::new(a.len(), |i: int| a[i] || b[i])
}

pub proof fn lemma_count_true(s: Seq<bool>)
    ensures
        count_true(s) <= s.len(),
    decreases s.len(),
{
    if s.len() > 0 {
        lemma_count_true(s.drop_last());
    }
}

pub proof fn lemma_count_true_more(s: Seq<bool>, t: Seq<bool>)
    requires
        s.len() == t.len(),
        forall|i: int| 0 <= i < s.len() && #[trigger] s[i] ==> t[i],
    ensures
        count_true(s) <= count_true(t),
        (exists|i: int| 0 <= i < s.len() && #[trigger] t[i] && !s[i]) <==> count_true(s) < count_true(t),
        count_true(s) == count_true(t) ==> s == t,
    decreases s.len(),
{
    if s.len() > 0 {
        let a = s.drop_last();
        let b = t.drop_last();
        assert forall|i: int| 0 <= i < a.len() && #[trigger] a[i] implies b[i] by {
            assert(s[i]);
        }
        lemma_count_true_more(a, b);
        if exists|i: int| 0 <= i < s.len() && #[trigger] t[i] && !s[i] {
            let i = choose|i: int| 0 <= i < s.len() && #[trigger] t[i] && !s[i];
            if i < a.len() {
                assert(b[i] && !a[i]);
            }
        }
        if exists|i: int| 0 <= i < a.len() && #[trigger] b[i] && !a[i] {
            let i = choose|i: int| 0 <= i < a.len() && #[trigger] b[i] && !a[i];
            assert(t[i] && !s[i]);
        }
        if count_true(s) == count_true(t) {
            assert(!(t[s.len() - 1] && !s[s.len() - 1]));
            assert(a == b);
            assert(s =~= a.push(s.last()));
            assert(t =~= b.push(t.last()));
        }
    } else {
        assert(s =~= t);
    }
}

pub proof fn lemma_index_in(s: Seq<i32>, e: i32, i: int)
    requires
        0 <= i <= s.len(),
    ensures
        i <= index_in(s, e, i) <= s.len(),
        index_in(s, e, i) < s.len() ==> s[index_in(s, e, i)] == e,
        forall|j: int| i <= j < index_in(s, e, i) ==> #[trigger] s[j] != e,
    decreases s.len() - i,
{
    if i < s.len() && s[i] != e {
        lemma_index_in(s, e, i + 1);
    }
}

pub proof fn lemma_missing(sel: Seq<i32>, miss: spec_fn(i32) -> bool)
    ensures
        missing_of(sel, miss).len() <= sel.len(),
        forall|e: i32| #[trigger]
            missing_of(sel, miss).contains(e) <==> e >= 0 && sel.contains(e) && miss(e),
        forall|i: int, j: int|
            0 <= i < j < missing_of(sel, miss).len() ==> missing_of(sel, miss)[i] != missing_of(sel, miss)[j],
    decreases sel.len(),
{
    if sel.len() > 0 {
        let d = sel.drop_last();
        let x = sel.last();
        lemma_missing(d, miss);
        let m = missing_of(d, miss);
        let k = missing_of(sel, miss);
        assert(sel =~= d.push(x));
        assert forall|e: i32| #[trigger] k.contains(e) <==> e >= 0 && sel.contains(e) && miss(e) by {
            if m.contains(e) {
                let j = choose|j: int| 0 <= j < m.len() && m[j] == e;
                assert(k[j] == e);
                let i = choose|i: int| 0 <= i < d.len() && d[i] == e;
                assert(sel[i] == e);
            }
            if k.contains(e) && !m.contains(e) {
                let j = choose|j: int| 0 <= j < k.len() && k[j] == e;
                assert(sel[sel.len() - 1] == x);
            }
            if e >= 0 && sel.contains(e) && miss(e) && !d.contains(e) {
                let i = choose|i: int| 0 <= i < sel.len() && sel[i] == e;
                if i < d.len() {
                    assert(d[i] == e);
                }
                assert(!m.contains(e));
                assert(k[m.len() as int] == e);
            }
        }
        assert forall|i: int, j: int| 0 <= i < j < k.len() implies k[i] != k[j] by {
            if j == m.len() {
                assert(m.contains(m[i]));
            }
        }
    }
}


/// Whatever the caller's predicate answers is what `f` says.
pub open spec fn says<P: Fn(i32) -> bool>(p: P, f: spec_fn(i32) -> bool) -> bool {
    forall|e: i32, r: bool| #[trigger] call_ensures(p, (e,), r) ==> r == f(e)
}

/// Whatever the caller's weight check answers is what `f` says.
pub open spec fn weighs<F: Fn(usize, &Vec<Option<usize>>, usize, usize) -> bool>(
    p: F,
    f: spec_fn(int, Seq<Option<usize>>, int, int) -> bool,
) -> bool {
    forall|r: usize, h: &Vec<Option<usize>>, k: usize, j: usize, a: bool| #[trigger]
        call_ensures(p, (r, h, k, j), a) ==> a == f(r as int, h@, k as int, j as int)
}

/// The planning problem that a call of `substitute` poses, by the answers of the
/// caller's three predicates.
pub open spec fn case_of(
    sel: Seq<i32>,
    alts: Seq<i32>,
    nu: usize,
    na: usize,
    rules: SubRules,
    miss: spec_fn(i32) -> bool,
    ok: spec_fn(i32) -> bool,
    fits: spec_fn(int, Seq<Option<usize>>, int, int) -> bool,
) -> SubCase {
    SubCase {
        alts,
        nu: nu as int,
        na: na as int,
        tries: if na <= rules.max_alt { na as int } else { rules.max_alt as int },
        min_rank: rules.min_rank as int,
        missing: missing_of(sel, miss),
        ok,
        fits,
    }
}

/// What comes of a problem: the picks and choices that it leads to, and what is
/// counted of them.
pub open spec fn solved(
    c: SubCase,
    sel: Seq<i32>,
    after: Seq<i32>,
    out: SubOutcome,
    choices: Seq<Option<usize>>,
) -> bool {
    if c.nu == 0 || c.tries == 0 || c.missing.len() == 0 {
        &&& after == sel
        &&& out == (SubOutcome { predicted: 0, avoided: 0, slots: 0, blocked: 0, failed: 0 })
        &&& choices.len() == 0
    } else {
        let b = sel.len() as int / c.nu;
        let blocked = c.settled(sel, hopeless_all(c, sel, b), b);
        &&& after == c.rewritten(sel, blocked, b) + sel.skip(b * c.nu)
        &&& choices == c.choices(sel, blocked, b)
        &&& out == (SubOutcome {
            predicted: c.missing.len() as u32,
            avoided: (c.missing.len() - count_true(blocked)) as u32,
            slots: count_some(choices) as u32,
            blocked: count_true(blocked) as u32,
            failed: 0,
        })
    }
}

/// The measures of a problem: rows, picks per row, alternatives per row, those of
/// them that are looked at, and the heaviest rank that may be replaced.
#[derive(Clone, Copy)]
struct Grid {
    b: usize,
    nu: usize,
    na: usize,
    tries: usize,
    min_rank: usize,
}

impl Grid {
    /// The rows fit the picks and the alternatives.
    spec fn fits_in(self, sel: nat, alts: nat) -> bool {
        &&& 0 < self.nu
        &&& self.tries <= self.na
        &&& self.b * self.nu <= sel
        &&& self.b * self.na <= alts
    }
}

/// `c` is a problem of these measures, and `acceptable` answers as it says.
spec fn posed<A: Fn(i32) -> bool>(
    c: SubCase,
    g: Grid,
    alts: Seq<i32>,
    missing: Seq<i32>,
    acceptable: A,
) -> bool {
    &&& c.alts == alts
    &&& c.nu == g.nu
    &&& c.na == g.na
    &&& c.tries == g.tries
    &&& c.min_rank == g.min_rank
    &&& c.missing == missing
    &&& says(acceptable, c.ok)
}

/// Is `e` in the list?
fn list_has(s: &Vec<i32>, e: i32) -> (r: bool)
    ensures
        r == s@.contains(e),
{
    let mut i: usize = 0;
    while i < s.len()
        invariant
            i <= s.len(),
            forall|j: int| 0 <= j < i ==> #[trigger] s@[j] != e,
        decreases s.len() - i,
    {
        if s[i] == e {
            assert(s@[i as int] == e);
            return true;
        }
        i = i + 1;
    }
    false
}

/// Index of `e`, or the length.
fn find_in(s: &Vec<i32>, e: i32) -> (r: usize)
    ensures
        r == index_in(s@, e, 0),
        r <= s.len(),
{
    let mut i: usize = 0;
    while i < s.len() && s[i] != e
        invariant
            i <= s.len(),
            index_in(s@, e, 0) == index_in(s@, e, i as int),
        decreases s.len() - i,
    {
        i = i + 1;
    }
    i
}

/// Has alternative `j` been chosen?
fn is_chosen(s: &Vec<Option<usize>>, j: usize) -> (r: bool)
    ensures
        r == s@.contains(Some(j)),
{
    let mut i: usize = 0;
    while i < s.len()
        invariant
            i <= s.len(),
            forall|x: int| 0 <= x < i ==> #[trigger] s@[x] != Some(j),
        decreases s.len() - i,
    {
        if let Some(x) = s[i] {
            if x == j {
                assert(s@[i as int] == Some(j));
                return true;
            }
        }
        i = i + 1;
    }
    false
}

/// Number of true entries.
fn how_many(s: &Vec<bool>) -> (r: usize)
    ensures
        r == count_true(s@),
        r <= s.len(),
{
    let mut n: usize = 0;
    let mut i: usize = 0;
    while i < s.len()
        invariant
            i <= s.len(),
            n <= i,
            n == count_true(s@.take(i as int)),
        decreases s.len() - i,
    {
        assert(s@.take(i + 1).drop_last() =~= s@.take(i as int));
        if s[i] {
            n = n + 1;
        }
        i = i + 1;
    }
    assert(s@.take(s.len() as int) =~= s@);
    n
}

proof fn lemma_index_bound(r: int, b: int, n: int, j: int, len: int)
    requires
        0 <= r < b,
        0 <= j < n,
        b * n <= len,
    ensures
        0 <= r * n,
        r * n + j < len,
        r * n + n <= len,
{
    assert(0 <= r * n && r * n + n <= b * n) by (nonlinear_arith)
        requires
            0 <= r < b,
            0 <= n,
    ;
}

/// The best-ranked usable alternative for pick `k` of row `r`.
fn find_best<A: Fn(i32) -> bool, F: Fn(usize, &Vec<Option<usize>>, usize, usize) -> bool>(
    alts: &[i32],
    r: usize,
    g: Grid,
    k: usize,
    row: &Vec<i32>,
    chosen: &Vec<Option<usize>>,
    acceptable: &A,
    fits: &F,
    Ghost(missing): Ghost<Seq<i32>>,
    Ghost(failed): Ghost<Seq<bool>>,
) -> (pick: Option<usize>)
    requires
        r < g.b,
        g.tries <= g.na,
        g.b * g.na <= alts.len(),
        forall|e: i32| #[trigger] call_requires(*acceptable, (e,)),
        forall|r: usize, h: &Vec<Option<usize>>, k: usize, j: usize| #[trigger]
            call_requires(*fits, (r, h, k, j)),
    ensures
        pick matches Some(x) ==> x < g.tries,
        forall|c: SubCase| #[trigger]
            posed(c, g, alts@, missing, *acceptable) && weighs(*fits, c.fits) ==> c.best(
                r as int,
                RowPlan { row: row@, chosen: chosen@, failed },
                k as int,
                0,
            ) == (match pick {
                Some(x) => Some(x as int),
                None => None,
            }),
{
    let ghost p = RowPlan { row: row@, chosen: chosen@, failed };
    let mut j: usize = 0;
    while j < g.tries
        invariant
            j <= g.tries,
            r < g.b,
            g.tries <= g.na,
            g.b * g.na <= alts.len(),
            p == (RowPlan { row: row@, chosen: chosen@, failed }),
            forall|e: i32| #[trigger] call_requires(*acceptable, (e,)),
            forall|r: usize, h: &Vec<Option<usize>>, k: usize, j: usize| #[trigger]
                call_requires(*fits, (r, h, k, j)),
            forall|c: SubCase| #[trigger]
                posed(c, g, alts@, missing, *acceptable) && weighs(*fits, c.fits) ==> c.best(
                    r as int,
                    p,
                    k as int,
                    0,
                ) == c.best(r as int, p, k as int, j as int),
        decreases g.tries - j,
    {
        proof {
            lemma_index_bound(r as int, g.b as int, g.na as int, j as int, alts.len() as int);
        }
        let a: i32 = alts[r * g.na + j];
        let usable: bool = a >= 0 && !is_chosen(chosen, j) && !list_has(row, a) && acceptable(a) && fits(
            r,
            chosen,
            k,
            j,
        );
        proof {
            assert forall|c: SubCase| #[trigger]
                posed(c, g, alts@, missing, *acceptable) && weighs(*fits, c.fits) implies c.usable(
                r as int,
                p,
                k as int,
                j as int,
            ) == usable by {
                assert(c.alts[r * c.na + j] == a);
            }
        }
        if usable {
            return Some(j);
        }
        j = j + 1;
    }
    None
}

/// Plans row `r`: the row, and the choice made for each pick.
fn plan_row<A: Fn(i32) -> bool, F: Fn(usize, &Vec<Option<usize>>, usize, usize) -> bool>(
    sel: &Vec<i32>,
    alts: &[i32],
    r: usize,
    g: Grid,
    missing: &Vec<i32>,
    blocked: &Vec<bool>,
    failed: &mut Vec<bool>,
    acceptable: &A,
    fits: &F,
) -> (out: (Vec<i32>, Vec<Option<usize>>))
    requires
        r < g.b,
        g.fits_in(sel.len() as nat, alts.len() as nat),
        blocked.len() == missing.len(),
        old(failed).len() == missing.len(),
        forall|e: i32| #[trigger] call_requires(*acceptable, (e,)),
        forall|r: usize, h: &Vec<Option<usize>>, k: usize, j: usize| #[trigger]
            call_requires(*fits, (r, h, k, j)),
    ensures
        forall|c: SubCase| #[trigger]
            posed(c, g, alts@, missing@, *acceptable) && weighs(*fits, c.fits) ==> c.planned(
                sel@,
                r as int,
                blocked@,
                old(failed)@,
            ) == (RowPlan { row: out.0@, chosen: out.1@, failed: final(failed)@ }),
        out.0.len() == g.nu,
        out.1.len() == g.nu,
        final(failed).len() == missing.len(),
{
    proof {
        lemma_index_bound(r as int, g.b as int, g.nu as int, 0, sel.len() as int);
    }
    let first: usize = r * g.nu;
    let mut row: Vec<i32> = Vec::new();
    let mut i: usize = 0;
    while i < g.nu
        invariant
            i <= g.nu,
            first + g.nu <= sel.len(),
            row@ == sel@.subrange(first as int, first + i),
        decreases g.nu - i,
    {
        row.push(sel[first + i]);
        assert(row@ =~= sel@.subrange(first as int, first + i + 1));
        i = i + 1;
    }
    let mut chosen: Vec<Option<usize>> = Vec::new();
    let ghost p0 = RowPlan { row: row@, chosen: chosen@, failed: failed@ };
    let mut k: usize = 0;
    while k < g.nu
        invariant
            k <= g.nu,
            r < g.b,
            g.fits_in(sel.len() as nat, alts.len() as nat),
            row.len() == g.nu,
            chosen.len() == k,
            blocked.len() == missing.len(),
            failed.len() == missing.len(),
            forall|e: i32| #[trigger] call_requires(*acceptable, (e,)),
            forall|r: usize, h: &Vec<Option<usize>>, k: usize, j: usize| #[trigger]
                call_requires(*fits, (r, h, k, j)),
            forall|c: SubCase| #[trigger]
                posed(c, g, alts@, missing@, *acceptable) && weighs(*fits, c.fits) ==> c.after(
                    r as int,
                    p0,
                    blocked@,
                    k as int,
                ) == (RowPlan { row: row@, chosen: chosen@, failed: failed@ }),
        decreases g.nu - k,
    {
        let ghost p = RowPlan { row: row@, chosen: chosen@, failed: failed@ };
        let mi: usize = find_in(missing, row[k]);
        if mi >= missing.len() || blocked[mi] {
            chosen.push(None);
        } else if k + 1 < g.min_rank {
            failed.set(mi, true);
            chosen.push(None);
        } else {
            match find_best(
                alts,
                r,
                g,
                k,
                &row,
                &chosen,
                acceptable,
                fits,
                Ghost(missing@),
                Ghost(failed@),
            ) {
                Some(x) => {
                    proof {
                        lemma_index_bound(r as int, g.b as int, g.na as int, x as int, alts.len() as int);
                    }
                    row.set(k, alts[r * g.na + x]);
                    chosen.push(Some(x));
                },
                None => {
                    failed.set(mi, true);
                    chosen.push(None);
                },
            }
        }
        proof {
            assert forall|c: SubCase| #[trigger]
                posed(c, g, alts@, missing@, *acceptable) && weighs(*fits, c.fits) implies c.after(
                r as int,
                p0,
                blocked@,
                k + 1,
            ) == (RowPlan { row: row@, chosen: chosen@, failed: failed@ }) by {
                assert(c.after(r as int, p0, blocked@, k as int) == p);
                assert(c.next(r as int, p, blocked@) =~= (RowPlan {
                    row: row@,
                    chosen: chosen@,
                    failed: failed@,
                }));
            }
        }
        k = k + 1;
    }
    proof {
        assert forall|c: SubCase| #[trigger]
            posed(c, g, alts@, missing@, *acceptable) && weighs(*fits, c.fits) implies c.planned(
            sel@,
            r as int,
            blocked@,
            old(failed)@,
        ) == (RowPlan { row: row@, chosen: chosen@, failed: failed@ }) by {
            assert(c.start(sel@, r as int, old(failed)@) =~= p0);
        }
    }
    (row, chosen)
}

/// The distinct picks that miss.
fn find_missing<P: Fn(i32) -> bool>(sel: &Vec<i32>, predicted_miss: &P) -> (r: Vec<i32>)
    requires
        forall|e: i32| #[trigger] call_requires(*predicted_miss, (e,)),
    ensures
        forall|miss: spec_fn(i32) -> bool| #[trigger] says(*predicted_miss, miss) ==> r@ == missing_of(sel@, miss),
        r.len() <= sel.len(),
        forall|i: int, j: int| 0 <= i < j < r.len() ==> r@[i] != r@[j],
{
    let mut out: Vec<i32> = Vec::new();
    let mut i: usize = 0;
    while i < sel.len()
        invariant
            i <= sel.len(),
            forall|e: i32| #[trigger] call_requires(*predicted_miss, (e,)),
            out.len() <= i,
            forall|i: int, j: int| 0 <= i < j < out.len() ==> out@[i] != out@[j],
            forall|miss: spec_fn(i32) -> bool| #[trigger] says(*predicted_miss, miss) ==> out@ == missing_of(
                sel@.take(i as int),
                miss,
            ),
        decreases sel.len() - i,
    {
        let e: i32 = sel[i];
        assert(sel@.take(i + 1).drop_last() =~= sel@.take(i as int));
        if e >= 0 && !list_has(&out, e) && predicted_miss(e) {
            out.push(e);
        }
        i = i + 1;
    }
    assert(sel@.take(sel.len() as int) =~= sel@);
    out
}

/// Does row `r` have an alternative that it has not picked and that needs no read?
fn has_alternative<A: Fn(i32) -> bool>(
    sel: &Vec<i32>,
    alts: &[i32],
    r: usize,
    g: Grid,
    acceptable: &A,
    Ghost(missing): Ghost<Seq<i32>>,
) -> (out: bool)
    requires
        r < g.b,
        g.fits_in(sel.len() as nat, alts.len() as nat),
        forall|e: i32| #[trigger] call_requires(*acceptable, (e,)),
    ensures
        forall|c: SubCase| #[trigger] posed(c, g, alts@, missing, *acceptable) ==> out == c.some_alternative(
            sel@,
            r as int,
        ),
{
    proof {
        lemma_index_bound(r as int, g.b as int, g.nu as int, 0, sel.len() as int);
    }
    let first: usize = r * g.nu;
    let ghost row = sel@.subrange(r * g.nu, r * g.nu + g.nu);
    let mut j: usize = 0;
    while j < g.tries
        invariant
            j <= g.tries,
            r < g.b,
            g.fits_in(sel.len() as nat, alts.len() as nat),
            first == r * g.nu,
            first + g.nu <= sel.len(),
            forall|e: i32| #[trigger] call_requires(*acceptable, (e,)),
            row == sel@.subrange(r * g.nu, r * g.nu + g.nu),
            forall|c: SubCase, x: int| #![trigger posed(c, g, alts@, missing, *acceptable), c.alts[r * c.na + x]]
                posed(c, g, alts@, missing, *acceptable) && 0 <= x < j ==> !(c.alts[r * c.na + x] >= 0
                    && !row.contains(c.alts[r * c.na + x]) && (c.ok)(c.alts[r * c.na + x])),
        decreases g.tries - j,
    {
        proof {
            lemma_index_bound(r as int, g.b as int, g.na as int, j as int, alts.len() as int);
        }
        let a: i32 = alts[r * g.na + j];
        if a >= 0 {
            let mut found: bool = false;
            let mut i: usize = 0;
            while i < g.nu
                invariant
                    i <= g.nu,
                    first == r * g.nu,
                    first + g.nu <= sel.len(),
                    row == sel@.subrange(r * g.nu, r * g.nu + g.nu),
                    found <==> exists|x: int| 0 <= x < i && #[trigger] row[x] == a,
                decreases g.nu - i,
            {
                assert(row[i as int] == sel@[first + i]);
                if sel[first + i] == a {
                    found = true;
                }
                i = i + 1;
            }
            assert(found == row.contains(a)) by {
                if row.contains(a) {
                    let x = choose|x: int| 0 <= x < row.len() && row[x] == a;
                    assert(row[x] == a);
                }
            }
            if !found && acceptable(a) {
                proof {
                    assert forall|c: SubCase| #[trigger]
                        posed(c, g, alts@, missing, *acceptable) implies c.some_alternative(sel@, r as int) by {
                        assert(c.alts[r * c.na + j] == a);
                    }
                }
                return true;
            }
        }
        j = j + 1;
    }
    false
}

/// The missing experts that some row picks at a rank that is too heavy, or without
/// any alternative.
fn find_hopeless<A: Fn(i32) -> bool>(
    sel: &Vec<i32>,
    alts: &[i32],
    g: Grid,
    missing: &Vec<i32>,
    acceptable: &A,
) -> (out: Vec<bool>)
    requires
        g.fits_in(sel.len() as nat, alts.len() as nat),
        forall|e: i32| #[trigger] call_requires(*acceptable, (e,)),
        forall|i: int, j: int| 0 <= i < j < missing.len() ==> missing@[i] != missing@[j],
    ensures
        out.len() == missing.len(),
        forall|c: SubCase| #[trigger] posed(c, g, alts@, missing@, *acceptable) ==> out@ == hopeless_all(
            c,
            sel@,
            g.b as int,
        ),
{
    let mut out: Vec<bool> = vec![false; missing.len()];
    proof {
        assert forall|c: SubCase| #[trigger] posed(c, g, alts@, missing@, *acceptable) implies out@
            == hopeless_all(c, sel@, 0) by {
            assert(out@ =~= hopeless_all(c, sel@, 0));
        }
    }
    let mut r: usize = 0;
    while r < g.b
        invariant
            r <= g.b,
            g.fits_in(sel.len() as nat, alts.len() as nat),
            forall|e: i32| #[trigger] call_requires(*acceptable, (e,)),
            forall|i: int, j: int| 0 <= i < j < missing.len() ==> missing@[i] != missing@[j],
            out.len() == missing.len(),
            forall|c: SubCase| #[trigger] posed(c, g, alts@, missing@, *acceptable) ==> out@
                == hopeless_all(c, sel@, r as int),
        decreases g.b - r,
    {
        let some: bool = has_alternative(sel, alts, r, g, acceptable, Ghost(missing@));
        let ghost before = out@;
        proof {
            lemma_index_bound(r as int, g.b as int, g.nu as int, 0, sel.len() as int);
        }
        let first: usize = r * g.nu;
        let mut k: usize = 0;
        while k < g.nu
            invariant
                k <= g.nu,
                0 < g.nu,
                first == r * g.nu,
                first + g.nu <= sel.len(),
                forall|i: int, j: int| 0 <= i < j < missing.len() ==> missing@[i] != missing@[j],
                out.len() == missing.len(),
                before.len() == missing.len(),
                forall|i: int|
                    0 <= i < missing.len() ==> #[trigger] out@[i] == (before[i] || row_blames(
                        sel@,
                        r * g.nu,
                        k as int,
                        missing@[i],
                        g.min_rank as int,
                        some,
                    )),
            decreases g.nu - k,
        {
            let mi: usize = find_in(missing, sel[first + k]);
            let bad: bool = k + 1 < g.min_rank || !some;
            proof {
                lemma_index_in(missing@, sel@[first + k], 0);
                assert(sel@[first + k] == sel@[r * g.nu + k]);
            }
            if mi < missing.len() && bad {
                out.set(mi, true);
            }
            proof {
                assert forall|i: int| 0 <= i < missing.len() implies #[trigger] out@[i] == (before[i]
                    || row_blames(sel@, r * g.nu, k + 1, missing@[i], g.min_rank as int, some)) by {
                    if missing@[i] == sel@[r * g.nu + k] {
                        assert(i == mi);
                    }
                }
            }
            k = k + 1;
        }
        proof {
            assert forall|c: SubCase| #[trigger] posed(c, g, alts@, missing@, *acceptable) implies out@
                == hopeless_all(c, sel@, r + 1) by {
                lemma_hopeless_row(c, sel@, before, out@, r as int, some);
            }
        }
        r = r + 1;
    }
    out
}

/// One of the first `n` picks from `at` on is `e`, at a rank that is too heavy or
/// without any alternative.
spec fn row_blames(sel: Seq<i32>, at: int, n: int, e: i32, min_rank: int, some: bool) -> bool {
    exists|x: int| #![trigger sel[at + x]] 0 <= x < n && e == sel[at + x] && (x + 1 < min_rank || !some)
}

/// One more row adds what it blames.
proof fn lemma_hopeless_row(
    c: SubCase,
    sel: Seq<i32>,
    before: Seq<bool>,
    after: Seq<bool>,
    r: int,
    some: bool,
)
    requires
        0 <= r,
        before == hopeless_all(c, sel, r),
        after.len() == c.missing.len(),
        some == c.some_alternative(sel, r),
        forall|i: int|
            0 <= i < c.missing.len() ==> #[trigger] after[i] == (before[i] || row_blames(
                sel,
                r * c.nu,
                c.nu,
                c.missing[i],
                c.min_rank,
                some,
            )),
    ensures
        after == hopeless_all(c, sel, r + 1),
{
    assert forall|i: int| 0 <= i < c.missing.len() implies #[trigger] after[i] == c.hopeless(sel, i, r + 1) by {
        assert(before[i] == c.hopeless(sel, i, r));
        if c.hopeless(sel, i, r + 1) {
            let (x, y) = choose|x: int, y: int|
                #![trigger sel[x * c.nu + y]]
                0 <= x < r + 1 && 0 <= y < c.nu && c.missing[i] == sel[x * c.nu + y] && (y + 1 < c.min_rank
                    || !c.some_alternative(sel, x));
            if x < r {
                assert(c.missing[i] == sel[x * c.nu + y]);
                assert(c.hopeless(sel, i, r));
            } else {
                assert(c.missing[i] == sel[r * c.nu + y]);
            }
        }
        if c.hopeless(sel, i, r) {
            let (x, y) = choose|x: int, y: int|
                #![trigger sel[x * c.nu + y]]
                0 <= x < r && 0 <= y < c.nu && c.missing[i] == sel[x * c.nu + y] && (y + 1 < c.min_rank
                    || !c.some_alternative(sel, x));
            assert(c.missing[i] == sel[x * c.nu + y]);
        }
        if row_blames(sel, r * c.nu, c.nu, c.missing[i], c.min_rank, some) {
            let x = choose|x: int|
                #![trigger sel[r * c.nu + x]]
                0 <= x < c.nu && c.missing[i] == sel[r * c.nu + x] && (x + 1 < c.min_rank || !some);
            assert(c.missing[i] == sel[r * c.nu + x]);
        }
    }
    assert(after =~= hopeless_all(c, sel, r + 1));
}

/// Plans every row: the rows, the choices, and the experts that some row could
/// not replace.
fn plan_round<A: Fn(i32) -> bool, F: Fn(usize, &Vec<Option<usize>>, usize, usize) -> bool>(
    sel: &Vec<i32>,
    alts: &[i32],
    g: Grid,
    missing: &Vec<i32>,
    blocked: &Vec<bool>,
    acceptable: &A,
    fits: &F,
) -> (out: (Vec<i32>, Vec<Option<usize>>, Vec<bool>))
    requires
        g.fits_in(sel.len() as nat, alts.len() as nat),
        blocked.len() == missing.len(),
        forall|e: i32| #[trigger] call_requires(*acceptable, (e,)),
        forall|r: usize, h: &Vec<Option<usize>>, k: usize, j: usize| #[trigger]
            call_requires(*fits, (r, h, k, j)),
    ensures
        forall|c: SubCase| #[trigger]
            posed(c, g, alts@, missing@, *acceptable) && weighs(*fits, c.fits) ==> rounded(
                c,
                sel@,
                blocked@,
                g.b as int,
                out.0@,
                out.1@,
                out.2@,
            ),
        out.0.len() == g.b * g.nu,
        out.1.len() == g.b * g.nu,
        out.2.len() == missing.len(),
{
    let mut rows: Vec<i32> = Vec::new();
    let mut choices: Vec<Option<usize>> = Vec::new();
    let mut failed: Vec<bool> = vec![false; missing.len()];
    proof {
        assert forall|c: SubCase| #[trigger]
            posed(c, g, alts@, missing@, *acceptable) && weighs(*fits, c.fits) implies rounded(
            c,
            sel@,
            blocked@,
            0,
            rows@,
            choices@,
            failed@,
        ) by {
            assert(failed@ =~= c.failed_by(sel@, blocked@, 0));
        }
    }
    let mut r: usize = 0;
    while r < g.b
        invariant
            r <= g.b,
            g.fits_in(sel.len() as nat, alts.len() as nat),
            blocked.len() == missing.len(),
            failed.len() == missing.len(),
            forall|e: i32| #[trigger] call_requires(*acceptable, (e,)),
            forall|r: usize, h: &Vec<Option<usize>>, k: usize, j: usize| #[trigger]
                call_requires(*fits, (r, h, k, j)),
            forall|c: SubCase| #[trigger]
                posed(c, g, alts@, missing@, *acceptable) && weighs(*fits, c.fits) ==> rounded(
                    c,
                    sel@,
                    blocked@,
                    r as int,
                    rows@,
                    choices@,
                    failed@,
                ),
            rows.len() == r * g.nu,
            choices.len() == r * g.nu,
        decreases g.b - r,
    {
        let (mut row, mut chosen) = plan_row(
            sel,
            alts,
            r,
            g,
            missing,
            blocked,
            &mut failed,
            acceptable,
            fits,
        );
        proof {
            assert((r + 1) * g.nu == r * g.nu + g.nu) by (nonlinear_arith);
        }
        rows.append(&mut row);
        choices.append(&mut chosen);
        r = r + 1;
    }
    (rows, choices, failed)
}

/// What the first `n` rows come to.
spec fn rounded(
    c: SubCase,
    sel: Seq<i32>,
    blocked: Seq<bool>,
    n: int,
    rows: Seq<i32>,
    choices: Seq<Option<usize>>,
    failed: Seq<bool>,
) -> bool {
    &&& rows == c.rewritten(sel, blocked, n)
    &&& choices == c.choices(sel, blocked, n)
    &&& failed == c.failed_by(sel, blocked, n)
}

/// A row blames only experts that are not blocked.
pub proof fn lemma_failed_unblocked(c: SubCase, sel: Seq<i32>, blocked: Seq<bool>, n: int)
    requires
        0 <= n,
        blocked.len() == c.missing.len(),
        c.nu >= 0,
    ensures
        c.failed_by(sel, blocked, n).len() == c.missing.len(),
        forall|i: int|
            0 <= i < c.missing.len() && #[trigger] c.failed_by(sel, blocked, n)[i] ==> !blocked[i],
    decreases n,
{
    if n > 0 {
        lemma_failed_unblocked(c, sel, blocked, n - 1);
        let f = c.failed_by(sel, blocked, n - 1);
        lemma_after_failed(c, n - 1, c.start(sel, n - 1, f), blocked, c.nu);
    }
}

proof fn lemma_after_failed(c: SubCase, r: int, p: RowPlan, blocked: Seq<bool>, n: int)
    requires
        0 <= n,
        p.failed.len() == c.missing.len(),
        blocked.len() == c.missing.len(),
    ensures
        c.after(r, p, blocked, n).failed.len() == c.missing.len(),
        forall|i: int|
            0 <= i < c.missing.len() && #[trigger] c.after(r, p, blocked, n).failed[i] ==> p.failed[i]
                || !blocked[i],
    decreases n,
{
    if n > 0 {
        lemma_after_failed(c, r, p, blocked, n - 1);
        let q = c.after(r, p, blocked, n - 1);
        lemma_index_in(c.missing, q.row[q.chosen.len() as int], 0);
    }
}

/// Plans substitutions over a batch and rewrites the picks.
///
/// `sel` holds rows of `nu` picks in rank order, `alts` rows of `na` alternatives,
/// of which the first `max_alt` are looked at.
/// `predicted_miss` tells which picks would make the second device read,
/// `acceptable` which alternatives need no read, and `fits` whether a swap moves
/// an acceptable weight, given the choices made in its row so far. Besides the
/// outcome, the choice made for each pick is returned, for the caller to rewrite
/// the weights by.
pub fn substitute<
    P: Fn(i32) -> bool,
    A: Fn(i32) -> bool,
    F: Fn(usize, &Vec<Option<usize>>, usize, usize) -> bool,
>(
    sel: &mut Vec<i32>,
    alts: &[i32],
    nu: usize,
    na: usize,
    rules: SubRules,
    predicted_miss: P,
    acceptable: A,
    fits: F,
) -> (out: (SubOutcome, Vec<Option<usize>>))
    requires
        forall|e: i32| #[trigger] call_requires(predicted_miss, (e,)),
        forall|e: i32| #[trigger] call_requires(acceptable, (e,)),
        forall|r: usize, h: &Vec<Option<usize>>, k: usize, j: usize| #[trigger]
            call_requires(fits, (r, h, k, j)),
        old(sel).len() <= u32::MAX,
        nu > 0 && rules.max_alt > 0 ==> (old(sel).len() as int / nu as int) * na <= alts.len(),
    ensures
        forall|
            miss: spec_fn(i32) -> bool,
            ok: spec_fn(i32) -> bool,
            fit: spec_fn(int, Seq<Option<usize>>, int, int) -> bool,
        |
            #![trigger says(predicted_miss, miss), says(acceptable, ok), weighs(fits, fit)]
            says(predicted_miss, miss) && says(acceptable, ok) && weighs(fits, fit) ==> solved(
                case_of(old(sel)@, alts@, nu, na, rules, miss, ok, fit),
                old(sel)@,
                final(sel)@,
                out.0,
                out.1@,
            ),
        final(sel).len() == old(sel).len(),
{
    let tries: usize = if na <= rules.max_alt { na } else { rules.max_alt };
    if nu == 0 || tries == 0 || sel.len() == 0 {
        return (SubOutcome::none(), Vec::new());
    }
    let missing: Vec<i32> = find_missing(sel, &predicted_miss);
    if missing.len() == 0 {
        return (SubOutcome::none(), Vec::new());
    }
    let g = Grid { b: sel.len() / nu, nu, na, tries, min_rank: rules.min_rank };
    let ghost s = sel@;
    proof {
        assert(g.b * nu <= s.len()) by (nonlinear_arith)
            requires
                g.b == s.len() as int / nu as int,
                nu > 0,
        ;
    }
    let mut blocked: Vec<bool> = find_hopeless(sel, alts, g, &missing, &acceptable);
    let ghost init = blocked@;
    let (mut rows, mut choices, mut failed) = plan_round(sel, alts, g, &missing, &blocked, &acceptable, &fits);
    let mut grew: bool = merge_failed(&mut blocked, &failed);
    let ghost mut used = init;
    proof {
        assert forall|c: SubCase| #[trigger]
            posed(c, g, alts@, missing@, acceptable) && weighs(fits, c.fits) implies settling(
            c,
            s,
            init,
            used,
            blocked@,
            g.b as int,
            grew,
        ) by {
            assert(rounded(c, s, init, g.b as int, rows@, choices@, failed@));
            lemma_settle_step(c, s, used, g.b as int);
        }
    }
    while grew
        invariant
            s == sel@,
            g.fits_in(sel.len() as nat, alts.len() as nat),
            forall|e: i32| #[trigger] call_requires(acceptable, (e,)),
            forall|r: usize, h: &Vec<Option<usize>>, k: usize, j: usize| #[trigger]
                call_requires(fits, (r, h, k, j)),
            blocked.len() == missing.len(),
            used.len() == missing.len(),
            rows.len() == g.b * g.nu,
            choices.len() == g.b * g.nu,
            failed.len() == missing.len(),
            blocked@ == either(used, failed@),
            grew == (count_true(blocked@) > count_true(used)),
            forall|c: SubCase| #[trigger]
                posed(c, g, alts@, missing@, acceptable) && weighs(fits, c.fits) ==> rounded(
                    c,
                    s,
                    used,
                    g.b as int,
                    rows@,
                    choices@,
                    failed@,
                ) && settling(c, s, init, used, blocked@, g.b as int, grew),
        decreases blocked.len() - count_true(blocked@) + (if grew { 1int } else { 0int }),
    {
        proof {
            used = blocked@;
            lemma_count_true(used);
        }
        let round = plan_round(sel, alts, g, &missing, &blocked, &acceptable, &fits);
        rows = round.0;
        choices = round.1;
        failed = round.2;
        grew = merge_failed(&mut blocked, &failed);
        proof {
            assert forall|c: SubCase| #[trigger]
                posed(c, g, alts@, missing@, acceptable) && weighs(fits, c.fits) implies rounded(
                c,
                s,
                used,
                g.b as int,
                rows@,
                choices@,
                failed@,
            ) && settling(c, s, init, used, blocked@, g.b as int, grew) by {
                lemma_settle_step(c, s, used, g.b as int);
            }
            lemma_count_true(blocked@);
            lemma_count_true_more(used, blocked@);
        }
    }
    proof {
        lemma_count_true_more(used, blocked@);
        lemma_count_true(blocked@);
    }
    let n_failed: usize = how_many(&failed);
    let n_blocked: usize = how_many(&blocked);
    let n_slots: usize = count_choices(&choices);
    let mut tail: Vec<i32> = sel.split_off(g.b * nu);
    *sel = rows;
    sel.append(&mut tail);
    let outcome = SubOutcome {
        predicted: missing.len() as u32,
        avoided: (missing.len() - n_blocked) as u32,
        slots: n_slots as u32,
        blocked: n_blocked as u32,
        failed: n_failed as u32,
    };
    proof {
        assert forall|
            miss: spec_fn(i32) -> bool,
            ok: spec_fn(i32) -> bool,
            fit: spec_fn(int, Seq<Option<usize>>, int, int) -> bool,
        |
            #![trigger says(predicted_miss, miss), says(acceptable, ok), weighs(fits, fit)]
            says(predicted_miss, miss) && says(acceptable, ok) && weighs(fits, fit) implies solved(
            case_of(s, alts@, nu, na, rules, miss, ok, fit),
            s,
            sel@,
            outcome,
            choices@,
        ) by {
            let c = case_of(s, alts@, nu, na, rules, miss, ok, fit);
            assert(posed(c, g, alts@, missing@, acceptable));
            assert(init == hopeless_all(c, s, g.b as int));
            lemma_failed_unblocked(c, s, used, g.b as int);
            assert forall|i: int| 0 <= i < failed.len() implies !#[trigger] failed@[i] by {
                if failed@[i] {
                    assert(blocked@[i] && !used[i]);
                }
            }
            lemma_count_none(failed@);
        }
    }
    (outcome, choices)
}

/// The blocked experts settle as those of `init` do: at `used`, unless some were
/// added in `blocked`.
spec fn settling(
    c: SubCase,
    sel: Seq<i32>,
    init: Seq<bool>,
    used: Seq<bool>,
    blocked: Seq<bool>,
    b: int,
    grew: bool,
) -> bool {
    c.settled(sel, init, b) == (if grew {
        c.settled(sel, blocked, b)
    } else {
        used
    })
}

/// The missing experts that are left alone from the start.
pub open spec fn hopeless_all(c: SubCase, sel: Seq<i32>, b: int) -> Seq<bool> {
    Seq::new(c.missing.len(), |i: int| c.hopeless(sel, i, b))
}

proof fn lemma_count_none(s: Seq<bool>)
    requires
        forall|i: int| 0 <= i < s.len() ==> !#[trigger] s[i],
    ensures
        count_true(s) == 0,
    decreases s.len(),
{
    if s.len() > 0 {
        assert forall|i: int| 0 <= i < s.drop_last().len() implies !#[trigger] s.drop_last()[i] by {
            assert(!s[i]);
        }
        lemma_count_none(s.drop_last());
        assert(!s[s.len() - 1]);
    }
}

proof fn lemma_settle_step(c: SubCase, sel: Seq<i32>, used: Seq<bool>, b: int)
    requires
        used.len() == c.missing.len(),
    ensures
        ({
            let grown = either(used, c.failed_by(sel, used, b));
            &&& c.settled(sel, used, b) == (if count_true(grown) > count_true(used) {
                c.settled(sel, grown, b)
            } else {
                used
            })
        }),
{
    let grown = either(used, c.failed_by(sel, used, b));
    lemma_count_true(grown);
}

/// Blocks what failed. Returns whether anything new was blocked.
fn merge_failed(blocked: &mut Vec<bool>, failed: &Vec<bool>) -> (grew: bool)
    requires
        old(blocked).len() == failed.len(),
    ensures
        final(blocked)@ == either(old(blocked)@, failed@),
        final(blocked).len() == old(blocked).len(),
        grew == (count_true(final(blocked)@) > count_true(old(blocked)@)),
{
    let ghost before = blocked@;
    let mut grew: bool = false;
    let mut i: usize = 0;
    while i < blocked.len()
        invariant
            i <= blocked.len(),
            blocked.len() == failed.len(),
            before.len() == blocked.len(),
            forall|j: int| 0 <= j < i ==> #[trigger] blocked@[j] == (before[j] || failed@[j]),
            forall|j: int| i <= j < blocked.len() ==> #[trigger] blocked@[j] == before[j],
            grew <==> exists|j: int| 0 <= j < i && #[trigger] blocked@[j] && !before[j],
        decreases blocked.len() - i,
    {
        let ghost prev = blocked@;
        if failed[i] && !blocked[i] {
            blocked.set(i, true);
            assert(blocked@[i as int] && !before[i as int]);
            grew = true;
        }
        proof {
            if exists|j: int| 0 <= j < i && #[trigger] prev[j] && !before[j] {
                let j = choose|j: int| 0 <= j < i && #[trigger] prev[j] && !before[j];
                assert(blocked@[j] && !before[j]);
            }
            if exists|j: int| 0 <= j < i + 1 && #[trigger] blocked@[j] && !before[j] {
                let j = choose|j: int| 0 <= j < i + 1 && #[trigger] blocked@[j] && !before[j];
                if j < i {
                    assert(prev[j] && !before[j]);
                }
            }
        }
        i = i + 1;
    }
    proof {
        assert(blocked@ =~= either(before, failed@));
        lemma_count_true_more(before, blocked@);
    }
    grew
}

/// Number of choices made.
fn count_choices(s: &Vec<Option<usize>>) -> (r: usize)
    ensures
        r == count_some(s@),
        r <= s.len(),
{
    let mut n: usize = 0;
    let mut i: usize = 0;
    while i < s.len()
        invariant
            i <= s.len(),
            n <= i,
            n == count_some(s@.take(i as int)),
        decreases s.len() - i,
    {
        assert(s@.take(i + 1).drop_last() =~= s@.take(i as int));
        if s[i].is_some() {
            n = n + 1;
        }
        i = i + 1;
    }
    assert(s@.take(s.len() as int) =~= s@);
    n
}

} // verus!
