//! What holds of every substitution plan.

use vstd::prelude::*;
use crate::substitute;
use crate::substitute::{RowPlan, SubCase};

verus! {

/// No two entries are the same.
pub open spec fn distinct(row: Seq<i32>) -> bool {
    forall|i: int, j: int| 0 <= i < j < row.len() ==> row[i] != row[j]
}

/// The expert is missing and may be replaced.
pub open spec fn replaceable(c: SubCase, e: i32, blocked: Seq<bool>) -> bool {
    exists|m: int| 0 <= m < c.missing.len() && #[trigger] c.missing[m] == e && !blocked[m]
}

/// Row `r` of the batch after planning.
pub open spec fn final_row(c: SubCase, sel: Seq<i32>, blocked: Seq<bool>, r: int) -> RowPlan {
    c.planned(sel, r, blocked, c.failed_by(sel, blocked, r))
}

/// What the first `n` picks of a row have become.
spec fn shaped(c: SubCase, r: int, orig: Seq<i32>, p: RowPlan, blocked: Seq<bool>, n: int) -> bool {
    &&& p.row.len() == orig.len()
    &&& p.chosen.len() == n
    &&& forall|k: int| n <= k < orig.len() ==> #[trigger] p.row[k] == orig[k]
    &&& forall|k: int| #![trigger p.chosen[k]]
        0 <= k < n ==> match p.chosen[k] {
            None => p.row[k] == orig[k],
            Some(j) => {
                &&& j < c.tries
                &&& p.row[k] == c.alts[r * c.na + j]
                &&& p.row[k] >= 0
                &&& (c.ok)(p.row[k])
                &&& k + 1 >= c.min_rank
                &&& replaceable(c, orig[k], blocked)
            },
        }
    &&& distinct(orig) ==> distinct(p.row)
}

proof fn lemma_best(c: SubCase, r: int, p: RowPlan, k: int, j: int)
    requires
        0 <= j,
    ensures
        c.best(r, p, k, j) matches Some(x) ==> j <= x < c.tries && c.usable(r, p, k, x),
    decreases c.tries - j,
{
    if j < c.tries && !c.usable(r, p, k, j) {
        lemma_best(c, r, p, k, j + 1);
    }
}

proof fn lemma_shape(c: SubCase, r: int, p0: RowPlan, blocked: Seq<bool>, n: int)
    requires
        0 <= n <= p0.row.len(),
        p0.chosen.len() == 0,
        c.tries <= usize::MAX,
        blocked.len() == c.missing.len(),
    ensures
        shaped(c, r, p0.row, c.after(r, p0, blocked, n), blocked, n),
    decreases n,
{
    if n > 0 {
        lemma_shape(c, r, p0, blocked, n - 1);
        let p = c.after(r, p0, blocked, n - 1);
        let q = c.after(r, p0, blocked, n);
        let k = n - 1;
        let mi = substitute::index_in(c.missing, p.row[k], 0);
        substitute::lemma_index_in(c.missing, p.row[k], 0);
        assert(p.row[k] == p0.row[k]);
        if mi < c.missing.len() && !blocked[mi] && k + 1 >= c.min_rank {
            lemma_best(c, r, p, k, 0);
            if let Some(j) = c.best(r, p, k, 0) {
                let a = c.alts[r * c.na + j];
                assert(c.missing[mi] == p0.row[k]);
                assert(!p.row.contains(a));
                assert forall|x: int, y: int| distinct(p0.row) && 0 <= x < y < q.row.len() implies q.row[x]
                    != q.row[y] by {
                    if x == k {
                        assert(q.row[y] == p.row[y]);
                        assert(p.row.contains(p.row[y]));
                    } else if y == k {
                        assert(q.row[x] == p.row[x]);
                        assert(p.row.contains(p.row[x]));
                    }
                }
                assert forall|x: int| #![trigger q.chosen[x]] 0 <= x < n implies match q.chosen[x] {
                    None => q.row[x] == p0.row[x],
                    Some(j) => {
                        &&& j < c.tries
                        &&& q.row[x] == c.alts[r * c.na + j]
                        &&& q.row[x] >= 0
                        &&& (c.ok)(q.row[x])
                        &&& x + 1 >= c.min_rank
                        &&& replaceable(c, p0.row[x], blocked)
                    },
                } by {
                    if x < k {
                        assert(q.chosen[x] == p.chosen[x]);
                    }
                }
            }
        }
        assert forall|x: int| #![trigger q.chosen[x]] 0 <= x < k implies q.chosen[x] == p.chosen[x] by {}
    }
}

/// The picks of a row that nobody blames are all replaced.
proof fn lemma_replaced(c: SubCase, r: int, p0: RowPlan, blocked: Seq<bool>, n: int, k: int)
    requires
        0 <= k < n <= p0.row.len(),
        p0.chosen.len() == 0,
        c.tries <= usize::MAX,
        blocked.len() == c.missing.len(),
        p0.failed.len() == c.missing.len(),
        distinct(c.missing),
        forall|i: int| 0 <= i < c.missing.len() ==> !#[trigger] c.after(r, p0, blocked, n).failed[i],
        replaceable(c, p0.row[k], blocked),
    ensures
        c.after(r, p0, blocked, n).chosen[k] is Some,
    decreases n,
{
    lemma_shape(c, r, p0, blocked, n - 1);
    lemma_shape(c, r, p0, blocked, n);
    lemma_failed_len(c, r, p0, blocked, n - 1);
    let p = c.after(r, p0, blocked, n - 1);
    let q = c.after(r, p0, blocked, n);
    let mi = substitute::index_in(c.missing, p.row[n - 1], 0);
    substitute::lemma_index_in(c.missing, p.row[n - 1], 0);
    assert forall|i: int| 0 <= i < c.missing.len() implies !#[trigger] p.failed[i] by {
        assert(!q.failed[i]);
    }
    if k < n - 1 {
        lemma_replaced(c, r, p0, blocked, n - 1, k);
        assert(q.chosen[k] == p.chosen[k]);
    } else {
        let m = choose|m: int| 0 <= m < c.missing.len() && #[trigger] c.missing[m] == p0.row[k] && !blocked[m];
        assert(p.row[k] == p0.row[k]);
        assert(mi == m) by {
            if mi < m {
                assert(c.missing[mi] == c.missing[m]);
            } else if m < mi {
                assert(c.missing[m] != p.row[n - 1]);
            }
        }
        assert(!q.failed[mi]);
    }
}

proof fn lemma_failed_len(c: SubCase, r: int, p0: RowPlan, blocked: Seq<bool>, n: int)
    requires
        0 <= n,
        p0.failed.len() == c.missing.len(),
    ensures
        c.after(r, p0, blocked, n).failed.len() == c.missing.len(),
    decreases n,
{
    if n > 0 {
        lemma_failed_len(c, r, p0, blocked, n - 1);
        let p = c.after(r, p0, blocked, n - 1);
        substitute::lemma_index_in(c.missing, p.row[p.chosen.len() as int], 0);
    }
}

/// What one row cannot replace, the batch cannot.
proof fn lemma_failed_grows(c: SubCase, sel: Seq<i32>, blocked: Seq<bool>, r: int, b: int)
    requires
        0 <= r < b,
        blocked.len() == c.missing.len(),
        c.nu >= 0,
        forall|i: int| 0 <= i < c.missing.len() ==> !#[trigger] c.failed_by(sel, blocked, b)[i],
    ensures
        forall|i: int| 0 <= i < c.missing.len() ==> !#[trigger] final_row(c, sel, blocked, r).failed[i],
    decreases b - r,
{
    lemma_fb_len(c, sel, blocked, b);
    if r < b - 1 {
        lemma_fb_len(c, sel, blocked, b - 1);
        let f = c.failed_by(sel, blocked, b - 1);
        let p0 = c.start(sel, b - 1, f);
        assert forall|i: int| 0 <= i < c.missing.len() implies !#[trigger] f[i] by {
            assert(!c.failed_by(sel, blocked, b)[i]);
            if f[i] {
                lemma_failed_stays(c, b - 1, p0, blocked, c.nu, i);
            }
        }
        lemma_failed_grows(c, sel, blocked, r, b - 1);
    }
}

proof fn lemma_fb_len(c: SubCase, sel: Seq<i32>, blocked: Seq<bool>, n: int)
    requires
        0 <= n,
        c.nu >= 0,
    ensures
        c.failed_by(sel, blocked, n).len() == c.missing.len(),
    decreases n,
{
    if n > 0 {
        lemma_fb_len(c, sel, blocked, n - 1);
        lemma_failed_len(
            c,
            n - 1,
            c.start(sel, n - 1, c.failed_by(sel, blocked, n - 1)),
            blocked,
            c.nu,
        );
    }
}

proof fn lemma_failed_stays(c: SubCase, r: int, p0: RowPlan, blocked: Seq<bool>, n: int, i: int)
    requires
        0 <= n,
        0 <= i < c.missing.len(),
        p0.failed.len() == c.missing.len(),
        p0.failed[i],
    ensures
        c.after(r, p0, blocked, n).failed[i],
    decreases n,
{
    if n > 0 {
        lemma_failed_stays(c, r, p0, blocked, n - 1, i);
        lemma_failed_len(c, r, p0, blocked, n - 1);
        let p = c.after(r, p0, blocked, n - 1);
        substitute::lemma_index_in(c.missing, p.row[p.chosen.len() as int], 0);
    }
}

/// Once the blocked experts have settled, no row has a miss that it can neither
/// keep nor replace: applying the plan never fails.
pub proof fn a_settled_plan_never_fails(c: SubCase, sel: Seq<i32>, start: Seq<bool>, b: int)
    requires
        start.len() == c.missing.len(),
        0 <= b,
        c.nu >= 0,
    ensures
        ({
            let blocked = c.settled(sel, start, b);
            &&& blocked.len() == c.missing.len()
            &&& forall|i: int|
                0 <= i < c.missing.len() ==> !#[trigger] c.failed_by(sel, blocked, b)[i]
            &&& forall|i: int| 0 <= i < c.missing.len() && #[trigger] start[i] ==> blocked[i]
        }),
    decreases start.len() - substitute::count_true(start),
{
    let f = c.failed_by(sel, start, b);
    let grown = substitute::either(start, f);
    substitute::lemma_count_true(grown);
    substitute::lemma_failed_unblocked(c, sel, start, b);
    assert forall|i: int| 0 <= i < start.len() && #[trigger] start[i] implies grown[i] by {}
    substitute::lemma_count_true_more(start, grown);
    if substitute::count_true(grown) > substitute::count_true(start) {
        a_settled_plan_never_fails(c, sel, grown, b);
        assert forall|i: int| 0 <= i < c.missing.len() && #[trigger] start[i] implies c.settled(sel, start, b)[i] by {
            assert(grown[i]);
        }
    } else {
        assert forall|i: int| 0 <= i < c.missing.len() implies !#[trigger] f[i] by {
            if f[i] {
                assert(grown[i] && !start[i]);
            }
        }
    }
}

/// A row of the batch after planning: a pick is replaced exactly if it is missing
/// and not blocked. A replacement is an alternative of the row that needs no read,
/// at a rank that may be replaced. A row without duplicates stays without.
pub proof fn a_row_is_replaced_soundly(c: SubCase, sel: Seq<i32>, blocked: Seq<bool>, b: int, r: int, k: int)
    requires
        0 <= r < b,
        0 <= k < c.nu,
        b * c.nu <= sel.len(),
        0 <= c.tries <= usize::MAX,
        blocked.len() == c.missing.len(),
        distinct(c.missing),
        forall|i: int| 0 <= i < c.missing.len() ==> !#[trigger] c.failed_by(sel, blocked, b)[i],
    ensures
        ({
            let orig = sel.subrange(r * c.nu, r * c.nu + c.nu);
            let p = final_row(c, sel, blocked, r);
            &&& p.row.len() == c.nu
            &&& p.chosen.len() == c.nu
            &&& p.chosen[k] is Some <==> replaceable(c, orig[k], blocked)
            &&& p.chosen[k] is None ==> p.row[k] == orig[k]
            &&& p.chosen[k] matches Some(j) ==> {
                &&& j < c.tries
                &&& p.row[k] == c.alts[r * c.na + j]
                &&& p.row[k] >= 0
                &&& (c.ok)(p.row[k])
                &&& k + 1 >= c.min_rank
            }
            &&& distinct(orig) ==> distinct(p.row)
        }),
{
    assert(0 <= r * c.nu && r * c.nu + c.nu <= sel.len()) by (nonlinear_arith)
        requires
            0 <= r < b,
            0 <= c.nu,
            b * c.nu <= sel.len(),
    ;
    let f = c.failed_by(sel, blocked, r);
    lemma_fb_len(c, sel, blocked, r);
    let p0 = c.start(sel, r, f);
    assert(p0.row.len() == c.nu);
    lemma_shape(c, r, p0, blocked, c.nu);
    lemma_failed_grows(c, sel, blocked, r, b);
    if replaceable(c, p0.row[k], blocked) {
        lemma_replaced(c, r, p0, blocked, c.nu, k);
    }
    assert(final_row(c, sel, blocked, r).chosen[k] is Some || final_row(c, sel, blocked, r).chosen[k] is None);
}

/// The choices of the batch are those of its rows, and so are the picks.
pub proof fn the_batch_is_made_of_its_rows(c: SubCase, sel: Seq<i32>, blocked: Seq<bool>, b: int, r: int, k: int)
    requires
        0 <= r < b,
        0 <= k < c.nu,
        b * c.nu <= sel.len(),
        0 <= c.tries <= usize::MAX,
        blocked.len() == c.missing.len(),
    ensures
        c.choices(sel, blocked, b).len() == b * c.nu,
        c.rewritten(sel, blocked, b).len() == b * c.nu,
        0 <= r * c.nu + k < b * c.nu,
        c.choices(sel, blocked, b)[r * c.nu + k] == final_row(c, sel, blocked, r).chosen[k],
        c.rewritten(sel, blocked, b)[r * c.nu + k] == final_row(c, sel, blocked, r).row[k],
    decreases b,
{
    assert(b * c.nu == (b - 1) * c.nu + c.nu) by (nonlinear_arith);
    lemma_lengths(c, sel, blocked, b);
    lemma_lengths(c, sel, blocked, b - 1);
    assert((b - 1) * c.nu >= 0) by (nonlinear_arith)
        requires
            b >= 1,
            c.nu >= 0,
    ;
    if r < b - 1 {
        the_batch_is_made_of_its_rows(c, sel, blocked, b - 1, r, k);
        assert(r * c.nu + k < (b - 1) * c.nu);
    }
}

pub proof fn lemma_lengths(c: SubCase, sel: Seq<i32>, blocked: Seq<bool>, n: int)
    requires
        0 <= n,
        0 <= c.nu,
        n * c.nu <= sel.len(),
        0 <= c.tries <= usize::MAX,
        blocked.len() == c.missing.len(),
    ensures
        c.choices(sel, blocked, n).len() == n * c.nu,
        c.rewritten(sel, blocked, n).len() == n * c.nu,
    decreases n,
{
    if n > 0 {
        assert(n * c.nu == (n - 1) * c.nu + c.nu) by (nonlinear_arith);
        assert((n - 1) * c.nu >= 0) by (nonlinear_arith)
            requires
                n >= 1,
                c.nu >= 0,
        ;
        lemma_lengths(c, sel, blocked, n - 1);
        lemma_fb_len(c, sel, blocked, n - 1);
        let p0 = c.start(sel, n - 1, c.failed_by(sel, blocked, n - 1));
        lemma_shape(c, n - 1, p0, blocked, c.nu);
    } else {
        assert(n * c.nu == 0) by (nonlinear_arith)
            requires
                n == 0,
        ;
    }
}

/// All rows or none: an expert that one row replaces is replaced by every row that
/// picked it.
pub proof fn all_rows_or_none(
    c: SubCase,
    sel: Seq<i32>,
    blocked: Seq<bool>,
    b: int,
    r: int,
    k: int,
    r2: int,
    k2: int,
)
    requires
        0 <= r < b,
        0 <= k < c.nu,
        0 <= r2 < b,
        0 <= k2 < c.nu,
        b * c.nu <= sel.len(),
        0 <= c.tries <= usize::MAX,
        blocked.len() == c.missing.len(),
        distinct(c.missing),
        forall|i: int| 0 <= i < c.missing.len() ==> !#[trigger] c.failed_by(sel, blocked, b)[i],
        sel[r * c.nu + k] == sel[r2 * c.nu + k2],
    ensures
        c.choices(sel, blocked, b)[r * c.nu + k] is Some <==> c.choices(sel, blocked, b)[r2 * c.nu + k2] is Some,
{
    a_row_is_replaced_soundly(c, sel, blocked, b, r, k);
    a_row_is_replaced_soundly(c, sel, blocked, b, r2, k2);
    the_batch_is_made_of_its_rows(c, sel, blocked, b, r, k);
    the_batch_is_made_of_its_rows(c, sel, blocked, b, r2, k2);
    lemma_at(sel, c.nu, b, r, k);
    lemma_at(sel, c.nu, b, r2, k2);
}

proof fn lemma_at(sel: Seq<i32>, nu: int, b: int, r: int, k: int)
    requires
        0 <= r < b,
        0 <= k < nu,
        b * nu <= sel.len(),
    ensures
        sel.subrange(r * nu, r * nu + nu)[k] == sel[r * nu + k],
        0 <= r * nu,
        r * nu + nu <= sel.len(),
{
    assert(0 <= r * nu && r * nu + nu <= b * nu) by (nonlinear_arith)
        requires
            0 <= r < b,
            0 <= nu,
    ;
}

/// A missing expert that is not blocked stands in no row any more, provided that
/// an alternative that needs no read is never itself missing.
pub proof fn an_avoided_expert_is_gone(
    c: SubCase,
    sel: Seq<i32>,
    blocked: Seq<bool>,
    b: int,
    m: int,
    r: int,
    k: int,
)
    requires
        0 <= r < b,
        0 <= k < c.nu,
        0 <= m < c.missing.len(),
        b * c.nu <= sel.len(),
        0 <= c.tries <= usize::MAX,
        blocked.len() == c.missing.len(),
        distinct(c.missing),
        forall|i: int| 0 <= i < c.missing.len() ==> !#[trigger] c.failed_by(sel, blocked, b)[i],
        forall|i: int| 0 <= i < c.missing.len() ==> !(c.ok)(#[trigger] c.missing[i]),
        !blocked[m],
    ensures
        c.rewritten(sel, blocked, b)[r * c.nu + k] != c.missing[m],
{
    a_row_is_replaced_soundly(c, sel, blocked, b, r, k);
    the_batch_is_made_of_its_rows(c, sel, blocked, b, r, k);
    let p = final_row(c, sel, blocked, r);
    if p.row[k] == c.missing[m] {
        if p.chosen[k] is None {
            assert(replaceable(c, p.row[k], blocked));
        }
    }
}

/// A blocked expert is left alone in every row.
pub proof fn a_blocked_expert_stays(
    c: SubCase,
    sel: Seq<i32>,
    blocked: Seq<bool>,
    b: int,
    m: int,
    r: int,
    k: int,
)
    requires
        0 <= r < b,
        0 <= k < c.nu,
        0 <= m < c.missing.len(),
        b * c.nu <= sel.len(),
        0 <= c.tries <= usize::MAX,
        blocked.len() == c.missing.len(),
        distinct(c.missing),
        forall|i: int| 0 <= i < c.missing.len() ==> !#[trigger] c.failed_by(sel, blocked, b)[i],
        blocked[m],
        sel[r * c.nu + k] == c.missing[m],
    ensures
        c.rewritten(sel, blocked, b)[r * c.nu + k] == c.missing[m],
{
    a_row_is_replaced_soundly(c, sel, blocked, b, r, k);
    the_batch_is_made_of_its_rows(c, sel, blocked, b, r, k);
    lemma_at(sel, c.nu, b, r, k);
    if replaceable(c, c.missing[m], blocked) {
        let x = choose|x: int| 0 <= x < c.missing.len() && #[trigger] c.missing[x] == c.missing[m] && !blocked[x];
        if x < m {
            assert(c.missing[x] != c.missing[m]);
        } else if m < x {
            assert(c.missing[m] != c.missing[x]);
        }
    }
}

} // verus!
