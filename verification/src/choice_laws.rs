//! Which alternatives a substitution plan takes, and why it leaves a miss alone.

use vstd::prelude::*;
use crate::substitute;
use crate::substitute::{RowPlan, SubCase, SubOutcome, SubRules};
use crate::substitute_laws;

verus! {

/// In row `r`, as it stands and with the choices made so far, alternative `j` can
/// replace pick `k`: it names an expert that the row does not have, was not taken, is
/// served without a read, and moves an acceptable weight.
pub open spec fn can_replace(
    c: SubCase,
    r: int,
    row: Seq<i32>,
    chosen: Seq<Option<usize>>,
    k: int,
    j: int,
) -> bool {
    let a = c.alts[r * c.na + j];
    a >= 0 && !row.contains(a) && !chosen.contains(Some(j as usize)) && (c.ok)(a) && (c.fits)(
        r,
        chosen,
        k,
        j,
    )
}

/// A row while its pick `k` is looked at: what was made of the picks before, and the
/// others as they were.
pub open spec fn row_at(orig: Seq<i32>, done: Seq<i32>, k: int) -> Seq<i32> {
    done.take(k) + orig.skip(k)
}

proof fn lemma_best(c: SubCase, r: int, p: RowPlan, k: int, j: int)
    requires
        0 <= j,
    ensures
        c.best(r, p, k, j) matches Some(x) ==> j <= x < c.tries && can_replace(
            c,
            r,
            p.row,
            p.chosen,
            k,
            x,
        ) && forall|y: int| j <= y < x ==> !(#[trigger] can_replace(c, r, p.row, p.chosen, k, y)),
        c.best(r, p, k, j) is None ==> forall|y: int|
            j <= y < c.tries ==> !(#[trigger] can_replace(c, r, p.row, p.chosen, k, y)),
    decreases c.tries - j,
{
    if j < c.tries {
        assert(c.usable(r, p, k, j) == can_replace(c, r, p.row, p.chosen, k, j));
        if !c.usable(r, p, k, j) {
            lemma_best(c, r, p, k, j + 1);
        }
    }
}

/// What a row was when it came to its pick `k`.
proof fn lemma_history(c: SubCase, r: int, p0: RowPlan, blocked: Seq<bool>, n: int, k: int)
    requires
        0 <= k <= n <= p0.row.len(),
        p0.chosen.len() == 0,
    ensures
        ({
            let p = c.after(r, p0, blocked, k);
            let q = c.after(r, p0, blocked, n);
            &&& q.chosen.len() == n
            &&& q.row.len() == p0.row.len()
            &&& q.chosen.take(k) == p.chosen
            &&& p.row == row_at(p0.row, q.row, k)
            &&& q.row.skip(n) == p0.row.skip(n)
        }),
    decreases n,
{
    let p = c.after(r, p0, blocked, k);
    let q = c.after(r, p0, blocked, n);
    if n == 0 {
        assert(q.chosen.take(0) =~= p.chosen);
        assert(p.row =~= row_at(p0.row, q.row, 0));
    } else {
        let m = c.after(r, p0, blocked, n - 1);
        lemma_history(c, r, p0, blocked, n - 1, if k < n {
            k
        } else {
            n - 1
        });
        assert(q.row.len() == p0.row.len());
        assert forall|i: int| n <= i < q.row.len() implies q.row[i] == p0.row[i] by {
            assert(q.row[i] == m.row[i]);
            assert(m.row.skip(n - 1)[i - (n - 1)] == p0.row.skip(n - 1)[i - (n - 1)]);
        }
        assert(q.row.skip(n) =~= p0.row.skip(n));
        if k < n {
            assert(q.chosen.take(k) =~= m.chosen.take(k));
            assert(q.row.take(k) =~= m.row.take(k));
        } else {
            assert(q.chosen.take(k) =~= q.chosen);
            assert(p.row =~= row_at(p0.row, q.row, k));
        }
    }
}

/// A pick that is replaced gets the first of its row's alternatives that can replace
/// it. One that could be replaced and is not has no such alternative, or is too heavy.
pub proof fn the_best_alternative_is_taken(
    c: SubCase,
    sel: Seq<i32>,
    blocked: Seq<bool>,
    r: int,
    k: int,
)
    requires
        0 <= r,
        0 <= k < c.nu,
        r * c.nu + c.nu <= sel.len(),
        0 <= r * c.nu,
        0 <= c.tries <= usize::MAX,
        blocked.len() == c.missing.len(),
        substitute_laws::distinct(c.missing),
    ensures
        ({
            let orig = sel.subrange(r * c.nu, r * c.nu + c.nu);
            let p = substitute_laws::final_row(c, sel, blocked, r);
            let stood = row_at(orig, p.row, k);
            let before = p.chosen.take(k);
            &&& p.chosen[k] matches Some(j) ==> {
                &&& j < c.tries
                &&& p.row[k] == c.alts[r * c.na + j]
                &&& can_replace(c, r, stood, before, k, j as int)
                &&& forall|y: int|
                    0 <= y < j ==> !(#[trigger] can_replace(c, r, stood, before, k, y))
            }
            &&& p.chosen[k] is None && substitute_laws::replaceable(c, orig[k], blocked) && k + 1
                >= c.min_rank ==> forall|y: int|
                0 <= y < c.tries ==> !(#[trigger] can_replace(c, r, stood, before, k, y))
        }),
{
    let p0 = c.start(sel, r, c.failed_by(sel, blocked, r));
    let m = c.after(r, p0, blocked, k);
    let q = c.after(r, p0, blocked, c.nu);
    let next = c.after(r, p0, blocked, k + 1);
    lemma_history(c, r, p0, blocked, c.nu, k);
    lemma_history(c, r, p0, blocked, c.nu, k + 1);
    lemma_history(c, r, p0, blocked, k, k);
    lemma_best(c, r, m, k, 0);
    assert(q.chosen.take(k + 1)[k] == q.chosen[k]);
    assert(q.chosen[k] == next.chosen[k]);
    assert(next.row[k] == q.row[k]);
    assert(m.row[k] == p0.row[k]);
    let mi = substitute::index_in(c.missing, m.row[k], 0);
    substitute::lemma_index_in(c.missing, m.row[k], 0);
    assert(next == c.next(r, m, blocked));
    if substitute_laws::replaceable(c, p0.row[k], blocked) {
        let x = choose|x: int|
            0 <= x < c.missing.len() && #[trigger] c.missing[x] == p0.row[k] && !blocked[x];
        assert(mi == x);
    }
}

/// A row blames a missing expert only for a pick of it that is too heavy, or for which
/// the row has no alternative left.
pub proof fn a_row_blames_with_cause(
    c: SubCase,
    r: int,
    p0: RowPlan,
    blocked: Seq<bool>,
    n: int,
    i: int,
)
    requires
        0 <= n <= p0.row.len(),
        p0.chosen.len() == 0,
        p0.failed.len() == c.missing.len(),
        0 <= i < c.missing.len(),
        !p0.failed[i],
        c.after(r, p0, blocked, n).failed[i],
    ensures
        !blocked[i],
        exists|k: int|
            0 <= k < n && #[trigger] p0.row[k] == c.missing[i] && (k + 1 < c.min_rank || forall|
                y: int,
            |
                0 <= y < c.tries ==> !(#[trigger] can_replace(
                    c,
                    r,
                    row_at(p0.row, c.after(r, p0, blocked, n).row, k),
                    c.after(r, p0, blocked, n).chosen.take(k),
                    k,
                    y,
                ))),
    decreases n,
{
    let q = c.after(r, p0, blocked, n);
    if n > 0 {
        let m = c.after(r, p0, blocked, n - 1);
        lemma_history(c, r, p0, blocked, n, n - 1);
        lemma_history(c, r, p0, blocked, n - 1, n - 1);
        lemma_failed_len(c, r, p0, blocked, n - 1);
        if m.failed[i] {
            a_row_blames_with_cause(c, r, p0, blocked, n - 1, i);
            let k = choose|k: int|
                0 <= k < n - 1 && #[trigger] p0.row[k] == c.missing[i] && (k + 1 < c.min_rank
                    || forall|y: int|
                    0 <= y < c.tries ==> !(#[trigger] can_replace(
                        c,
                        r,
                        row_at(p0.row, m.row, k),
                        m.chosen.take(k),
                        k,
                        y,
                    )));
            assert(q.chosen.take(k) =~= m.chosen.take(k));
            assert(row_at(p0.row, q.row, k) =~= row_at(p0.row, m.row, k));
            assert(p0.row[k] == c.missing[i]);
        } else {
            let k = n - 1;
            let mi = substitute::index_in(c.missing, m.row[k], 0);
            substitute::lemma_index_in(c.missing, m.row[k], 0);
            assert(m.row[k] == p0.row[k]);
            assert(mi == i);
            lemma_best(c, r, m, k, 0);
            assert(q.chosen.take(k) =~= m.chosen);
            assert(row_at(p0.row, q.row, k) =~= m.row);
        }
    }
}

proof fn lemma_failed_len(c: SubCase, r: int, p0: RowPlan, blocked: Seq<bool>, n: int)
    requires
        p0.failed.len() == c.missing.len(),
    ensures
        c.after(r, p0, blocked, n).failed.len() == c.missing.len(),
    decreases n,
{
    if n > 0 {
        lemma_failed_len(c, r, p0, blocked, n - 1);
        let m = c.after(r, p0, blocked, n - 1);
        substitute::lemma_index_in(c.missing, m.row[m.chosen.len() as int], 0);
    }
}

/// From the start, a missing expert is left alone only where some row picks it at a rank
/// that is too heavy, or has no alternative at all that it lacks and that needs no read.
pub proof fn a_miss_is_given_up_with_cause(c: SubCase, sel: Seq<i32>, b: int, i: int)
    requires
        0 <= i < c.missing.len(),
        c.nu > 0,
        0 <= b,
        b * c.nu <= sel.len(),
    ensures
        substitute::hopeless_all(c, sel, b).len() == c.missing.len(),
        substitute::hopeless_all(c, sel, b)[i] <==> exists|r: int, k: int|
            0 <= r < b && 0 <= k < c.nu && #[trigger] sel[r * c.nu + k] == c.missing[i] && (k + 1
                < c.min_rank || forall|j: int|
                0 <= j < c.tries ==> {
                    let a = #[trigger] c.alts[r * c.na + j];
                    a < 0 || sel.subrange(r * c.nu, r * c.nu + c.nu).contains(a) || !(c.ok)(a)
                }),
{
}

/// Every other miss that is left alone was blamed by some row while fewer were: there
/// is a stage of the plan at which it was not yet left alone and some row could not
/// replace it.
pub proof fn a_miss_is_left_alone_with_cause(
    c: SubCase,
    sel: Seq<i32>,
    start: Seq<bool>,
    b: int,
    i: int,
)
    requires
        start.len() == c.missing.len(),
        0 <= b,
        c.nu >= 0,
        0 <= i < c.missing.len(),
        c.settled(sel, start, b)[i],
    ensures
        start[i] || exists|stage: Seq<bool>|
            stage.len() == c.missing.len() && !stage[i] && #[trigger] c.failed_by(sel, stage, b)[i]
                && forall|x: int| 0 <= x < start.len() && #[trigger] start[x] ==> stage[x],
    decreases start.len() - substitute::count_true(start),
{
    let f = c.failed_by(sel, start, b);
    let grown = substitute::either(start, f);
    substitute::lemma_count_true(grown);
    substitute::lemma_count_true(start);
    if substitute::count_true(grown) > substitute::count_true(start) {
        assert(c.settled(sel, start, b) == c.settled(sel, grown, b));
        a_miss_is_left_alone_with_cause(c, sel, grown, b, i);
        if !start[i] {
            if grown[i] {
                assert(f[i]);
                assert(!start[i] && c.failed_by(sel, start, b)[i]);
            } else {
                let stage = choose|stage: Seq<bool>|
                    stage.len() == c.missing.len() && !stage[i] && #[trigger] c.failed_by(
                        sel,
                        stage,
                        b,
                    )[i] && forall|x: int|
                        0 <= x < grown.len() && #[trigger] grown[x] ==> stage[x];
                assert forall|x: int| 0 <= x < start.len() && #[trigger] start[x] implies stage[x] by {
                    assert(grown[x]);
                }
            }
        }
    }
}

/// The places where something was chosen.
pub open spec fn chosen_places(choices: Seq<Option<usize>>) -> Set<int> {
    Set::new(|i: int| 0 <= i < choices.len() && choices[i] is Some)
}

proof fn lemma_count_some(choices: Seq<Option<usize>>)
    ensures
        chosen_places(choices).finite(),
        substitute::count_some(choices) == chosen_places(choices).len(),
        substitute::count_some(choices) <= choices.len(),
    decreases choices.len(),
{
    if choices.len() == 0 {
        assert(chosen_places(choices) =~= Set::empty());
    } else {
        let head = choices.drop_last();
        lemma_count_some(head);
        if choices.last() is Some {
            assert(chosen_places(choices) =~= chosen_places(head).insert(choices.len() - 1));
        } else {
            assert(chosen_places(choices) =~= chosen_places(head));
        }
    }
}

/// The outcome of a plan adds up: every missing expert is either avoided or left alone,
/// every pick that was rewritten is counted, and none fails. Without a miss, without
/// alternatives or without picks nothing changes and nothing is counted.
pub proof fn the_outcome_adds_up(
    c: SubCase,
    sel: Seq<i32>,
    after: Seq<i32>,
    out: SubOutcome,
    choices: Seq<Option<usize>>,
)
    requires
        substitute::solved(c, sel, after, out, choices),
        sel.len() <= u32::MAX,
        c.missing.len() <= sel.len(),
        0 <= c.nu,
        0 <= c.tries <= usize::MAX,
    ensures
        out.failed == 0,
        out.predicted == out.avoided + out.blocked,
        c.missing.len() == 0 || c.nu == 0 || c.tries == 0 ==> after == sel && out.predicted == 0
            && out.slots == 0 && choices.len() == 0,
        c.missing.len() > 0 && c.nu > 0 && c.tries > 0 ==> out.predicted == c.missing.len(),
        chosen_places(choices).finite(),
        out.slots == chosen_places(choices).len(),
        after.len() == sel.len(),
{
    lemma_count_some(choices);
    if !(c.nu == 0 || c.tries == 0 || c.missing.len() == 0) {
        let b = sel.len() as int / c.nu;
        vstd::arithmetic::div_mod::lemma_fundamental_div_mod(sel.len() as int, c.nu);
        assert(b * c.nu == c.nu * b) by (nonlinear_arith);
        assert(b >= 0) by (nonlinear_arith)
            requires
                sel.len() as int == c.nu * b + sel.len() as int % c.nu,
                0 <= sel.len() as int % c.nu < c.nu,
                c.nu > 0,
        ;
        let start = substitute::hopeless_all(c, sel, b);
        let blocked = c.settled(sel, start, b);
        substitute_laws::a_settled_plan_never_fails(c, sel, start, b);
        substitute::lemma_count_true(blocked);
        substitute_laws::lemma_lengths(c, sel, blocked, b);
    }
}

/// A plan is made for the picks that miss, each once, and looks at the first
/// alternatives of a row, as many as it may and as there are.
pub proof fn a_plan_is_made_for_the_misses(
    sel: Seq<i32>,
    alts: Seq<i32>,
    nu: usize,
    na: usize,
    rules: SubRules,
    miss: spec_fn(i32) -> bool,
    ok: spec_fn(i32) -> bool,
    fits: spec_fn(int, Seq<Option<usize>>, int, int) -> bool,
    e: i32,
)
    ensures
        ({
            let c = substitute::case_of(sel, alts, nu, na, rules, miss, ok, fits);
            &&& c.missing.contains(e) <==> e >= 0 && sel.contains(e) && miss(e)
            &&& substitute_laws::distinct(c.missing)
            &&& c.missing.len() <= sel.len()
            &&& c.tries <= na && c.tries <= rules.max_alt && (c.tries == na || c.tries
                == rules.max_alt)
            &&& c.nu == nu && c.na == na && c.min_rank == rules.min_rank && c.alts == alts
            &&& c.ok == ok && c.fits == fits
        }),
{
    substitute::lemma_missing(sel, miss);
}

} // verus!
