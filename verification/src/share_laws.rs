//! How a layer's picks are shared, and what is read ahead of them.

use vstd::prelude::*;
use crate::config::N_EXPERT;
use crate::ownership;
use crate::pool;
use crate::prefetch::PrefetchState;
use crate::residency;
use crate::residency::Box2Misses;
use crate::routing;
use crate::routing::SplitMode;

verus! {

/// A read is queued for an expert that is neither resident nor on its way, has been
/// missed often enough, and finds room among the reads in flight. Every other miss is
/// only counted: one that found no room as dropped.
pub proof fn a_read_is_queued_for_a_wanted_expert(s: PrefetchState, resident: bool, k: u64, j: u64)
    requires
        s.wf(),
        s.queued < u64::MAX,
        s.dropped_full < u64::MAX,
    ensures
        ({
            let (t, queue) = s.hinted(resident, k);
            let counts = !resident && !s.pending.contains(k);
            let missed = if s.touches.contains_key(k) {
                s.touches[k] as int
            } else {
                0
            };
            let often = missed + 1 >= s.min_touch;
            let room = s.pending.len() < 64;
            // The count of an expert's misses stops at its largest.
            let now = if missed < 255 {
                missed + 1
            } else {
                255
            };
            &&& queue <==> counts && often && room
            &&& t.pending == if queue {
                s.pending.insert(k)
            } else {
                s.pending
            }
            &&& t.queued == s.queued + if queue {
                1int
            } else {
                0
            }
            &&& t.dropped_full == s.dropped_full + if counts && often && !room {
                1int
            } else {
                0
            }
            &&& counts ==> t.touches.contains_key(k) && t.touches[k] == now
            &&& !counts ==> t.touches == s.touches
            &&& j != k ==> (t.touches.contains_key(j) <==> s.touches.contains_key(j))
                && t.touches[j] == s.touches[j]
            &&& t.min_touch == s.min_touch && t.admitted == s.admitted && t.admit_ns == s.admit_ns
            &&& t.wf()
        }),
{
}

/// The reads that are started for a layer's picks are of the other machine's picks
/// that this one lacks, each once; they are on their way afterwards, and nothing else
/// is but what was before.
pub proof fn what_is_missing_is_read_ahead(
    s: pool::PoolState,
    pf: PrefetchState,
    layer: i32,
    sel: Seq<i32>,
    owns: Seq<bool>,
    n: int,
)
    requires
        pf.wf(),
        0 <= n <= sel.len(),
    ensures
        ({
            let (t, reads) = routing::hints_of(s, pf, layer, sel, owns, n);
            &&& t.wf()
            &&& t.min_touch == pf.min_touch
            &&& reads.no_duplicates()
            &&& forall|e: u32| #[trigger]
                reads.contains(e) ==> {
                    &&& e < 384
                    &&& sel.take(n).contains(e as i32)
                    &&& owns[e as int]
                    &&& !s.slot_of.contains_key(pool::expert_key(layer, e))
                    &&& !pf.pending.contains(pool::expert_key(layer, e))
                    &&& t.pending.contains(pool::expert_key(layer, e))
                }
            &&& forall|k: u64| #[trigger]
                t.pending.contains(k) <==> pf.pending.contains(k) || exists|e: u32|
                    reads.contains(e) && k == #[trigger] pool::expert_key(layer, e)
        }),
    decreases n,
{
    let (t, reads) = routing::hints_of(s, pf, layer, sel, owns, n);
    if n > 0 {
        what_is_missing_is_read_ahead(s, pf, layer, sel, owns, n - 1);
        let (p, q) = routing::hints_of(s, pf, layer, sel, owns, n - 1);
        let x = sel[n - 1];
        assert forall|e: u32| q.contains(e) implies sel.take(n).contains(e as i32) by {
            let head = sel.take(n - 1);
            let j = choose|j: int| 0 <= j < head.len() && head[j] == e as i32;
            assert(sel.take(n)[j] == e as i32);
        }
        if routing::is_expert(x) && owns[x as int] {
            let k = pool::expert_key(layer, x as u32);
            let (p2, queue) = p.hinted(s.slot_of.contains_key(k), k);
            if queue {
                assert(reads == q.push(x as u32));
                assert(sel.take(n)[n - 1] == x);
                assert forall|e: u32| reads.contains(e) <==> q.contains(e) || e == x as u32 by {
                    if q.contains(e) {
                        let j = choose|j: int| 0 <= j < q.len() && q[j] == e;
                        assert(reads[j] == e);
                    }
                    if e == x as u32 {
                        assert(reads[q.len() as int] == e);
                    }
                }
                assert(!q.contains(x as u32));
                assert forall|i: u64| #[trigger] t.pending.contains(i) <==> pf.pending.contains(i)
                    || exists|e: u32| reads.contains(e) && i == #[trigger] pool::expert_key(
                    layer,
                    e,
                ) by {
                    if i == k {
                        assert(reads.contains(x as u32) && i == pool::expert_key(layer, x as u32));
                    }
                    if exists|e: u32| q.contains(e) && i == #[trigger] pool::expert_key(layer, e) {
                        let e = choose|e: u32|
                            q.contains(e) && i == #[trigger] pool::expert_key(layer, e);
                        assert(reads.contains(e));
                    }
                    if exists|e: u32| reads.contains(e) && i == #[trigger] pool::expert_key(
                        layer,
                        e,
                    ) {
                        let e = choose|e: u32|
                            reads.contains(e) && i == #[trigger] pool::expert_key(layer, e);
                        if e != x as u32 {
                            assert(q.contains(e));
                        }
                    }
                }
            }
        }
    }
}

/// The experts of a split are its distinct picks that are kept, in the order in which
/// they were first picked.
pub proof fn picks_are_kept_in_order(sel: Seq<i32>, keep: spec_fn(int) -> bool, n: int)
    requires
        0 <= n <= sel.len(),
    ensures
        ({
            let kept = routing::kept_picks(sel.take(n), keep);
            &&& kept.no_duplicates()
            &&& forall|e: i32| #[trigger]
                kept.contains(e) <==> 0 <= e < 384 && sel.take(n).contains(e) && keep(e as int)
            &&& forall|i: int, j: int, p: int|
                0 <= i < j < kept.len() && 0 <= p < n && #[trigger] sel[p] == #[trigger] kept[j]
                    ==> sel.take(p).contains(#[trigger] kept[i])
        }),
    decreases n,
{
    routing::lemma_kept(sel.take(n), keep);
    let kept = routing::kept_picks(sel.take(n), keep);
    if n > 0 {
        picks_are_kept_in_order(sel, keep, n - 1);
        assert(sel.take(n).drop_last() =~= sel.take(n - 1));
        let before = routing::kept_picks(sel.take(n - 1), keep);
        routing::lemma_kept(sel.take(n - 1), keep);
        assert forall|i: int, j: int, p: int|
            0 <= i < j < kept.len() && 0 <= p < n && #[trigger] sel[p]
                == #[trigger] kept[j] implies sel.take(p).contains(#[trigger] kept[i]) by {
            assert(kept[i] == before[i]);
            assert(before.contains(before[i]));
            if j < before.len() {
                assert(kept[j] == before[j]);
                if p == n - 1 {
                    // An expert that was kept before is among the picks before.
                    assert(before.contains(before[j]));
                }
            } else {
                if p < n - 1 {
                    assert(sel.take(n - 1)[p] == sel[n - 1]);
                    assert(false);
                }
            }
        }
    }
}

/// The experts up to `e` that the pool takes while it warms up are no more than it
/// has spare slots, and where it has some left it takes every one that it wants.
pub proof fn warming_up_keeps_to_its_spare_slots(
    s: pool::PoolState,
    m: Box2Misses,
    layer: i32,
    sel: Seq<i32>,
    victim: bool,
    budget: nat,
    e: int,
)
    requires
        0 <= e <= N_EXPERT,
    ensures
        ({
            let taken = Set::new(
                |x: int|
                    0 <= x < e && routing::admitted_here(s, m, layer, sel, victim, budget, x),
            );
            &&& taken.finite()
            &&& taken.len() <= budget
            &&& taken.len() == routing::admitted_below(s, m, layer, sel, victim, budget, e)
            &&& forall|x: int| #[trigger]
                taken.contains(x) ==> sel.contains(x as i32) && !s.slot_of.contains_key(
                    pool::expert_key(layer, x as u32),
                ) && (victim ==> m.marked(layer, x as u32))
            &&& taken.len() < budget ==> forall|x: int|
                0 <= x < e && sel.contains(x as i32) && !(#[trigger] s.slot_of.contains_key(
                    pool::expert_key(layer, x as u32),
                )) && (victim ==> m.marked(layer, x as u32)) ==> taken.contains(x)
        }),
    decreases e,
{
    let taken = Set::new(
        |x: int| 0 <= x < e && routing::admitted_here(s, m, layer, sel, victim, budget, x),
    );
    if e == 0 {
        assert(taken =~= Set::empty());
    } else {
        warming_up_keeps_to_its_spare_slots(s, m, layer, sel, victim, budget, e - 1);
        let before = Set::new(
            |x: int|
                0 <= x < e - 1 && routing::admitted_here(s, m, layer, sel, victim, budget, x),
        );
        if routing::admitted_here(s, m, layer, sel, victim, budget, e - 1) {
            assert(taken =~= before.insert(e - 1));
        } else {
            assert(taken =~= before);
        }
    }
}

/// What each split leaves to the other machine, of an expert of the model.
pub proof fn a_split_leaves_what_it_says(
    victim: bool,
    s: pool::PoolState,
    m: Box2Misses,
    share: u32,
    declared: Seq<bool>,
    layer: i32,
    sel: Seq<i32>,
    n: usize,
    e: int,
)
    requires
        0 <= e < N_EXPERT,
    ensures
        ({
            let other = |mode: SplitMode|
                ownership::others(mode, victim, s, m, share, declared, layer, sel)[e];
            let resident = s.slot_of.contains_key(pool::expert_key(layer, e as u32));
            &&& !other(SplitMode::Off)
            &&& other(SplitMode::AllRemote)
            &&& other(SplitMode::Static) == declared[e]
            &&& other(SplitMode::Prefetch) == !resident
            &&& resident ==> !other(SplitMode::WarmUp)
            &&& !resident && !sel.contains(e as i32) ==> other(SplitMode::WarmUp)
            &&& !resident && victim && !m.marked(layer, e as u32) ==> other(SplitMode::WarmUp)
            &&& ownership::spare(s) == 0 && !resident ==> other(SplitMode::WarmUp)
            &&& share >= 1000 ==> !other(SplitMode::Partition)
            &&& share == 0 ==> other(SplitMode::Partition)
            // The first distinct picks stay here.
            &&& n == 0 ==> other(SplitMode::LocalPicks(n))
            &&& !sel.contains(e as i32) ==> other(SplitMode::LocalPicks(n))
            &&& sel.contains(e as i32) && n >= sel.len() ==> !other(SplitMode::LocalPicks(n))
        }),
{
    let distinct = routing::distinct_picks(sel);
    routing::lemma_kept(sel, |e: int| true);
    if exists|i: int| 0 <= i < n && i < distinct.len() && #[trigger] distinct[i] == e {
        let i = choose|i: int| 0 <= i < n && i < distinct.len() && #[trigger] distinct[i] == e;
        assert(distinct.contains(e as i32));
    }
    if sel.contains(e as i32) && n >= sel.len() {
        assert(distinct.contains(e as i32));
        let i = choose|i: int| 0 <= i < distinct.len() && distinct[i] == e as i32;
        assert(distinct[i] == e);
    }
    assert(0 <= residency::partition_hash(layer, e as u32) < 1000);
}

/// The places of a layer's experts differ, and so a share of the thousand is a share
/// of the experts. From one expert to the next, and from one layer to the next, the
/// place moves on by the same step.
pub proof fn experts_fall_on_different_places(layer: i32, a: u32, b: u32)
    requires
        0 <= layer < i32::MAX,
        a < N_EXPERT,
        b < N_EXPERT,
    ensures
        0 <= residency::partition_hash(layer, a) < 1000,
        residency::partition_hash(layer, a) == residency::partition_hash(layer, b) ==> a == b,
        residency::partition_hash(0, 0) == 0,
        residency::partition_hash(layer, (a + 1) as u32) == (residency::partition_hash(layer, a)
            + 919) % 1000,
        residency::partition_hash((layer + 1) as i32, a) == (residency::partition_hash(layer, a) + 3)
            % 1000,
{
    let x = layer * 1000003 + a * 7919;
    let y = layer * 1000003 + b * 7919;
    lemma_moves_on(x, 7919);
    lemma_moves_on(x, 1000003);
    if x % 1000 == y % 1000 {
        lemma_same_place(x, y, a - b);
    }
}

proof fn lemma_moves_on(x: int, step: int)
    ensures
        (x + step) % 1000 == (x % 1000 + step % 1000) % 1000,
{
    vstd::arithmetic::div_mod::lemma_add_mod_noop(x, step, 1000);
}

/// 7919 and 1000 have no divisor in common: 679 times the one is one more than a
/// multiple of the other.
proof fn lemma_same_place(x: int, y: int, k: int)
    requires
        x % 1000 == y % 1000,
        x - y == 7919 * k,
        -1000 < k < 1000,
    ensures
        k == 0,
{
    let q = x / 1000 - y / 1000;
    assert(7919 * k == 1000 * q);
    assert(k == 1000 * (679 * q - 5377 * k));
}

/// With a cap, this machine computes as many distinct picks as without it, or as many
/// as the cap where there were more. What the other machine had stays its own.
pub proof fn a_cap_hands_over_the_surplus(owns: Seq<bool>, sel: Seq<i32>, n: usize, e: int)
    requires
        owns.len() == N_EXPERT,
        0 <= e < N_EXPERT,
    ensures
        ({
            let after = ownership::capped(owns, sel, Some(n));
            let had = routing::kept_picks(sel, |x: int| !owns[x]).len();
            let keeps = routing::kept_picks(sel, |x: int| !after[x]).len();
            &&& keeps == if had <= n {
                had
            } else {
                n as nat
            }
            &&& owns[e] ==> after[e]
            &&& !sel.contains(e as i32) ==> after[e] == owns[e]
            &&& ownership::capped(owns, sel, None) == owns
        }),
{
    let after = ownership::capped(owns, sel, Some(n));
    routing::capped_claims_fit(sel, owns, after, n);
}

} // verus!
