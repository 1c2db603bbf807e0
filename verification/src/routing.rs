//! Which device computes which of a token's routed experts.

use vstd::prelude::*;
use crate::config::{N_EXPERT, N_EXPERT_USED, N_LAYER};
use crate::expert_pager;
use crate::expert_pager::ExpertPager;
use crate::pager_laws;
use crate::pool;
use crate::prefetch::Prefetcher;
use crate::residency;
use crate::residency::{
    box2_missed, clear_box2_miss, mark_box2_miss, partition_box2, Box2Misses, Partition,
};

verus! {

/// A pick that names an expert; the others are padding.
pub open spec fn is_expert(pick: i32) -> bool {
    0 <= pick < N_EXPERT
}

/// A pick that is not computed by exactly one device.
#[derive(Debug, Clone, Copy, PartialEq, Eq, Structural)]
pub struct RoutingError {
    pub layer: i32,
    pub expert: i32,
    /// This device's remap claims the expert.
    pub igpu: bool,
    /// The other device claims the expert.
    pub remote: bool,
    /// The remap entry.
    pub entry: i32,
}

/// The other device claims expert `e`.
pub open spec fn remote_claims(owns: Option<&[bool]>, e: int) -> bool {
    owns matches Some(o) && o@[e]
}

/// Exactly one of the two devices claims expert `e`.
pub open spec fn claimed_once(remap: Seq<i32>, owns: Option<&[bool]>, e: int) -> bool {
    (remap[e] < 0) != remote_claims(owns, e)
}

/// The picks find their entries in both devices' lists.
pub open spec fn listed(sel: Seq<i32>, remap: Seq<i32>, owns: Option<&[bool]>) -> bool {
    forall|i: int|
        0 <= i < sel.len() && is_expert(#[trigger] sel[i]) ==> sel[i] < remap.len() && (owns matches Some(
            o,
        ) ==> sel[i] < o@.len())
}

/// Checks that every pick is computed by exactly one device: by this one, whose
/// remap entry is negative, or by the other one. The first pick that is not is
/// the error.
pub fn verify_routing_exactly_once(
    layer: i32,
    sel: &[i32],
    remap: &[i32],
    owns_remote: Option<&[bool]>,
) -> (r: Result<(), RoutingError>)
    requires
        listed(sel@, remap@, owns_remote),
    ensures
        r is Ok <==> forall|i: int|
            0 <= i < sel.len() && is_expert(#[trigger] sel@[i]) ==> claimed_once(
                remap@,
                owns_remote,
                sel@[i] as int,
            ),
        r matches Err(x) ==> exists|i: int|
            0 <= i < sel.len() && x.expert == #[trigger] sel@[i] && first_bad(sel@, remap@, owns_remote, i)
                && x == (RoutingError {
                layer,
                expert: sel@[i],
                igpu: remap@[sel@[i] as int] < 0,
                remote: remote_claims(owns_remote, sel@[i] as int),
                entry: remap@[sel@[i] as int],
            }),
{
    let mut seen: Vec<bool> = vec![false; N_EXPERT as usize];
    let mut i: usize = 0;
    while i < sel.len()
        invariant
            i <= sel.len(),
            seen.len() == N_EXPERT,
            listed(sel@, remap@, owns_remote),
            forall|e: int| 0 <= e < N_EXPERT && #[trigger] seen@[e] ==> claimed_once(remap@, owns_remote, e),
            forall|j: int|
                0 <= j < i && is_expert(#[trigger] sel@[j]) ==> claimed_once(
                    remap@,
                    owns_remote,
                    sel@[j] as int,
                ),
        decreases sel.len() - i,
    {
        let e: i32 = sel[i];
        if e >= 0 && (e as u32) < N_EXPERT && !seen[e as usize] {
            seen.set(e as usize, true);
            let entry: i32 = remap[e as usize];
            let igpu: bool = entry < 0;
            let remote: bool = match owns_remote {
                Some(o) => o[e as usize],
                None => false,
            };
            if igpu == remote {
                assert(first_bad(sel@, remap@, owns_remote, i as int));
                return Err(RoutingError { layer, expert: e, igpu, remote, entry });
            }
        }
        i = i + 1;
    }
    Ok(())
}

/// Pick `i` is the first one that is not computed by exactly one device.
pub open spec fn first_bad(sel: Seq<i32>, remap: Seq<i32>, owns: Option<&[bool]>, i: int) -> bool {
    &&& is_expert(sel[i])
    &&& !claimed_once(remap, owns, sel[i] as int)
    &&& forall|j: int|
        0 <= j < i && is_expert(#[trigger] sel[j]) ==> claimed_once(remap, owns, sel[j] as int)
}

/// How a layer's picks are split between the devices.
#[derive(Debug, Clone, Copy, PartialEq, Eq, Structural)]
pub enum SplitMode {
    /// This device computes everything.
    Off,
    /// This device takes the first so many distinct picks.
    LocalPicks(usize),
    /// The other device takes everything.
    AllRemote,
    /// By a fixed hash of the expert ids.
    Partition,
    /// This device takes what it holds, and reads ahead what it lacks.
    Prefetch,
    /// This device takes what it holds, and what it lacks while it has free slots.
    WarmUp,
    /// By the assignment that the other device declared.
    Static,
}

/// How a layer's picks are split, by the switches that are on.
pub fn split_mode(
    split_on: bool,
    local_picks: Option<usize>,
    catchall: bool,
    deterministic: bool,
    partition: bool,
    prefetch: bool,
) -> (r: SplitMode)
    ensures
        !split_on ==> r == SplitMode::Off,
        split_on ==> (match local_picks {
            Some(n) => r == SplitMode::LocalPicks(n),
            None => r == (if !catchall {
                SplitMode::Static
            } else if deterministic {
                SplitMode::AllRemote
            } else if partition {
                SplitMode::Partition
            } else if prefetch {
                SplitMode::Prefetch
            } else {
                SplitMode::WarmUp
            }),
        }),
{
    if !split_on {
        return SplitMode::Off;
    }
    match local_picks {
        Some(n) => SplitMode::LocalPicks(n),
        None => if !catchall {
            SplitMode::Static
        } else if deterministic {
            SplitMode::AllRemote
        } else if partition {
            SplitMode::Partition
        } else if prefetch {
            SplitMode::Prefetch
        } else {
            SplitMode::WarmUp
        },
    }
}

/// The distinct experts of `sel` that `keep` holds of, in order of first pick.
pub open spec fn kept_picks(sel: Seq<i32>, keep: spec_fn(int) -> bool) -> Seq<i32>
    decreases sel.len(),
{
    if sel.len() == 0 {
        Seq::empty()
    } else {
        let before = kept_picks(sel.drop_last(), keep);
        if is_expert(sel.last()) && !sel.drop_last().contains(sel.last()) && keep(sel.last() as int) {
            before.push(sel.last())
        } else {
            before
        }
    }
}

/// The distinct experts of `sel`, in order of first pick.
pub open spec fn distinct_picks(sel: Seq<i32>) -> Seq<i32> {
    kept_picks(sel, |e: int| true)
}

pub proof fn lemma_kept(sel: Seq<i32>, keep: spec_fn(int) -> bool)
    ensures
        kept_picks(sel, keep).len() <= sel.len(),
        forall|e: i32| #[trigger]
            kept_picks(sel, keep).contains(e) <==> is_expert(e) && sel.contains(e) && keep(e as int),
        forall|i: int, j: int|
            0 <= i < j < kept_picks(sel, keep).len() ==> kept_picks(sel, keep)[i] != kept_picks(sel, keep)[j],
    decreases sel.len(),
{
    if sel.len() > 0 {
        let d = sel.drop_last();
        let x = sel.last();
        lemma_kept(d, keep);
        let k = kept_picks(sel, keep);
        let b = kept_picks(d, keep);
        assert(sel =~= d.push(x));
        assert forall|e: i32| #[trigger] k.contains(e) <==> is_expert(e) && sel.contains(e) && keep(e as int) by {
            if b.contains(e) {
                let j = choose|j: int| 0 <= j < b.len() && b[j] == e;
                assert(k[j] == e);
                let i = choose|i: int| 0 <= i < d.len() && d[i] == e;
                assert(sel[i] == e);
            }
            if k.contains(e) && !b.contains(e) {
                let j = choose|j: int| 0 <= j < k.len() && k[j] == e;
                assert(k[b.len() as int] == x);
                assert(sel[sel.len() - 1] == x);
            }
            if is_expert(e) && sel.contains(e) && keep(e as int) && !d.contains(e) {
                let i = choose|i: int| 0 <= i < sel.len() && sel[i] == e;
                assert(i == sel.len() - 1);
                assert(k[b.len() as int] == e);
            }
        }
        assert forall|i: int, j: int| 0 <= i < j < k.len() implies k[i] != k[j] by {
            if j == b.len() {
                assert(b.contains(b[i]));
            }
        }
    }
}

/// The experts that this device pages and computes: the distinct picks that the
/// other device does not own, in order of first pick.
pub fn local_ids(sel: &[i32], owns_remote: Option<&[bool]>) -> (r: Vec<u32>)
    requires
        owns_remote matches Some(o) ==> o.len() >= N_EXPERT,
    ensures
        r.len() == kept_picks(sel@, |e: int| !remote_claims(owns_remote, e)).len(),
        forall|i: int| #![trigger r@[i]]
            0 <= i < r.len() ==> r@[i] as int == kept_picks(sel@, |e: int| !remote_claims(owns_remote, e))[i] as int
                && r@[i] < N_EXPERT,
{
    let ghost keep = |e: int| !remote_claims(owns_remote, e);
    let mut out: Vec<u32> = Vec::new();
    let mut i: usize = 0;
    while i < sel.len()
        invariant
            i <= sel.len(),
            owns_remote matches Some(o) ==> o.len() >= N_EXPERT,
            keep == (|e: int| !remote_claims(owns_remote, e)),
            out.len() == kept_picks(sel@.take(i as int), keep).len(),
            forall|j: int| #![trigger out@[j]]
                0 <= j < out.len() ==> out@[j] as int == kept_picks(sel@.take(i as int), keep)[j] as int
                    && out@[j] < N_EXPERT,
        decreases sel.len() - i,
    {
        let sv: i32 = sel[i];
        let ghost before = sel@.take(i as int);
        proof {
            assert(sel@.take(i + 1).drop_last() =~= before);
            lemma_kept(before, keep);
        }
        if sv >= 0 && (sv as u32) < N_EXPERT {
            let id: u32 = sv as u32;
            let mut dup: bool = false;
            let mut j: usize = 0;
            while j < out.len()
                invariant
                    j <= out.len(),
                    dup <==> exists|x: int| 0 <= x < j && #[trigger] out@[x] == id,
                decreases out.len() - j,
            {
                if out[j] == id {
                    dup = true;
                }
                j = j + 1;
            }
            let remote: bool = match owns_remote {
                Some(o) => o[sv as usize],
                None => false,
            };
            proof {
                let k = kept_picks(before, keep);
                if dup {
                    let x = choose|x: int| 0 <= x < out.len() && #[trigger] out@[x] == id;
                    assert(k[x] == sv);
                    assert(k.contains(sv));
                } else if before.contains(sv) && keep(sv as int) {
                    assert(k.contains(sv));
                    let x = choose|x: int| 0 <= x < k.len() && k[x] == sv;
                    assert(out@[x] == id);
                }
            }
            if !dup && !remote {
                out.push(id);
            }
        }
        i = i + 1;
    }
    assert(sel@.take(sel.len() as int) =~= sel@);
    out
}

/// Which picks are handed to the other device: those it owns. All others are
/// blanked, so that nothing is computed twice.
pub fn remote_mask(sel: &[i32], owns_remote: &[bool]) -> (r: Vec<bool>)
    requires
        owns_remote.len() >= N_EXPERT,
    ensures
        r.len() == sel.len(),
        forall|i: int| #![trigger r@[i]]
            0 <= i < sel.len() ==> r@[i] == (is_expert(sel@[i]) && owns_remote@[sel@[i] as int]),
{
    let mut out: Vec<bool> = Vec::new();
    let mut i: usize = 0;
    while i < sel.len()
        invariant
            i <= sel.len(),
            owns_remote.len() >= N_EXPERT,
            out.len() == i,
            forall|j: int| #![trigger out@[j]]
                0 <= j < i ==> out@[j] == (is_expert(sel@[j]) && owns_remote@[sel@[j] as int]),
        decreases sel.len() - i,
    {
        let sv: i32 = sel[i];
        out.push(sv >= 0 && (sv as u32) < N_EXPERT && owns_remote[sv as usize]);
        i = i + 1;
    }
    out
}

/// A pick is computed by exactly one device: an expert that this device does not
/// page is handed to the other one, and no other is.
pub proof fn every_pick_has_one_device(sel: Seq<i32>, owns: &[bool], i: int)
    requires
        0 <= i < sel.len(),
        is_expert(sel[i]),
        owns.len() >= N_EXPERT,
    ensures
        kept_picks(sel, |e: int| !remote_claims(Some(owns), e)).contains(sel[i]) <==> !owns@[sel[i] as int],
{
    lemma_kept(sel, |e: int| !remote_claims(Some(owns), e));
    assert(sel.contains(sel[i]));
}

/// Every remap entry is this device's from the start of a request to its end.
proof fn lemma_served_remap(s: pool::PoolState, layer: i32, ids: Seq<u32>, i: int)
    requires
        s.wf(),
        0 <= i <= ids.len(),
        forall|j: int| 0 <= j < ids.len() ==> #[trigger] ids[j] < N_EXPERT,
        forall|e: int| 0 <= e < N_EXPERT ==> #[trigger] s.remap[e] < 0,
    ensures
        pager_laws::served(s, layer, ids, i) matches Some(t) ==> t.remap.len() == N_EXPERT && forall|e: int|
            0 <= e < N_EXPERT ==> #[trigger] t.remap[e] < 0,
    decreases ids.len() - i,
{
    if i < ids.len() {
        if s.slot_of.contains_key(pool::expert_key(layer, ids[i])) {
            pool::lemma_hit_wf(s, layer, ids[i]);
            lemma_served_remap(s.hit(layer, ids[i]), layer, ids, i + 1);
        } else {
            let m = s.missed(layer, ids[i]);
            pager_laws::lemma_miss_wf(m, layer, ids.take(i), ids[i]);
            if let Some(slot) = m.miss_slot(layer, ids.take(i), m.alloc_range().0, m.alloc_range().1) {
                lemma_served_remap(m.allocated(slot).paged_in(layer, ids[i], slot), layer, ids, i + 1);
            }
        }
    }
}

/// Every remap entry is this device's while a batched request is sorted out.
proof fn lemma_classified_remap(s: pool::PoolState, layer: i32, ids: Seq<u32>, i: int, misses: Seq<(u32, u32)>)
    requires
        s.wf(),
        0 <= i <= ids.len(),
        forall|j: int| 0 <= j < ids.len() ==> #[trigger] ids[j] < N_EXPERT,
        own_entries(s.remap),
    ensures
        s.classified(layer, ids, i, misses).2 ==> own_entries(s.classified(layer, ids, i, misses).0.remap),
    decreases ids.len() - i,
{
    if i < ids.len() {
        if s.slot_of.contains_key(pool::expert_key(layer, ids[i])) {
            pool::lemma_hit_wf(s, layer, ids[i]);
            lemma_classified_remap(s.hit(layer, ids[i]), layer, ids, i + 1, misses);
        } else {
            let m = s.missed(layer, ids[i]);
            let kept = ids.take(i);
            pager_laws::lemma_decode_slot(m, layer, kept);
            if let Some(slot) = m.miss_slot(layer, kept, m.layout.lru_floor(), m.layout.n_slots as int) {
                pool::lemma_claimed_wf(m, layer, ids[i], slot);
                lemma_classified_remap(
                    m.claimed(layer, ids[i], slot),
                    layer,
                    ids,
                    i + 1,
                    misses.push((ids[i], slot)),
                );
            }
        }
    }
}

proof fn lemma_read_in_remap(s: pool::PoolState, layer: i32, misses: Seq<(u32, u32)>, n: int)
    requires
        own_entries(s.remap),
        expert_pager::claims_hold(s, layer, misses),
        s.layout.wf(),
        0 <= n <= misses.len(),
    ensures
        own_entries(pager_laws::read_in(s, layer, misses, n).remap),
    decreases n,
{
    if n > 0 {
        lemma_read_in_remap(s, layer, misses, n - 1);
        let (e, slot) = misses[n - 1];
        assert(misses[n - 1].0 == e);
    }
}

/// Every entry names a slot of this device.
pub open spec fn own_entries(remap: Seq<i32>) -> bool {
    remap.len() == N_EXPERT && forall|e: int| 0 <= e < N_EXPERT ==> #[trigger] remap[e] < 0
}

/// `remap` is the one of pool `t` with the other device's experts marked.
pub open spec fn marked_remap(t: pool::PoolState, owns: Option<&[bool]>, remap: Seq<i32>) -> bool {
    forall|e: int|
        0 <= e < N_EXPERT ==> #[trigger] remap[e] == (if remote_claims(owns, e) {
            0
        } else {
            t.remap[e]
        })
}

/// `ids` holds every pick that the other device does not own.
pub open spec fn holds_the_rest(ids: Seq<u32>, sel: Seq<i32>, owns: Option<&[bool]>) -> bool {
    forall|i: int|
        0 <= i < sel.len() && is_expert(#[trigger] sel[i]) && !remote_claims(owns, sel[i] as int)
            ==> ids.contains(sel[i] as u32)
}

/// A pick of this device is in the slot of pool `t` that `remap` names.
pub open spec fn in_its_slot(t: pool::PoolState, layer: i32, remap: Seq<i32>, e: u32) -> bool {
    let slot = -remap[e as int] - 1;
    0 <= slot < t.layout.n_slots && t.slot_key[slot] == Some(pool::expert_key(layer, e))
}

proof fn lemma_split(
    t: pool::PoolState,
    layer: i32,
    sel: Seq<i32>,
    owns: Option<&[bool]>,
    ids: Seq<u32>,
    remap: Seq<i32>,
    i: int,
)
    requires
        t.layout.wf(),
        own_entries(t.remap),
        t.settles(layer, ids),
        marked_remap(t, owns, remap),
        holds_the_rest(ids, sel, owns),
        0 <= i < sel.len(),
        is_expert(sel[i]),
    ensures
        claimed_once(remap, owns, sel[i] as int),
        !remote_claims(owns, sel[i] as int) ==> in_its_slot(t, layer, remap, sel[i] as u32),
{
    let e = sel[i] as u32;
    assert(t.remap[e as int] < 0);
    if !remote_claims(owns, sel[i] as int) {
        assert(ids.contains(e));
        let j = choose|j: int| 0 <= j < ids.len() && ids[j] == e;
        assert(ids[j] == e);
        assert(remap[e as int] == t.remap[e as int]);
    }
}

/// However the picks are split, after a request for this device's share and the
/// marking of the other device's experts every pick is computed exactly once, and
/// this device's picks from the slots that hold them.
pub proof fn the_split_is_exact(
    s: pool::PoolState,
    layer: i32,
    sel: Seq<i32>,
    owns: Option<&[bool]>,
    ids: Seq<u32>,
    remap: Seq<i32>,
    i: int,
)
    requires
        s.wf(),
        forall|j: int| 0 <= j < ids.len() ==> #[trigger] ids[j] < N_EXPERT,
        holds_the_rest(ids, sel, owns),
        pager_laws::served(s.remap_reset(layer), layer, ids, 0) matches Some(t) && marked_remap(t, owns, remap),
        0 <= i < sel.len(),
        is_expert(sel[i]),
    ensures
        claimed_once(remap, owns, sel[i] as int),
        !remote_claims(owns, sel[i] as int) ==> in_its_slot(
            pager_laws::served(s.remap_reset(layer), layer, ids, 0).unwrap(),
            layer,
            remap,
            sel[i] as u32,
        ),
{
    let z = s.remap_reset(layer);
    assert forall|e: int| 0 <= e < N_EXPERT implies #[trigger] z.remap[e] < 0 by {}
    lemma_served_remap(z, layer, ids, 0);
    pager_laws::serving_keeps_the_pool_well_formed(z, layer, ids, 0);
    pager_laws::every_expert_of_a_served_request_is_resident(z, layer, ids);
    let t = pager_laws::served(z, layer, ids, 0).unwrap();
    lemma_split(t, layer, sel, owns, ids, remap, i);
}

/// The same of a batched request, once its misses have been read.
pub proof fn the_batched_split_is_exact(
    s: pool::PoolState,
    layer: i32,
    sel: Seq<i32>,
    owns: Option<&[bool]>,
    ids: Seq<u32>,
    remap: Seq<i32>,
    i: int,
)
    requires
        s.wf(),
        forall|j: int| 0 <= j < ids.len() ==> #[trigger] ids[j] < N_EXPERT,
        holds_the_rest(ids, sel, owns),
        s.remap_reset(layer).classified(layer, ids, 0, Seq::empty()).2,
        marked_remap(batch_read(s, layer, ids), owns, remap),
        0 <= i < sel.len(),
        is_expert(sel[i]),
    ensures
        claimed_once(remap, owns, sel[i] as int),
        !remote_claims(owns, sel[i] as int) ==> in_its_slot(
            batch_read(s, layer, ids),
            layer,
            remap,
            sel[i] as u32,
        ),
{
    let z = s.remap_reset(layer);
    assert forall|e: int| 0 <= e < N_EXPERT implies #[trigger] z.remap[e] < 0 by {}
    lemma_classified_remap(z, layer, ids, 0, Seq::empty());
    pager_laws::every_expert_of_a_batched_request_is_resident(z, layer, ids);
    let (t, misses, done) = z.classified(layer, ids, 0, Seq::empty());
    lemma_read_in_remap(t, layer, misses, misses.len() as int);
    lemma_split(batch_read(s, layer, ids), layer, sel, owns, ids, remap, i);
}

/// The pool after a batched request for `ids`, its misses read.
pub open spec fn batch_read(s: pool::PoolState, layer: i32, ids: Seq<u32>) -> pool::PoolState {
    let (t, misses, done) = s.remap_reset(layer).classified(layer, ids, 0, Seq::empty());
    pager_laws::read_in(t, layer, misses, misses.len() as int)
}

/// Splits so that this device takes the first `n` distinct picks.
pub fn own_first_picks(sel: &[i32], n: usize) -> (r: Vec<bool>)
    ensures
        r.len() == N_EXPERT,
        forall|e: int| #![trigger r@[e]]
            0 <= e < N_EXPERT ==> (!r@[e] <==> exists|i: int|
                0 <= i < n && i < distinct_picks(sel@).len() && #[trigger] distinct_picks(sel@)[i] == e),
{
    let mut out: Vec<bool> = vec![true; N_EXPERT as usize];
    let mut taken: usize = 0;
    let mut i: usize = 0;
    while i < sel.len() && taken < n
        invariant
            i <= sel.len(),
            taken <= n,
            out.len() == N_EXPERT,
            taken == distinct_picks(sel@.take(i as int)).len(),
            forall|e: int| #![trigger out@[e]]
                0 <= e < N_EXPERT ==> (!out@[e] <==> sel@.take(i as int).contains(e as i32)),
        decreases sel.len() - i,
    {
        let sv: i32 = sel[i];
        let ghost before = sel@.take(i as int);
        let ghost after = sel@.take(i + 1);
        proof {
            lemma_one_more_pick(sel@, i as int);
        }
        if sv >= 0 && (sv as u32) < N_EXPERT && out[sv as usize] {
            out.set(sv as usize, false);
            taken = taken + 1;
        }
        i = i + 1;
    }
    proof {
        let d = sel@.take(i as int);
        assert(sel@.take(sel.len() as int) =~= sel@);
        lemma_kept_prefix(sel@, |e: int| true, i as int);
        lemma_kept(d, |e: int| true);
        let full = distinct_picks(sel@);
        let part = distinct_picks(d);
        assert forall|e: int| #![trigger out@[e]] 0 <= e < N_EXPERT implies (!out@[e] <==> exists|x: int|
            0 <= x < n && x < full.len() && #[trigger] full[x] == e) by {
            if !out@[e] {
                assert(d.contains(e as i32));
                assert(part.contains(e as i32));
                let x = choose|x: int| 0 <= x < part.len() && part[x] == e as i32;
                assert(full[x] == e);
            }
            if exists|x: int| 0 <= x < n && x < full.len() && #[trigger] full[x] == e {
                let x = choose|x: int| 0 <= x < n && x < full.len() && #[trigger] full[x] == e;
                assert(x < part.len());
                assert(part[x] == e as i32);
                assert(part.contains(e as i32));
            }
        }
    }
    out
}

/// One more pick adds its expert to those picked.
proof fn lemma_one_more_pick(sel: Seq<i32>, i: int)
    requires
        0 <= i < sel.len(),
    ensures
        sel.take(i + 1).drop_last() == sel.take(i),
        forall|e: int|
            0 <= e < N_EXPERT ==> (#[trigger] sel.take(i + 1).contains(e as i32) <==> sel.take(i).contains(
                e as i32,
            ) || sel[i] == e),
{
    let before = sel.take(i);
    let after = sel.take(i + 1);
    assert(after.drop_last() =~= before);
    assert forall|e: int| 0 <= e < N_EXPERT implies (#[trigger] after.contains(e as i32) <==> before.contains(
        e as i32,
    ) || sel[i] == e) by {
        if before.contains(e as i32) {
            let j = choose|j: int| 0 <= j < before.len() && before[j] == e as i32;
            assert(after[j] == e as i32);
        }
        if sel[i] == e {
            assert(after[i] == e as i32);
        }
        if after.contains(e as i32) && sel[i] != e {
            let j = choose|j: int| 0 <= j < after.len() && after[j] == e as i32;
            assert(before[j] == e as i32);
        }
    }
}

/// The distinct picks of a prefix are a prefix of the distinct picks.
proof fn lemma_kept_prefix(sel: Seq<i32>, keep: spec_fn(int) -> bool, i: int)
    requires
        0 <= i <= sel.len(),
    ensures
        kept_picks(sel.take(i), keep).len() <= kept_picks(sel, keep).len(),
        forall|j: int|
            0 <= j < kept_picks(sel.take(i), keep).len() ==> #[trigger] kept_picks(sel.take(i), keep)[j]
                == kept_picks(sel, keep)[j],
    decreases sel.len(),
{
    if i < sel.len() {
        lemma_kept_prefix(sel.drop_last(), keep, i);
        assert(sel.drop_last().take(i) =~= sel.take(i));
    } else {
        assert(sel.take(i) =~= sel);
    }
}

/// Splits by the fixed hash of the expert ids.
pub fn own_by_partition(p: &Partition, layer: i32) -> (r: Vec<bool>)
    requires
        layer >= 0,
    ensures
        r.len() == N_EXPERT,
        forall|e: int| #![trigger r@[e]]
            0 <= e < N_EXPERT ==> r@[e] == (residency::partition_hash(layer, e as u32) >= p.share()),
{
    let mut out: Vec<bool> = Vec::new();
    let mut e: u32 = 0;
    while e < N_EXPERT
        invariant
            e <= N_EXPERT,
            layer >= 0,
            out.len() == e,
            forall|x: int| #![trigger out@[x]]
                0 <= x < e ==> out@[x] == (residency::partition_hash(layer, x as u32) >= p.share()),
        decreases N_EXPERT - e,
    {
        out.push(partition_box2(p, layer, e));
        e = e + 1;
    }
    out
}

/// Splits so that this device computes what it holds.
pub fn own_residents(pager: &ExpertPager, layer: i32) -> (r: Vec<bool>)
    ensures
        r.len() == N_EXPERT,
        forall|e: int| #![trigger r@[e]]
            0 <= e < N_EXPERT ==> r@[e] == !pager@.slot_of.contains_key(pool::expert_key(layer, e as u32)),
{
    let mut out: Vec<bool> = Vec::new();
    let mut e: u32 = 0;
    while e < N_EXPERT
        invariant
            e <= N_EXPERT,
            out.len() == e,
            forall|x: int| #![trigger out@[x]]
                0 <= x < e ==> out@[x] == !pager@.slot_of.contains_key(pool::expert_key(layer, x as u32)),
        decreases N_EXPERT - e,
    {
        out.push(!pager.is_resident(layer, e));
        e = e + 1;
    }
    out
}

/// The experts below `e` that this device admits while it warms up: routed, not
/// resident, missed by the other device where that is asked for, as far as the
/// budget of free slots goes.
pub open spec fn admitted_below(
    s: pool::PoolState,
    m: Box2Misses,
    layer: i32,
    sel: Seq<i32>,
    victim: bool,
    budget: nat,
    e: int,
) -> nat
    decreases e,
{
    if e <= 0 {
        0
    } else {
        let before = admitted_below(s, m, layer, sel, victim, budget, e - 1);
        if before < budget && wants(s, m, layer, sel, victim, e - 1) {
            before + 1
        } else {
            before
        }
    }
}

/// Expert `e` is worth one of the free slots.
pub open spec fn wants(
    s: pool::PoolState,
    m: Box2Misses,
    layer: i32,
    sel: Seq<i32>,
    victim: bool,
    e: int,
) -> bool {
    &&& !s.slot_of.contains_key(pool::expert_key(layer, e as u32))
    &&& sel.contains(e as i32)
    &&& !victim || m.marked(layer, e as u32)
}

/// Splits so that this device computes what it holds, and while its pool has free
/// slots also routed experts that it lacks.
pub fn own_while_warming_up(
    pager: &ExpertPager,
    m: &Box2Misses,
    layer: i32,
    sel: &[i32],
    victim: bool,
) -> (r: Vec<bool>)
    requires
        pager@.wf(),
        m.wf(),
    ensures
        r.len() == N_EXPERT,
        ({
            let budget = pool::free_slots(
                pager@.slot_key,
                pager@.layout.lru_floor(),
                pager@.layout.n_slots as int,
            ).len();
            forall|e: int| #![trigger r@[e]]
                0 <= e < N_EXPERT ==> (!r@[e] <==> {
                    ||| pager@.slot_of.contains_key(pool::expert_key(layer, e as u32))
                    ||| admitted_here(pager@, *m, layer, sel@, victim, budget, e)
                })
        }),
{
    let ghost b0 = pool::free_slots(
        pager@.slot_key,
        pager@.layout.lru_floor(),
        pager@.layout.n_slots as int,
    ).len();
    let mut budget: usize = pager.lru_free_slots();
    let mut out: Vec<bool> = Vec::new();
    let mut e: u32 = 0;
    while e < N_EXPERT
        invariant
            e <= N_EXPERT,
            m.wf(),
            out.len() == e,
            budget + admitted_below(pager@, *m, layer, sel@, victim, b0, e as int) == b0,
            forall|x: int| #![trigger out@[x]]
                0 <= x < e ==> (!out@[x] <==> {
                    ||| pager@.slot_of.contains_key(pool::expert_key(layer, x as u32))
                    ||| admitted_here(pager@, *m, layer, sel@, victim, b0, x)
                }),
        decreases N_EXPERT - e,
    {
        if pager.is_resident(layer, e) {
            out.push(false);
        } else {
            let routed: bool = contains_pick(sel, e as i32);
            if budget > 0 && routed && (!victim || box2_missed(m, layer, e)) {
                budget = budget - 1;
                out.push(false);
            } else {
                out.push(true);
            }
        }
        e = e + 1;
    }
    out
}

/// Takes the marks off the experts that this device computes and has yet to read:
/// a mark stands for an expert that the other device missed and this one does not
/// take.
pub fn clear_taken_marks(pager: &ExpertPager, m: &mut Box2Misses, layer: i32, owns: &[bool])
    requires
        old(m).wf(),
        owns.len() == N_EXPERT,
    ensures
        final(m).wf(),
        final(m).counts() == old(m).counts(),
        forall|l: i32, x: u32| #[trigger]
            final(m).marked(l, x) == (old(m).marked(l, x) && !(l == layer && x < N_EXPERT && !owns@[x as int]
                && !pager@.slot_of.contains_key(pool::expert_key(layer, x)))),
{
    let mut e: u32 = 0;
    while e < N_EXPERT
        invariant
            e <= N_EXPERT,
            owns.len() == N_EXPERT,
            m.wf(),
            m.counts() == old(m).counts(),
            forall|l: i32, x: u32| #[trigger]
                m.marked(l, x) == (old(m).marked(l, x) && !(l == layer && x < e && !owns@[x as int]
                    && !pager@.slot_of.contains_key(pool::expert_key(layer, x)))),
        decreases N_EXPERT - e,
    {
        if !owns[e as usize] && !pager.is_resident(layer, e) {
            clear_box2_miss(m, layer, e);
        }
        e = e + 1;
    }
}

/// Expert `e` is one of those that this device admits.
pub open spec fn admitted_here(
    s: pool::PoolState,
    m: Box2Misses,
    layer: i32,
    sel: Seq<i32>,
    victim: bool,
    budget: nat,
    e: int,
) -> bool {
    admitted_below(s, m, layer, sel, victim, budget, e) < budget && wants(s, m, layer, sel, victim, e)
}

/// Is `e` among the picks?
fn contains_pick(sel: &[i32], e: i32) -> (r: bool)
    ensures
        r == sel@.contains(e),
{
    let mut i: usize = 0;
    while i < sel.len()
        invariant
            i <= sel.len(),
            forall|j: int| 0 <= j < i ==> #[trigger] sel@[j] != e,
        decreases sel.len() - i,
    {
        if sel[i] == e {
            assert(sel@[i as int] == e);
            return true;
        }
        i = i + 1;
    }
    false
}

/// Number of distinct local experts among the first `n` picks.
pub open spec fn local_rank(sel: Seq<i32>, owns: Seq<bool>, n: int) -> nat {
    kept_picks(sel.take(n), |e: int| !owns[e]).len()
}

/// Position of the first pick of `e` at or after `i`.
pub open spec fn first_pick(sel: Seq<i32>, e: i32, i: int) -> int
    decreases sel.len() - i,
{
    if i >= sel.len() || sel[i] == e { i } else { first_pick(sel, e, i + 1) }
}

/// Caps how many distinct picks this device computes: the surplus, in the order
/// of the picks, is handed to the other device.
pub fn cap_local_claims(owns: &mut Vec<bool>, sel: &[i32], cap: usize)
    requires
        old(owns).len() == N_EXPERT,
    ensures
        final(owns).len() == N_EXPERT,
        forall|e: int| #![trigger final(owns)@[e]]
            0 <= e < N_EXPERT ==> final(owns)@[e] == (old(owns)@[e] || (sel@.contains(e as i32) && local_rank(
                sel@,
                old(owns)@,
                first_pick(sel@, e as i32, 0) + 1,
            ) > cap)),
{
    let ghost o0 = owns@;
    let ghost keep = |e: int| !o0[e];
    let mut local: usize = 0;
    let mut seen: Vec<bool> = vec![false; N_EXPERT as usize];
    let mut i: usize = 0;
    while i < sel.len()
        invariant
            i <= sel.len(),
            local <= i,
            owns.len() == N_EXPERT,
            o0.len() == N_EXPERT,
            seen.len() == N_EXPERT,
            keep == (|e: int| !o0[e]),
            local == kept_picks(sel@.take(i as int), keep).len(),
            forall|e: int| #![trigger seen@[e]]
                0 <= e < N_EXPERT ==> (seen@[e] <==> sel@.take(i as int).contains(e as i32)),
            forall|e: int| #![trigger owns@[e]]
                0 <= e < N_EXPERT ==> owns@[e] == (o0[e] || (sel@.take(i as int).contains(e as i32) && local_rank(
                    sel@,
                    o0,
                    first_pick(sel@, e as i32, 0) + 1,
                ) > cap)),
        decreases sel.len() - i,
    {
        let sv: i32 = sel[i];
        let ghost before = sel@.take(i as int);
        let ghost after = sel@.take(i + 1);
        proof {
            lemma_one_more_pick(sel@, i as int);
            if is_expert(sv) && !before.contains(sv) {
                lemma_first_pick(sel@, sv, 0, i as int);
            }
        }
        if sv >= 0 && (sv as u32) < N_EXPERT && !seen[sv as usize] {
            seen.set(sv as usize, true);
            if !owns[sv as usize] {
                local = local + 1;
                if local > cap {
                    owns.set(sv as usize, true);
                }
            }
        }
        i = i + 1;
    }
    assert(sel@.take(sel.len() as int) =~= sel@);
}

proof fn lemma_first_pick(sel: Seq<i32>, e: i32, from: int, i: int)
    requires
        0 <= from <= i < sel.len(),
        sel[i] == e,
        forall|j: int| from <= j < i ==> #[trigger] sel[j] != e || !sel.take(i).contains(e),
        !sel.take(i).contains(e),
    ensures
        first_pick(sel, e, from) == i,
    decreases i - from,
{
    if from < i {
        assert(sel.take(i)[from] == sel[from]);
        assert(sel[from] != e);
        lemma_first_pick(sel, e, from + 1, i);
    }
}

/// After the cap, this device computes at most `cap` distinct picks: as many as
/// before, or `cap` of them where there were more.
pub proof fn capped_claims_fit(sel: Seq<i32>, before: Seq<bool>, after: Seq<bool>, cap: usize)
    requires
        before.len() == N_EXPERT,
        after.len() == N_EXPERT,
        forall|e: int| #![trigger after[e]]
            0 <= e < N_EXPERT ==> after[e] == (before[e] || (sel.contains(e as i32) && local_rank(
                sel,
                before,
                first_pick(sel, e as i32, 0) + 1,
            ) > cap)),
    ensures
        kept_picks(sel, |e: int| !after[e]).len() <= cap,
        kept_picks(sel, |e: int| !after[e]).len() == if kept_picks(sel, |e: int| !before[e]).len() <= cap {
            kept_picks(sel, |e: int| !before[e]).len()
        } else {
            cap as nat
        },
{
    lemma_capped(sel, before, after, cap, sel.len() as int);
    assert(sel.take(sel.len() as int) =~= sel);
}

proof fn lemma_capped(sel: Seq<i32>, before: Seq<bool>, after: Seq<bool>, cap: usize, n: int)
    requires
        0 <= n <= sel.len(),
        before.len() == N_EXPERT,
        after.len() == N_EXPERT,
        forall|e: int| #![trigger after[e]]
            0 <= e < N_EXPERT ==> after[e] == (before[e] || (sel.contains(e as i32) && local_rank(
                sel,
                before,
                first_pick(sel, e as i32, 0) + 1,
            ) > cap)),
    ensures
        kept_picks(sel.take(n), |e: int| !after[e]).len() <= cap,
        kept_picks(sel.take(n), |e: int| !after[e]).len() <= local_rank(sel, before, n),
        local_rank(sel, before, n) <= cap ==> kept_picks(sel.take(n), |e: int| !after[e]).len() == local_rank(
            sel,
            before,
            n,
        ),
        local_rank(sel, before, n) > cap ==> kept_picks(sel.take(n), |e: int| !after[e]).len() == cap,
    decreases n,
{
    if n > 0 {
        lemma_capped(sel, before, after, cap, n - 1);
        let d = sel.take(n - 1);
        let x = sel[n - 1];
        assert(sel.take(n).drop_last() =~= d);
        if is_expert(x) && !d.contains(x) {
            lemma_first_pick(sel, x, 0, n - 1);
            assert(sel.contains(x));
            assert(after[x as int] == (before[x as int] || local_rank(sel, before, n) > cap));
        }
    }
}

/// Queues a background read for every pick that this device lacks. Returns the
/// experts whose reads are to be started.
pub fn hint_missing_picks(
    pager: &ExpertPager,
    pf: &mut Prefetcher,
    layer: i32,
    sel: &[i32],
    owns: &[bool],
) -> (r: Vec<u32>)
    requires
        old(pf)@.wf(),
        owns.len() >= N_EXPERT,
    ensures
        final(pf)@.wf(),
        (final(pf)@, r@) == hints_of(pager@, old(pf)@, layer, sel@, owns@, sel.len() as int),
{
    let mut out: Vec<u32> = Vec::new();
    let mut i: usize = 0;
    while i < sel.len()
        invariant
            i <= sel.len(),
            pf@.wf(),
            owns.len() >= N_EXPERT,
            (pf@, out@) == hints_of(pager@, old(pf)@, layer, sel@, owns@, i as int),
        decreases sel.len() - i,
    {
        let sv: i32 = sel[i];
        if sv >= 0 && (sv as u32) < N_EXPERT && owns[sv as usize] {
            if pager.prefetch_hint(pf, layer, sv as u32) {
                out.push(sv as u32);
            }
        }
        i = i + 1;
    }
    out
}

/// The read-ahead after the first `n` picks, and the reads to be started.
pub open spec fn hints_of(
    s: pool::PoolState,
    pf: crate::prefetch::PrefetchState,
    layer: i32,
    sel: Seq<i32>,
    owns: Seq<bool>,
    n: int,
) -> (crate::prefetch::PrefetchState, Seq<u32>)
    decreases n,
{
    if n <= 0 {
        (pf, Seq::empty())
    } else {
        let (p, q) = hints_of(s, pf, layer, sel, owns, n - 1);
        let x = sel[n - 1];
        if is_expert(x) && owns[x as int] {
            let k = pool::expert_key(layer, x as u32);
            let (p2, queue) = p.hinted(s.slot_of.contains_key(k), k);
            (p2, if queue { q.push(x as u32) } else { q })
        } else {
            (p, q)
        }
    }
}

/// Marks the picks that the other device reports as missed: bit `i` of `mask`
/// stands for pick `i`, as far as the reply has `bits` of them.
pub fn mark_missed_picks(m: &mut Box2Misses, layer: i32, sel: &[i32], mask: u64, bits: usize)
    requires
        old(m).wf(),
        bits <= 64,
    ensures
        final(m).wf(),
        forall|l: i32, x: u32| #[trigger]
            final(m).marked(l, x) == (old(m).marked(l, x) || (l == layer && residency::in_model(layer, x)
                && reported(sel@, mask, bits as int, x))),
        final(m).counts() == bumped(old(m).counts(), layer, reported_count(sel@, mask, bits as int)),
{
    if mask == 0 {
        proof {
            lemma_none_reported(sel@, bits as int);
            assert forall|x: u32| !#[trigger] reported(sel@, mask, bits as int, x) by {
                assert forall|i: int| 0 <= i < bits implies !#[trigger] residency::bit(mask, i as u64) by {
                    residency::lemma_no_bit(i as u64);
                }
            }
        }
        return ;
    }
    let n: usize = if sel.len() < bits { sel.len() } else { bits };
    let mut i: usize = 0;
    while i < n
        invariant
            i <= n <= sel.len(),
            n <= bits <= 64,
            n == bits || n == sel.len(),
            m.wf(),
            forall|l: i32, x: u32| #[trigger]
                m.marked(l, x) == (old(m).marked(l, x) || (l == layer && residency::in_model(layer, x)
                    && reported(sel@, mask, i as int, x))),
            m.counts() == bumped(old(m).counts(), layer, reported_count(sel@, mask, i as int)),
        decreases n - i,
    {
        let sv: i32 = sel[i];
        let ghost before = *m;
        let set: bool = mask & (1u64 << i as u64) != 0;
        let hit: bool = set && sv >= 0 && (sv as u32) < N_EXPERT;
        proof {
            assert forall|x: u32| x < N_EXPERT implies (#[trigger] reported(sel@, mask, i + 1, x) <==> reported(
                sel@,
                mask,
                i as int,
                x,
            ) || (hit && x == sv)) by {
                if hit && x == sv {
                    assert(sel@[i as int] == x && residency::bit(mask, i as u64));
                }
            }
        }
        if hit {
            mark_box2_miss(m, layer, sv as u32);
        }
        i = i + 1;
    }
    proof {
        assert forall|x: u32| #[trigger] reported(sel@, mask, n as int, x) == reported(sel@, mask, bits as int, x) by {}
        lemma_count_stops(sel@, mask, n as int, bits as int);
    }
}

/// Number of the first `n` picks that are experts and whose bit is set.
pub open spec fn reported_count(sel: Seq<i32>, mask: u64, n: int) -> nat
    decreases n,
{
    if n <= 0 {
        0
    } else {
        let before = reported_count(sel, mask, n - 1);
        if n - 1 < sel.len() && is_expert(sel[n - 1]) && residency::bit(mask, (n - 1) as u64) {
            before + 1
        } else {
            before
        }
    }
}

proof fn lemma_count_stops(sel: Seq<i32>, mask: u64, n: int, m: int)
    requires
        n <= m,
        n == m || n >= sel.len(),
    ensures
        reported_count(sel, mask, m) == reported_count(sel, mask, n),
    decreases m - n,
{
    if n < m {
        lemma_count_stops(sel, mask, n, m - 1);
    }
}

proof fn lemma_none_reported(sel: Seq<i32>, n: int)
    ensures
        reported_count(sel, 0, n) == 0,
    decreases n,
{
    if n > 0 {
        lemma_none_reported(sel, n - 1);
        residency::lemma_no_bit((n - 1) as u64);
    }
}

/// The counts after `k` more misses of `layer`.
pub open spec fn bumped(counts: Seq<u64>, layer: i32, k: nat) -> Seq<u64>
    decreases k,
{
    if k == 0 || !(0 <= layer < N_LAYER) {
        counts
    } else {
        let before = bumped(counts, layer, (k - 1) as nat);
        before.update(layer as int, before[layer as int].wrapping_add(1))
    }
}

/// One of the first `n` picks is expert `x` and its bit is set.
pub open spec fn reported(sel: Seq<i32>, mask: u64, n: int, x: u32) -> bool {
    exists|i: int| #![trigger residency::bit(mask, i as u64)] 0 <= i < n && i < sel.len() && sel[i] == x && residency::bit(mask, i as u64)
}

/// How many of a token's picks may be computed elsewhere before the kernel hands
/// them back: all of them under a split, else the configured number.
pub fn hot_cap(split_on: bool, configured: u32) -> (r: u32)
    ensures
        r == (if split_on { N_EXPERT_USED as u32 } else { configured }),
{
    if split_on {
        N_EXPERT_USED as u32
    } else {
        configured
    }
}

} // verus!
