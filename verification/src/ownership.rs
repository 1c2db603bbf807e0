//! Who computes a layer's picks: this machine or the other one.

use vstd::prelude::*;
use crate::config::N_EXPERT;
use crate::expert_pager::ExpertPager;
use crate::pool;
use crate::prefetch::Prefetcher;
use crate::residency;
use crate::residency::{Box2Misses, Partition};
use crate::routing;
use crate::routing::{
    cap_local_claims, clear_taken_marks, hint_missing_picks, own_by_partition, own_first_picks,
    own_residents, own_while_warming_up, SplitMode,
};

verus! {

/// The other machine computes expert `e`, before the cap.
pub open spec fn is_other(
    mode: SplitMode,
    victim: bool,
    s: pool::PoolState,
    m: Box2Misses,
    share: u32,
    declared: Seq<bool>,
    layer: i32,
    sel: Seq<i32>,
    e: int,
) -> bool {
    match mode {
        SplitMode::Off => false,
        SplitMode::LocalPicks(n) => !exists|i: int|
            0 <= i < n && i < routing::distinct_picks(sel).len() && #[trigger] routing::distinct_picks(
                sel,
            )[i] == e,
        SplitMode::AllRemote => true,
        SplitMode::Partition => residency::partition_hash(layer, e as u32) >= share,
        SplitMode::Prefetch => !s.slot_of.contains_key(pool::expert_key(layer, e as u32)),
        SplitMode::WarmUp => !(s.slot_of.contains_key(pool::expert_key(layer, e as u32))
            || routing::admitted_here(s, m, layer, sel, victim, spare(s), e)),
        SplitMode::Static => declared[e],
    }
}

/// The free slots of the decode region.
pub open spec fn spare(s: pool::PoolState) -> nat {
    pool::free_slots(s.slot_key, s.layout.lru_floor(), s.layout.n_slots as int).len()
}

/// What the other machine computes, before the cap.
pub open spec fn others(
    mode: SplitMode,
    victim: bool,
    s: pool::PoolState,
    m: Box2Misses,
    share: u32,
    declared: Seq<bool>,
    layer: i32,
    sel: Seq<i32>,
) -> Seq<bool> {
    Seq::new(
        N_EXPERT as nat,
        |e: int| is_other(mode, victim, s, m, share, declared, layer, sel, e),
    )
}

/// What the other machine computes when this one takes at most `cap` of the picks.
pub open spec fn capped(owns: Seq<bool>, sel: Seq<i32>, cap: Option<usize>) -> Seq<bool> {
    match cap {
        None => owns,
        Some(n) => Seq::new(
            N_EXPERT as nat,
            |e: int|
                owns[e] || (sel.contains(e as i32) && routing::local_rank(
                    sel,
                    owns,
                    routing::first_pick(sel, e as i32, 0) + 1,
                ) > n),
        ),
    }
}

/// How a layer's picks are shared.
pub struct Shares {
    /// The experts that the other machine computes.
    pub owns: Vec<bool>,
    /// The experts whose reads are to be started in the background.
    pub reads: Vec<u32>,
}

/// Shares a layer's picks. `declared` is what the other machine said it has, `victim`
/// restricts what this machine takes while it warms up to what the other one missed,
/// and `cap` is how many distinct picks this machine takes at most. An expert that it
/// takes while it warms up is no longer marked as missed by the other one; one that
/// the cap hands over stays marked. `None` where nothing is shared.
pub fn share_picks(
    mode: SplitMode,
    cap: Option<usize>,
    victim: bool,
    pager: &ExpertPager,
    pf: &mut Prefetcher,
    misses: &mut Box2Misses,
    part: &Partition,
    declared: &[bool],
    layer: i32,
    sel: &[i32],
) -> (r: Option<Shares>)
    requires
        layer >= 0,
        pager@.wf(),
        old(pf)@.wf(),
        old(misses).wf(),
        mode == SplitMode::Static ==> declared.len() >= N_EXPERT,
    ensures
        final(pf)@.wf(),
        final(misses).wf(),
        final(misses).counts() == old(misses).counts(),
        r is None <==> mode == SplitMode::Off,
        r matches Some(s) ==> {
            let owns = others(
                mode,
                victim,
                pager@,
                *old(misses),
                part.share(),
                declared@,
                layer,
                sel@,
            );
            &&& s.owns@ == capped(owns, sel@, cap)
            &&& (final(pf)@, s.reads@) == if mode == SplitMode::Prefetch {
                routing::hints_of(pager@, old(pf)@, layer, sel@, owns, sel.len() as int)
            } else {
                (old(pf)@, Seq::empty())
            }
        },
        r is None ==> final(pf)@ == old(pf)@,
        forall|l: i32, x: u32| #[trigger]
            final(misses).marked(l, x) == (old(misses).marked(l, x) && !(mode == SplitMode::WarmUp && l
                == layer && x < N_EXPERT && routing::admitted_here(
                pager@,
                *old(misses),
                layer,
                sel@,
                victim,
                spare(pager@),
                x as int,
            ) && !r->0.owns@[x as int])),
{
    let ghost want = others(
        mode,
        victim,
        pager@,
        *misses,
        part.share(),
        declared@,
        layer,
        sel@,
    );
    let mut reads: Vec<u32> = Vec::new();
    let mut owns: Vec<bool> = match mode {
        SplitMode::Off => {
            return None;
        },
        SplitMode::LocalPicks(n) => own_first_picks(sel, n),
        SplitMode::AllRemote => vec![true; N_EXPERT as usize],
        SplitMode::Partition => own_by_partition(part, layer),
        SplitMode::Prefetch => own_residents(pager, layer),
        SplitMode::WarmUp => own_while_warming_up(pager, misses, layer, sel, victim),
        SplitMode::Static => first_of(declared),
    };
    assert(owns@ =~= want);
    if let SplitMode::Prefetch = mode {
        reads = hint_missing_picks(pager, pf, layer, sel, owns.as_slice());
    }
    if let Some(n) = cap {
        cap_local_claims(&mut owns, sel, n);
        assert(owns@ =~= capped(want, sel@, cap));
    }
    if let SplitMode::WarmUp = mode {
        clear_taken_marks(pager, misses, layer, owns.as_slice());
    }
    Some(Shares { owns, reads })
}

/// The declared experts, one by one.
fn first_of(declared: &[bool]) -> (r: Vec<bool>)
    requires
        declared.len() >= N_EXPERT,
    ensures
        r@ == declared@.take(N_EXPERT as int),
{
    let mut out: Vec<bool> = Vec::new();
    let mut e: usize = 0;
    while e < N_EXPERT as usize
        invariant
            e <= N_EXPERT,
            declared.len() >= N_EXPERT,
            out@ == declared@.take(e as int),
        decreases N_EXPERT - e,
    {
        out.push(declared[e]);
        assert(out@ =~= declared@.take(e + 1));
        e = e + 1;
    }
    out
}

/// With a cap, this machine computes no more distinct picks than that, however they
/// are shared.
pub proof fn this_machine_keeps_to_its_cap(owns: Seq<bool>, sel: Seq<i32>, n: usize)
    requires
        owns.len() == N_EXPERT,
    ensures
        routing::kept_picks(sel, |e: int| !capped(owns, sel, Some(n))[e]).len() <= n,
{
    routing::capped_claims_fit(sel, owns, capped(owns, sel, Some(n)), n);
}

} // verus!
