//! Counts, as the sizes of what they count.

use vstd::prelude::*;
use crate::b2_mirror::MirrorState;
use crate::b2_mirror;
use crate::config::N_LAYER;
use crate::counts;
use crate::devices;
use crate::dispatch;
use crate::fidelity_tap::PinPicks;
use crate::evtrace;
use crate::evtrace::{RecState, TraceState};
use crate::fidelity_tap;
use crate::miss_shape;
use crate::miss_shape::MissShape;
use crate::pick_stats;
use crate::residency;
use crate::routing;

verus! {

/// The places of `sel` below `n` whose pick is an expert that was reported missed.
pub open spec fn reported_places(sel: Seq<i32>, mask: u64, n: int) -> Set<int> {
    Set::new(
        |i: int|
            0 <= i < n && i < sel.len() && 0 <= sel[i] < 384 && mask & (1u64 << i as u64) != 0,
    )
}

/// Every reported miss is counted once.
pub proof fn every_reported_miss_counts(sel: Seq<i32>, mask: u64, n: int)
    requires
        0 <= n <= 64,
    ensures
        reported_places(sel, mask, n).finite(),
        routing::reported_count(sel, mask, n) == reported_places(sel, mask, n).len(),
    decreases n,
{
    if n == 0 {
        assert(reported_places(sel, mask, n) =~= Set::empty());
    } else {
        every_reported_miss_counts(sel, mask, n - 1);
        let before = reported_places(sel, mask, n - 1);
        if n - 1 < sel.len() && routing::is_expert(sel[n - 1]) && residency::bit(
            mask,
            (n - 1) as u64,
        ) {
            assert(reported_places(sel, mask, n) =~= before.insert(n - 1));
        } else {
            assert(reported_places(sel, mask, n) =~= before);
        }
    }
}

/// Misses are added to their own layer's count, and to no other's.
pub proof fn misses_count_for_their_layer(counts: Seq<u64>, layer: i32, k: nat, l: int)
    requires
        counts.len() == N_LAYER,
        0 <= l < N_LAYER,
    ensures
        routing::bumped(counts, layer, k).len() == N_LAYER,
        routing::bumped(counts, layer, k)[l] as int == if l == layer {
            (counts[l] + k) % 0x1_0000_0000_0000_0000int
        } else {
            counts[l] as int
        },
    decreases k,
{
    if k > 0 && 0 <= layer < N_LAYER {
        misses_count_for_their_layer(counts, layer, (k - 1) as nat, l);
        let m = 0x1_0000_0000_0000_0000int;
        let before = routing::bumped(counts, layer, (k - 1) as nat);
        vstd::arithmetic::div_mod::lemma_add_mod_noop(counts[l] + (k - 1), 1, m);
        vstd::arithmetic::div_mod::lemma_add_mod_noop((counts[l] + (k - 1)) % m, 1, m);
        vstd::arithmetic::div_mod::lemma_mod_twice(counts[l] + (k - 1), m);
        assert(counts[l] + (k - 1) + 1 == counts[l] + k);
    }
}

/// The experts among the first `n` picks that only a queued read covers.
pub open spec fn covered_experts(
    m: MirrorState,
    layer: i32,
    sel: Seq<i32>,
    n: int,
    is_box2: spec_fn(u32) -> bool,
) -> Set<i32> {
    Set::new(
        |e: i32|
            0 <= e < 384 && sel.take(n).contains(e) && is_box2(e as u32) && (m.known(layer, e as u32) matches Some(k)
                && !k.held && !(k.pending && m.counts_pending) && k.incoming),
    )
}

/// An expert that only a queued read covers is counted once, however often it is
/// picked.
pub proof fn every_covered_expert_counts_once(
    m: MirrorState,
    layer: i32,
    sel: Seq<i32>,
    n: int,
    is_box2: spec_fn(u32) -> bool,
)
    requires
        0 <= n <= sel.len(),
    ensures
        covered_experts(m, layer, sel, n, is_box2).finite(),
        b2_mirror::covered_count(m, layer, sel, n, is_box2) == covered_experts(
            m,
            layer,
            sel,
            n,
            is_box2,
        ).len(),
    decreases n,
{
    let now = covered_experts(m, layer, sel, n, is_box2);
    if n == 0 {
        assert(now =~= Set::empty());
    } else {
        every_covered_expert_counts_once(m, layer, sel, n - 1, is_box2);
        let before = covered_experts(m, layer, sel, n - 1, is_box2);
        let x = sel[n - 1];
        let head = sel.take(n - 1);
        assert forall|e: i32| sel.take(n).contains(e) <==> head.contains(e) || e == x by {
            if head.contains(e) {
                let j = choose|j: int| 0 <= j < head.len() && head[j] == e;
                assert(sel.take(n)[j] == e);
            }
            if e == x {
                assert(sel.take(n)[n - 1] == e);
            }
            if sel.take(n).contains(e) && e != x {
                let j = choose|j: int| 0 <= j < sel.take(n).len() && sel.take(n)[j] == e;
                assert(head[j] == e);
            }
        }
        assert(head.contains(x) <==> b2_mirror::picks(sel, n - 1, x as int)) by {
            if head.contains(x) {
                let j = choose|j: int| 0 <= j < head.len() && head[j] == x;
                assert(sel[j] == x);
            }
            if b2_mirror::picks(sel, n - 1, x as int) {
                let j = choose|j: int| 0 <= j < n - 1 && #[trigger] sel[j] == x;
                assert(head[j] == x);
            }
        }
        if 0 <= x < 384 && b2_mirror::covered(m, layer, x as int) && is_box2(x as u32) {
            assert(now =~= before.insert(x));
        } else {
            assert(now =~= before);
        }
    }
}

/// The layers of which the other machine has experts are listed once, in order.
pub proof fn owned_layers_are_listed_once(counts: Seq<u32>, n: nat)
    requires
        n <= counts.len(),
        n <= u32::MAX,
    ensures
        ({
            let owned = devices::owned(counts, n);
            &&& forall|l: u32| #[trigger] owned.contains(l) <==> l < n && counts[l as int] > 0
            &&& forall|i: int, j: int| 0 <= i < j < owned.len() ==> owned[i] < owned[j]
        }),
    decreases n,
{
    if n > 0 {
        owned_layers_are_listed_once(counts, (n - 1) as nat);
        let before = devices::owned(counts, (n - 1) as nat);
        let owned = devices::owned(counts, n);
        assert forall|i: int| 0 <= i < before.len() implies #[trigger] before[i] < n - 1 by {
            assert(before.contains(before[i]));
        }
        if counts[n - 1] > 0 {
            assert(owned == before.push((n - 1) as u32));
            assert forall|l: u32| #[trigger] owned.contains(l) <==> l < n && counts[l as int]
                > 0 by {
                if before.contains(l) {
                    let j = choose|j: int| 0 <= j < before.len() && before[j] == l;
                    assert(owned[j] == l);
                }
                if l == n - 1 {
                    assert(owned[before.len() as int] == l);
                }
                if owned.contains(l) && l != n - 1 {
                    let j = choose|j: int| 0 <= j < owned.len() && owned[j] == l;
                    assert(before[j] == l);
                }
            }
        }
    }
}

/// The places of `sel` below `n` that pick expert `e`.
pub open spec fn places_of(sel: Seq<i32>, e: int, n: int) -> Set<int> {
    Set::new(|i: int| 0 <= i < n && sel[i] == e)
}

proof fn lemma_places(sel: Seq<i32>, e: int, n: int)
    requires
        0 <= n <= sel.len(),
    ensures
        places_of(sel, e, n).finite(),
        n > 0 ==> places_of(sel, e, n).len() == places_of(sel, e, n - 1).len() + if sel[n - 1]
            == e {
            1nat
        } else {
            0
        },
        n == 0 ==> places_of(sel, e, n).len() == 0,
    decreases n,
{
    if n == 0 {
        assert(places_of(sel, e, n) =~= Set::empty());
    } else {
        lemma_places(sel, e, n - 1);
        if sel[n - 1] == e {
            assert(places_of(sel, e, n) =~= places_of(sel, e, n - 1).insert(n - 1));
        } else {
            assert(places_of(sel, e, n) =~= places_of(sel, e, n - 1));
        }
    }
}

/// An expert's count grows by as many picks as it has, and a pick that names no
/// expert counts for nobody.
pub proof fn every_pick_counts_for_its_expert(row: Seq<u64>, sel: Seq<i32>, e: int)
    requires
        row.len() == 384,
        0 <= e < 384,
    ensures
        pick_stats::with_picks(row, sel).len() == 384,
        pick_stats::with_picks(row, sel)[e] as int == (row[e] + places_of(
            sel,
            e,
            sel.len() as int,
        ).len()) % 0x1_0000_0000_0000_0000int,
    decreases sel.len(),
{
    let m = 0x1_0000_0000_0000_0000int;
    let n = sel.len() as int;
    lemma_places(sel, e, n);
    if n > 0 {
        let head = sel.drop_last();
        every_pick_counts_for_its_expert(row, head, e);
        assert(places_of(head, e, n - 1) =~= places_of(sel, e, n - 1));
        let c = (row[e] + places_of(sel, e, n - 1).len()) as int;
        vstd::arithmetic::div_mod::lemma_add_mod_noop(c, 1, m);
        vstd::arithmetic::div_mod::lemma_add_mod_noop(c % m, 1, m);
        vstd::arithmetic::div_mod::lemma_mod_twice(c, m);
    }
}

/// The places of `sel` whose pick is an expert that is held.
pub open spec fn held_places(held: Seq<bool>, sel: Seq<i32>) -> Set<int> {
    Set::new(|i: int| 0 <= i < sel.len() && 0 <= sel[i] < 384 && held[sel[i] as int])
}

/// Every pick of an expert that is held counts, as often as it is picked.
pub proof fn every_held_pick_counts(held: Seq<bool>, sel: Seq<i32>)
    ensures
        held_places(held, sel).finite(),
        pick_stats::held_count(held, sel) == held_places(held, sel).len(),
    decreases sel.len(),
{
    if sel.len() == 0 {
        assert(held_places(held, sel) =~= Set::empty());
    } else {
        let head = sel.drop_last();
        every_held_pick_counts(held, head);
        if routing::is_expert(sel.last()) && held[sel.last() as int] {
            assert(held_places(held, sel) =~= held_places(held, head).insert(sel.len() - 1));
        } else {
            assert(held_places(held, sel) =~= held_places(held, head));
        }
    }
}

/// The places of the counts that are not 0.
pub open spec fn nonzero_places(s: Seq<u64>) -> Set<int> {
    Set::new(|i: int| 0 <= i < s.len() && s[i] > 0)
}

/// Every count that is not 0 is counted once.
pub proof fn every_count_above_zero_counts(s: Seq<u64>)
    ensures
        nonzero_places(s).finite(),
        counts::nonzero(s) == nonzero_places(s).len(),
    decreases s.len(),
{
    if s.len() == 0 {
        assert(nonzero_places(s) =~= Set::empty());
    } else {
        let head = s.drop_last();
        every_count_above_zero_counts(head);
        if s.last() > 0 {
            assert(nonzero_places(s) =~= nonzero_places(head).insert(s.len() - 1));
        } else {
            assert(nonzero_places(s) =~= nonzero_places(head));
        }
    }
}

/// A pick is kept as it is where it fits, and as the nearest number that fits where
/// it does not.
pub proof fn a_kept_pick_is_the_nearest(e: i32)
    ensures
        0 <= e <= 0xffff ==> pick_stats::kept_id(e) == e,
        e < 0 ==> pick_stats::kept_id(e) == 0,
        e > 0xffff ==> pick_stats::kept_id(e) == 0xffff,
{
}

/// A record has six places: those of the picks that there are, in their order, and
/// nobody's number in the others.
pub proof fn a_record_keeps_its_picks(ids: Seq<i32>, i: int)
    requires
        0 <= i < 6,
    ensures
        fidelity_tap::kept_ids(ids).len() == 6,
        i < ids.len() ==> fidelity_tap::kept_ids(ids)[i] == ids[i],
        i >= ids.len() ==> fidelity_tap::kept_ids(ids)[i] == -1,
{
}

/// A row whose picks are the table's, in any order, is left alone, and so is one that
/// the table does not reach; every other row gets the table's six picks for its layer
/// and position, and is listed as changed.
pub proof fn a_pin_changes_the_rows_that_differ(
    t: PinPicks,
    layer: int,
    pos: Seq<u32>,
    sel: Seq<i32>,
    n: int,
    r: int,
)
    requires
        t.wf(),
        0 <= layer,
        0 <= r < n <= pos.len(),
        n <= usize::MAX,
        sel.len() == 6 * pos.len(),
    ensures
        ({
            let row = sel.subrange(6 * r, 6 * r + 6);
            let at = 6 * (layer * t.n_pos + pos[r]);
            let reached = layer < t.n_layer && pos[r] < t.n_pos;
            let want = t.ids.subrange(at, at + 6);
            let changes = reached && want.to_multiset() != row.to_multiset();
            &&& fidelity_tap::overridden_rows(Some(t), layer, pos, sel, n).contains(r as usize)
                <==> changes
            &&& fidelity_tap::pinned_row(Some(t), layer, pos[r] as int, row) == if changes {
                want
            } else {
                row
            }
            &&& fidelity_tap::pinned_row(None, layer, pos[r] as int, row) == row
        }),
    decreases n,
{
    let rows = fidelity_tap::overridden_rows(Some(t), layer, pos, sel, n);
    let below = fidelity_tap::overridden_rows(Some(t), layer, pos, sel, n - 1);
    assert(fidelity_tap::row_of(sel, r) == sel.subrange(6 * r, 6 * r + 6)) by {
        assert(r * 6 == 6 * r && (r + 1) * 6 == 6 * r + 6);
    }
    assert((layer * t.n_pos + pos[r]) * 6 == 6 * (layer * t.n_pos + pos[r]));
    lemma_changed_below(Some(t), layer, pos, sel, n - 1);
    if fidelity_tap::overridden(
        Some(t),
        layer,
        pos[n - 1] as int,
        fidelity_tap::row_of(sel, n - 1),
    ) {
        assert(rows == below.push((n - 1) as usize));
        if below.contains(r as usize) {
            let j = choose|j: int| 0 <= j < below.len() && below[j] == r as usize;
            assert(rows[j] == r as usize);
        }
        if r == n - 1 {
            assert(rows[below.len() as int] == r as usize);
        }
        if rows.contains(r as usize) && r != n - 1 {
            let j = choose|j: int| 0 <= j < rows.len() && rows[j] == r as usize;
            assert(below[j] == r as usize);
        }
    }
    if r < n - 1 {
        a_pin_changes_the_rows_that_differ(t, layer, pos, sel, n - 1, r);
    }
}

proof fn lemma_changed_below(
    table: Option<PinPicks>,
    layer: int,
    pos: Seq<u32>,
    sel: Seq<i32>,
    n: int,
)
    requires
        n <= usize::MAX,
    ensures
        forall|x: usize| #[trigger]
            fidelity_tap::overridden_rows(table, layer, pos, sel, n).contains(x) ==> x < n,
    decreases n,
{
    if n > 0 {
        lemma_changed_below(table, layer, pos, sel, n - 1);
        let rows = fidelity_tap::overridden_rows(table, layer, pos, sel, n);
        let below = fidelity_tap::overridden_rows(table, layer, pos, sel, n - 1);
        assert forall|x: usize| #[trigger] rows.contains(x) implies x < n by {
            let j = choose|j: int| 0 <= j < rows.len() && rows[j] == x;
            if j < below.len() {
                assert(below.contains(x));
            }
        }
    }
}

/// The chunks of some members hold them all, and none of the chunks is spare.
pub proof fn chunks_hold_their_members(n: nat, chunk: nat)
    requires
        chunk > 0,
    ensures
        dispatch::chunks(n, chunk) * chunk >= n,
        n > 0 ==> (dispatch::chunks(n, chunk) - 1) * chunk < n,
        n == 0 ==> dispatch::chunks(n, chunk) == 0,
        dispatch::chunks(n, 0) == n,
{
    let c = chunk as int;
    let x = n + c - 1;
    vstd::arithmetic::div_mod::lemma_fundamental_div_mod(x, c);
    let q = x / c;
    assert(q >= 0) by (nonlinear_arith)
        requires
            x == c * q + x % c,
            0 <= x % c < c,
            x >= 0,
            c > 0,
    ;
    assert(q * c == c * q) by (nonlinear_arith);
    assert((q - 1) * c == c * q - c) by (nonlinear_arith);
    if n == 0 {
        vstd::arithmetic::div_mod::lemma_basic_div(x, c);
    }
    assert((n as int + 1 - 1) / 1 == n);
}

/// The bound on work items is no more than the members, nor than one chunk for each
/// group beside those that all members would fill together.
pub proof fn the_bound_is_no_looser(members: nat, groups: nat, chunk: nat)
    ensures
        dispatch::work_item_bound(members, groups, chunk) <= members,
        dispatch::work_item_bound(members, groups, chunk) <= groups + dispatch::chunks(
            members,
            chunk,
        ),
{
}

/// One more expert in a residency map is that expert alone.
pub proof fn a_bit_of_a_map_is_its_experts(words: Seq<u32>, w: int, b: u32, e: int)
    requires
        0 <= w < words.len(),
        b < 32,
        0 <= e,
    ensures
        b2_mirror::map_bit(words.update(w, words[w] | (1u32 << b)), e) == (b2_mirror::map_bit(
            words,
            e,
        ) || e == 32 * w + b),
        !b2_mirror::map_bit(Seq::empty(), e),
        words[w] == 0 && e / 32 == w ==> !b2_mirror::map_bit(words, e),
{
    let x = words[w];
    let i = (e % 32) as u32;
    assert((x | (1u32 << b)) & (1u32 << i) != 0 <==> (x & (1u32 << i) != 0 || i == b))
        by (bit_vector)
        requires
            b < 32,
            i < 32,
    ;
    assert(0u32 & (1u32 << i) == 0) by (bit_vector);
}

/// A hint waits behind the others where there is room for it, else it is dropped.
pub proof fn a_hint_waits_where_there_is_room(words: Seq<u32>, layer: i32, e: u32)
    requires
        0 <= layer < 0x1_0000,
        e < 0x1_0000,
    ensures
        ({
            let after = residency::hinted(words, layer, e);
            &&& words.len() < 4096 ==> {
                &&& after.len() == words.len() + 1
                &&& after.drop_last() == words
                &&& after.last() >> 16u32 == layer
                &&& after.last() & 0xffff == e
            }
            &&& words.len() >= 4096 ==> after == words
        }),
{
    residency::hint_word_round_trip(layer, e);
    assert(words.push(residency::hint_word(layer, e)).drop_last() =~= words);
}

/// A record waits behind the others where there is room for it, else it is counted as
/// dropped.
pub proof fn a_record_waits_where_there_is_room(t: TraceState, r: RecState)
    requires
        t.dropped < u64::MAX,
    ensures
        ({
            let after = evtrace::queued(t, r);
            &&& after.on == t.on
            &&& t.queue.len() < 8192 ==> {
                &&& after.queue.len() == t.queue.len() + 1
                &&& after.queue.drop_last() == t.queue
                &&& after.queue.last() == r
                &&& after.dropped == t.dropped
            }
            &&& t.queue.len() >= 8192 ==> after.queue == t.queue && after.dropped == t.dropped
                + 1
        }),
{
    assert(t.queue.push(r).drop_last() =~= t.queue);
}

/// A layer's misses in the shape of a histogram are those of its own experts.
pub proof fn a_layers_misses_are_its_experts(hist: Seq<u32>, m: MissShape, l: int)
    requires
        hist.len() == 40 * 384,
        miss_shape::is_shape(hist, m),
        m.total > 0,
        0 <= l < 40,
    ensures
        m.by_layer@.len() == 40,
        m.by_layer@[l] == counts::sum(Seq::new(384, |e: int| hist[384 * l + e] as u64)),
{
    assert(miss_shape::layer_part(hist, l) =~= Seq::new(384, |e: int| hist[384 * l + e] as u64));
}

} // verus!
