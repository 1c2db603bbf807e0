//! The pool of experts and what moves through it.

use v4flash_het::config::N_EXPERT;
use v4flash_het::counts::{count_nonzero, rank_by_count, sort_descending, sum_of, sum_of_largest};
use v4flash_het::expert_pager::{role_kr, DenseStep, EnsureStep, ExpertPager, PagerError};
use v4flash_het::knobs::{
    b1_prefetch, miss_read_threads, pager_batch_miss, pager_gpu_repack, pager_read_batch,
    pager_read_threads, pager_union_prefill, prefetch_admit_per_drain, prefetch_min_touch,
    t2_catchall, t2_catchall_deterministic, t2_partition, victim_cache,
};
use v4flash_het::ownership::share_picks;
use v4flash_het::pool::PagerCounters;
use v4flash_het::pool_setup::{repack_jobs, tensor_fits, tensor_name, RepackJob, Role};
use v4flash_het::prefetch::Prefetcher;
use v4flash_het::residency::{
    box2_missed, box2_missed_slot, clear_box2_miss, mark_box2_miss, partition_box2, push_hint,
    set_partition_share, take_box2_miss_by_layer, take_residency_hints, Box2Misses, Partition,
    ResidencyHints,
};
use v4flash_het::routing::{
    cap_local_claims, hint_missing_picks, hot_cap, local_ids, mark_missed_picks, own_by_partition,
    own_first_picks, own_residents, own_while_warming_up, remote_mask, split_mode,
    verify_routing_exactly_once, RoutingError, SplitMode,
};
use v4flash_het::windows::{
    dense_window_count, pool_slots, total_windows, window_stride, WindowLayout,
};

/// A pool without dense windows beyond the one that rotates.
fn pool(slots: u32) -> ExpertPager {
    ExpertPager::new(slots, None, Some(1), 0, true, 32, true)
}

/// Serves the picks of a layer one miss at a time, and returns the slots filled.
fn serve(p: &mut ExpertPager, layer: i32, ids: &[u32]) -> Vec<(u32, u32)> {
    let mut filled = Vec::new();
    let mut from = 0;
    while let EnsureStep::Fetch { index, slot } = p.ensure(layer, ids, from).unwrap() {
        p.page_in(layer, ids[index], slot);
        filled.push((ids[index], slot));
        from = index + 1;
    }
    filled
}

/// Serves the picks of a layer with all misses at once.
fn fetch_batch(p: &mut ExpertPager, layer: i32, ids: &[u32]) {
    for (e, slot) in p.ensure_batched(layer, ids).unwrap() {
        p.page_in(layer, e, slot);
    }
}

/// A pool with two decode slots, one of which holds a copy of an expert that was
/// resident in a window since and left with it.
fn pool_with_an_old_copy() -> ExpertPager {
    let mut p = pool(386);
    fetch_batch(&mut p, 2, &[7]);
    fetch_batch(&mut p, 0, &[0]);
    let need = p.ensure_layer_union(0, &[0]).unwrap();
    p.window_page_in(0, &need);
    let need = p.ensure_layer_union(1, &[5]).unwrap();
    p.window_page_in(1, &need);
    assert!(!p.is_resident(0, 0) && p.is_resident(2, 7));
    p
}

#[test]
fn misses_are_paged_in_once() {
    let mut p = pool(400);
    assert_eq!(p.slots(), 400);
    assert_eq!(p.decode_slots(), 16);
    let filled = serve(&mut p, 3, &[5, 6, 7]);
    assert_eq!(filled.iter().map(|f| f.0).collect::<Vec<u32>>(), vec![5, 6, 7]);
    assert!(filled.iter().all(|f| f.1 >= 384));
    assert!(p.is_resident(3, 6) && !p.is_resident(2, 6));
    for &(e, slot) in &filled {
        assert_eq!(p.remap()[e as usize], -(slot as i32) - 1);
    }
    assert!(serve(&mut p, 3, &[7, 5]).is_empty());
    assert_eq!((p.requests(), p.misses()), (5, 3));
    let c = p.counters();
    assert_eq!((c.decode_requests, c.decode_misses, c.prefill_requests), (5, 3, 0));
    let m = p.take_miss_shape().unwrap();
    assert_eq!((m.total, m.distinct, m.by_layer[3]), (3, 3, 3));
    assert_eq!(p.take_miss_shape().unwrap().total, 0);
}

#[test]
fn the_least_recently_used_leaves() {
    let mut p = pool(386);
    serve(&mut p, 0, &[1]);
    serve(&mut p, 0, &[2]);
    serve(&mut p, 0, &[1]);
    serve(&mut p, 0, &[3]);
    assert!(p.is_resident(0, 1) && p.is_resident(0, 3) && !p.is_resident(0, 2));
    assert_eq!(p.lru_free_slots(), 0);
    p.clear();
    assert!(!p.is_resident(0, 1));
    assert_eq!(p.lru_free_slots(), 2);
}

#[test]
fn an_expert_of_the_same_request_never_leaves() {
    let mut p = pool(386);
    let ids = [1, 2, 3];
    let mut from = 0;
    for _ in 0..2 {
        let Ok(EnsureStep::Fetch { index, slot }) = p.ensure(0, &ids, from) else { panic!() };
        p.page_in(0, ids[index], slot);
        from = index + 1;
    }
    assert!(matches!(p.ensure(0, &ids, from), Err(PagerError::NoSlot)));
    assert!(p.is_resident(0, 1) && p.is_resident(0, 2) && !p.is_resident(0, 3));
    let mut p = pool(387);
    serve(&mut p, 0, &[1, 2, 3]);
    serve(&mut p, 0, &[1, 4]);
    assert!(p.is_resident(0, 1) && p.is_resident(0, 4) && !p.is_resident(0, 2));
    let mut p = pool(386);
    serve(&mut p, 0, &[1, 2]);
    assert!(matches!(p.ensure_batched(0, &[1, 2, 3]), Err(PagerError::NoSlot)));
    assert!(p.is_resident(0, 1) && p.is_resident(0, 2));
}

#[test]
fn a_cleared_pool_fills_its_windows_again() {
    let mut p = pool(500);
    let all: Vec<(u32, usize)> = (0..N_EXPERT).map(|e| (e, e as usize)).collect();
    assert_eq!(p.ensure_layer_dense(7), Ok(DenseStep::Fill { base: 0 }));
    p.window_page_in(7, &all);
    p.finish_dense(7);
    assert_eq!(p.ensure_layer_dense(7), Ok(DenseStep::Resident));
    p.clear();
    assert!(!p.is_resident(7, 0));
    assert_eq!(p.ensure_layer_dense(7), Ok(DenseStep::Fill { base: 0 }));
}

#[test]
fn the_shape_of_the_misses_adds_up() {
    let mut p = pool(400);
    serve(&mut p, 3, &[5, 6, 7]);
    serve(&mut p, 8, &[5]);
    let m = p.take_miss_shape().unwrap();
    assert_eq!((m.total, m.distinct, m.top16), (4, 4, 4));
    assert_eq!(m.by_layer.len(), 40);
    assert_eq!(m.by_layer.iter().sum::<u64>(), m.total);
    let again = p.take_miss_shape().unwrap();
    assert_eq!((again.total, again.distinct, again.by_layer.len()), (0, 0, 0));
}

#[test]
fn a_batch_claims_its_slots_first() {
    let mut p = pool(388);
    serve(&mut p, 0, &[1]);
    let m = p.ensure_batched(0, &[1, 2, 3]).unwrap();
    assert_eq!(m.iter().map(|x| x.0).collect::<Vec<u32>>(), vec![2, 3]);
    for &(e, slot) in &m {
        p.page_in(0, e, slot);
    }
    assert!(p.is_resident(0, 1) && p.is_resident(0, 2) && p.is_resident(0, 3));
    assert!(matches!(
        pool(4).ensure_batched(0, &[1, 2, 3, 4, 5]),
        Err(PagerError::TooMany { asked: 5, slots: 4 })
    ));
    let mut tiny = ExpertPager::new(400, None, Some(1), 0, true, 1, false);
    assert!(matches!(
        tiny.ensure_batched(0, &[1, 2]),
        Err(PagerError::StagingFull { misses: 2, batch: 1 })
    ));
    assert!(tiny.take_miss_shape().is_none());
}

#[test]
fn more_than_fits_is_refused() {
    assert!(matches!(
        pool(4).ensure(0, &[1, 2, 3, 4, 5], 0),
        Err(PagerError::TooMany { asked: 5, slots: 4 })
    ));
    assert!(matches!(
        pool(100).ensure_layer_dense(0),
        Err(PagerError::PoolTooSmall { slots: 100 })
    ));
    assert!(matches!(
        pool(100).ensure_layer_union(0, &[1]),
        Err(PagerError::PoolTooSmall { slots: 100 })
    ));
}

#[test]
fn a_dense_layer_is_filled_once() {
    let mut p = pool(500);
    assert_eq!(p.ensure_layer_dense(7), Ok(DenseStep::Fill { base: 0 }));
    let all: Vec<(u32, usize)> = (0..N_EXPERT).map(|e| (e, e as usize)).collect();
    for chunk in all.chunks(100) {
        p.window_page_in(7, chunk);
    }
    p.finish_dense(7);
    assert_eq!(p.ensure_layer_dense(7), Ok(DenseStep::Resident));
    assert_eq!(p.ensure_layer_dense(8), Ok(DenseStep::Fill { base: 0 }));
    assert!(!p.is_resident(7, 0));
    let c = p.counters();
    assert_eq!((c.prefill_requests, c.prefill_misses), (3 * 384, 384));
    assert_eq!(p.routed_window(3), (0, 384));
}

#[test]
fn a_packed_window_is_not_dense() {
    let mut p = ExpertPager::new(384 + 3 * 100, Some(100), Some(4), 0, true, 32, false);
    assert_eq!(p.dense_windows(), 4);
    assert!(matches!(
        p.ensure_layer_dense(0),
        Err(PagerError::WindowPacked { window: 0, width: 100 })
    ));
    assert_eq!(p.routed_window(1), (100, 100));
    assert_eq!(p.routed_window(30), (300, 384));
    let ids: Vec<u32> = (0..101).collect();
    assert!(matches!(
        p.ensure_layer_union(0, &ids),
        Err(PagerError::UnionTooWide { window: 0, width: 100 })
    ));
}

#[test]
fn a_union_reads_what_it_lacks() {
    let mut p = pool(500);
    let need = p.ensure_layer_union(2, &[9, 4, 9]).unwrap();
    assert_eq!(need, vec![(9, 9), (4, 4)]);
    assert_eq!((p.remap()[9], p.remap()[4], p.remap()[5]), (-10, -5, 0));
    p.window_page_in(2, &need);
    assert!(p.is_resident(2, 4) && p.is_resident(2, 9));
    assert!(p.ensure_layer_union(2, &[4]).unwrap().is_empty());
    assert!(matches!(p.ensure_layer_union(2, &[4, 500]), Err(PagerError::BadExpert { id: 500 })));
    let (calls, sum, max, min, _) = p.union_stats();
    assert_eq!((calls, sum, max, min), (3, 4, 2, 1));
    p.add_prefill_times(5, 6);
    p.add_decode_times(1, 2, 3, 4, 5, 6);
    let c = p.counters();
    assert_eq!((c.prefill_read_ns, c.prefill_h2d_ns, c.decode_alloc_ns), (5, 6, 3));
    let d = c - PagerCounters { prefill_read_ns: 2, ..c };
    assert_eq!((d.prefill_read_ns, d.prefill_h2d_ns), (3, 0));
}

#[test]
fn a_narrow_window_is_packed() {
    let mut p = ExpertPager::new(384 + 3 * 100, Some(100), Some(4), 0, true, 32, false);
    let need = p.ensure_layer_union(1, &[9, 4, 9]).unwrap();
    assert_eq!(need, vec![(9, 100), (4, 101)]);
    assert_eq!((p.remap()[9], p.remap()[4], p.remap()[5]), (-1, -2, 0));
    p.window_page_in(1, &need);
    let need = p.ensure_layer_union(1, &[350, 9]).unwrap();
    assert_eq!(need, vec![(350, 102)]);
    assert_eq!((p.remap()[350], p.remap()[9], p.remap()[4]), (-3, -1, 0));
    let need = p.ensure_layer_union(20, &[350, 9]).unwrap();
    assert_eq!(need, vec![(350, 650), (9, 309)]);
}

#[test]
fn a_union_keeps_the_dense_layout() {
    let mut p = pool(500);
    let need = p.ensure_layer_union(3, &[200, 7]).unwrap();
    p.window_page_in(3, &need);
    let all: Vec<u32> = (0..N_EXPERT).rev().collect();
    let need = p.ensure_layer_union(3, &all).unwrap();
    assert_eq!(need.len(), 382);
    assert!(need.iter().all(|&(e, slot)| slot == e as usize));
    p.window_page_in(3, &need);
    assert!((0..N_EXPERT).all(|e| p.remap()[e as usize] == -(e as i32) - 1));
    // All are in place, but only a dense fill makes the window count as one.
    assert_eq!(p.ensure_layer_dense(3), Ok(DenseStep::Fill { base: 0 }));
    let all: Vec<(u32, usize)> = (0..N_EXPERT).map(|e| (e, e as usize)).collect();
    p.window_page_in(3, &all);
    p.finish_dense(3);
    assert!(p.ensure_layer_union(3, &[5, 6]).unwrap().is_empty());
    assert_eq!(p.ensure_layer_dense(3), Ok(DenseStep::Resident));
}

#[test]
fn a_union_takes_back_its_slots() {
    // The pool is no larger than its window, so decode shares the window's slots.
    let mut p = pool(384);
    let slot = match p.ensure(0, &[1], 0) {
        Ok(EnsureStep::Fetch { slot, .. }) => slot,
        other => panic!("{other:?}"),
    };
    assert_eq!(slot, 0);
    let need = p.ensure_layer_union(2, &[7]).unwrap();
    p.window_page_in(2, &need);
    p.page_in(0, 1, slot);
    assert!(p.is_resident(0, 1));
    assert_eq!(p.ensure_layer_union(2, &[0, 7]).unwrap(), vec![(0, 0)]);
    assert!(!p.is_resident(0, 1) && p.is_resident(2, 7));
}

#[test]
fn an_old_copy_is_no_reason_to_refuse() {
    let mut p = pool_with_an_old_copy();
    fetch_batch(&mut p, 0, &[0, 1]);
    assert!(p.is_resident(0, 0) && p.is_resident(0, 1));
    assert_ne!(p.remap()[0], p.remap()[1]);
    let mut q = pool_with_an_old_copy();
    serve(&mut q, 0, &[0, 1]);
    assert!(q.is_resident(0, 0) && q.is_resident(0, 1));
    assert_ne!(q.remap()[0], q.remap()[1]);
}

#[test]
fn evicting_an_old_copy_moves_no_expert() {
    let mut p = pool(386);
    serve(&mut p, 0, &[0]);
    serve(&mut p, 2, &[7]);
    let need = p.ensure_layer_union(0, &[0]).unwrap();
    p.window_page_in(0, &need);
    let mut pf = Prefetcher::new(1);
    let mut hints = ResidencyHints::new();
    let mut misses = Box2Misses::new();
    assert!(p.prefetch_hint(&mut pf, 3, 1));
    let slot = p.drain_prefetched(&mut pf, &mut hints, 3, 1, true).unwrap().unwrap();
    p.admit_prefetched(&mut misses, 3, 1, slot);
    assert_eq!(slot, 384);
    assert!(p.is_resident(0, 0) && p.is_resident(2, 7) && p.is_resident(3, 1));
    assert!(p.prefetch_hint(&mut pf, 3, 2));
    let slot = p.drain_prefetched(&mut pf, &mut hints, 3, 2, true).unwrap().unwrap();
    p.admit_prefetched(&mut misses, 3, 2, slot);
    assert!(!p.is_resident(2, 7));
    let (admitted, evicted) = take_residency_hints(&mut hints, 8);
    assert_eq!(admitted, vec![(3 << 16) | 1, (3 << 16) | 2]);
    assert_eq!(evicted, vec![(2 << 16) | 7]);
}

#[test]
fn a_batch_as_large_as_the_decode_region_is_served() {
    let mut p = pool(388);
    serve(&mut p, 5, &[1, 2, 3, 4]);
    fetch_batch(&mut p, 0, &[10, 11, 12, 13]);
    assert!((10..14).all(|e| p.is_resident(0, e)));
    fetch_batch(&mut p, 0, &[13, 1, 12, 2]);
    assert!(p.is_resident(0, 13) && p.is_resident(0, 12) && p.is_resident(0, 1) && p.is_resident(0, 2));
}

#[test]
fn remote_experts_are_marked() {
    let mut p = pool(400);
    serve(&mut p, 0, &[1, 2]);
    let kept = p.remap()[1];
    assert!(p.mark_remote_after_ensure(|e| e == 2));
    assert_eq!(p.remap()[1], kept);
    assert_eq!(p.remap()[2], 0);
    assert!(!p.mark_remote_after_ensure(|_| false));
    let mut q = pool(500);
    let need = q.ensure_layer_union(4, &[3, 10]).unwrap();
    q.window_page_in(4, &need);
    q.set_remote_exclusion(4, |e| e >= 10).unwrap();
    assert_eq!((q.remap()[3], q.remap()[10], q.remap()[5]), (-4, 0, 0));
    assert_eq!(q.remap_buffer(), 4);
}

#[test]
fn a_prefetched_expert_is_admitted() {
    let mut p = pool(386);
    let mut pf = Prefetcher::new(1);
    let mut hints = ResidencyHints::new();
    let mut misses = Box2Misses::new();
    mark_box2_miss(&mut misses, 0, 9);
    assert!(p.prefetch_hint(&mut pf, 0, 9));
    assert!(!p.prefetch_hint(&mut pf, 0, 9), "already on its way");
    let slot = p.drain_prefetched(&mut pf, &mut hints, 0, 9, true).unwrap().unwrap();
    p.admit_prefetched(&mut misses, 0, 9, slot);
    assert!(p.is_resident(0, 9) && !box2_missed(&misses, 0, 9));
    assert!(!p.prefetch_hint(&mut pf, 0, 9), "it is there");
    assert_eq!(p.drain_prefetched(&mut pf, &mut hints, 0, 10, false), Ok(None));
    pf.note_admitted(1, 3_000_000);
    assert_eq!(pf.prefetch_stats(), (1, 1, 0, 3));
    let (admitted, _) = take_residency_hints(&mut hints, 8);
    assert_eq!(admitted, vec![9]);
}

#[test]
fn a_prefetch_waits_for_touches() {
    let mut pf = Prefetcher::new(3);
    assert!(!pf.hint(false, 1, 2) && !pf.hint(false, 1, 2) && pf.hint(false, 1, 2));
    pf.arrived(1, 2);
    assert!(!pf.hint(true, 1, 2));
}

#[test]
fn box2_misses_are_marked_and_counted() {
    let mut m = Box2Misses::new();
    assert_eq!(box2_missed_slot(1, 65), Some((7, 2)));
    assert_eq!(box2_missed_slot(40, 0), None);
    assert_eq!(box2_missed_slot(0, 384), None);
    mark_box2_miss(&mut m, 1, 65);
    mark_box2_miss(&mut m, 1, 65);
    mark_box2_miss(&mut m, 50, 1);
    assert!(box2_missed(&m, 1, 65) && !box2_missed(&m, 1, 64));
    assert_eq!(take_box2_miss_by_layer(&mut m)[1], 2);
    assert_eq!(take_box2_miss_by_layer(&mut m)[1], 0);
    clear_box2_miss(&mut m, 1, 65);
    assert!(!box2_missed(&m, 1, 65));
}

#[test]
fn hints_are_taken_in_order() {
    let mut h = ResidencyHints::new();
    for e in 0..5 {
        push_hint(&mut h, true, 2, e);
    }
    push_hint(&mut h, false, 3, 7);
    let (a, e) = take_residency_hints(&mut h, 3);
    assert_eq!(a, vec![(2 << 16), (2 << 16) | 1, (2 << 16) | 2]);
    assert_eq!(e, vec![(3 << 16) | 7]);
    let (a, e) = take_residency_hints(&mut h, 3);
    assert_eq!((a.len(), e.len()), (2, 0));
}

#[test]
fn the_partition_follows_the_slots() {
    let mut p = Partition::new();
    assert!(set_partition_share(&mut p, None, 300, 700));
    assert!(!set_partition_share(&mut p, Some(1000), 300, 700));
    assert!((0..N_EXPERT).all(|e| !partition_box2(&p, 3, e)), "all of it is box 1's");
    set_partition_share(&mut p, Some(0), 1, 1);
    assert!((0..N_EXPERT).all(|e| partition_box2(&p, 3, e)));
    set_partition_share(&mut p, None, 300, 700);
    let owns = own_by_partition(&p, 5);
    let n = owns.iter().filter(|&&b| b).count();
    assert!((200..330).contains(&n), "{n}");
}

#[test]
fn every_pick_is_computed_once() {
    let mut remap = vec![0i32; 384];
    remap[1] = -5;
    remap[2] = -6;
    let mut owns = vec![true; 384];
    owns[1] = false;
    owns[2] = false;
    assert_eq!(verify_routing_exactly_once(0, &[1, 2, 3], &remap, Some(&owns)), Ok(()));
    assert!(verify_routing_exactly_once(0, &[1, 2, 3], &remap, None).is_err());
    owns[3] = false;
    let e: Result<(), RoutingError> = verify_routing_exactly_once(4, &[3], &remap, Some(&owns));
    assert!(e.is_err(), "nobody computes it");
}

#[test]
fn picks_are_split() {
    assert_eq!(local_ids(&[5, -1, 6, 900], None), vec![5, 6]);
    let mut owns = vec![false; 384];
    owns[6] = true;
    assert_eq!(local_ids(&[5, 6, 7], Some(&owns)), vec![5, 7]);
    assert_eq!(remote_mask(&[5, 6, -1], &owns), vec![false, true, false]);
    let o = own_first_picks(&[9, 9, 8, 7], 2);
    assert!(!o[9] && !o[8] && o[7] && o[0]);
    let mut claims = vec![true; 384];
    claims[9] = false;
    claims[8] = false;
    cap_local_claims(&mut claims, &[9, 8], 1);
    assert!(!claims[9] && claims[8]);
    assert_eq!((hot_cap(true, 3), hot_cap(false, 3)), (6, 3));
    assert_eq!(split_mode(false, Some(2), true, true, true, true), SplitMode::Off);
}

#[test]
fn ownership_follows_residency() {
    let mut p = pool(400);
    serve(&mut p, 1, &[3, 4]);
    let o = own_residents(&p, 1);
    assert!(!o[3] && !o[4] && o[5]);
    let mut m = Box2Misses::new();
    let o = own_while_warming_up(&p, &m, 1, &[3, 5, 6], false);
    assert!(!o[3]);
    let mut pf = Prefetcher::new(1);
    let asked = hint_missing_picks(&p, &mut pf, 1, &[3, 5], &[true; 384]);
    assert_eq!(asked, vec![5]);
    mark_missed_picks(&mut m, 1, &[3, 5, 6], 0b101, 3);
    assert!(box2_missed(&m, 1, 3) && !box2_missed(&m, 1, 5) && box2_missed(&m, 1, 6));
}

#[test]
fn windows_of_a_pool() {
    assert_eq!((window_stride(None), window_stride(Some(0)), window_stride(Some(999))), (384, 1, 384));
    assert_eq!((total_windows(300, 384), total_windows(384 * 3 + 10, 384)), (1, 3));
    assert_eq!(dense_window_count(Some(0), 9, true, 9), 1);
    assert_eq!(dense_window_count(Some(50), 9, true, 9), 9);
    assert_eq!(dense_window_count(None, 30, true, 100), 22);
    assert_eq!(dense_window_count(None, 90, false, 100), 41);
    assert_eq!(dense_window_count(None, 9, true, 3), 2);
    assert_eq!(pool_slots(7, Some(9), 0, 1), 7);
    assert_eq!(pool_slots(0, Some(9), 0, 1), 9);
    assert_eq!(pool_slots(0, None, 1000, 1), 1000);
    assert_eq!(pool_slots(0, None, 10, 1), 64);
    assert_eq!(pool_slots(0, None, 1_000_000, 1), 15360);
    let l = WindowLayout { n_slots: 1000, stride: 100, dense_windows: 3 };
    assert_eq!((l.pinned_windows(), l.window_base(2), l.window_width(0), l.window_width(2)), (2, 200, 100, 384));
    assert_eq!((l.dense_slots(), l.decode_slots()), (584, 416));
    assert_eq!((l.window_of(1), l.window_of(9)), (1, 2));
    assert_eq!((l.window_of_slot(150), l.window_of_slot(300), l.window_of_slot(600)), (Some(1), Some(2), None));
    assert!(l.sparse_group_ids_in_range());
    assert_eq!(l.sparse_group_bound(), 1000);
}

#[test]
fn parts_of_an_expert() {
    assert_eq!(role_kr("gate"), (5120, 2304));
    assert_eq!(role_kr("down"), (2304, 5120));
    assert_eq!(tensor_name(12, Role::Up), "blk.12.ffn_up_exps.weight");
    assert!(tensor_fits(384 * 17, 17) && !tensor_fits(384 * 17 + 1, 17));
    let jobs = repack_jobs(2, [6266880; 3]);
    assert_eq!(
        jobs[2],
        RepackJob { role: Role::Down, rows: 5120, blocks: 72, offset: 12533760 }
    );
    assert_eq!(jobs[0].rows as u64 * jobs[0].blocks as u64 * 17, 6266880);
}

#[test]
fn counts_are_ranked() {
    let v = [3u64, 0, 9, 1];
    assert_eq!(sort_descending(&v), vec![9, 3, 1, 0]);
    assert_eq!((sum_of(&v), sum_of_largest(&v, 2), count_nonzero(&v)), (13, 12, 3));
    assert_eq!(rank_by_count(&v), vec![2, 0, 3, 1]);
}

#[test]
fn pager_knobs() {
    assert_eq!((pager_read_batch(None), pager_read_batch(Some(0))), (32, 1));
    assert!(pager_read_threads(None) >= 1 && miss_read_threads(Some(0)) == 1);
    assert!(prefetch_admit_per_drain(Some(3)) == 3 && prefetch_min_touch(Some(2)) == 2);
    assert!(t2_partition(Some("1")) && !t2_partition(Some("on")));
    assert!(t2_catchall(Some("1")) && !t2_catchall(Some("0")) && !t2_catchall(None));
    assert!(t2_catchall_deterministic(Some("2")) && !t2_catchall_deterministic(Some("1")));
    let _ = (
        victim_cache(None),
        pager_gpu_repack(None),
        pager_batch_miss(None),
        pager_union_prefill(None),
        b1_prefetch(None),
    );
}

#[test]
fn picks_are_shared() {
    let mut p = pool(400);
    serve(&mut p, 1, &[3, 4]);
    let mut pf = Prefetcher::new(1);
    let mut m = Box2Misses::new();
    let part = Partition::new();
    let mut declared = vec![false; 384];
    declared[9] = true;
    let sel = [3, 9, 7, 3];
    let mut share = |mode: SplitMode, cap: Option<usize>| {
        share_picks(mode, cap, false, &p, &mut pf, &mut m, &part, &declared, 1, &sel)
    };
    assert!(share(SplitMode::Off, None).is_none());
    let s = share(SplitMode::Static, None).unwrap();
    assert!(s.owns[9] && !s.owns[3] && !s.owns[7] && s.reads.is_empty());
    let s = share(SplitMode::Static, Some(1)).unwrap();
    assert!(s.owns[9] && !s.owns[3] && s.owns[7]);
    let s = share(SplitMode::AllRemote, None).unwrap();
    assert!(s.owns.iter().all(|b| *b));
    let s = share(SplitMode::LocalPicks(2), None).unwrap();
    assert!(!s.owns[3] && !s.owns[9] && s.owns[7]);
    let s = share(SplitMode::Prefetch, None).unwrap();
    assert!(!s.owns[3] && s.owns[9]);
    assert_eq!(s.reads, vec![9, 7]);
    let s = share(SplitMode::WarmUp, None).unwrap();
    assert!(!s.owns[3] && !s.owns[9] && !s.owns[7] && s.owns[8]);
}

#[test]
fn a_pick_stays_marked_until_it_is_taken() {
    let mut p = pool(400);
    serve(&mut p, 1, &[3]);
    let mut pf = Prefetcher::new(1);
    let mut m = Box2Misses::new();
    for e in [7, 8, 9] {
        mark_box2_miss(&mut m, 1, e);
    }
    let part = Partition::new();
    let sel = [3, 9, 7];
    let s = share_picks(SplitMode::WarmUp, Some(2), true, &p, &mut pf, &mut m, &part, &[], 1, &sel).unwrap();
    assert!(!s.owns[3] && !s.owns[9] && s.owns[7]);
    assert!(!box2_missed(&m, 1, 9), "taken");
    assert!(box2_missed(&m, 1, 7), "handed over by the cap");
    assert!(box2_missed(&m, 1, 8), "not picked");
    assert!(!s.owns[3] && p.is_resident(1, 3));
}
