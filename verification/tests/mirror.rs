//! The mirror of the other machine's experts, and the substitution of missing picks.

use std::collections::HashMap;
use v4flash_het::b2_mirror::{
    begin_step, expire_incoming, lookup, note_admits, note_incoming, note_incoming_covered,
    note_submitted, record, resident, take_sub_stats, update, Mirror, Residency,
};
use v4flash_het::config::{N_EXPERT, N_LAYER};
use v4flash_het::knobs::{incoming_steps, min_rank, mode, wanted};
use v4flash_het::substitute::{substitute, SubOutcome, SubRules};

const S: f32 = 1.5;
const MAX_ALT: usize = 8;
const LAYERS: usize = N_LAYER as usize;
const NE: usize = N_EXPERT as usize;

/// The rules, with the weights' part of them.
#[derive(Clone, Copy)]
struct Rules {
    min_rank: usize,
    max_w: Option<f32>,
    scale: f32,
}

const R6: Rules = Rules { min_rank: 6, max_w: None, scale: S };

/// A row's weights after some choices, and what they were divided by.
fn reweighted(w: &[f32], alt_w: &[f32], chosen: &[Option<usize>], scale: f32) -> (Vec<f32>, f32) {
    let mut w = w.to_vec();
    let mut all = 1.0f32;
    for (k, choice) in chosen.iter().enumerate() {
        if let Some(j) = choice {
            let wa = alt_w[*j] / all;
            let c = (1.0 - w[k] / scale + wa / scale).max(1e-6);
            for x in w.iter_mut() {
                *x /= c;
            }
            w[k] = wa / c;
            all *= c;
        }
    }
    (w, all)
}

/// Substitutes, and gives every changed row its weights.
#[allow(clippy::too_many_arguments)]
fn swap(
    sel: &mut Vec<i32>,
    ew: &mut Vec<f32>,
    alts: &[i32],
    alt_w: &[f32],
    nu: usize,
    na: usize,
    rules: Rules,
    miss: impl Fn(i32) -> bool,
    ok: impl Fn(i32) -> bool,
) -> SubOutcome {
    let held = ew.clone();
    let fits = |r: usize, chosen: &Vec<Option<usize>>, k: usize, j: usize| {
        let Some(cap) = rules.max_w else { return true };
        let alt = &alt_w[r * na..(r + 1) * na];
        let (w, all) = reweighted(&held[r * nu..(r + 1) * nu], alt, chosen, rules.scale);
        let wa = alt[j] / all;
        let c = (1.0 - w[k] / rules.scale + wa / rules.scale).max(1e-6);
        w[k] <= cap && wa / c <= cap
    };
    let plain = SubRules { min_rank: rules.min_rank, max_alt: MAX_ALT };
    let (out, chosen) = substitute(sel, alts, nu, na, plain, miss, ok, fits);
    for r in 0..chosen.len() / nu {
        let row = &chosen[r * nu..(r + 1) * nu];
        let (w, _) = reweighted(
            &held[r * nu..(r + 1) * nu],
            &alt_w[r * na..(r + 1) * na],
            row,
            rules.scale,
        );
        ew[r * nu..(r + 1) * nu].copy_from_slice(&w);
    }
    out
}

/// Weights like the router's.
fn weights(p: &[f32]) -> Vec<f32> {
    let s: f32 = p.iter().sum();
    p.iter().map(|x| x / s * S).collect()
}

#[test]
fn swaps_the_6th_and_renormalizes_exactly() {
    let probs = [0.9f32, 0.8, 0.7, 0.6, 0.5, 0.4];
    let sum: f32 = probs.iter().sum();
    let mut sel = vec![10, 11, 12, 13, 14, 15];
    let mut ew = weights(&probs);
    let alts = vec![20, 21];
    let alt_w = vec![0.39 / sum * S, 0.38 / sum * S];
    let o = swap(&mut sel, &mut ew, &alts, &alt_w, 6, 2, R6, |e| e == 15, |_| true);
    assert_eq!(o, SubOutcome { predicted: 1, avoided: 1, slots: 1, blocked: 0, failed: 0 });
    assert_eq!(sel, vec![10, 11, 12, 13, 14, 20]);
    let want = weights(&[0.9, 0.8, 0.7, 0.6, 0.5, 0.39]);
    for (g, w) in ew.iter().zip(&want) {
        assert!((g - w).abs() < 1e-6, "{ew:?} vs {want:?}");
    }
}

#[test]
fn two_swaps_in_one_row_stay_exact() {
    let probs = [0.9f32, 0.8, 0.7, 0.6, 0.5, 0.4];
    let sum: f32 = probs.iter().sum();
    let mut sel = vec![10, 11, 12, 13, 14, 15];
    let mut ew = weights(&probs);
    let alts = vec![20, 21, 22];
    let alt_w: Vec<f32> = [0.39f32, 0.30, 0.2].iter().map(|p| p / sum * S).collect();
    let r5 = Rules { min_rank: 5, ..R6 };
    let o = swap(&mut sel, &mut ew, &alts, &alt_w, 6, 3, r5, |e| e == 14 || e == 15, |_| true);
    assert_eq!(o.slots, 2);
    assert_eq!(sel, vec![10, 11, 12, 13, 20, 21]);
    let want = weights(&[0.9, 0.8, 0.7, 0.6, 0.39, 0.30]);
    for (g, w) in ew.iter().zip(&want) {
        assert!((g - w).abs() < 1e-6, "{ew:?} vs {want:?}");
    }
}

#[test]
fn min_rank_protects_heavier_picks_everywhere() {
    let mut sel = vec![10, 11, 12, 13, 14, 15, 15, 1, 2, 3, 4, 5];
    let mut ew = vec![0.25; 12];
    let alts = vec![20, 21, 22, 23];
    let alt_w = vec![0.1; 4];
    let before = (sel.clone(), ew.clone());
    let o = swap(&mut sel, &mut ew, &alts, &alt_w, 6, 2, R6, |e| e == 15, |_| true);
    assert_eq!(o, SubOutcome { predicted: 1, avoided: 0, slots: 0, blocked: 1, failed: 0 });
    assert_eq!((sel, ew), before);
}

#[test]
fn all_rows_or_none() {
    let mut sel = vec![10, 11, 12, 13, 14, 15, 1, 2, 3, 4, 5, 15];
    let mut ew = vec![0.25; 12];
    let alts = vec![20, 21, 30, 31];
    let alt_w = vec![0.1; 4];
    let before = sel.clone();
    let o = swap(&mut sel, &mut ew, &alts, &alt_w, 6, 2, R6, |e| e == 15, |a| a < 30);
    assert_eq!(o.blocked, 1);
    assert_eq!(o.slots, 0);
    assert_eq!(sel, before);
}

#[test]
fn a_blocked_expert_frees_its_alternative() {
    let mut sel = vec![10, 11, 12, 13, 14, 15, 14, 1, 2, 3, 4, 5];
    let mut ew = vec![0.25; 12];
    let alts = vec![20, 21, 30, 31];
    let alt_w = vec![0.1; 4];
    let r5 = Rules { min_rank: 5, ..R6 };
    let o = swap(
        &mut sel,
        &mut ew,
        &alts,
        &alt_w,
        6,
        2,
        r5,
        |e| e == 14 || e == 15,
        |a| a == 20,
    );
    assert_eq!((o.predicted, o.avoided, o.blocked, o.slots), (2, 1, 1, 1));
    assert_eq!(&sel[..6], &[10, 11, 12, 13, 14, 20]);
}

#[test]
fn max_w_caps_the_mass_moved_at_any_rank() {
    let any = Rules { min_rank: 1, max_w: Some(0.3), scale: S };
    let mut flat = vec![15, 11, 12, 13, 14, 16];
    let mut w_flat = vec![0.25f32; 6];
    let o = swap(&mut flat, &mut w_flat, &[20], &[0.24], 6, 1, any, |e| e == 15, |_| true);
    assert_eq!(o.slots, 1);
    assert_eq!(flat[0], 20);

    let mut heavy = vec![15, 11, 12, 13, 14, 16];
    let mut w_heavy = vec![0.6f32, 0.3, 0.2, 0.15, 0.15, 0.1];
    let o = swap(&mut heavy, &mut w_heavy, &[20], &[0.09], 6, 1, any, |e| e == 15, |_| true);
    assert_eq!((o.slots, o.blocked), (0, 1));
    assert_eq!(heavy[0], 15);

    let mut s = vec![10, 11, 12, 13, 14, 15];
    let mut w = vec![0.4f32, 0.3, 0.3, 0.2, 0.2, 0.1];
    let r = Rules { min_rank: 6, max_w: Some(0.3), scale: S };
    let o = swap(&mut s, &mut w, &[20], &[0.5], 6, 1, r, |e| e == 15, |_| true);
    assert_eq!(o.slots, 0, "a weak pick replaced by a heavy substitute moves too much mass");
}

#[test]
fn skips_unacceptable_and_duplicate_alternatives() {
    let mut sel = vec![10, 11, 12, 13, 14, 15];
    let mut ew = vec![0.25; 6];
    let alts = vec![20, 11, 22];
    let alt_w = vec![0.1, 0.1, 0.1];
    let o = swap(&mut sel, &mut ew, &alts, &alt_w, 6, 3, R6, |e| e == 15, |a| a != 20);
    assert_eq!(o.slots, 1);
    assert_eq!(sel[5], 22);
}

#[test]
fn a_missing_alternative_is_never_chosen() {
    let mut sel = vec![10, 11, 12, 13, 14, 15];
    let mut ew = vec![0.25; 6];
    let alts = vec![20, 21];
    let alt_w = vec![0.1, 0.1];
    let miss = |e: i32| e == 15 || e == 20;
    let o = swap(&mut sel, &mut ew, &alts, &alt_w, 6, 2, R6, miss, |a| !miss(a));
    assert_eq!(sel[5], 21);
    assert_eq!(o.predicted, 1, "20 is not a pick, so it is not a predicted miss");
}

#[test]
fn nothing_missing_is_a_no_op() {
    let mut sel = vec![10, 11, 12, 13, 14, 15];
    let mut ew = vec![0.25; 6];
    let before = (sel.clone(), ew.clone());
    let o = swap(&mut sel, &mut ew, &[20, 21], &[0.1, 0.1], 6, 2, R6, |_| false, |_| true);
    assert_eq!(o, SubOutcome::none());
    assert_eq!((sel, ew), before);
}

#[test]
fn randomized_plans_apply_cleanly() {
    let mut s = 0x2545f4914f6cdd1du64;
    let mut rnd = move |n: u32| {
        s ^= s << 13;
        s ^= s >> 7;
        s ^= s << 17;
        (s % n as u64) as u32
    };
    let (nu, na) = (6usize, 4usize);
    let (mut total_slots, mut multi_row_swaps) = (0u32, 0u32);
    for trial in 0..3000 {
        let b = 1 + rnd(6) as usize;
        let pool = 16 + rnd(24) as i32;
        let mut sel = Vec::with_capacity(b * nu);
        let mut alts = Vec::with_capacity(b * na);
        let mut ew = Vec::with_capacity(b * nu);
        let mut alt_w = Vec::with_capacity(b * na);
        let mut probs: Vec<HashMap<i32, f32>> = Vec::with_capacity(b);
        for _ in 0..b {
            let mut ids: Vec<i32> = Vec::new();
            while ids.len() < nu + na {
                let e = rnd(pool as u32) as i32;
                if !ids.contains(&e) {
                    ids.push(e);
                }
            }
            let mut p: Vec<f32> =
                (0..nu + na).map(|_| 0.05 + rnd(1000) as f32 / 1000.0).collect();
            p.sort_by(|a, b| b.partial_cmp(a).unwrap());
            let sum: f32 = p[..nu].iter().sum();
            probs.push(ids.iter().copied().zip(p.iter().copied()).collect());
            sel.extend_from_slice(&ids[..nu]);
            alts.extend_from_slice(&ids[nu..]);
            ew.extend(p[..nu].iter().map(|x| x / sum * S));
            alt_w.extend(p[nu..].iter().map(|x| x / sum * S));
        }
        let miss_mask: u64 = ((rnd(u32::MAX) as u64) << 32) | rnd(u32::MAX) as u64;
        let ok_mask: u64 = ((rnd(u32::MAX) as u64) << 32) | rnd(u32::MAX) as u64;
        let miss = |e: i32| (miss_mask >> (e % 64)) & 1 == 1;
        let acceptable = |a: i32| !miss(a) && (ok_mask >> (a % 64)) & 1 == 1;
        let rules = Rules {
            min_rank: 1 + rnd(6) as usize,
            max_w: if rnd(2) == 0 { None } else { Some(0.1 + rnd(30) as f32 / 100.0) },
            scale: S,
        };
        let before = sel.clone();
        let o = swap(&mut sel, &mut ew, &alts, &alt_w, nu, na, rules, miss, acceptable);
        assert_eq!(o.failed, 0, "trial {trial}: {o:?}");
        total_slots += o.slots;
        let mut missing: Vec<i32> = before.iter().copied().filter(|&e| miss(e)).collect();
        missing.sort();
        missing.dedup();
        let gone = missing.iter().filter(|e| !sel.contains(e)).count() as u32;
        assert_eq!(gone, o.avoided, "trial {trial}: {o:?}");
        let mut rows_swapped = 0;
        for r in 0..b {
            let row = &sel[r * nu..(r + 1) * nu];
            let sum: f32 = ew[r * nu..(r + 1) * nu].iter().sum();
            assert!((sum - S).abs() < 1e-3, "trial {trial} row {r}: weights sum {sum}");
            let p_sum: f32 = row.iter().map(|e| probs[r][e]).sum();
            for k in 0..nu {
                let want = probs[r][&row[k]] / p_sum * S;
                assert!(
                    (ew[r * nu + k] - want).abs() < 1e-5,
                    "trial {trial} row {r} slot {k}: {} vs ref.Gate {want}",
                    ew[r * nu + k]
                );
            }
            if row != &before[r * nu..(r + 1) * nu] {
                rows_swapped += 1;
            }
            for k in 0..nu {
                assert!(!row[k + 1..].contains(&row[k]), "trial {trial} row {r}: duplicate pick");
                if row[k] != before[r * nu + k] {
                    assert!(
                        acceptable(row[k]),
                        "trial {trial}: swapped in a non-acceptable expert"
                    );
                    assert!(k + 1 >= rules.min_rank, "trial {trial}: swapped above min_rank");
                    if let Some(cap) = rules.max_w {
                        let p_before: f32 =
                            before[r * nu..(r + 1) * nu].iter().map(|e| probs[r][e]).sum();
                        assert!(
                            probs[r][&before[r * nu + k]] / p_before * S <= cap + 1e-4
                                || !miss(before[r * nu + k]),
                            "trial {trial}: swapped a pick heavier than the cap"
                        );
                        assert!(
                            ew[r * nu + k] <= cap * 1.25,
                            "trial {trial}: substitute far above the cap: {}",
                            ew[r * nu + k]
                        );
                    }
                }
            }
        }
        if rows_swapped > 1 {
            multi_row_swaps += 1;
        }
        for (i, &e) in before.iter().enumerate() {
            if sel[i] != e {
                assert!(
                    !sel.contains(&e),
                    "trial {trial}: {e} swapped in one row, kept in another"
                );
            }
        }
    }
    assert!(total_slots > 1000, "only {total_slots} swaps in 3000 trials");
    assert!(multi_row_swaps > 300, "only {multi_row_swaps} trials swapped in several rows");
}

#[test]
fn mirror_update_pending_and_lookup() {
    let mut m = Mirror::new(true, 2);
    let l = (LAYERS - 1) as u32;
    assert_eq!(resident(&m, l as i32, 3), None, "unseen layer is unknown");
    let mut w = vec![0u32; (N_EXPERT as usize).div_ceil(32)];
    w[0] = 1 << 3;
    w[(N_EXPERT as usize).div_ceil(32) - 1] = 1 << 31;
    update(&mut m, l, &w);
    assert_eq!(resident(&m, l as i32, 3), Some(true));
    assert_eq!(resident(&m, l as i32, 4), Some(false));
    assert_eq!(resident(&m, l as i32, N_EXPERT - 1), Some(true));
    assert_eq!(resident(&m, l as i32, N_EXPERT), None, "out of range");
    note_submitted(&mut m, l, &[4, -1, 9999]);
    assert_eq!(resident(&m, l as i32, 4), Some(true));
    assert_eq!(
        lookup(&m, l as i32, 4),
        Some(Residency { held: false, pending: true, incoming: false }),
        "pending, not held"
    );
    update(&mut m, l, &w);
    assert_eq!(resident(&m, l as i32, 4), Some(false));
}

#[test]
fn incoming_window_and_count() {
    let l = (LAYERS - 3) as u32;
    let n = incoming_steps(None);
    let mut m = Mirror::new(true, n);
    assert!(n >= 1, "test assumes V41_SUB_INCOMING is on (default 2)");
    let empty = vec![0u32; NE.div_ceil(32)];
    update(&mut m, l, &empty);
    note_incoming(&mut m, &[(l << 16) | 7, (LAYERS as u32) << 16, (l << 16) | 9999]);
    assert_eq!(resident(&m, l as i32, 7), Some(false), "not in the step that queued it");
    update(&mut m, l, &empty);
    assert_eq!(
        resident(&m, l as i32, 7),
        Some(false),
        "a reply in the same step does not activate it"
    );
    for k in 0..n {
        begin_step(&mut m);
        assert_eq!(resident(&m, l as i32, 7), Some(true), "inside the window, step {k}");
        assert!(lookup(&m, l as i32, 7).is_some_and(|r| r.incoming && !r.held));
    }
    begin_step(&mut m);
    assert_eq!(resident(&m, l as i32, 7), Some(false), "expired after {n} steps");

    note_incoming(&mut m, &[(l << 16) | 8]);
    begin_step(&mut m);
    let mut w = empty.clone();
    w[0] = 1 << 8;
    update(&mut m, l, &w);
    assert_eq!(
        lookup(&m, l as i32, 8),
        Some(Residency { held: true, pending: false, incoming: true })
    );
    update(&mut m, l, &empty);
    assert_eq!(resident(&m, l as i32, 8), Some(true), "still covered by its mark");
    expire_incoming(&mut m);
    assert_eq!(resident(&m, l as i32, 8), Some(false), "expired by prefill");

    note_incoming(&mut m, &[(l << 16) | 10]);
    begin_step(&mut m);
    let _ = take_sub_stats(&mut m);
    note_incoming_covered(&mut m, l as i32, &[10, 10, 11, -1, 9999], |_| true);
    assert_eq!(take_sub_stats(&mut m).6, 1);
    note_incoming_covered(&mut m, l as i32, &[10], |_| false);
    assert_eq!(take_sub_stats(&mut m).6, 0, "box-1 picks are not counted");
}

#[test]
fn a_prefill_ends_a_mark_of_the_same_step() {
    let mut m = Mirror::new(true, 2);
    update(&mut m, 3, &[0; 12]);
    note_incoming(&mut m, &[(3 << 16) | 9]);
    expire_incoming(&mut m);
    assert!(lookup(&m, 3, 9).is_some_and(|r| !r.incoming));
    for _ in 0..5 {
        begin_step(&mut m);
        assert!(lookup(&m, 3, 9).is_some_and(|r| !r.incoming));
    }
    note_incoming(&mut m, &[(3 << 16) | 9]);
    begin_step(&mut m);
    assert!(lookup(&m, 3, 9).is_some_and(|r| r.incoming));
}

#[test]
fn a_row_has_its_own_alternatives() {
    // Rows of ten alternatives, of which eight are looked at.
    let na = MAX_ALT + 2;
    let mut sel = vec![10, 11, 12, 13, 14, 15, 1, 2, 3, 4, 5, 6];
    let alts: Vec<i32> = (0..2 * na as i32).map(|i| 100 + i).collect();
    let rules = SubRules { min_rank: 6, max_alt: MAX_ALT };
    let (out, chosen) = substitute(
        &mut sel,
        &alts,
        6,
        na,
        rules,
        |e| e == 15 || e == 6,
        |a| a == 107 || a == 113,
        |_, _, _, _| true,
    );
    assert_eq!(out, SubOutcome { predicted: 2, avoided: 2, slots: 2, blocked: 0, failed: 0 });
    assert_eq!((sel[5], sel[11]), (107, 113));
    assert_eq!((chosen[5], chosen[11]), (Some(7), Some(3)));
    let mut sel = vec![10, 11, 12, 13, 14, 15];
    let (out, _) = substitute(&mut sel, &alts, 6, na, rules, |e| e == 15, |a| a == 108, |_, _, _, _| true);
    assert_eq!((out.blocked, sel[5]), (1, 15), "the ninth alternative is not looked at");
}

#[test]
fn what_is_taken_is_counted_anew() {
    let mut m = Mirror::new(true, 2);
    note_admits(&mut m, 3);
    record(
        &mut m,
        &SubOutcome { predicted: 5, avoided: 2, slots: 4, blocked: 3, failed: 0 },
    );
    assert_eq!(take_sub_stats(&mut m), (5, 2, 4, 3, 0, 3, 0));
    assert_eq!(take_sub_stats(&mut m), (0, 0, 0, 0, 0, 0, 0));
}

#[test]
fn pending_can_be_left_uncounted() {
    let mut m = Mirror::new(false, 0);
    update(&mut m, 0, &[0; 12]);
    note_submitted(&mut m, 0, &[4]);
    assert_eq!(resident(&m, 0, 4), Some(false));
    assert!(lookup(&m, 0, 4).unwrap().pending);
    note_incoming(&mut m, &[4]);
    begin_step(&mut m);
    assert!(!lookup(&m, 0, 4).unwrap().incoming, "no window, no mark");
}

#[test]
fn a_layer_out_of_range_is_never_known() {
    let mut m = Mirror::new(true, 2);
    update(&mut m, LAYERS as u32, &[u32::MAX; 12]);
    assert_eq!(lookup(&m, LAYERS as i32, 0), None);
    assert_eq!(lookup(&m, -1, 0), None);
}

#[test]
fn substitution_knobs() {
    assert_eq!((mode(None), mode(Some(2)), mode(Some(9))), (0, 2, 3));
    assert!(!wanted(0) && wanted(1));
    assert_eq!((min_rank(None), min_rank(Some(0)), min_rank(Some(3)), min_rank(Some(7))), (6, 1, 3, 6));
    assert_eq!((incoming_steps(None), incoming_steps(Some(0))), (2, 0));
}
