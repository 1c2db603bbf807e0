//! Sinks of picks and residuals, and pinned picks.

use v4flash_het::config::{N_EXPERT, N_EXPERT_USED};
use v4flash_het::fidelity_tap::{
    pick_sink_enable, pick_sink_on, pick_sink_push, pick_sink_take, pin_apply, pin_on,
    pin_overrides_take, pin_set, residual_sink_enable, residual_sink_on, residual_sink_push,
    residual_sink_take, PickSink, Pin, PinError, PinTable, ResidualSink,
};

fn softplus_stable(x: f32) -> f32 {
    if x > 20.0 {
        x
    } else if x < -20.0 {
        x.exp()
    } else {
        x.exp().ln_1p()
    }
}

/// The weights of the picks of row `r`.
fn weigh(logits: &[f32], sel: &[i32], r: usize, scale: f32, eps: f32) -> Vec<f32> {
    let (k, ne) = (N_EXPERT_USED, N_EXPERT as usize);
    let lg = &logits[r * ne..(r + 1) * ne];
    let p: Vec<f32> =
        sel[r * k..(r + 1) * k].iter().map(|&e| softplus_stable(lg[e as usize]).sqrt()).collect();
    let sum = p.iter().sum::<f32>().max(eps);
    p.iter().map(|pj| pj / sum * scale).collect()
}

#[test]
fn pin_apply_replaces_only_differing_sets() {
    let (k, ne) = (N_EXPERT_USED, N_EXPERT as usize);
    let (n_layer, n_pos) = (2, 3);
    let mut ids = vec![0i32; n_layer * n_pos * k];
    for (i, v) in ids.iter_mut().enumerate() {
        *v = (i % k) as i32 * 7 + 1;
    }
    let mut pin = Pin::new();
    pin_set(&mut pin, PinTable::new(n_layer, n_pos, ids).ok());
    assert!(pin_on(&pin));
    let logits: Vec<f32> = (0..3 * ne).map(|i| ((i % ne) as f32 * 0.37).sin()).collect();
    let mut sel = vec![36, 29, 22, 15, 8, 1, 1, 8, 15, 22, 29, 99, 5, 6, 7, 8, 9, 10];
    let mut ew = vec![0.25f32; 3 * k];
    let (sel0, ew0) = (sel.clone(), ew.clone());
    let changed = pin_apply(&mut pin, 1, &[1, 2, 3], &mut sel);
    for &r in &changed {
        let w = weigh(&logits, &sel, r, 1.5, 6.103515625e-5);
        ew[r * k..(r + 1) * k].copy_from_slice(&w);
    }
    let n = changed.len();
    assert_eq!(n, 1);
    assert_eq!(pin_overrides_take(&mut pin), 1);
    assert_eq!(&sel[..k], &sel0[..k]);
    assert_eq!(&ew[..k], &ew0[..k]);
    assert_eq!(&sel[k..2 * k], &[1, 8, 15, 22, 29, 36]);
    let p: Vec<f32> =
        [1, 8, 15, 22, 29, 36].iter().map(|&e| softplus_stable(logits[ne + e]).sqrt()).collect();
    let sum: f32 = p.iter().sum();
    for (w, pj) in ew[k..2 * k].iter().zip(&p) {
        assert_eq!(*w, pj / sum * 1.5);
    }
    assert_eq!(&sel[2 * k..], &sel0[2 * k..]);
    assert_eq!(&ew[2 * k..], &ew0[2 * k..]);
    pin_set(&mut pin, None);
    assert!(!pin_on(&pin));
    assert_eq!(pin_apply(&mut pin, 1, &[0, 1, 2], &mut sel).len(), 0);
}

#[test]
fn a_pin_table_is_checked() {
    assert!(matches!(PinTable::new(1, 1, vec![0; 5]), Err(PinError::Length)));
    assert!(matches!(PinTable::new(1, 1, vec![0, 1, 2, 3, 4, 384]), Err(PinError::ExpertId)));
    assert!(matches!(PinTable::new(1, 1, vec![0, 1, 2, 3, 4, -1]), Err(PinError::ExpertId)));
    let t = PinTable::new(2, 1, vec![0, 1, 2, 3, 4, 5, 6, 7, 8, 9, 10, 383]).ok().unwrap();
    assert_eq!(t.get(1, 0), Some(&[6, 7, 8, 9, 10, 383][..]));
    assert_eq!(t.get(2, 0), None);
    assert_eq!(t.get(1, 1), None);
}

#[test]
fn sinks_hold_what_is_pushed() {
    let mut s = PickSink::new();
    assert!(!pick_sink_on(&s));
    pick_sink_enable(&mut s, true);
    assert!(pick_sink_on(&s));
    pick_sink_push(&mut s, true, 3, 1, 2, &[5, 6]);
    pick_sink_push(&mut s, false, 4, 0, 1, &[1, 2, 3, 4, 5, 6, 7]);
    let v = pick_sink_take(&mut s);
    assert_eq!(v.len(), 2);
    assert_eq!((v[0].batched, v[0].layer, v[0].row, v[0].rows), (true, 3, 1, 2));
    assert_eq!(v[0].ids, [5, 6, -1, -1, -1, -1]);
    assert_eq!(v[1].ids, [1, 2, 3, 4, 5, 6]);
    assert!(pick_sink_take(&mut s).is_empty());

    let mut r = ResidualSink::new();
    residual_sink_enable(&mut r, true);
    assert!(residual_sink_on(&r));
    residual_sink_push(&mut r, 7, vec![1.0f32.to_bits()]);
    let v = residual_sink_take(&mut r);
    assert_eq!((v.len(), v[0].layer, f32::from_bits(v[0].bits[0])), (1, 7, 1.0));
    assert!(residual_sink_take(&mut r).is_empty());
}
