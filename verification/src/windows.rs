//! Layout of the expert pool: prefill windows below, the decode region above.
//!
//! The pool's slots start with `dense_windows - 1` pinned windows, each
//! `stride` slots wide and owned by one layer, followed by one rotating window
//! that is always wide enough for a whole layer. Everything above belongs to
//! the least-recently-used region that decode allocates from.

use vstd::prelude::*;
use crate::config::{MAX_MOE_GROUP_IDS, N_EXPERT};

verus! {

/// Division of the pool's slots into windows.
#[derive(Debug, Clone, Copy, PartialEq, Eq, Structural)]
pub struct WindowLayout {
    /// Slots in the pool.
    pub n_slots: u32,
    /// Slots in each pinned window.
    pub stride: u32,
    /// Windows reserved for prefill, the rotating one included.
    pub dense_windows: u32,
}

impl WindowLayout {
    /// The windows fit the pool, and a pool that cannot hold a whole layer has
    /// no pinned window.
    pub open spec fn wf(self) -> bool {
        &&& 1 <= self.stride <= N_EXPERT
        &&& 1 <= self.dense_windows
        &&& self.n_slots <= i32::MAX
        &&& self.n_slots >= N_EXPERT ==> self.pinned() * self.stride + N_EXPERT <= self.n_slots
        &&& self.n_slots < N_EXPERT ==> self.dense_windows == 1
    }

    /// Windows that belong to one layer for good.
    pub open spec fn pinned(self) -> int {
        self.dense_windows - 1
    }

    /// First slot of window `w`; windows past the last one are the last one.
    pub open spec fn base(self, w: int) -> int {
        (if w <= self.pinned() { w } else { self.pinned() }) * self.stride
    }

    /// Slots of window `w`.
    pub open spec fn width(self, w: int) -> int {
        if w < self.pinned() {
            self.stride as int
        } else {
            N_EXPERT as int
        }
    }

    /// Slot `s` lies in window `w`.
    pub open spec fn in_window(self, w: int, s: int) -> bool {
        self.base(w) <= s < self.base(w) + self.width(w)
    }

    /// First slot above the windows.
    pub open spec fn dense_end(self) -> int {
        let end = self.pinned() * self.stride + N_EXPERT;
        if end <= self.n_slots { end } else { self.n_slots as int }
    }

    /// Window of a slot below the decode region.
    pub open spec fn slot_window(self, s: int) -> int {
        if s < self.pinned() * self.stride { s / self.stride as int } else { self.pinned() }
    }

    /// First slot that decode may allocate. A pool without room above its
    /// windows shares all of its slots.
    pub open spec fn lru_floor(self) -> int {
        if self.dense_end() >= self.n_slots { 0 } else { self.dense_end() }
    }

    /// Window of `layer`: its own, or the rotating one.
    pub open spec fn layer_window(self, layer: i32) -> int {
        if 0 <= layer < self.pinned() { layer as int } else { self.pinned() }
    }

    /// Windows that belong to one layer for good.
    pub fn pinned_windows(&self) -> (r: u32)
        requires
            self.wf(),
        ensures
            r == self.pinned(),
    {
        self.dense_windows - 1
    }

    /// First slot of window `w`.
    pub fn window_base(&self, w: u32) -> (r: usize)
        requires
            self.wf(),
        ensures
            r == self.base(w as int),
            self.n_slots >= N_EXPERT ==> r + N_EXPERT <= self.n_slots,
            self.n_slots < N_EXPERT ==> r == 0,
    {
        let p: u32 = self.pinned_windows();
        let k: u32 = if w <= p { w } else { p };
        proof {
            lemma_mul_mono(k as int, p as int, self.stride as int);
            if self.n_slots < N_EXPERT {
                assert(k * self.stride == 0) by (nonlinear_arith)
                    requires
                        k == 0,
                ;
            }
        }
        k as usize * self.stride as usize
    }

    /// Slots of window `w`.
    pub fn window_width(&self, w: u32) -> (r: usize)
        requires
            self.wf(),
        ensures
            r == self.width(w as int),
            1 <= r <= N_EXPERT,
    {
        if w < self.pinned_windows() {
            self.stride as usize
        } else {
            N_EXPERT as usize
        }
    }

    /// First slot above the windows.
    pub fn dense_slots(&self) -> (r: usize)
        requires
            self.wf(),
        ensures
            r == self.dense_end(),
            r <= self.n_slots,
    {
        if self.n_slots < N_EXPERT {
            return self.n_slots as usize;
        }
        proof {
            lemma_mul_mono(0, self.pinned(), self.stride as int);
        }
        self.pinned_windows() as usize * self.stride as usize + N_EXPERT as usize
    }

    /// First slot that decode may allocate.
    pub fn lru_lo(&self) -> (r: usize)
        requires
            self.wf(),
        ensures
            r == self.lru_floor(),
            r <= self.n_slots,
    {
        let lo: usize = self.dense_slots();
        if lo >= self.n_slots as usize { 0 } else { lo }
    }

    /// Window that `slot` lies in, or `None` for a slot of the decode region.
    pub fn window_of_slot(&self, slot: u32) -> (r: Option<u32>)
        requires
            self.wf(),
        ensures
            r is None <==> slot >= self.dense_end(),
            r matches Some(w) ==> w == self.slot_window(slot as int),
            r matches Some(w) ==> w <= self.pinned() && self.in_window(w as int, slot as int),
    {
        let s: usize = slot as usize;
        if s >= self.dense_slots() {
            return None;
        }
        let stride: usize = self.stride as usize;
        let pinned: usize = self.pinned_windows() as usize;
        proof {
            if self.n_slots < N_EXPERT {
                assert(self.pinned() * self.stride == 0) by (nonlinear_arith)
                    requires
                        self.pinned() == 0,
                ;
            }
        }
        if s < pinned * stride {
            proof {
                lemma_div_window(s as int, pinned as int, stride as int);
            }
            Some((s / stride) as u32)
        } else {
            Some(pinned as u32)
        }
    }

    /// Window of `layer`.
    pub fn window_of(&self, layer: i32) -> (r: u32)
        requires
            self.wf(),
        ensures
            r == self.layer_window(layer),
            r <= self.pinned(),
    {
        let pinned: u32 = self.pinned_windows();
        if layer >= 0 && (layer as u32) < pinned {
            layer as u32
        } else {
            pinned
        }
    }

    /// Group ids that an absolute-slot remap can carry: one per slot of the pool.
    pub fn sparse_group_bound(&self) -> (r: u32)
        ensures
            r == self.n_slots,
    {
        self.n_slots
    }

    /// Every slot number survives the 16-bit packing of a work item.
    pub fn sparse_group_ids_in_range(&self) -> (r: bool)
        ensures
            r == (self.n_slots <= MAX_MOE_GROUP_IDS),
    {
        self.n_slots as usize <= MAX_MOE_GROUP_IDS
    }

    /// Slots that decode may allocate from.
    pub fn decode_slots(&self) -> (r: u32)
        requires
            self.wf(),
        ensures
            r == self.n_slots - self.lru_floor(),
    {
        let lo: u32 = self.dense_slots() as u32;
        if lo >= self.n_slots { self.n_slots } else { self.n_slots - lo }
    }
}

proof fn lemma_mul_mono(a: int, b: int, c: int)
    by (nonlinear_arith)
    requires
        0 <= a <= b,
        0 <= c,
    ensures
        0 <= a * c <= b * c,
{
}

proof fn lemma_div_window(s: int, n: int, d: int)
    by (nonlinear_arith)
    requires
        0 <= s < n * d,
        0 < d,
    ensures
        0 <= s / d < n,
        (s / d) * d <= s < (s / d) * d + d,
{
}

/// Distinct windows share no slot.
pub proof fn windows_are_disjoint(l: WindowLayout, v: int, w: int, s: int)
    requires
        l.wf(),
        0 <= v < w <= l.pinned(),
        l.in_window(v, s),
    ensures
        !l.in_window(w, s),
{
    assert(v * l.stride + l.stride <= w * l.stride) by (nonlinear_arith)
        requires
            v < w,
            1 <= l.stride,
    ;
}

/// A slot of a window is mapped back to that window.
pub proof fn slot_window_inverts_in_window(l: WindowLayout, w: int, s: int)
    requires
        l.wf(),
        0 <= w <= l.pinned(),
        l.in_window(w, s),
    ensures
        l.slot_window(s) == w,
{
    if w < l.pinned() {
        assert(w * l.stride + l.stride <= l.pinned() * l.stride) by (nonlinear_arith)
            requires
                w < l.pinned(),
                1 <= l.stride,
        ;
        assert(s / l.stride as int == w) by (nonlinear_arith)
            requires
                w * l.stride <= s < w * l.stride + l.stride,
                1 <= l.stride,
        ;
    }
}

/// The slot of a window lies below the decode region, so decode cannot
/// allocate it while it has a region of its own.
pub proof fn windows_lie_below_the_decode_region(l: WindowLayout, w: int, s: int)
    requires
        l.wf(),
        l.n_slots >= N_EXPERT,
        0 <= w <= l.pinned(),
        l.in_window(w, s),
    ensures
        0 <= s < l.dense_end(),
        l.lru_floor() > 0 ==> s < l.lru_floor(),
{
    lemma_mul_mono(w, l.pinned(), l.stride as int);
    if w < l.pinned() {
        assert(w * l.stride + l.stride <= l.pinned() * l.stride) by (nonlinear_arith)
            requires
                w < l.pinned(),
                1 <= l.stride,
        ;
    }
}

/// Every layer below the pinned count has a window of its own, and all other
/// layers share the rotating one.
pub proof fn pinned_layers_have_their_own_window(l: WindowLayout, a: i32, b: i32)
    requires
        l.wf(),
        a != b,
    ensures
        l.layer_window(a) == l.layer_window(b) <==> {
            &&& l.layer_window(a) == l.pinned()
            &&& l.layer_window(b) == l.pinned()
        },
{
}

/// Slots per pinned window for a requested width.
pub fn window_stride(requested: Option<u32>) -> (r: u32)
    ensures
        1 <= r <= N_EXPERT,
        requested matches Some(v) ==> r == (if v < 1 { 1 } else if v > N_EXPERT { N_EXPERT } else { v }),
        requested is None ==> r == N_EXPERT,
{
    match requested {
        None => N_EXPERT,
        Some(v) => if v < 1 {
            1
        } else if v > N_EXPERT {
            N_EXPERT
        } else {
            v
        },
    }
}

/// Windows that fit a pool at a given stride: the rotating one keeps a whole
/// layer's width, the others take `stride` slots each.
pub open spec fn windows_that_fit(n_slots: u32, stride: u32) -> int {
    if n_slots > N_EXPERT {
        1 + (n_slots - N_EXPERT) / stride as int
    } else {
        1
    }
}

/// Windows that fit a pool at a given stride.
pub fn total_windows(n_slots: u32, stride: u32) -> (r: u32)
    requires
        1 <= stride <= N_EXPERT,
    ensures
        r == windows_that_fit(n_slots, stride),
        r >= 1,
{
    if n_slots > N_EXPERT {
        proof {
            assert((n_slots - N_EXPERT) / stride as int <= n_slots - N_EXPERT) by (nonlinear_arith)
                requires
                    n_slots > N_EXPERT,
                    stride >= 1,
            ;
            assert((n_slots - N_EXPERT) / stride as int >= 0) by (nonlinear_arith)
                requires
                    n_slots > N_EXPERT,
                    stride >= 1,
            ;
        }
        1 + (n_slots - N_EXPERT) / stride
    } else {
        1
    }
}

/// Windows beyond which a prefill gains nothing: one per layer that it sweeps,
/// one for the replay, and one rotating.
pub open spec fn prefill_ceiling(ced: bool) -> int {
    if ced {
        crate::config::CED_DECODER_START + 2
    } else {
        crate::config::N_LAYER + 1
    }
}

/// Number of windows that prefill gets.
pub open spec fn dense_windows_spec(
    requested: Option<u32>,
    by_frac: u32,
    ced: bool,
    total: u32,
) -> int {
    match requested {
        Some(w) => if w == 0 || total == 0 {
            1
        } else if w > total {
            total as int
        } else {
            w as int
        },
        None => {
            let capped = if by_frac <= prefill_ceiling(ced) { by_frac as int } else { prefill_ceiling(ced) };
            let top = if total >= 2 { total - 1 } else { 1 };
            if capped < 1 { 1 } else if capped > top { top } else { capped }
        },
    }
}

/// Number of windows that prefill gets: the requested number where there is
/// one, else the share `by_frac`, at most what a prefill can use, leaving decode
/// at least one window's worth.
pub fn dense_window_count(requested: Option<u32>, by_frac: u32, ced: bool, total: u32) -> (r: u32)
    ensures
        r == dense_windows_spec(requested, by_frac, ced, total),
        1 <= r,
        r <= total || r == 1,
{
    match requested {
        Some(w) => if w == 0 || total == 0 {
            1
        } else if w > total {
            total
        } else {
            w
        },
        None => {
            let ceiling: u32 = if ced { 22 } else { 41 };
            let capped: u32 = if by_frac <= ceiling { by_frac } else { ceiling };
            let top: u32 = if total >= 2 { total - 1 } else { 1 };
            if capped < 1 {
                1
            } else if capped > top {
                top
            } else {
                capped
            }
        },
    }
}

/// A layout whose window count fits the pool is well formed.
pub proof fn lemma_layout_wf(l: WindowLayout)
    requires
        1 <= l.stride <= N_EXPERT,
        l.n_slots <= i32::MAX,
        1 <= l.dense_windows,
        l.dense_windows <= windows_that_fit(l.n_slots, l.stride) || l.dense_windows == 1,
    ensures
        l.wf(),
{
    if l.n_slots > N_EXPERT {
        let q = (l.n_slots - N_EXPERT) / l.stride as int;
        assert(q >= 0 && q * l.stride <= l.n_slots - N_EXPERT) by (nonlinear_arith)
            requires
                q == (l.n_slots - N_EXPERT) / l.stride as int,
                l.n_slots > N_EXPERT,
                l.stride >= 1,
        ;
        lemma_mul_mono(l.pinned(), q, l.stride as int);
    } else {
        assert(l.pinned() * l.stride == 0) by (nonlinear_arith)
            requires
                l.pinned() == 0,
        ;
    }
}

/// Slots of the pool: the number asked for, else the configured one, else what
/// the memory budget holds, but at least 64 and at most every expert of the model.
pub open spec fn pool_slots_spec(asked: u32, configured: Option<u32>, budget: nat, per_slot: nat) -> int {
    if asked > 0 {
        asked as int
    } else {
        match configured {
            Some(s) => s as int,
            None => {
                let fit = (budget / per_slot) as int;
                if fit < 64 { 64 } else if fit > 15360 { 15360 } else { fit }
            },
        }
    }
}

/// Slots of the pool.
pub fn pool_slots(asked: u32, configured: Option<u32>, budget: usize, per_slot: usize) -> (r: u32)
    requires
        per_slot > 0,
    ensures
        r == pool_slots_spec(asked, configured, budget as nat, per_slot as nat),
{
    if asked > 0 {
        return asked;
    }
    match configured {
        Some(s) => s,
        None => {
            let fit: usize = budget / per_slot;
            if fit < 64 {
                64
            } else if fit > 15360 {
                15360
            } else {
                fit as u32
            }
        },
    }
}

} // verus!
