//! The first device's mirror of the second device's expert pool.
//!
//! Every reply brings the residency map of its layer. On top of the last map lie
//! the picks of requests that are not answered yet, and the background reads that
//! were queued a few steps ago.

use vstd::prelude::*;
use crate::config::{N_EXPERT, N_LAYER};
use crate::residency;
use crate::substitute::SubOutcome;

verus! {

/// The view of one expert of the second device, the sources kept apart.
#[derive(Debug, Clone, Copy, PartialEq, Eq, Structural)]
pub struct Residency {
    /// Held by the last reply for the layer.
    pub held: bool,
    /// In a request that is not answered yet.
    pub pending: bool,
    /// A queued background read inside of its window.
    pub incoming: bool,
}

/// Counters of the substitution.
#[derive(Debug, Clone, Copy, PartialEq, Eq, Structural)]
pub struct SubStats {
    pub predicted: u64,
    pub avoided: u64,
    pub slots: u64,
    pub blocked: u64,
    pub failed: u64,
    pub admits: u64,
    pub incoming: u64,
}

/// No counts.
pub open spec fn no_stats() -> SubStats {
    SubStats { predicted: 0, avoided: 0, slots: 0, blocked: 0, failed: 0, admits: 0, incoming: 0 }
}

/// The mirror.
pub struct Mirror {
    bits: Vec<u64>,
    pend: Vec<u64>,
    seen: Vec<bool>,
    step: u32,
    marks: Vec<u32>,
    count_pending: bool,
    window: u32,
    stats: SubStats,
}

/// Layer `l` and expert `e` exist.
pub open spec fn exists_expert(l: int, e: int) -> bool {
    0 <= l < N_LAYER && 0 <= e < N_EXPERT
}

/// Bit `i` of a word of a residency map.
pub open spec fn map_bit(words: Seq<u32>, e: int) -> bool {
    e / 32 < words.len() && words[e / 32] & (1u32 << (e % 32) as u32) != 0
}

/// State of the mirror.
#[verifier::ext_equal]
pub struct MirrorState {
    /// The last map of each layer, in words of 64 experts.
    pub bits: Seq<u64>,
    /// The picks of unanswered requests, in words of 64 experts.
    pub pend: Seq<u64>,
    /// Layers that have been reported.
    pub seen: Seq<bool>,
    /// Decode steps begun.
    pub clock: u32,
    /// For each expert, the step from which a queued read counts; 0 without.
    pub marks: Seq<u32>,
    /// Unanswered requests count as resident.
    pub counts_pending: bool,
    /// Steps for which a queued read counts as resident.
    pub window: u32,
    pub stats: SubStats,
}

impl MirrorState {
    pub open spec fn wf(self) -> bool {
        &&& self.bits.len() == 240
        &&& self.pend.len() == 240
        &&& self.seen.len() == N_LAYER
        &&& self.marks.len() == 15360
    }

    /// Expert `e` of layer `l` is held by the last map.
    pub open spec fn held(self, l: int, e: int) -> bool {
        residency::bit(self.bits[l * 6 + e / 64], (e % 64) as u64)
    }

    /// Expert `e` of layer `l` is in an unanswered request.
    pub open spec fn pending(self, l: int, e: int) -> bool {
        residency::bit(self.pend[l * 6 + e / 64], (e % 64) as u64)
    }

    /// Step from which a queued read of expert `e` of layer `l` counts; 0 without.
    pub open spec fn mark(self, l: int, e: int) -> u32 {
        self.marks[l * 384 + e]
    }

    /// No mark lies further ahead than the next step.
    pub open spec fn timely(self) -> bool {
        forall|l: int, e: int| exists_expert(l, e) ==> #[trigger] self.mark(l, e) <= self.clock + 1
    }

    /// The state as a decode step begins.
    pub open spec fn stepped(self) -> MirrorState {
        MirrorState { clock: self.clock.wrapping_add(1), ..self }
    }

    /// The state as a prefill begins.
    pub open spec fn expired(self) -> MirrorState {
        MirrorState { clock: self.clock.wrapping_add((self.window + 1) as u32), ..self }
    }

    /// The queued read of expert `e` of layer `l` is inside of its window.
    pub open spec fn in_window(self, l: int, e: int) -> bool {
        &&& self.window > 0
        &&& self.mark(l, e) != 0
        &&& self.clock.wrapping_sub(self.mark(l, e)) < self.window
    }

    /// What is known of expert `e` of `layer`.
    pub open spec fn known(self, layer: i32, e: u32) -> Option<Residency> {
        if exists_expert(layer as int, e as int) && self.seen[layer as int] {
            Some(
                Residency {
                    held: self.held(layer as int, e as int),
                    pending: self.pending(layer as int, e as int),
                    incoming: self.in_window(layer as int, e as int),
                },
            )
        } else {
            None
        }
    }
}

impl View for Mirror {
    type V = MirrorState;

    closed spec fn view(&self) -> MirrorState {
        MirrorState {
            bits: self.bits@,
            pend: self.pend@,
            seen: self.seen@,
            clock: self.step,
            marks: self.marks@,
            counts_pending: self.count_pending,
            window: self.window,
            stats: self.stats,
        }
    }
}

impl Mirror {
    /// An empty mirror.
    pub fn new(count_pending: bool, window: u32) -> (r: Self)
        ensures
            r@.wf(),
            r@ == (MirrorState {
                bits: Seq::new(240, |i: int| 0u64),
                pend: Seq::new(240, |i: int| 0u64),
                seen: Seq::new(N_LAYER as nat, |i: int| false),
                clock: 0,
                marks: Seq::new(15360, |i: int| 0u32),
                counts_pending: count_pending,
                window,
                stats: no_stats(),
            }),
            forall|l: int, e: int| exists_expert(l, e) ==> !(#[trigger] r@.held(l, e)),
            forall|l: int, e: int| exists_expert(l, e) ==> !(#[trigger] r@.pending(l, e)),
            r@.timely(),
    {
        let r = Mirror {
            bits: vec![0; 240],
            pend: vec![0; 240],
            seen: vec![false; 40],
            step: 0,
            marks: vec![0; 15360],
            count_pending,
            window,
            stats: SubStats {
                predicted: 0,
                avoided: 0,
                slots: 0,
                blocked: 0,
                failed: 0,
                admits: 0,
                incoming: 0,
            },
        };
        proof {
            assert(r@.bits =~= Seq::new(240, |i: int| 0u64));
            assert(r@.pend =~= Seq::new(240, |i: int| 0u64));
            assert(r@.seen =~= Seq::new(N_LAYER as nat, |i: int| false));
            assert(r@.marks =~= Seq::new(15360, |i: int| 0u32));
            assert forall|l: int, e: int| exists_expert(l, e) implies !(#[trigger] r@.held(l, e)) by {
                assert(r@.bits[l * 6 + e / 64] == 0);
                residency::lemma_no_bit((e % 64) as u64);
            }
            assert forall|l: int, e: int| exists_expert(l, e) implies !(#[trigger] r@.pending(l, e)) by {
                assert(r@.pend[l * 6 + e / 64] == 0);
                residency::lemma_no_bit((e % 64) as u64);
            }
        }
        r
    }
}

/// A decode step begins.
pub fn begin_step(m: &mut Mirror)
    ensures
        final(m)@ == old(m)@.stepped(),
        old(m)@.timely() && old(m)@.clock < u32::MAX ==> final(m)@.timely(),
{
    m.step = m.step.wrapping_add(1);
    proof {
        assert forall|l: int, e: int| exists_expert(l, e) implies #[trigger] m@.mark(l, e) == old(m)@.mark(l, e) by {}
    }
}

/// A prefill begins: every queued read is past its window.
pub fn expire_incoming(m: &mut Mirror)
    requires
        old(m)@.window < u32::MAX,
    ensures
        final(m)@ == old(m)@.expired(),
        old(m)@.timely() && old(m)@.clock + old(m)@.window < u32::MAX ==> final(m)@.timely(),
{
    m.step = m.step.wrapping_add(m.window + 1);
    proof {
        assert forall|l: int, e: int| exists_expert(l, e) implies #[trigger] m@.mark(l, e) == old(m)@.mark(l, e) by {}
    }
}

/// The step from which a read that is queued now counts.
pub open spec fn next_step(clock: u32) -> u32 {
    if clock.wrapping_add(1) >= 1 { clock.wrapping_add(1) } else { 1 }
}

/// One of the first `n` words names expert `e` of layer `l`.
pub open spec fn names(words: Seq<u32>, n: int, l: int, e: int) -> bool {
    exists|i: int| 0 <= i < n && (#[trigger] words[i]) >> 16u32 == l && words[i] & 0xffff == e
}

/// Background reads were queued: they count as resident from the next step on.
pub fn note_incoming(m: &mut Mirror, words: &[u32])
    requires
        old(m)@.wf(),
    ensures
        final(m)@.wf(),
        final(m)@ == (MirrorState { marks: final(m)@.marks, ..old(m)@ }),
        forall|l: int, e: int|
            exists_expert(l, e) ==> #[trigger] final(m)@.mark(l, e) == (if old(m)@.window > 0 && names(
                words@,
                words.len() as int,
                l,
                e,
            ) {
                next_step(old(m)@.clock)
            } else {
                old(m)@.mark(l, e)
            }),
        old(m)@.timely() && old(m)@.clock < u32::MAX ==> final(m)@.timely(),
{
    if m.window == 0 {
        return ;
    }
    let s: u32 = m.step.wrapping_add(1);
    let from: u32 = if s >= 1 { s } else { 1 };
    let mut i: usize = 0;
    while i < words.len()
        invariant
            i <= words.len(),
            m@.wf(),
            m@ == (MirrorState { marks: m@.marks, ..old(m)@ }),
            from == next_step(old(m)@.clock),
            forall|l: int, e: int|
                exists_expert(l, e) ==> #[trigger] m@.mark(l, e) == (if names(words@, i as int, l, e) {
                    from
                } else {
                    old(m)@.mark(l, e)
                }),
        decreases words.len() - i,
    {
        let w: u32 = words[i];
        let l: usize = (w >> 16u32) as usize;
        let e: usize = (w & 0xffff) as usize;
        let ghost before = m@;
        if l < 40 && e < 384 {
            m.marks.set(l * 384 + e, from);
        }
        proof {
            assert forall|x: int, y: int| exists_expert(x, y) implies #[trigger] m@.mark(x, y) == (if names(
                words@,
                i + 1,
                x,
                y,
            ) {
                from
            } else {
                old(m)@.mark(x, y)
            }) by {
                assert(before.mark(x, y) == (if names(words@, i as int, x, y) { from } else { old(m)@.mark(x, y) }));
                if names(words@, i as int, x, y) {
                    let j = choose|j: int|
                        0 <= j < i && (#[trigger] words@[j]) >> 16u32 == x && words@[j] & 0xffff == y;
                    assert(words@[j] >> 16u32 == x);
                }
                if names(words@, i + 1, x, y) && !names(words@, i as int, x, y) {
                    let j = choose|j: int|
                        0 <= j < i + 1 && (#[trigger] words@[j]) >> 16u32 == x && words@[j] & 0xffff == y;
                    assert(j == i);
                }
                if x == l && y == e {
                    assert(words@[i as int] >> 16u32 == x);
                    assert(names(words@, i + 1, x, y));
                } else if l < 40 && e < 384 {
                    assert(x * 384 + y != l * 384 + e);
                }
            }
        }
        i = i + 1;
    }
}

/// Is the queued read of an expert inside of its window?
pub fn incoming(m: &Mirror, l: usize, e: usize) -> (r: bool)
    requires
        m@.wf(),
        exists_expert(l as int, e as int),
    ensures
        r == m@.in_window(l as int, e as int),
{
    let from: u32 = m.marks[l * 384 + e];
    m.window > 0 && from != 0 && m.step.wrapping_sub(from) < m.window
}

proof fn lemma_map_word(words: Seq<u32>, lo: u32, hi: u32, i: int, b: int)
    requires
        0 <= i < 6,
        0 <= b < 64,
        lo == (if 2 * i < words.len() { words[2 * i] } else { 0 }),
        hi == (if 2 * i + 1 < words.len() { words[2 * i + 1] } else { 0 }),
    ensures
        residency::bit((lo as u64) | ((hi as u64) << 32u64), b as u64) == map_bit(words, i * 64 + b),
{
    let e = i * 64 + b;
    let x = b as u64;
    let y = (b % 32) as u32;
    assert(e % 32 == b % 32);
    if b < 32 {
        assert(e / 32 == 2 * i);
        assert(x < 32 && y < 32 && x == y ==> (((lo as u64) | ((hi as u64) << 32u64)) & (1u64 << x) != 0) == (lo & (
        1u32 << y) != 0)) by (bit_vector);
    } else {
        assert(e / 32 == 2 * i + 1);
        assert(x < 64 && y < 32 && x == y + 32 ==> (((lo as u64) | ((hi as u64) << 32u64)) & (1u64 << x) != 0) == (hi
            & (1u32 << y) != 0)) by (bit_vector);
    }
    assert(0u32 & (1u32 << y) == 0) by (bit_vector);
}

/// Word `i` of a residency map, 64 experts at a time.
spec fn map_word(words: Seq<u32>, i: int) -> u64 {
    let lo = if 2 * i < words.len() { words[2 * i] } else { 0 };
    let hi = if 2 * i + 1 < words.len() { words[2 * i + 1] } else { 0 };
    (lo as u64) | ((hi as u64) << 32u64)
}

/// Takes over the residency map of a reply for `layer`: bit `e` tells of expert
/// `e`, and what the map lacks is not held. The layer's unanswered requests are
/// settled.
pub fn update(m: &mut Mirror, layer: u32, words: &[u32])
    requires
        old(m)@.wf(),
    ensures
        final(m)@.wf(),
        final(m)@ == (MirrorState {
            bits: final(m)@.bits,
            pend: final(m)@.pend,
            seen: if layer < N_LAYER { old(m)@.seen.update(layer as int, true) } else { old(m)@.seen },
            ..old(m)@
        }),
        forall|l: int, e: int|
            exists_expert(l, e) ==> #[trigger] final(m)@.held(l, e) == (if l == layer {
                map_bit(words@, e)
            } else {
                old(m)@.held(l, e)
            }),
        forall|l: int, e: int|
            exists_expert(l, e) ==> #[trigger] final(m)@.pending(l, e) == (l != layer && old(m)@.pending(l, e)),
{
    let l: usize = layer as usize;
    if l >= 40 {
        return ;
    }
    let mut i: usize = 0;
    while i < 6
        invariant
            i <= 6,
            l < 40,
            m@.wf(),
            m@ == (MirrorState { bits: m@.bits, pend: m@.pend, ..old(m)@ }),
            forall|x: int|
                0 <= x < 240 ==> #[trigger] m@.bits[x] == (if l * 6 <= x < l * 6 + i {
                    map_word(words@, x - l * 6)
                } else {
                    old(m)@.bits[x]
                }),
            forall|x: int|
                0 <= x < 240 ==> #[trigger] m@.pend[x] == (if l * 6 <= x < l * 6 + i {
                    0
                } else {
                    old(m)@.pend[x]
                }),
        decreases 6 - i,
    {
        let lo: u32 = if 2 * i < words.len() { words[2 * i] } else { 0 };
        let hi: u32 = if 2 * i + 1 < words.len() { words[2 * i + 1] } else { 0 };
        m.bits.set(l * 6 + i, (lo as u64) | ((hi as u64) << 32u64));
        m.pend.set(l * 6 + i, 0);
        i = i + 1;
    }
    m.seen.set(l, true);
    proof {
        assert forall|x: int, e: int| exists_expert(x, e) implies #[trigger] m@.held(x, e) == (if x == layer {
            map_bit(words@, e)
        } else {
            old(m)@.held(x, e)
        }) by {
            let at = x * 6 + e / 64;
            assert(0 <= e / 64 < 6);
            assert(m@.bits[at] == (if l * 6 <= at < l * 6 + 6 {
                map_word(words@, at - l * 6)
            } else {
                old(m)@.bits[at]
            }));
            if x == layer {
                let i = e / 64;
                lemma_map_word(
                    words@,
                    if 2 * i < words@.len() { words@[2 * i] } else { 0 },
                    if 2 * i + 1 < words@.len() { words@[2 * i + 1] } else { 0 },
                    i,
                    e % 64,
                );
            }
        }
        assert forall|x: int, e: int| exists_expert(x, e) implies #[trigger] m@.pending(x, e) == (x != layer && old(
            m,
        )@.pending(x, e)) by {
            let at = x * 6 + e / 64;
            assert(0 <= e / 64 < 6);
            assert(m@.pend[at] == (if l * 6 <= at < l * 6 + 6 { 0 } else { old(m)@.pend[at] }));
            residency::lemma_no_bit((e % 64) as u64);
        }
    }
}

/// `sel` picks expert `e` among its first `n`.
pub open spec fn picks(sel: Seq<i32>, n: int, e: int) -> bool {
    exists|i: int| 0 <= i < n && #[trigger] sel[i] == e
}

/// A request for `layer` with these picks was sent: until the layer's next reply
/// they count as being on their way. Picks that name no expert are ignored.
pub fn note_submitted(m: &mut Mirror, layer: u32, sel: &[i32])
    requires
        old(m)@.wf(),
    ensures
        final(m)@.wf(),
        final(m)@ == (MirrorState { pend: final(m)@.pend, ..old(m)@ }),
        forall|l: int, e: int|
            exists_expert(l, e) ==> #[trigger] final(m)@.pending(l, e) == (old(m)@.pending(l, e) || (l == layer
                && picks(sel@, sel.len() as int, e))),
{
    let l: usize = layer as usize;
    if l >= 40 {
        return ;
    }
    let mut i: usize = 0;
    while i < sel.len()
        invariant
            i <= sel.len(),
            l < 40,
            l == layer,
            m@.wf(),
            m@ == (MirrorState { pend: m@.pend, ..old(m)@ }),
            forall|x: int, e: int|
                exists_expert(x, e) ==> #[trigger] m@.pending(x, e) == (old(m)@.pending(x, e) || (x == layer
                    && picks(sel@, i as int, e))),
        decreases sel.len() - i,
    {
        let e: i32 = sel[i];
        let ghost before = m@;
        if e >= 0 && e < 384 {
            let at: usize = l * 6 + e as usize / 64;
            let word: u64 = m.pend[at];
            m.pend.set(at, word | (1u64 << (e as usize % 64) as u64));
        }
        proof {
            assert forall|x: int, y: int| exists_expert(x, y) implies #[trigger] m@.pending(x, y) == (old(
                m,
            )@.pending(x, y) || (x == layer && picks(sel@, i + 1, y))) by {
                assert(before.pending(x, y) == (old(m)@.pending(x, y) || (x == layer && picks(sel@, i as int, y))));
                if picks(sel@, i as int, y) {
                    let j = choose|j: int| 0 <= j < i && #[trigger] sel@[j] == y;
                    assert(sel@[j] == y);
                }
                if picks(sel@, i + 1, y) && !picks(sel@, i as int, y) {
                    let j = choose|j: int| 0 <= j < i + 1 && #[trigger] sel@[j] == y;
                    assert(j == i);
                }
                if e == y {
                    assert(sel@[i as int] == y);
                }
                if 0 <= e < 384 && x == l && y / 64 == e as int / 64 {
                    residency::lemma_set_bit(
                        before.pend[l * 6 + e as int / 64],
                        (e as int % 64) as u64,
                        (y % 64) as u64,
                    );
                }
            }
        }
        i = i + 1;
    }
}

/// What is known of expert `e` of `layer`; `None` until the layer was reported.
pub fn lookup(m: &Mirror, layer: i32, e: u32) -> (r: Option<Residency>)
    requires
        m@.wf(),
    ensures
        r == m@.known(layer, e),
{
    if layer < 0 || layer >= N_LAYER || e >= N_EXPERT || !m.seen[layer as usize] {
        return None;
    }
    let at: usize = layer as usize * 6 + e as usize / 64;
    let b: u64 = 1u64 << (e as usize % 64) as u64;
    Some(
        Residency {
            held: m.bits[at] & b != 0,
            pending: m.pend[at] & b != 0,
            incoming: incoming(m, layer as usize, e as usize),
        },
    )
}

/// Will the second device serve expert `e` of `layer` without a new read?
pub fn resident(m: &Mirror, layer: i32, e: u32) -> (r: Option<bool>)
    requires
        m@.wf(),
    ensures
        r == (match m@.known(layer, e) {
            Some(k) => Some(k.held || (k.pending && m@.counts_pending) || k.incoming),
            None => None,
        }),
{
    match lookup(m, layer, e) {
        Some(k) => Some(k.held || (k.pending && m.count_pending) || k.incoming),
        None => None,
    }
}

/// Counts background reads that were queued.
pub fn note_admits(m: &mut Mirror, n: usize)
    ensures
        final(m)@ == (MirrorState {
            stats: (SubStats {
                admits: old(m)@.stats.admits.wrapping_add(n as u64),
                ..old(m)@.stats
            }),
            ..old(m)@
        }),
{
    m.stats.admits = m.stats.admits.wrapping_add(n as u64);
}

/// Expert `e` of `layer` is missing but for a queued read.
pub open spec fn covered(m: MirrorState, layer: i32, e: int) -> bool {
    m.known(layer, e as u32) matches Some(k) && !k.held && !(k.pending && m.counts_pending) && k.incoming
}

/// Distinct experts among the first `n` picks that only a queued read covers and
/// that belong to the second device.
pub open spec fn covered_count(
    m: MirrorState,
    layer: i32,
    sel: Seq<i32>,
    n: int,
    is_box2: spec_fn(u32) -> bool,
) -> nat
    decreases n,
{
    if n <= 0 {
        0
    } else {
        let before = covered_count(m, layer, sel, n - 1, is_box2);
        let e = sel[n - 1];
        if 0 <= e < N_EXPERT && !picks(sel, n - 1, e as int) && covered(m, layer, e as int) && is_box2(e as u32) {
            before + 1
        } else {
            before
        }
    }
}

/// `f` is what `is_box2` answered for the picks of which something is known.
pub open spec fn answered<F: Fn(u32) -> bool>(
    m: MirrorState,
    layer: i32,
    sel: Seq<i32>,
    n: int,
    is_box2: F,
    f: spec_fn(u32) -> bool,
) -> bool {
    forall|i: int|
        0 <= i < n && 0 <= #[trigger] sel[i] < N_EXPERT && m.known(layer, sel[i] as u32) is Some ==> call_ensures(
            is_box2,
            (sel[i] as u32,),
            f(sel[i] as u32),
        )
}

/// Counts the distinct picks of the second device that only a queued read covers.
pub fn note_incoming_covered<F: Fn(u32) -> bool>(m: &mut Mirror, layer: i32, sel: &[i32], is_box2: F)
    requires
        old(m)@.wf(),
        forall|e: u32| #[trigger] call_requires(is_box2, (e,)),
    ensures
        exists|f: spec_fn(u32) -> bool| #[trigger]
            adds_covered(old(m)@, final(m)@, layer, sel@, f) && (old(m)@.window > 0 ==> answered(
                old(m)@,
                layer,
                sel@,
                sel.len() as int,
                is_box2,
                f,
            )),
{
    let ghost mut f = |e: u32| false;
    if m.window == 0 {
        proof {
            lemma_none_covered(m@, layer, sel@, sel.len() as int, f);
            assert(adds_covered(old(m)@, m@, layer, sel@, f));
        }
        return ;
    }
    let mut n: u64 = 0;
    let mut i: usize = 0;
    while i < sel.len()
        invariant
            i <= sel.len(),
            m@ == old(m)@,
            m@.wf(),
            n <= i,
            forall|e: u32| #[trigger] call_requires(is_box2, (e,)),
            n == covered_count(m@, layer, sel@, i as int, f),
            answered(m@, layer, sel@, i as int, is_box2, f),
        decreases sel.len() - i,
    {
        let e: i32 = sel[i];
        if e >= 0 && (e as u32) < N_EXPERT && !picked_before(sel, i, e) {
            if let Some(k) = lookup(m, layer, e as u32) {
                let theirs: bool = is_box2(e as u32);
                proof {
                    let before = f;
                    f = |x: u32| if x == e as u32 { theirs } else { before(x) };
                    assert forall|j: int| 0 <= j < i && 0 <= #[trigger] sel@[j] < N_EXPERT implies f(
                        sel@[j] as u32,
                    ) == before(sel@[j] as u32) by {
                        assert(sel@[j] != e);
                    }
                    lemma_covered_agree(m@, layer, sel@, i as int, before, f);
                }
                if theirs && !k.held && !(k.pending && m.count_pending) && k.incoming {
                    n = n + 1;
                }
            }
        } else if e >= 0 && (e as u32) < N_EXPERT {
            proof {
                let j = choose|j: int| 0 <= j < i && #[trigger] sel@[j] == e;
                assert(sel@[j] == e);
            }
        }
        i = i + 1;
    }
    m.stats.incoming = m.stats.incoming.wrapping_add(n);
    assert(adds_covered(old(m)@, m@, layer, sel@, f));
}

/// `after` is `before` with the picks counted that only a queued read covers and
/// that belong to the second device.
pub open spec fn adds_covered(
    before: MirrorState,
    after: MirrorState,
    layer: i32,
    sel: Seq<i32>,
    is_box2: spec_fn(u32) -> bool,
) -> bool {
    after == (MirrorState {
        stats: (SubStats {
            incoming: before.stats.incoming.wrapping_add(
                covered_count(before, layer, sel, sel.len() as int, is_box2) as u64,
            ),
            ..before.stats
        }),
        ..before
    })
}

proof fn lemma_covered_agree(
    m: MirrorState,
    layer: i32,
    sel: Seq<i32>,
    n: int,
    f: spec_fn(u32) -> bool,
    g: spec_fn(u32) -> bool,
)
    requires
        forall|j: int| 0 <= j < n && 0 <= #[trigger] sel[j] < N_EXPERT ==> f(sel[j] as u32) == g(sel[j] as u32),
    ensures
        covered_count(m, layer, sel, n, f) == covered_count(m, layer, sel, n, g),
    decreases n,
{
    if n > 0 {
        lemma_covered_agree(m, layer, sel, n - 1, f, g);
    }
}

proof fn lemma_none_covered(m: MirrorState, layer: i32, sel: Seq<i32>, n: int, f: spec_fn(u32) -> bool)
    requires
        m.window == 0,
    ensures
        covered_count(m, layer, sel, n, f) == 0,
    decreases n,
{
    if n > 0 {
        lemma_none_covered(m, layer, sel, n - 1, f);
    }
}

/// Is `e` among the first `n` picks?
fn picked_before(sel: &[i32], n: usize, e: i32) -> (r: bool)
    requires
        n <= sel.len(),
    ensures
        r == picks(sel@, n as int, e as int),
{
    let mut i: usize = 0;
    while i < n
        invariant
            i <= n <= sel.len(),
            forall|j: int| 0 <= j < i ==> #[trigger] sel@[j] != e,
        decreases n - i,
    {
        if sel[i] == e {
            assert(sel@[i as int] == e);
            return true;
        }
        i = i + 1;
    }
    false
}

/// Takes the counters, leaving zeros: predicted misses, reads avoided, picks
/// replaced, misses left alone, failures, background reads queued, and picks
/// covered by a queued read.
pub fn take_sub_stats(m: &mut Mirror) -> (r: (u64, u64, u64, u64, u64, u64, u64))
    ensures
        final(m)@ == (MirrorState { stats: no_stats(), ..old(m)@ }),
        ({
            let s = old(m)@.stats;
            r == (s.predicted, s.avoided, s.slots, s.blocked, s.failed, s.admits, s.incoming)
        }),
{
    let s: SubStats = m.stats;
    m.stats = SubStats {
        predicted: 0,
        avoided: 0,
        slots: 0,
        blocked: 0,
        failed: 0,
        admits: 0,
        incoming: 0,
    };
    (s.predicted, s.avoided, s.slots, s.blocked, s.failed, s.admits, s.incoming)
}

/// Adds the outcome of a batch to the counters.
pub fn record(m: &mut Mirror, o: &SubOutcome)
    ensures
        final(m)@ == (MirrorState {
            stats: (SubStats {
                predicted: old(m)@.stats.predicted.wrapping_add(o.predicted as u64),
                avoided: old(m)@.stats.avoided.wrapping_add(o.avoided as u64),
                slots: old(m)@.stats.slots.wrapping_add(o.slots as u64),
                blocked: old(m)@.stats.blocked.wrapping_add(o.blocked as u64),
                failed: old(m)@.stats.failed.wrapping_add(o.failed as u64),
                ..old(m)@.stats
            }),
            ..old(m)@
        }),
{
    m.stats.predicted = m.stats.predicted.wrapping_add(o.predicted as u64);
    m.stats.avoided = m.stats.avoided.wrapping_add(o.avoided as u64);
    m.stats.slots = m.stats.slots.wrapping_add(o.slots as u64);
    m.stats.blocked = m.stats.blocked.wrapping_add(o.blocked as u64);
    m.stats.failed = m.stats.failed.wrapping_add(o.failed as u64);
}

/// A read that is queued in one step counts as resident from the next step on, for
/// as many steps as the window has, and in no other step up to the largest.
pub proof fn a_queued_read_counts_for_its_window(
    m: MirrorState,
    later: MirrorState,
    l: int,
    e: int,
)
    requires
        exists_expert(l, e),
        m.window > 0,
        m.clock + m.window < u32::MAX,
        later.mark(l, e) == next_step(m.clock),
        later.window == m.window,
        m.clock <= later.clock,
    ensures
        later.in_window(l, e) <==> m.clock + 1 <= later.clock <= m.clock + m.window,
{
}

/// A prefill ends every mark, also one that was made in the step before it, and
/// changes nothing else that is known of an expert. The mark's age at the end of
/// its window has to be one that the clock can tell.
pub proof fn a_prefill_ends_every_mark(m: MirrorState, layer: i32, e: u32)
    requires
        m.timely(),
        m.window < u32::MAX,
        exists_expert(layer as int, e as int) ==> m.mark(layer as int, e as int) == 0 || m.clock - m.mark(
            layer as int,
            e as int,
        ) + m.window < u32::MAX,
    ensures
        m.expired().known(layer, e) == (match m.known(layer, e) {
            Some(k) => Some(Residency { incoming: false, ..k }),
            None => None,
        }),
{
    if exists_expert(layer as int, e as int) {
        a_mark_that_a_prefill_ended_stays_ended(m, m.expired(), 0, layer as int, e as int);
    }
}

/// A mark that a prefill ended stays ended, `steps` steps later, for as long as the
/// clock can tell its age, until a read of its expert is queued again.
pub proof fn a_mark_that_a_prefill_ended_stays_ended(
    m: MirrorState,
    later: MirrorState,
    steps: u32,
    l: int,
    e: int,
)
    requires
        m.timely(),
        exists_expert(l, e),
        m.window < u32::MAX,
        m.mark(l, e) == 0 || m.clock - m.mark(l, e) + m.window + steps < u32::MAX,
        later.clock == m.expired().clock.wrapping_add(steps),
        later.window == m.window,
        later.mark(l, e) == m.mark(l, e),
    ensures
        !later.in_window(l, e),
{
    assert(m.mark(l, e) <= m.clock + 1);
}

/// Only a read that is queued moves a mark: a step and a prefill keep it.
pub proof fn only_a_queued_read_moves_a_mark(m: MirrorState, l: int, e: int)
    ensures
        m.stepped().mark(l, e) == m.mark(l, e),
        m.expired().mark(l, e) == m.mark(l, e),
        m.stepped().window == m.window,
        m.expired().window == m.window,
        m.clock < u32::MAX ==> m.stepped().clock == m.clock + 1,
{
}

} // verus!
