//! What the two devices tell each other about the experts they hold: misses of
//! the second device, residency hints, and the fixed split of the expert ids.

use vstd::prelude::*;
use crate::config::{N_EXPERT, N_LAYER};

verus! {

/// Words of 64 experts per layer.
pub const WORDS_PER_LAYER: usize = 6;

/// Words of the whole bitmap.
pub const MISS_WORDS: usize = 240;

/// Hints that are kept of each kind.
pub const HINT_CAP: usize = 4096;

/// Expert `e` of `layer` exists.
pub open spec fn in_model(layer: i32, e: u32) -> bool {
    0 <= layer < N_LAYER && e < N_EXPERT
}

/// Bit `i` of a word.
pub open spec fn bit(word: u64, i: u64) -> bool {
    word & (1u64 << i) != 0
}

pub proof fn lemma_set_bit(word: u64, i: u64, j: u64)
    requires
        i < 64,
        j < 64,
    ensures
        bit(word | (1u64 << i), j) == (bit(word, j) || i == j),
{
    assert(i < 64 && j < 64 ==> ((word | (1u64 << i)) & (1u64 << j) != 0) == (word & (1u64 << j) != 0
        || i == j)) by (bit_vector);
}

pub proof fn lemma_clear_bit(word: u64, i: u64, j: u64)
    requires
        i < 64,
        j < 64,
    ensures
        bit(word & !(1u64 << i), j) == (bit(word, j) && i != j),
{
    assert(i < 64 && j < 64 ==> ((word & !(1u64 << i)) & (1u64 << j) != 0) == (word & (1u64 << j) != 0
        && i != j)) by (bit_vector);
}

pub proof fn lemma_no_bit(i: u64)
    ensures
        !bit(0, i),
{
    assert(0u64 & (1u64 << i) == 0) by (bit_vector);
}

/// Word and bit of an expert of a layer, or `None` outside of the model.
pub fn box2_missed_slot(layer: i32, e: u32) -> (r: Option<(usize, u64)>)
    ensures
        r is Some <==> in_model(layer, e),
        r matches Some((i, b)) ==> {
            &&& i == layer * 6 + e as int / 64
            &&& i < MISS_WORDS
            &&& b == 1u64 << (e % 64) as u64
        },
{
    if layer < 0 || layer >= N_LAYER || e >= N_EXPERT {
        return None;
    }
    Some((layer as usize * WORDS_PER_LAYER + e as usize / 64, 1u64 << (e % 64) as u64))
}

/// Experts that the second device had to page and this one has not taken yet,
/// and how often each layer missed there.
pub struct Box2Misses {
    bits: Vec<u64>,
    by_layer: Vec<u64>,
}

impl Box2Misses {
    pub closed spec fn wf(self) -> bool {
        self.bits.len() == MISS_WORDS && self.by_layer.len() == N_LAYER
    }

    /// Expert `e` of `layer` is marked.
    pub closed spec fn marked(self, layer: i32, e: u32) -> bool {
        in_model(layer, e) && bit(self.bits@[layer * 6 + e as int / 64], (e % 64) as u64)
    }

    /// Misses of each layer since they were last taken.
    pub closed spec fn counts(self) -> Seq<u64> {
        self.by_layer@
    }

    /// No marks and no counts.
    pub fn new() -> (r: Self)
        ensures
            r.wf(),
            forall|layer: i32, e: u32| !#[trigger] r.marked(layer, e),
            r.counts() == Seq::new(N_LAYER as nat, |i: int| 0u64),
    {
        let r = Box2Misses { bits: vec![0; MISS_WORDS], by_layer: vec![0; N_LAYER as usize] };
        proof {
            assert forall|layer: i32, e: u32| !#[trigger] r.marked(layer, e) by {
                lemma_no_bit((e % 64) as u64);
            }
            assert(r.counts() =~= Seq::new(N_LAYER as nat, |i: int| 0u64));
        }
        r
    }
}

/// Records that the second device had to page expert `e` of `layer`.
pub fn mark_box2_miss(m: &mut Box2Misses, layer: i32, e: u32)
    requires
        old(m).wf(),
    ensures
        final(m).wf(),
        forall|l: i32, x: u32| #[trigger]
            final(m).marked(l, x) == (old(m).marked(l, x) || (in_model(layer, e) && l == layer && x == e)),
        final(m).counts() == (if 0 <= layer < N_LAYER {
            old(m).counts().update(layer as int, old(m).counts()[layer as int].wrapping_add(1))
        } else {
            old(m).counts()
        }),
{
    if layer >= 0 && layer < N_LAYER {
        let n: u64 = m.by_layer[layer as usize];
        m.by_layer.set(layer as usize, n.wrapping_add(1));
    }
    if let Some((i, b)) = box2_missed_slot(layer, e) {
        let word: u64 = m.bits[i];
        m.bits.set(i, word | b);
        proof {
            assert forall|l: i32, x: u32| #[trigger] m.marked(l, x) == (old(m).marked(l, x) || (l == layer
                && x == e)) by {
                if in_model(l, x) {
                    lemma_set_bit(word, (e % 64) as u64, (x % 64) as u64);
                }
            }
        }
    }
}

/// Has the second device missed expert `e` of `layer` since this one took it?
pub fn box2_missed(m: &Box2Misses, layer: i32, e: u32) -> (r: bool)
    requires
        m.wf(),
    ensures
        r == m.marked(layer, e),
{
    match box2_missed_slot(layer, e) {
        Some((i, b)) => m.bits[i] & b != 0,
        None => false,
    }
}

/// Takes the mark off expert `e` of `layer`.
pub fn clear_box2_miss(m: &mut Box2Misses, layer: i32, e: u32)
    requires
        old(m).wf(),
    ensures
        final(m).wf(),
        forall|l: i32, x: u32| #[trigger]
            final(m).marked(l, x) == (old(m).marked(l, x) && !(l == layer && x == e)),
        final(m).counts() == old(m).counts(),
{
    if let Some((i, b)) = box2_missed_slot(layer, e) {
        let word: u64 = m.bits[i];
        m.bits.set(i, word & !b);
        proof {
            assert forall|l: i32, x: u32| #[trigger] m.marked(l, x) == (old(m).marked(l, x) && !(l == layer
                && x == e)) by {
                if in_model(l, x) {
                    lemma_clear_bit(word, (e % 64) as u64, (x % 64) as u64);
                }
            }
        }
    }
}

/// Takes the miss counts of all layers, leaving zeros.
pub fn take_box2_miss_by_layer(m: &mut Box2Misses) -> (r: Vec<u64>)
    requires
        old(m).wf(),
    ensures
        final(m).wf(),
        r@ == old(m).counts(),
        final(m).counts() == Seq::new(N_LAYER as nat, |i: int| 0u64),
        forall|l: i32, x: u32| #[trigger] final(m).marked(l, x) == old(m).marked(l, x),
{
    let mut out: Vec<u64> = vec![0; N_LAYER as usize];
    std::mem::swap(&mut out, &mut m.by_layer);
    assert(m.counts() =~= Seq::new(N_LAYER as nat, |i: int| 0u64));
    out
}

/// Word of a residency hint: the layer above 16 bits of expert id.
pub open spec fn hint_word(layer: i32, e: u32) -> u32 {
    ((layer as u32) << 16u32) | (e & 0xffff)
}

/// A hint names the layer and the expert it was made of.
pub proof fn hint_word_round_trip(layer: i32, e: u32)
    requires
        0 <= layer < 0x1_0000,
        e < 0x1_0000,
    ensures
        hint_word(layer, e) >> 16u32 == layer,
        hint_word(layer, e) & 0xffff == e,
{
    let l = layer as u32;
    assert(l < 0x1_0000 && e < 0x1_0000 ==> ((l << 16u32) | (e & 0xffff)) >> 16u32 == l) by (bit_vector);
    assert(l < 0x1_0000 && e < 0x1_0000 ==> ((l << 16u32) | (e & 0xffff)) & 0xffff == e) by (bit_vector);
}

/// Residency changes that the second device has not been told of.
pub struct ResidencyHints {
    admitted: Vec<u32>,
    evicted: Vec<u32>,
}

impl ResidencyHints {
    pub closed spec fn admitted_words(self) -> Seq<u32> {
        self.admitted@
    }

    pub closed spec fn evicted_words(self) -> Seq<u32> {
        self.evicted@
    }

    pub fn new() -> (r: Self)
        ensures
            r.admitted_words() == Seq::<u32>::empty(),
            r.evicted_words() == Seq::<u32>::empty(),
    {
        ResidencyHints { admitted: Vec::new(), evicted: Vec::new() }
    }
}

/// The queue with one more hint, unless it is full.
pub open spec fn hinted(words: Seq<u32>, layer: i32, e: u32) -> Seq<u32> {
    if words.len() < HINT_CAP { words.push(hint_word(layer, e)) } else { words }
}

/// Notes that an expert was admitted to or evicted from this device's pool. A
/// full queue drops the hint.
pub fn push_hint(h: &mut ResidencyHints, admitted: bool, layer: i32, e: u32)
    ensures
        admitted ==> final(h).admitted_words() == hinted(old(h).admitted_words(), layer, e)
            && final(h).evicted_words() == old(h).evicted_words(),
        !admitted ==> final(h).evicted_words() == hinted(old(h).evicted_words(), layer, e)
            && final(h).admitted_words() == old(h).admitted_words(),
{
    let w: u32 = ((layer as u32) << 16u32) | (e & 0xffff);
    if admitted {
        if h.admitted.len() < HINT_CAP {
            h.admitted.push(w);
        }
    } else {
        if h.evicted.len() < HINT_CAP {
            h.evicted.push(w);
        }
    }
}

/// How many of `n` hints a call takes.
pub open spec fn taken_count(n: nat, max: usize) -> int {
    if n <= max { n as int } else { max as int }
}

/// Splits the oldest `max` words off `v`.
fn take_front(v: &mut Vec<u32>, max: usize) -> (r: Vec<u32>)
    ensures
        r@ == old(v)@.take(taken_count(old(v)@.len(), max)),
        final(v)@ == old(v)@.skip(taken_count(old(v)@.len(), max)),
{
    let n: usize = if v.len() <= max { v.len() } else { max };
    let rest: Vec<u32> = v.split_off(n);
    let mut front: Vec<u32> = rest;
    std::mem::swap(&mut front, v);
    assert(front@ =~= old(v)@.take(n as int));
    assert(v@ =~= old(v)@.skip(n as int));
    front
}

/// Takes up to `max` hints of each kind, the oldest first.
pub fn take_residency_hints(h: &mut ResidencyHints, max: usize) -> (r: (Vec<u32>, Vec<u32>))
    ensures
        r.0@ == old(h).admitted_words().take(taken_count(old(h).admitted_words().len(), max)),
        r.1@ == old(h).evicted_words().take(taken_count(old(h).evicted_words().len(), max)),
        final(h).admitted_words() == old(h).admitted_words().skip(
            taken_count(old(h).admitted_words().len(), max),
        ),
        final(h).evicted_words() == old(h).evicted_words().skip(
            taken_count(old(h).evicted_words().len(), max),
        ),
{
    let a: Vec<u32> = take_front(&mut h.admitted, max);
    let e: Vec<u32> = take_front(&mut h.evicted, max);
    (a, e)
}

/// The share of the expert ids that belongs to the first device.
pub struct Partition {
    /// Thousandths, once set.
    milli: Option<u32>,
}

impl Partition {
    /// Thousandths of the ids that belong to the first device.
    pub closed spec fn share(self) -> u32 {
        match self.milli {
            Some(m) => m,
            None => 420,
        }
    }

    pub closed spec fn is_set(self) -> bool {
        self.milli is Some
    }

    pub fn new() -> (r: Self)
        ensures
            !r.is_set(),
            r.share() == 420,
    {
        Partition { milli: None }
    }
}

/// Sets the first device's share from the slots of both devices, or to the
/// configured thousandths. Returns whether it was the first time.
pub fn set_partition_share(
    p: &mut Partition,
    configured: Option<u32>,
    box1_slots: u32,
    box2_slots: u32,
) -> (r: bool)
    ensures
        r == !old(p).is_set(),
        final(p).is_set(),
        configured matches Some(m) ==> final(p).share() == m,
        configured is None ==> final(p).share() == (if box1_slots + box2_slots == 0 {
            0
        } else {
            1000 * box1_slots / (box1_slots + box2_slots)
        }),
{
    let m: u32 = match configured {
        Some(m) => m,
        None => {
            let both: u64 = box1_slots as u64 + box2_slots as u64;
            let d: u64 = if both >= 1 { both } else { 1 };
            proof {
                assert(1000 * box1_slots as int / d as int <= 1000) by (nonlinear_arith)
                    requires
                        box1_slots <= d,
                        d >= 1,
                ;
                assert(1000 * box1_slots as int / d as int >= 0) by (nonlinear_arith)
                    requires
                        d >= 1,
                        box1_slots >= 0,
                ;
            }
            (1000 * box1_slots as u64 / d) as u32
        },
    };
    let first: bool = p.milli.is_none();
    p.milli = Some(m);
    first
}

/// Where an expert of a layer falls among a thousand.
pub open spec fn partition_hash(layer: i32, e: u32) -> int {
    (layer * 1000003 + e * 7919) % 1000
}

/// Does expert `e` of `layer` belong to the second device?
pub fn partition_box2(p: &Partition, layer: i32, e: u32) -> (r: bool)
    requires
        layer >= 0,
    ensures
        r == (partition_hash(layer, e) >= p.share()),
{
    let m: u32 = match p.milli {
        Some(m) => m,
        None => 420,
    };
    let h: u64 = (layer as u64 * 1000003 + e as u64 * 7919) % 1000;
    h >= m as u64
}

/// A larger share never moves an expert from the first device to the second, a
/// share of a thousand leaves the second none, and a share of zero gives it all.
pub proof fn partition_is_monotone(layer: i32, e: u32, small: u32, large: u32)
    requires
        layer >= 0,
        small <= large,
    ensures
        partition_hash(layer, e) >= large ==> partition_hash(layer, e) >= small,
        large >= 1000 ==> partition_hash(layer, e) < large,
        small == 0 ==> partition_hash(layer, e) >= small,
{
}

} // verus!
