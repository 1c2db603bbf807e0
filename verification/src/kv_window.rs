//! The sliding window of raw key/value rows that each layer keeps.
//!
//! Rows are appended at ascending slots of a cache, so the window advances
//! without moving them. Only when the slots run out are the live rows copied
//! back to the front.

use vstd::prelude::*;
use crate::config::SWA_WINDOW;

verus! {

/// The live rows: slots `raw_off` to `raw_off + n_raw` of the cache.
#[derive(Clone, Copy, PartialEq, Eq, Structural, Debug)]
pub struct KvWindow {
    pub raw_off: u32,
    pub n_raw: u32,
}

/// A copy of live rows to the front of the cache.
#[derive(Clone, Copy, PartialEq, Eq, Structural, Debug)]
pub struct KvCopy {
    pub from: u32,
    pub n: u32,
}

/// What appending one row does to the cache.
#[derive(Clone, Copy, PartialEq, Eq, Structural, Debug)]
pub struct KvAppend {
    /// Slot that the new row is written to.
    pub slot: u32,
    /// Copy that follows the write, where the slots have run out.
    pub wrap: Option<KvCopy>,
}

impl KvWindow {
    /// The window fits a cache of `rows` slots, with room for one more row.
    pub open spec fn wf(self, rows: u32) -> bool {
        &&& self.n_raw <= SWA_WINDOW
        &&& self.raw_off + SWA_WINDOW < rows
    }

    /// The slot that the next row takes.
    pub open spec fn next_slot(self) -> int {
        self.raw_off + self.n_raw
    }

    /// The window after one more row: it grows until it is full, then slides.
    pub open spec fn advanced(self) -> KvWindow {
        if self.n_raw < SWA_WINDOW {
            KvWindow { raw_off: self.raw_off, n_raw: (self.n_raw + 1) as u32 }
        } else {
            KvWindow { raw_off: (self.raw_off + 1) as u32, n_raw: self.n_raw }
        }
    }

    /// The slots behind the window have run out.
    pub open spec fn exhausted(self, rows: u32) -> bool {
        self.raw_off + SWA_WINDOW >= rows
    }

    /// The window after one more row and the copy that may follow it.
    pub open spec fn appended(self, rows: u32) -> KvWindow {
        let next = self.advanced();
        if next.exhausted(rows) {
            KvWindow { raw_off: 0, n_raw: next.n_raw }
        } else {
            next
        }
    }

    /// The copy that follows the next row.
    pub open spec fn wrap_copy(self, rows: u32) -> Option<KvCopy> {
        let next = self.advanced();
        if next.exhausted(rows) {
            Some(KvCopy { from: next.raw_off, n: next.n_raw })
        } else {
            None
        }
    }

    /// An empty window.
    pub fn new() -> (w: KvWindow)
        ensures
            w.raw_off == 0,
            w.n_raw == 0,
    {
        KvWindow { raw_off: 0, n_raw: 0 }
    }

    /// Slot of the next row.
    pub fn slot(&self) -> (slot: u32)
        requires
            self.next_slot() <= u32::MAX,
        ensures
            slot == self.next_slot(),
    {
        self.raw_off + self.n_raw
    }

    /// Takes one more row into a cache of `rows` slots.
    pub fn append(&mut self, rows: u32) -> (a: KvAppend)
        requires
            old(self).next_slot() < rows,
            old(self).raw_off + SWA_WINDOW < u32::MAX,
        ensures
            a.slot == old(self).next_slot(),
            a.wrap == old(self).wrap_copy(rows),
            *final(self) == old(self).appended(rows),
    {
        let slot: u32 = self.raw_off + self.n_raw;
        if self.n_raw < SWA_WINDOW {
            self.n_raw = self.n_raw + 1;
        } else {
            self.raw_off = self.raw_off + 1;
        }
        if self.raw_off + SWA_WINDOW >= rows {
            let wrap = KvCopy { from: self.raw_off, n: self.n_raw };
            self.raw_off = 0;
            KvAppend { slot, wrap: Some(wrap) }
        } else {
            KvAppend { slot, wrap: None }
        }
    }

    /// The copy that brings the window to the front, where one is needed.
    pub open spec fn front_copy(self) -> Option<KvCopy> {
        if self.raw_off == 0 || self.n_raw == 0 {
            None
        } else {
            Some(KvCopy { from: self.raw_off, n: self.n_raw })
        }
    }

    /// Moves the window to the front of the cache.
    pub fn normalize(&mut self) -> (copy: Option<KvCopy>)
        ensures
            copy == old(self).front_copy(),
            *final(self) == (KvWindow { raw_off: 0, n_raw: old(self).n_raw }),
    {
        let copy = if self.raw_off == 0 || self.n_raw == 0 {
            None
        } else {
            Some(KvCopy { from: self.raw_off, n: self.n_raw })
        };
        self.raw_off = 0;
        copy
    }
}

/// Moves every layer's window to the front; the copies that this takes, layer
/// by layer.
pub fn normalize_raw_windows(layers: &mut Vec<KvWindow>) -> (copies: Vec<Option<KvCopy>>)
    ensures
        final(layers)@ == old(layers)@.map_values(
            |w: KvWindow| KvWindow { raw_off: 0, n_raw: w.n_raw },
        ),
        copies@ == old(layers)@.map_values(|w: KvWindow| w.front_copy()),
{
    let ghost before = layers@;
    let mut copies: Vec<Option<KvCopy>> = Vec::new();
    let mut i: usize = 0;
    while i < layers.len()
        invariant
            i <= layers.len(),
            layers.len() == before.len(),
            copies.len() == i,
            forall|j: int| 0 <= j < i ==> #[trigger] copies[j] == before[j].front_copy(),
            forall|j: int|
                0 <= j < i ==> #[trigger] layers[j] == (KvWindow {
                    raw_off: 0,
                    n_raw: before[j].n_raw,
                }),
            forall|j: int| i <= j < before.len() ==> #[trigger] layers[j] == before[j],
        decreases layers.len() - i,
    {
        let mut w = layers[i];
        let copy = w.normalize();
        layers.set(i, w);
        copies.push(copy);
        i = i + 1;
    }
    copies
}

/// The live rows of a cache.
pub open spec fn live<T>(cache: Seq<T>, w: KvWindow) -> Seq<T> {
    cache.subrange(w.raw_off as int, w.raw_off + w.n_raw)
}

/// A cache whose first `copy.n` rows were copied from `copy.from`.
pub open spec fn copied<T>(cache: Seq<T>, copy: KvCopy) -> Seq<T> {
    Seq::new(cache.len(), |i: int| if i < copy.n { cache[copy.from + i] } else { cache[i] })
}

/// A cache after `x` was appended.
pub open spec fn cache_appended<T>(cache: Seq<T>, w: KvWindow, rows: u32, x: T) -> Seq<T> {
    let written = cache.update(w.next_slot(), x);
    match w.wrap_copy(rows) {
        Some(copy) => copied(written, copy),
        None => written,
    }
}

/// The last `SWA_WINDOW` values, or all of them where there are fewer.
pub open spec fn newest<T>(xs: Seq<T>) -> Seq<T> {
    if xs.len() <= SWA_WINDOW {
        xs
    } else {
        xs.skip(xs.len() - SWA_WINDOW)
    }
}

/// The window after `n` rows were appended to an empty one.
pub open spec fn window_after(n: nat, rows: u32) -> KvWindow
    decreases n,
{
    if n == 0 {
        KvWindow { raw_off: 0, n_raw: 0 }
    } else {
        window_after((n - 1) as nat, rows).appended(rows)
    }
}

/// The cache after all of `xs` were appended to an empty window.
pub open spec fn cache_after<T>(cache: Seq<T>, xs: Seq<T>, rows: u32) -> Seq<T>
    decreases xs.len(),
{
    if xs.len() == 0 {
        cache
    } else {
        let done = cache_after(cache, xs.drop_last(), rows);
        cache_appended(done, window_after((xs.len() - 1) as nat, rows), rows, xs.last())
    }
}

/// A window that fits its cache fits it after every append, so the next slot is
/// always there.
pub proof fn appending_keeps_the_window_in_the_cache(w: KvWindow, rows: u32)
    requires
        w.wf(rows),
    ensures
        w.next_slot() < rows,
        w.appended(rows).wf(rows),
{
}

/// An append adds its row behind the live ones, and drops the oldest where the
/// window was full. Neither depends on whether the cache wrapped.
pub proof fn an_append_keeps_the_newest_rows<T>(cache: Seq<T>, w: KvWindow, rows: u32, x: T)
    requires
        w.wf(rows),
        cache.len() == rows,
    ensures
        live(cache_appended(cache, w, rows, x), w.appended(rows)) == newest(
            live(cache, w).push(x),
        ),
{
    let written = cache.update(w.next_slot(), x);
    assert(live(written, w.advanced()) =~= newest(live(cache, w).push(x)));
    assert(live(cache_appended(cache, w, rows, x), w.appended(rows)) =~= live(
        written,
        w.advanced(),
    ));
}

/// Whatever was appended, the live rows are the last `SWA_WINDOW` of it, oldest
/// first.
pub proof fn the_window_holds_the_newest_rows<T>(cache: Seq<T>, xs: Seq<T>, rows: u32)
    requires
        SWA_WINDOW < rows,
        cache.len() == rows,
    ensures
        window_after(xs.len(), rows).wf(rows),
        cache_after(cache, xs, rows).len() == rows,
        live(cache_after(cache, xs, rows), window_after(xs.len(), rows)) == newest(xs),
    decreases xs.len(),
{
    if xs.len() == 0 {
        assert(live(cache, window_after(0, rows)) =~= newest(xs));
    } else {
        let head = xs.drop_last();
        the_window_holds_the_newest_rows(cache, head, rows);
        let before = cache_after(cache, head, rows);
        let w = window_after(head.len(), rows);
        an_append_keeps_the_newest_rows(before, w, rows, xs.last());
        assert(newest(newest(head).push(xs.last())) =~= newest(xs));
    }
}

/// Moving the window to the front keeps its rows.
pub proof fn normalizing_keeps_the_live_rows<T>(cache: Seq<T>, w: KvWindow, rows: u32)
    requires
        w.wf(rows),
        cache.len() == rows,
    ensures
        live(
            match w.front_copy() {
                Some(copy) => copied(cache, copy),
                None => cache,
            },
            KvWindow { raw_off: 0, n_raw: w.n_raw },
        ) == live(cache, w),
{
    let after = match w.front_copy() {
        Some(copy) => copied(cache, copy),
        None => cache,
    };
    assert(live(after, KvWindow { raw_off: 0, n_raw: w.n_raw }) =~= live(cache, w));
}

} // verus!
