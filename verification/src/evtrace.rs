//! A trace of events: one record for each event, queued for a writer. A full queue
//! drops the record and counts it, so that whoever records never waits for a disk.
//! A value is held as the bits of a floating-point number.

use vstd::prelude::*;
use crate::evtrace_kinds::{Kind, MAX_FIELDS};
use crate::evtrace_kinds;
use std::collections::VecDeque;

verus! {

/// The records that can wait for the writer.
pub const QUEUE_CAP: usize = 8192;

/// The bits of a value that was not measured.
pub const NOT_MEASURED: u64 = 0x7ff8_0000_0000_0000;

/// A record of an event.
pub struct Rec {
    pub kind: u16,
    pub values: Vec<u64>,
}

/// What a record holds.
pub struct RecState {
    pub kind: u16,
    pub values: Seq<u64>,
}

impl View for Rec {
    type V = RecState;

    open spec fn view(&self) -> RecState {
        RecState { kind: self.kind, values: self.values@ }
    }
}

/// The number of values in a record of a kind with `fields` fields.
pub open spec fn record_len(fields: nat) -> nat {
    if fields <= MAX_FIELDS {
        fields
    } else {
        MAX_FIELDS as nat
    }
}

/// The values of a record: those given, as far as the kind has fields, and none
/// measured for the fields that are left.
pub open spec fn record_values(fields: nat, v: Seq<u64>) -> Seq<u64> {
    Seq::new(
        record_len(fields),
        |i: int|
            if i < v.len() {
                v[i]
            } else {
                NOT_MEASURED
            },
    )
}

/// The record of an event.
pub open spec fn record(k: evtrace_kinds::KindState, v: Seq<u64>) -> RecState {
    RecState { kind: k.id, values: record_values(k.fields.len(), v) }
}

/// The record of an event of kind `k`, whose fields have the values `v` in order. A
/// short `v` leaves the rest unmeasured, a long one is cut.
pub fn record_of(k: &Kind, v: &[u64]) -> (r: Rec)
    ensures
        r@ == record(k@, v@),
        r.values.len() <= MAX_FIELDS,
{
    let n: usize = if k.fields.len() <= MAX_FIELDS {
        k.fields.len()
    } else {
        MAX_FIELDS
    };
    let mut values: Vec<u64> = Vec::new();
    let mut i: usize = 0;
    while i < n
        invariant
            i <= n,
            n == record_len(k.fields@.len()),
            values@ == record_values(k.fields@.len(), v@).take(i as int),
        decreases n - i,
    {
        let ghost want = record_values(k.fields@.len(), v@);
        if i < v.len() {
            values.push(v[i]);
        } else {
            values.push(NOT_MEASURED);
        }
        assert(values@ =~= want.take(i + 1));
        i = i + 1;
    }
    let r = Rec { kind: k.id, values };
    assert(r.values@ =~= record_values(k.fields@.len(), v@));
    r
}

/// A trace: whether it is on, the records that wait, and how many were dropped.
pub struct Trace {
    on: bool,
    queue: VecDeque<Rec>,
    dropped: u64,
}

/// What a trace holds.
pub struct TraceState {
    pub on: bool,
    pub queue: Seq<RecState>,
    pub dropped: u64,
}

/// What some records hold.
pub open spec fn records(v: Seq<Rec>) -> Seq<RecState> {
    v.map_values(|r: Rec| r@)
}

impl View for Trace {
    type V = TraceState;

    closed spec fn view(&self) -> TraceState {
        TraceState { on: self.on, queue: records(self.queue@), dropped: self.dropped }
    }
}

/// The trace after a record was given to its queue: it waits there where there is
/// room, else it is dropped and counted.
pub open spec fn queued(t: TraceState, r: RecState) -> TraceState {
    if t.queue.len() < QUEUE_CAP {
        TraceState { queue: t.queue.push(r), ..t }
    } else {
        TraceState { dropped: u64::wrapping_add(t.dropped, 1), ..t }
    }
}

impl Trace {
    /// No more records wait than the queue has room for.
    pub closed spec fn wf(self) -> bool {
        self.queue@.len() <= QUEUE_CAP
    }

    /// A trace that is off.
    pub fn new() -> (r: Self)
        ensures
            r.wf(),
            r@ == (TraceState { on: false, queue: Seq::empty(), dropped: 0 }),
    {
        let r = Trace { on: false, queue: VecDeque::new(), dropped: 0 };
        assert(r@.queue =~= Seq::<RecState>::empty());
        r
    }

    /// Turns the trace on or off.
    pub fn switch(&mut self, on: bool)
        requires
            old(self).wf(),
        ensures
            final(self).wf(),
            final(self)@ == (TraceState { on, ..old(self)@ }),
    {
        self.on = on;
    }

    /// How many records were dropped.
    pub fn dropped(&self) -> (r: u64)
        ensures
            r == self@.dropped,
    {
        self.dropped
    }

    /// The record that has waited longest.
    pub fn next(&mut self) -> (r: Option<Rec>)
        requires
            old(self).wf(),
        ensures
            final(self).wf(),
            match r {
                Some(rec) => {
                    &&& old(self)@.queue.len() > 0
                    &&& rec@ == old(self)@.queue[0]
                    &&& final(self)@ == (TraceState { queue: old(self)@.queue.skip(1), ..old(self)@ })
                },
                None => old(self)@.queue.len() == 0 && final(self)@ == old(self)@,
            },
    {
        let ghost before = self.queue@;
        let r = self.queue.pop_front();
        if r.is_some() {
            assert(records(self.queue@) =~= records(before).skip(1));
        }
        r
    }
}

/// Is the trace on? Who must gather values for a record asks first.
pub fn enabled(t: &Trace) -> (r: bool)
    ensures
        r == t@.on,
{
    t.on
}

/// Records an event of kind `k`, whose fields have the values `v` in order, where
/// the trace is on. A short `v` leaves the rest unmeasured, a long one is cut.
pub fn emit(t: &mut Trace, k: &Kind, v: &[u64])
    requires
        old(t).wf(),
    ensures
        final(t).wf(),
        final(t)@ == if old(t)@.on {
            queued(old(t)@, record(k@, v@))
        } else {
            old(t)@
        },
{
    if !t.on {
        return;
    }
    let r = record_of(k, v);
    if t.queue.len() < QUEUE_CAP {
        let ghost before = t.queue@;
        let ghost rec = r@;
        t.queue.push_back(r);
        assert(records(t.queue@) =~= records(before).push(rec));
    } else {
        t.dropped = t.dropped.wrapping_add(1);
    }
}

/// The first field of that name.
pub open spec fn field_place(fields: Seq<Seq<char>>, name: Seq<char>) -> Option<int>
    decreases fields.len(),
{
    if fields.len() == 0 {
        None
    } else if fields[0] == name {
        Some(0)
    } else {
        match field_place(fields.skip(1), name) {
            Some(i) => Some(i + 1),
            None => None,
        }
    }
}

/// Values with the field of that name set. A name that the kind does not have
/// changes nothing, nor does a field that the values do not reach.
pub open spec fn with_named(fields: Seq<Seq<char>>, v: Seq<u64>, name: Seq<char>, x: u64) -> Seq<
    u64,
> {
    match field_place(fields, name) {
        Some(i) => if i < v.len() {
            v.update(i, x)
        } else {
            v
        },
        None => v,
    }
}

proof fn lemma_place_of(fields: Seq<Seq<char>>, name: Seq<char>, i: int)
    requires
        0 <= i <= fields.len(),
        i < fields.len() ==> fields[i] == name,
        forall|j: int| 0 <= j < i ==> #[trigger] fields[j] != name,
    ensures
        field_place(fields, name) == if i < fields.len() {
            Some(i)
        } else {
            None
        },
    decreases fields.len(),
{
    if fields.len() > 0 && i > 0 {
        assert(fields[0] != name);
        assert forall|j: int| 0 <= j < i - 1 implies #[trigger] fields.skip(1)[j] != name by {
            assert(fields[j + 1] != name);
        }
        lemma_place_of(fields.skip(1), name, i - 1);
    }
}

/// Sets the field of that name in the values of a record of kind `k`.
pub fn set_named(k: &Kind, v: &mut Vec<u64>, name: &str, x: u64)
    ensures
        final(v)@ == with_named(k@.fields, old(v)@, name@, x),
{
    let mut i: usize = 0;
    while i < k.fields.len()
        invariant
            i <= k.fields.len(),
            v@ == old(v)@,
            forall|j: int| 0 <= j < i ==> #[trigger] k@.fields[j] != name@,
        decreases k.fields.len() - i,
    {
        assert(k@.fields[i as int] == k.fields@[i as int]@);
        if k.fields[i].to_owned() == name.to_owned() {
            proof {
                lemma_place_of(k@.fields, name@, i as int);
            }
            if i < v.len() {
                v.set(i, x);
            }
            return;
        }
        i = i + 1;
    }
    proof {
        lemma_place_of(k@.fields, name@, i as int);
    }
}

/// A field's name and its value.
pub struct Named {
    pub name: String,
    pub value: u64,
}

/// Values with some fields set, the last of a name deciding.
pub open spec fn named_values(fields: Seq<Seq<char>>, v: Seq<u64>, pairs: Seq<Named>) -> Seq<u64>
    decreases pairs.len(),
{
    if pairs.len() == 0 {
        v
    } else {
        with_named(
            fields,
            named_values(fields, v, pairs.drop_last()),
            pairs.last().name@,
            pairs.last().value,
        )
    }
}

/// The values of a record in which nothing is measured.
pub open spec fn unmeasured(n: nat) -> Seq<u64> {
    Seq::new(n, |i: int| NOT_MEASURED)
}

/// Records an event of which some fields are known, by their names. The others are
/// unmeasured.
pub fn emit_named(t: &mut Trace, k: &Kind, pairs: &Vec<Named>)
    requires
        old(t).wf(),
    ensures
        final(t).wf(),
        final(t)@ == if old(t)@.on {
            queued(
                old(t)@,
                record(
                    k@,
                    named_values(k@.fields, unmeasured(k@.fields.len()), pairs@),
                ),
            )
        } else {
            old(t)@
        },
{
    if !t.on {
        return;
    }
    let mut v: Vec<u64> = Vec::new();
    let n = k.fields.len();
    let mut i: usize = 0;
    while i < n
        invariant
            i <= n,
            v@ == unmeasured(i as nat),
        decreases n - i,
    {
        v.push(NOT_MEASURED);
        assert(v@ =~= unmeasured((i + 1) as nat));
        i = i + 1;
    }
    let mut p: usize = 0;
    assert(pairs@.take(0) =~= Seq::<Named>::empty());
    while p < pairs.len()
        invariant
            p <= pairs.len(),
            v@ == named_values(k@.fields, unmeasured(k@.fields.len()), pairs@.take(p as int)),
        decreases pairs.len() - p,
    {
        set_named(k, &mut v, pairs[p].name.as_str(), pairs[p].value);
        assert(pairs@.take(p + 1).drop_last() =~= pairs@.take(p as int));
        p = p + 1;
    }
    assert(pairs@.take(pairs@.len() as int) =~= pairs@);
    emit(t, k, v.as_slice());
}

/// Setting a field of a kind by its name is seen where that field stands.
pub proof fn a_named_field_reads_back(
    fields: Seq<Seq<char>>,
    v: Seq<u64>,
    i: int,
    x: u64,
)
    requires
        v.len() == fields.len(),
        0 <= i < fields.len(),
        fields.no_duplicates(),
    ensures
        with_named(fields, v, fields[i], x) == v.update(i, x),
{
    assert forall|j: int| 0 <= j < i implies #[trigger] fields[j] != fields[i] by {}
    lemma_place_of(fields, fields[i], i);
}

/// Nothing that waits is lost, overtaken or changed by what is recorded later.
pub proof fn what_waits_stays(t: TraceState, r: RecState)
    ensures
        t.queue.is_prefix_of(queued(t, r).queue),
        queued(t, r).dropped == t.dropped <==> t.queue.len() < QUEUE_CAP,
{
}

/// The addresses that have small numbers.
pub struct SmallIds {
    seen: Vec<u64>,
}

/// The place of an address: where it stands, or the first place that is free.
pub open spec fn id_place(seen: Seq<u64>, addr: u64) -> int
    decreases seen.len(),
{
    if seen.len() == 0 {
        0
    } else if seen[0] == addr || seen[0] == 0 {
        0
    } else {
        1 + id_place(seen.skip(1), addr)
    }
}

/// The small number of an address. Where every place is taken, it shares the last.
pub open spec fn id_of(seen: Seq<u64>, addr: u64) -> int {
    let i = id_place(seen, addr);
    if i < seen.len() {
        i
    } else {
        15
    }
}

/// The addresses after one more was seen.
pub open spec fn ids_with(seen: Seq<u64>, addr: u64) -> Seq<u64> {
    let i = id_place(seen, addr);
    if i < seen.len() {
        seen.update(i, addr)
    } else {
        seen
    }
}

impl View for SmallIds {
    type V = Seq<u64>;

    closed spec fn view(&self) -> Seq<u64> {
        self.seen@
    }
}

proof fn lemma_id_place(seen: Seq<u64>, addr: u64, i: int)
    requires
        0 <= i <= seen.len(),
        i < seen.len() ==> seen[i] == addr || seen[i] == 0,
        forall|j: int| 0 <= j < i ==> #[trigger] seen[j] != addr && seen[j] != 0,
    ensures
        id_place(seen, addr) == i,
    decreases seen.len(),
{
    if seen.len() > 0 && i > 0 {
        assert(seen[0] != addr);
        assert forall|j: int| 0 <= j < i - 1 implies #[trigger] seen.skip(1)[j] != addr && seen.skip(
            1,
        )[j] != 0 by {
            assert(seen[j + 1] != addr);
        }
        lemma_id_place(seen.skip(1), addr, i - 1);
    }
}

proof fn lemma_id_place_is_first(seen: Seq<u64>, addr: u64)
    ensures
        0 <= id_place(seen, addr) <= seen.len(),
        id_place(seen, addr) < seen.len() ==> seen[id_place(seen, addr)] == addr
            || seen[id_place(seen, addr)] == 0,
        forall|j: int|
            0 <= j < id_place(seen, addr) ==> #[trigger] seen[j] != addr && seen[j] != 0,
    decreases seen.len(),
{
    if seen.len() > 0 && seen[0] != addr && seen[0] != 0 {
        lemma_id_place_is_first(seen.skip(1), addr);
        let i = id_place(seen.skip(1), addr);
        assert forall|j: int| 0 <= j < i + 1 implies #[trigger] seen[j] != addr && seen[j] != 0 by {
            if j > 0 {
                assert(seen.skip(1)[j - 1] == seen[j]);
            }
        }
    }
}

impl SmallIds {
    /// There is room for sixteen.
    pub open spec fn wf(self) -> bool {
        self@.len() == 16
    }

    /// No address was seen.
    pub fn new() -> (r: Self)
        ensures
            r.wf(),
            r@ == ids_after(Seq::empty()),
    {
        let mut seen: Vec<u64> = Vec::new();
        let mut i: usize = 0;
        while i < 16
            invariant
                i <= 16,
                seen@ == Seq::new(i as nat, |j: int| 0u64),
            decreases 16 - i,
        {
            seen.push(0);
            assert(seen@ =~= Seq::new((i + 1) as nat, |j: int| 0u64));
            i = i + 1;
        }
        let r = SmallIds { seen };
        assert(r@ =~= ids_after(Seq::empty()));
        r
    }
}

/// A small number for an address: the first that is seen gets 0, the next 1, and so
/// on. From the sixteenth on they share the last number.
pub fn small_id(ids: &mut SmallIds, addr: u64) -> (r: u64)
    requires
        old(ids).wf(),
    ensures
        final(ids).wf(),
        final(ids)@ == ids_with(old(ids)@, addr),
        r == id_of(old(ids)@, addr),
{
    let mut i: usize = 0;
    while i < ids.seen.len()
        invariant
            i <= ids.seen.len(),
            ids.wf(),
            ids@ == old(ids)@,
            forall|j: int| 0 <= j < i ==> #[trigger] ids.seen@[j] != addr && ids.seen@[j] != 0,
        decreases ids.seen.len() - i,
    {
        if ids.seen[i] == addr || ids.seen[i] == 0 {
            proof {
                lemma_id_place(ids.seen@, addr, i as int);
            }
            ids.seen.set(i, addr);
            return i as u64;
        }
        i = i + 1;
    }
    proof {
        lemma_id_place(ids.seen@, addr, i as int);
    }
    15
}

/// An address keeps its number, whatever is seen later.
pub proof fn a_small_id_stays(seen: Seq<u64>, addr: u64, other: u64)
    requires
        seen.len() == 16,
        addr != 0,
        other != 0,
    ensures
        id_of(ids_with(ids_with(seen, addr), other), addr) == id_of(seen, addr),
{
    let a = ids_with(seen, addr);
    let b = ids_with(a, other);
    lemma_id_place_is_first(seen, addr);
    lemma_id_place_is_first(a, other);
    let i = id_place(seen, addr);
    assert forall|j: int| 0 <= j < i && j < 16 implies #[trigger] b[j] != addr && b[j] != 0 by {
        assert(a[j] == seen[j]);
        assert(seen[j] != addr);
        let k = id_place(a, other);
        if k == j {
            assert(a[k] == other || a[k] == 0);
        }
    }
    lemma_id_place(b, addr, i);
}

/// Two addresses have different numbers as long as there is room for both.
pub proof fn small_ids_differ(seen: Seq<u64>, a: u64, b: u64)
    requires
        seen.len() == 16,
        a != 0,
        b != 0,
        a != b,
        id_place(ids_with(seen, a), b) < 16,
        id_place(seen, a) < 16,
    ensures
        id_of(ids_with(seen, a), b) != id_of(seen, a),
{
    lemma_id_place_is_first(seen, a);
    lemma_id_place_is_first(ids_with(seen, a), b);
}

/// The addresses that have small numbers after `addrs` were seen, one by one.
pub open spec fn ids_after(addrs: Seq<u64>) -> Seq<u64>
    decreases addrs.len(),
{
    if addrs.len() == 0 {
        Seq::new(16, |i: int| 0u64)
    } else {
        ids_with(ids_after(addrs.drop_last()), addrs.last())
    }
}

/// The different addresses of a list, by their first place.
pub open spec fn firsts(addrs: Seq<u64>) -> Seq<u64>
    decreases addrs.len(),
{
    if addrs.len() == 0 {
        Seq::empty()
    } else {
        let before = firsts(addrs.drop_last());
        if before.contains(addrs.last()) {
            before
        } else {
            before.push(addrs.last())
        }
    }
}

/// The first sixteen different addresses have the sixteen places, in their order.
proof fn lemma_ids_after(addrs: Seq<u64>)
    requires
        forall|j: int| 0 <= j < addrs.len() ==> #[trigger] addrs[j] != 0,
    ensures
        ids_after(addrs).len() == 16,
        forall|j: int| 0 <= j < 16 ==> #[trigger] ids_after(addrs)[j] == (if j < firsts(addrs).len() {
            firsts(addrs)[j]
        } else {
            0
        }),
        forall|j: int| 0 <= j < firsts(addrs).len() ==> #[trigger] firsts(addrs)[j] != 0,
        firsts(addrs).no_duplicates(),
    decreases addrs.len(),
{
    if addrs.len() > 0 {
        let head = addrs.drop_last();
        let addr = addrs.last();
        assert(addrs[addrs.len() - 1] != 0);
        assert forall|j: int| 0 <= j < head.len() implies #[trigger] head[j] != 0 by {
            assert(addrs[j] != 0);
        }
        lemma_ids_after(head);
        lemma_place_after(head, addr);
        let f = firsts(head);
        if f.contains(addr) {
            let i = choose|i: int| 0 <= i < f.len() && f[i] == addr;
            assert(f[i] == addr);
        }
    }
}

/// The place of an address: its own among the different ones, else behind them.
proof fn lemma_place_after(addrs: Seq<u64>, addr: u64)
    requires
        addr != 0,
        ids_after(addrs).len() == 16,
        forall|j: int| 0 <= j < 16 ==> #[trigger] ids_after(addrs)[j] == (if j < firsts(addrs).len() {
            firsts(addrs)[j]
        } else {
            0
        }),
        forall|j: int| 0 <= j < firsts(addrs).len() ==> #[trigger] firsts(addrs)[j] != 0,
        firsts(addrs).no_duplicates(),
    ensures
        ({
            let f = firsts(addrs);
            let p = id_place(ids_after(addrs), addr);
            &&& !f.contains(addr) ==> p == (if f.len() < 16 {
                f.len() as int
            } else {
                16
            })
            &&& forall|i: int| 0 <= i < f.len() && #[trigger] f[i] == addr ==> p == (if i < 16 {
                i
            } else {
                16
            })
        }),
{
    let f = firsts(addrs);
    let seen = ids_after(addrs);
    if f.contains(addr) {
        let i = choose|i: int| 0 <= i < f.len() && f[i] == addr;
        let at = if i < 16 {
            i
        } else {
            16
        };
        assert forall|j: int| 0 <= j < at implies #[trigger] seen[j] != addr && seen[j] != 0 by {
            assert(f[j] != 0);
        }
        lemma_id_place(seen, addr, at);
    } else {
        let at = if f.len() < 16 {
            f.len() as int
        } else {
            16
        };
        assert forall|j: int| 0 <= j < at implies #[trigger] seen[j] != addr && seen[j] != 0 by {
            assert(f[j] != 0);
        }
        lemma_id_place(seen, addr, at);
    }
}

/// The numbers are given in the order in which the addresses come: the first
/// different one gets 0, the next 1, and so on; from the sixteenth on they all get
/// 15. An address that comes again gets the number that it had.
pub proof fn small_ids_are_given_in_order(addrs: Seq<u64>, addr: u64, i: int)
    requires
        forall|j: int| 0 <= j < addrs.len() ==> #[trigger] addrs[j] != 0,
        addr != 0,
        0 <= i < firsts(addrs.push(addr)).len(),
        firsts(addrs.push(addr))[i] == addr,
    ensures
        id_of(ids_after(addrs), addr) == (if i < 16 {
            i
        } else {
            15
        }),
{
    assert(addrs.push(addr).drop_last() =~= addrs);
    lemma_ids_after(addrs);
    lemma_place_after(addrs, addr);
    let f = firsts(addrs);
    if !f.contains(addr) {
        assert(firsts(addrs.push(addr)) == f.push(addr));
        if i < f.len() {
            assert(f[i] == addr);
        }
    } else {
        assert(f[i] == addr);
    }
}

} // verus!
