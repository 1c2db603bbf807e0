//! The file of a trace: `EVT1`, the length of a header, the header, and then the
//! records, each as its kind, its number of values, and the values, little end
//! first. The writer begins a new file when one is full, and only the newest files
//! are kept.

use vstd::prelude::*;
use crate::evtrace::{Rec, RecState};
use crate::evtrace_kinds::MAX_FIELDS;
use crate::scan::{part, starts_with};
use crate::scan;
use crate::text::{chars_of, parse_u64, string_of};
use crate::text;
use crate::text_order::{sort_by_age, FileAge};
use crate::text_order;

verus! {

/// The `n` bytes of a number, little end first.
pub open spec fn le_bytes(x: nat, n: nat) -> Seq<u8>
    decreases n,
{
    if n == 0 {
        Seq::empty()
    } else {
        seq![(x % 256) as u8] + le_bytes(x / 256, (n - 1) as nat)
    }
}

/// The number that some bytes are, little end first.
pub open spec fn le_value(b: Seq<u8>) -> nat
    decreases b.len(),
{
    if b.len() == 0 {
        0
    } else {
        b[0] as nat + 256 * le_value(b.skip(1))
    }
}

/// 256 to the `n`.
pub open spec fn byte_range(n: nat) -> nat
    decreases n,
{
    if n == 0 {
        1
    } else {
        256 * byte_range((n - 1) as nat)
    }
}

proof fn lemma_le_bytes(x: nat, n: nat)
    requires
        x < byte_range(n),
    ensures
        le_bytes(x, n).len() == n,
        le_value(le_bytes(x, n)) == x,
    decreases n,
{
    if n > 0 {
        lemma_le_bytes(x / 256, (n - 1) as nat);
        assert(le_bytes(x, n).skip(1) =~= le_bytes(x / 256, (n - 1) as nat));
    }
}

proof fn lemma_le_len(x: nat, n: nat)
    ensures
        le_bytes(x, n).len() == n,
    decreases n,
{
    if n > 0 {
        lemma_le_len(x / 256, (n - 1) as nat);
    }
}

/// Adds the `n` bytes of a number, little end first.
fn push_le(out: &mut Vec<u8>, x: u64, n: usize)
    ensures
        final(out)@ == old(out)@ + le_bytes(x as nat, n as nat),
{
    let mut rest: u64 = x;
    let mut i: usize = 0;
    assert(out@ + le_bytes(x as nat, n as nat) =~= old(out)@ + le_bytes(x as nat, n as nat));
    while i < n
        invariant
            i <= n,
            out@ + le_bytes(rest as nat, (n - i) as nat) == old(out)@ + le_bytes(
                x as nat,
                n as nat,
            ),
        decreases n - i,
    {
        let ghost before = out@;
        let ghost left = (n - i - 1) as nat;
        let byte: u8 = (rest % 256) as u8;
        out.push(byte);
        assert(before + le_bytes(rest as nat, (n - i) as nat) =~= out@ + le_bytes(
            (rest / 256) as nat,
            left,
        ));
        rest = rest / 256;
        i = i + 1;
    }
    assert(out@ + le_bytes(rest as nat, 0) =~= out@);
}

/// The bytes of some values.
pub open spec fn value_bytes(v: Seq<u64>) -> Seq<u8>
    decreases v.len(),
{
    if v.len() == 0 {
        Seq::empty()
    } else {
        value_bytes(v.drop_last()) + le_bytes(v.last() as nat, 8)
    }
}

/// The bytes of a record.
pub open spec fn record_bytes(r: RecState) -> Seq<u8> {
    le_bytes(r.kind as nat, 2) + le_bytes(r.values.len(), 2) + value_bytes(r.values)
}

/// The bytes of a record: its kind, its number of values, and the values.
pub fn write_rec(r: &Rec) -> (b: Vec<u8>)
    requires
        r.values.len() <= MAX_FIELDS,
    ensures
        b@ == record_bytes(r@),
        b.len() == 4 + 8 * r.values.len(),
{
    let mut out: Vec<u8> = Vec::new();
    push_le(&mut out, r.kind as u64, 2);
    push_le(&mut out, r.values.len() as u64, 2);
    let ghost head = out@;
    assert(head =~= le_bytes(r.kind as nat, 2) + le_bytes(r.values@.len(), 2));
    let mut i: usize = 0;
    assert(r.values@.take(0) =~= Seq::<u64>::empty());
    assert(out@ =~= head + value_bytes(r.values@.take(0)));
    while i < r.values.len()
        invariant
            i <= r.values.len(),
            out@ == head + value_bytes(r.values@.take(i as int)),
        decreases r.values.len() - i,
    {
        push_le(&mut out, r.values[i], 8);
        assert(r.values@.take(i + 1).drop_last() =~= r.values@.take(i as int));
        assert(out@ =~= head + value_bytes(r.values@.take(i + 1)));
        i = i + 1;
    }
    assert(r.values@.take(r.values@.len() as int) =~= r.values@);
    proof {
        lemma_le_len(r.kind as nat, 2);
        lemma_le_len(r.values@.len(), 2);
        lemma_value_bytes_len(r.values@);
    }
    out
}

proof fn lemma_value_bytes_len(v: Seq<u64>)
    ensures
        value_bytes(v).len() == 8 * v.len(),
    decreases v.len(),
{
    if v.len() > 0 {
        lemma_value_bytes_len(v.drop_last());
        lemma_le_len(v.last() as nat, 8);
    }
}

/// What a file begins with.
pub open spec fn file_head(header: Seq<u8>) -> Seq<u8> {
    seq![0x45u8, 0x56u8, 0x54u8, 0x31u8] + le_bytes(header.len(), 4) + header
}

/// What a file begins with: `EVT1`, the length of the header, and the header.
pub fn file_prefix(header: &Vec<u8>) -> (b: Vec<u8>)
    requires
        header.len() <= u32::MAX,
        header.len() + 8 <= usize::MAX,
    ensures
        b@ == file_head(header@),
        b.len() == 8 + header.len(),
{
    let mut out: Vec<u8> = vec![0x45, 0x56, 0x54, 0x31];
    push_le(&mut out, header.len() as u64, 4);
    proof {
        lemma_le_len(header@.len(), 4);
    }
    let ghost head = out@;
    let mut i: usize = 0;
    assert(head =~= head + header@.take(0));
    while i < header.len()
        invariant
            i <= header.len(),
            out@ == head + header@.take(i as int),
        decreases header.len() - i,
    {
        out.push(header[i]);
        assert(out@ =~= head + header@.take(i + 1));
        i = i + 1;
    }
    assert(header@.take(header@.len() as int) =~= header@);
    assert(out@ =~= file_head(header@));
    out
}

/// The bytes of some records.
pub open spec fn records_bytes(recs: Seq<RecState>) -> Seq<u8>
    decreases recs.len(),
{
    if recs.len() == 0 {
        Seq::empty()
    } else {
        record_bytes(recs[0]) + records_bytes(recs.skip(1))
    }
}

/// The values that some bytes are.
pub open spec fn values_in(b: Seq<u8>, n: nat) -> Seq<u64> {
    Seq::new(n, |i: int| le_value(b.subrange(8 * i, 8 * i + 8)) as u64)
}

/// The record at the start of some bytes.
pub open spec fn record_in(b: Seq<u8>) -> RecState {
    RecState {
        kind: le_value(b.subrange(0, 2)) as u16,
        values: values_in(b.skip(4), le_value(b.subrange(2, 4))),
    }
}

/// The bytes of the record at the start of some bytes.
pub open spec fn record_size(b: Seq<u8>) -> int {
    4 + 8 * le_value(b.subrange(2, 4)) as int
}

/// The records that some bytes are.
pub open spec fn records_in(b: Seq<u8>) -> Seq<RecState>
    decreases b.len(),
{
    if b.len() < 4 || record_size(b) > b.len() {
        Seq::empty()
    } else {
        seq![record_in(b)] + records_in(b.skip(record_size(b)))
    }
}

proof fn lemma_values_read_back(v: Seq<u64>, rest: Seq<u8>)
    ensures
        values_in(value_bytes(v) + rest, v.len()) == v,
    decreases v.len(),
{
    lemma_value_bytes_len(v);
    if v.len() > 0 {
        let w = v.drop_last();
        let last = le_bytes(v.last() as nat, 8);
        lemma_value_bytes_len(w);
        lemma_le_len(v.last() as nat, 8);
        lemma_values_read_back(w, last + rest);
        assert(value_bytes(v) + rest =~= value_bytes(w) + (last + rest));
        let b = value_bytes(v) + rest;
        assert forall|i: int| 0 <= i < v.len() implies values_in(b, v.len())[i] == v[i] by {
            if i < w.len() {
                assert(values_in(b, w.len())[i] == w[i]);
            } else {
                assert(b.subrange(8 * i, 8 * i + 8) =~= last);
                assert(byte_range(8) == 0x1_0000_0000_0000_0000) by {
                    reveal_with_fuel(byte_range, 9);
                }
                lemma_le_bytes(v.last() as nat, 8);
            }
        }
        assert(values_in(b, v.len()) =~= v);
    } else {
        assert(values_in(value_bytes(v) + rest, 0) =~= v);
    }
}

proof fn lemma_record_reads_back(r: RecState, rest: Seq<u8>)
    requires
        r.values.len() <= MAX_FIELDS,
    ensures
        record_in(record_bytes(r) + rest) == r,
        record_size(record_bytes(r) + rest) == record_bytes(r).len(),
        record_bytes(r).len() >= 4,
{
    let b = record_bytes(r) + rest;
    assert(byte_range(2) == 0x1_0000) by {
        reveal_with_fuel(byte_range, 3);
    }
    lemma_le_bytes(r.kind as nat, 2);
    lemma_le_bytes(r.values.len(), 2);
    lemma_value_bytes_len(r.values);
    assert(b.subrange(0, 2) =~= le_bytes(r.kind as nat, 2));
    assert(b.subrange(2, 4) =~= le_bytes(r.values.len(), 2));
    assert(b.skip(4) =~= value_bytes(r.values) + rest);
    lemma_values_read_back(r.values, rest);
}

/// Records read back from their bytes as they were written, in order.
pub proof fn records_read_back(recs: Seq<RecState>)
    requires
        forall|i: int| 0 <= i < recs.len() ==> #[trigger] recs[i].values.len() <= MAX_FIELDS,
    ensures
        records_in(records_bytes(recs)) == recs,
    decreases recs.len(),
{
    if recs.len() > 0 {
        let b = records_bytes(recs);
        let tail = records_bytes(recs.skip(1));
        assert forall|i: int| 0 <= i < recs.skip(1).len() implies #[trigger] recs.skip(
            1,
        )[i].values.len() <= MAX_FIELDS by {
            assert(recs[i + 1].values.len() <= MAX_FIELDS);
        }
        records_read_back(recs.skip(1));
        assert(recs[0].values.len() <= MAX_FIELDS);
        lemma_record_reads_back(recs[0], tail);
        assert(b.skip(record_size(b)) =~= tail);
        assert(seq![recs[0]] + recs.skip(1) =~= recs);
    }
}

/// The header that a file begins with, and what follows it.
pub open spec fn file_parts(b: Seq<u8>) -> (Seq<u8>, Seq<u8>) {
    let n = le_value(b.subrange(4, 8)) as int;
    (b.subrange(8, 8 + n), b.skip(8 + n))
}

/// A file gives back the header and the records that were written to it.
pub proof fn a_file_reads_back(header: Seq<u8>, recs: Seq<RecState>)
    requires
        header.len() <= u32::MAX,
        forall|i: int| 0 <= i < recs.len() ==> #[trigger] recs[i].values.len() <= MAX_FIELDS,
    ensures
        file_parts(file_head(header) + records_bytes(recs)).0 == header,
        records_in(file_parts(file_head(header) + records_bytes(recs)).1) == recs,
{
    let b = file_head(header) + records_bytes(recs);
    assert(byte_range(4) == 0x1_0000_0000) by {
        reveal_with_fuel(byte_range, 5);
    }
    lemma_le_bytes(header.len(), 4);
    assert(b.subrange(4, 8) =~= le_bytes(header.len(), 4));
    assert(b.subrange(8, 8 + header.len() as int) =~= header);
    assert(b.skip(8 + header.len() as int) =~= records_bytes(recs));
    records_read_back(recs);
}

/// A number from the environment, or the default.
pub open spec fn setting(v: Option<Seq<char>>, default: u64) -> u64 {
    match v {
        Some(s) => match text::parsed_u64(s) {
            Some(n) => n,
            None => default,
        },
        None => default,
    }
}

/// A number from the environment, or the default where it is not set or no number.
pub fn env_u64(v: Option<&str>, default: u64) -> (r: u64)
    ensures
        r == setting(
            match v {
                Some(s) => Some(s@),
                None => None,
            },
            default,
        ),
{
    match v {
        Some(s) => {
            let c = chars_of(s);
            match parse_u64(c.as_slice()) {
                Some(n) => n,
                None => default,
            }
        },
        None => default,
    }
}

/// When a file is full, how many files stay, and how often the system is sampled.
#[derive(Clone, Copy, Debug, PartialEq, Eq, Structural)]
pub struct Limits {
    pub max_bytes: u64,
    pub keep: usize,
    pub sys_ms: u64,
}

/// The limits: a file is full at 1024 MB, 16 files stay, and the system is sampled
/// each 100 ms, unless told otherwise. At least one file stays.
pub fn trace_limits(max_mb: Option<&str>, keep: Option<&str>, sys_ms: Option<&str>) -> (r: Limits)
    ensures
        ({
            let mb = setting(
                match max_mb {
                    Some(s) => Some(s@),
                    None => None,
                },
                1024,
            );
            let kept = setting(
                match keep {
                    Some(s) => Some(s@),
                    None => None,
                },
                16,
            );
            let ms = setting(
                match sys_ms {
                    Some(s) => Some(s@),
                    None => None,
                },
                100,
            );
            &&& r.max_bytes == (mb * 0x10_0000) % 0x1_0000_0000_0000_0000
            &&& kept == 0 ==> r.keep == 1
            &&& 0 < kept <= usize::MAX ==> r.keep == kept
            &&& r.sys_ms == ms
        }),
{
    let mb = env_u64(max_mb, 1024);
    let kept = env_u64(keep, 16);
    let ms = env_u64(sys_ms, 100);
    let max_bytes: u64 = mb << 20;
    assert(max_bytes == (mb * 0x10_0000) % 0x1_0000_0000_0000_0000) by (bit_vector)
        requires
            max_bytes == mb << 20,
    ;
    let keep: usize = if kept == 0 {
        1
    } else {
        kept as usize
    };
    Limits { max_bytes, keep, sys_ms: ms }
}

/// Something that the writer has to do.
pub enum FileAct {
    /// Adds bytes to the file.
    Append(Vec<u8>),
    /// Writes out what is held back.
    Flush,
    /// Begins the file of that number.
    Open(u32),
}

/// What the writer has to do.
pub enum FileStep {
    Append(Seq<u8>),
    Flush,
    Open(u32),
}

impl View for FileAct {
    type V = FileStep;

    open spec fn view(&self) -> FileStep {
        match self {
            FileAct::Append(b) => FileStep::Append(b@),
            FileAct::Flush => FileStep::Flush,
            FileAct::Open(n) => FileStep::Open(*n),
        }
    }
}

/// What the writer has to do, in order.
pub open spec fn steps(v: Seq<FileAct>) -> Seq<FileStep> {
    v.map_values(|a: FileAct| a@)
}

/// The writer of a trace.
pub struct Writer {
    limit: u64,
    start: u64,
    file: u32,
    bytes: u64,
    dirty: bool,
    written: u64,
}

/// How far the writer is.
pub struct WriterState {
    /// A file with that many bytes is full.
    pub limit: u64,
    /// The bytes that a file begins with.
    pub start: u64,
    /// The number of the file.
    pub file: u32,
    /// The bytes of the file.
    pub bytes: u64,
    /// Something may be held back.
    pub dirty: bool,
    /// The records that were written.
    pub written: u64,
}

impl View for Writer {
    type V = WriterState;

    closed spec fn view(&self) -> WriterState {
        WriterState {
            limit: self.limit,
            start: self.start,
            file: self.file,
            bytes: self.bytes,
            dirty: self.dirty,
            written: self.written,
        }
    }
}

/// A size that a file can have: it is not full before those records, or it holds
/// nothing else.
pub open spec fn size_fits(w: WriterState, records: int) -> bool {
    &&& w.limit % 0x10_0000 == 0
    &&& w.start <= 8 + u32::MAX
    &&& w.bytes <= w.start + 900 * records || w.bytes < w.limit + 900 * records
}

impl Writer {
    /// The writer at its first file, which begins with a header of that length.
    pub fn new(limits: Limits, header: usize) -> (r: Self)
        requires
            header <= u32::MAX,
            limits.max_bytes % 0x10_0000 == 0,
        ensures
            size_fits(r@, 0),
            r@ == (WriterState {
                limit: limits.max_bytes,
                start: (8 + header) as u64,
                file: 0,
                bytes: (8 + header) as u64,
                dirty: false,
                written: 0,
            }),
    {
        Writer {
            limit: limits.max_bytes,
            start: 8 + header as u64,
            file: 0,
            bytes: 8 + header as u64,
            dirty: false,
            written: 0,
        }
    }

    /// Takes a record, or finds that none came for a while: a record is added to the
    /// file, and without one what is held back is written out.
    pub fn take(&mut self, got: Option<&Rec>) -> (r: Vec<FileAct>)
        requires
            size_fits(old(self)@, 0),
            got matches Some(rec) ==> rec.values.len() <= MAX_FIELDS,
        ensures
            size_fits(final(self)@, 1),
            match got {
                Some(rec) => {
                    &&& steps(r@) == seq![FileStep::Append(record_bytes(rec@))]
                    &&& final(self)@ == (WriterState {
                        bytes: (old(self)@.bytes + record_bytes(rec@).len()) as u64,
                        dirty: true,
                        written: u64::wrapping_add(old(self)@.written, 1),
                        ..old(self)@
                    })
                    &&& final(self)@.bytes == old(self)@.bytes + record_bytes(rec@).len()
                },
                None => {
                    &&& steps(r@) == if old(self)@.dirty {
                        seq![FileStep::Flush]
                    } else {
                        Seq::empty()
                    }
                    &&& final(self)@ == (WriterState { dirty: false, ..old(self)@ })
                },
            },
    {
        let mut acts: Vec<FileAct> = Vec::new();
        match got {
            Some(rec) => {
                let b = write_rec(rec);
                self.bytes = self.bytes + b.len() as u64;
                self.dirty = true;
                self.written = self.written.wrapping_add(1);
                acts.push(FileAct::Append(b));
                assert(steps(acts@) =~= seq![FileStep::Append(record_bytes(rec@))]);
            },
            None => {
                if self.dirty {
                    acts.push(FileAct::Flush);
                    self.dirty = false;
                    assert(steps(acts@) =~= seq![FileStep::Flush]);
                } else {
                    assert(steps(acts@) =~= Seq::<FileStep>::empty());
                }
            },
        }
        acts
    }

    /// The numbers of the heartbeat, in the order of its fields: the two clocks, the
    /// records written and dropped, the files so far, and the queue's room.
    pub fn meta_values(&self, mono_raw: u64, realtime: u64, dropped: u64, queue: u64) -> (r: Vec<
        u64,
    >)
        ensures
            r@ == seq![
                mono_raw,
                realtime,
                self@.written,
                dropped,
                (self@.file + 1) as u64,
                queue,
            ],
    {
        vec![mono_raw, realtime, self.written, dropped, self.file as u64 + 1, queue]
    }

    /// Adds the heartbeat, and writes out what is held back.
    pub fn heartbeat(&mut self, meta: &Rec) -> (r: Vec<FileAct>)
        requires
            size_fits(old(self)@, 1),
            meta.values.len() <= MAX_FIELDS,
        ensures
            size_fits(final(self)@, 2),
            steps(r@) == seq![FileStep::Append(record_bytes(meta@)), FileStep::Flush],
            final(self)@ == (WriterState {
                bytes: (old(self)@.bytes + record_bytes(meta@).len()) as u64,
                dirty: false,
                ..old(self)@
            }),
            final(self)@.bytes == old(self)@.bytes + record_bytes(meta@).len(),
    {
        let b = write_rec(meta);
        self.bytes = self.bytes + b.len() as u64;
        self.dirty = false;
        let mut acts: Vec<FileAct> = Vec::new();
        acts.push(FileAct::Append(b));
        acts.push(FileAct::Flush);
        assert(steps(acts@) =~= seq![
            FileStep::Append(record_bytes(meta@)),
            FileStep::Flush,
        ]);
        acts
    }

    /// Begins the next file where this one is full.
    pub fn rotate(&mut self) -> (r: Vec<FileAct>)
        requires
            size_fits(old(self)@, 2),
            old(self)@.file < u32::MAX,
        ensures
            size_fits(final(self)@, 0),
            if old(self)@.bytes >= old(self)@.limit {
                &&& steps(r@) == seq![FileStep::Flush, FileStep::Open((old(self)@.file + 1) as u32)]
                &&& final(self)@ == (WriterState {
                    file: (old(self)@.file + 1) as u32,
                    bytes: old(self)@.start,
                    ..old(self)@
                })
            } else {
                r.len() == 0 && final(self)@ == old(self)@
            },
    {
        let mut acts: Vec<FileAct> = Vec::new();
        if self.bytes >= self.limit {
            self.file = self.file + 1;
            self.bytes = self.start;
            acts.push(FileAct::Flush);
            acts.push(FileAct::Open(self.file));
            assert(steps(acts@) =~= seq![FileStep::Flush, FileStep::Open(self.file)]);
        }
        acts
    }
}

/// Is a heartbeat due, that long after the last?
pub fn heartbeat_due(elapsed_ns: u64) -> (r: bool)
    ensures
        r == (elapsed_ns >= 1_000_000_000),
{
    elapsed_ns >= 1_000_000_000
}

/// The text ends with the other.
pub open spec fn ends(s: Seq<char>, p: Seq<char>) -> bool {
    p.len() <= s.len() && s.skip(s.len() - p.len()) == p
}

/// The file is one of that role's traces.
pub open spec fn is_trace(name: Seq<char>, role: Seq<char>) -> bool {
    scan::begins(name, role.push('-')) && ends(name, ".evt"@)
}

/// The traces of a role but the one just opened.
pub open spec fn other_traces(
    files: Seq<(u64, Seq<char>)>,
    role: Seq<char>,
    current: Seq<char>,
) -> Seq<(u64, Seq<char>)>
    decreases files.len(),
{
    if files.len() == 0 {
        Seq::empty()
    } else {
        let before = other_traces(files.drop_last(), role, current);
        let f = files.last();
        if is_trace(f.1, role) && f.1 != current {
            before.push(f)
        } else {
            before
        }
    }
}

/// The files that go: the oldest, until with the one just opened `keep` are left.
pub open spec fn pruned(
    files: Seq<(u64, Seq<char>)>,
    role: Seq<char>,
    keep: nat,
    current: Seq<char>,
) -> Seq<(u64, Seq<char>)> {
    let v = text_order::oldest_first(other_traces(files, role, current));
    if v.len() + 1 > keep {
        v.take(v.len() + 1 - keep)
    } else {
        Seq::empty()
    }
}

/// The names of some files.
pub open spec fn file_names(v: Seq<(u64, Seq<char>)>) -> Seq<Seq<char>> {
    v.map_values(|f: (u64, Seq<char>)| f.1)
}

/// Is the file one of that role's traces?
fn names_trace(name: &Vec<char>, role: &Vec<char>) -> (r: bool)
    ensures
        r == is_trace(name@, role@),
{
    if name.len() < role.len() || name.len() - role.len() < 1 || name.len() < 4 {
        proof {
            reveal_strlit(".evt");
        }
        return false;
    }
    let mut i: usize = 0;
    while i < role.len()
        invariant
            i <= role.len() < name.len(),
            forall|j: int| 0 <= j < i ==> #[trigger] name@[j] == role@[j],
        decreases role.len() - i,
    {
        if name[i] != role[i] {
            assert(name@.take(role@.len() as int + 1)[i as int] != role@.push('-')[i as int]);
            return false;
        }
        i = i + 1;
    }
    if name[role.len()] != '-' {
        assert(name@.take(role@.len() as int + 1)[role@.len() as int] != role@.push(
            '-',
        )[role@.len() as int]);
        return false;
    }
    assert(name@.take(role@.len() as int + 1) =~= role@.push('-'));
    let tail = part(name.as_slice(), name.len() - 4, name.len());
    proof {
        reveal_strlit(".evt");
    }
    assert(tail@ =~= name@.skip(name@.len() - 4));
    let r = starts_with(tail.as_slice(), ".evt");
    assert(tail@.take(4) =~= tail@);
    r
}

/// Are the two texts the same?
fn same(a: &Vec<char>, b: &Vec<char>) -> (r: bool)
    ensures
        r == (a@ == b@),
{
    if a.len() != b.len() {
        return false;
    }
    let mut i: usize = 0;
    while i < a.len()
        invariant
            i <= a.len(),
            a.len() == b.len(),
            forall|j: int| 0 <= j < i ==> #[trigger] a@[j] == b@[j],
        decreases a.len() - i,
    {
        if a[i] != b[i] {
            return false;
        }
        i = i + 1;
    }
    assert(a@ =~= b@);
    true
}

/// The names of the files that go so that only the newest `keep` traces of a role
/// stay, the one just opened among them. The newest is the one changed last.
pub fn prune(files: &Vec<FileAge>, role: &str, keep: usize, current: &str) -> (r: Vec<String>)
    requires
        keep >= 1,
    ensures
        r@.map_values(|s: String| s@) == file_names(
            pruned(text_order::ages(files@), role@, keep as nat, current@),
        ),
{
    let role_chars = chars_of(role);
    let current_chars = chars_of(current);
    let ghost all = text_order::ages(files@);
    let mut v: Vec<FileAge> = Vec::new();
    let mut i: usize = 0;
    assert(all.take(0) =~= Seq::<(u64, Seq<char>)>::empty());
    assert(text_order::ages(v@) =~= other_traces(all.take(0), role@, current@));
    while i < files.len()
        invariant
            i <= files.len(),
            role_chars@ == role@,
            current_chars@ == current@,
            all == text_order::ages(files@),
            text_order::ages(v@) == other_traces(all.take(i as int), role@, current@),
        decreases files.len() - i,
    {
        let ghost before = text_order::ages(v@);
        assert(all.take(i + 1).drop_last() =~= all.take(i as int));
        assert(all.take(i + 1).last() == files@[i as int]@);
        if names_trace(&files[i].name, &role_chars) && !same(&files[i].name, &current_chars) {
            let name = part(files[i].name.as_slice(), 0, files[i].name.len());
            assert(name@ =~= files@[i as int].name@);
            v.push(FileAge { changed: files[i].changed, name });
            assert(text_order::ages(v@) =~= before.push(all[i as int]));
        }
        i = i + 1;
    }
    assert(all.take(all.len() as int) =~= all);
    let sorted = sort_by_age(v);
    let ghost want = text_order::ages(sorted@);
    let n: usize = if sorted.len() >= keep {
        sorted.len() - keep + 1
    } else {
        0
    };
    let mut out: Vec<String> = Vec::new();
    let mut k: usize = 0;
    assert(out@.map_values(|s: String| s@) =~= file_names(want.take(0)));
    while k < n
        invariant
            k <= n <= sorted.len(),
            want == text_order::ages(sorted@),
            out@.map_values(|s: String| s@) == file_names(want.take(k as int)),
        decreases n - k,
    {
        let ghost before = out@.map_values(|s: String| s@);
        out.push(string_of(sorted[k].name.as_slice()));
        assert(out@.map_values(|s: String| s@) =~= before.push(want[k as int].1));
        assert(file_names(want.take(k + 1)) =~= file_names(want.take(k as int)).push(
            want[k as int].1,
        ));
        k = k + 1;
    }
    assert(want.take(n as int) =~= pruned(text_order::ages(files@), role@, keep as nat, current@));
    out
}

proof fn lemma_others(files: Seq<(u64, Seq<char>)>, role: Seq<char>, current: Seq<char>)
    ensures
        forall|f: (u64, Seq<char>)| #[trigger]
            other_traces(files, role, current).contains(f) <==> files.contains(f) && is_trace(
                f.1,
                role,
            ) && f.1 != current,
    decreases files.len(),
{
    if files.len() > 0 {
        let before = files.drop_last();
        lemma_others(before, role, current);
        let kept = other_traces(before, role, current);
        let last = files.last();
        assert forall|f: (u64, Seq<char>)| #[trigger]
            other_traces(files, role, current).contains(f) <==> files.contains(f) && is_trace(
                f.1,
                role,
            ) && f.1 != current by {
            assert(files =~= before.push(last));
            lemma_push_contains(before, last, f);
            lemma_push_contains(kept, last, f);
            assert(kept.contains(f) <==> before.contains(f) && is_trace(f.1, role) && f.1
                != current);
        }
    }
}

proof fn lemma_push_contains<T>(s: Seq<T>, x: T, y: T)
    ensures
        s.push(x).contains(y) <==> s.contains(y) || x == y,
{
    if s.contains(y) {
        let i = choose|i: int| 0 <= i < s.len() && s[i] == y;
        assert(s.push(x)[i] == y);
    }
    assert(s.push(x)[s.len() as int] == x);
}

/// What goes are traces of that role, never the one just opened, and every trace
/// that goes was changed before every other one that stays, or has its name first.
pub proof fn only_older_traces_go(
    files: Seq<(u64, Seq<char>)>,
    role: Seq<char>,
    keep: nat,
    current: Seq<char>,
    gone: (u64, Seq<char>),
    other: (u64, Seq<char>),
)
    requires
        keep >= 1,
        pruned(files, role, keep, current).contains(gone),
    ensures
        files.contains(gone),
        is_trace(gone.1, role),
        gone.1 != current,
        files.contains(other) && is_trace(other.1, role) && other.1 != current && !pruned(
            files,
            role,
            keep,
            current,
        ).contains(other) ==> text_order::older(gone, other),
{
    let others = other_traces(files, role, current);
    let v = text_order::oldest_first(others);
    lemma_others(files, role, current);
    text_order::lemma_oldest_first(others);
    let p = pruned(files, role, keep, current);
    let g = choose|i: int| 0 <= i < p.len() && p[i] == gone;
    assert(v[g] == gone);
    assert(v.to_multiset().count(gone) > 0) by {
        v.to_multiset_ensures();
        assert(v.contains(gone));
    }
    others.to_multiset_ensures();
    assert(others.contains(gone));
    if files.contains(other) && is_trace(other.1, role) && other.1 != current && !p.contains(
        other,
    ) {
        assert(others.contains(other));
        v.to_multiset_ensures();
        assert(v.to_multiset().count(other) > 0);
        assert(v.contains(other));
        let o = choose|i: int| 0 <= i < v.len() && v[i] == other;
        if o < p.len() {
            assert(p[o] == other);
        }
        assert(text_order::older(v[g], v[o]));
    }
}

/// With the file just opened, as many traces as are kept stay, or all there are.
pub proof fn as_many_traces_stay_as_are_kept(
    files: Seq<(u64, Seq<char>)>,
    role: Seq<char>,
    keep: nat,
    current: Seq<char>,
)
    requires
        keep >= 1,
    ensures
        ({
            let others = other_traces(files, role, current).len();
            let left = others - pruned(files, role, keep, current).len() + 1;
            left == if others + 1 <= keep {
                others + 1
            } else {
                keep
            }
        }),
{
    let others = other_traces(files, role, current);
    text_order::lemma_oldest_first(others);
}

} // verus!
