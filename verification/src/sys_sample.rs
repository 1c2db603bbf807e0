//! The system figures that a trace samples, out of the texts that the kernel
//! gives. A figure is found here as text; what it is as a number is the caller's
//! part.

use vstd::prelude::*;
use crate::scan::{find_char, lines_of, part, starts_with, words_of};
use crate::scan;
use crate::text::{chars_of, string_of};
use crate::text;
use crate::text_order::sort_texts;
use crate::text_order;

verus! {

/// A text, where there is one.
pub open spec fn found(s: Option<String>) -> Option<Seq<char>> {
    match s {
        Some(t) => Some(t@),
        None => None,
    }
}

/// The characters of some texts.
pub open spec fn strings(v: Seq<String>) -> Seq<Seq<char>> {
    v.map_values(|s: String| s@)
}

/// Some texts, where there are any.
pub open spec fn found_all(v: Seq<Option<String>>) -> Seq<Option<Seq<char>>> {
    v.map_values(|s: Option<String>| found(s))
}

/// The name of a whole disk: `nvme`, a number, `n`, and a number.
pub open spec fn is_nvme(name: Seq<char>) -> bool {
    &&& scan::begins(name, "nvme"@)
    &&& {
        let rest = name.skip("nvme"@.len() as int);
        let e = scan::before_char(rest, 'n') as int;
        &&& 0 < e < rest.len() - 1
        &&& text::all_digits(rest.take(e))
        &&& text::all_digits(rest.skip(e + 1))
    }
}

/// Are the characters from `lo` to `hi` digits?
fn digits_between(v: &Vec<char>, lo: usize, hi: usize) -> (r: bool)
    requires
        lo <= hi <= v.len(),
    ensures
        r == text::all_digits(v@.subrange(lo as int, hi as int)),
{
    let mut i: usize = lo;
    while i < hi
        invariant
            lo <= i <= hi <= v.len(),
            forall|j: int| lo <= j < i ==> text::is_digit(#[trigger] v@[j]),
        decreases hi - i,
    {
        let c: char = v[i];
        if c < '0' || c > '9' {
            assert(!text::is_digit(v@.subrange(lo as int, hi as int)[i - lo]));
            return false;
        }
        i = i + 1;
    }
    true
}

/// Is it the name of a whole disk?
fn names_nvme(v: &Vec<char>) -> (r: bool)
    ensures
        r == is_nvme(v@),
{
    if !starts_with(v.as_slice(), "nvme") {
        return false;
    }
    proof {
        reveal_strlit("nvme");
    }
    let e = find_char(v.as_slice(), 4, 'n');
    let ghost rest = v@.skip(4);
    if e == 4 || e >= v.len() || e + 1 == v.len() {
        return false;
    }
    assert(rest.take(e - 4) =~= v@.subrange(4, e as int));
    assert(rest.skip(e - 4 + 1) =~= v@.subrange(e + 1, v.len() as int));
    digits_between(v, 4, e) && digits_between(v, e + 1, v.len())
}

/// The disk that a line of disk statistics is of.
pub open spec fn disk_of(line: Seq<char>) -> Option<Seq<char>> {
    let w = scan::words(line);
    if w.len() > 2 && is_nvme(w[2]) {
        Some(w[2])
    } else {
        None
    }
}

/// The whole disks that some lines name.
pub open spec fn disks_in(lines: Seq<Seq<char>>) -> Seq<Seq<char>>
    decreases lines.len(),
{
    if lines.len() == 0 {
        Seq::empty()
    } else {
        let before = disks_in(lines.drop_last());
        match disk_of(lines.last()) {
            Some(d) => before.push(d),
            None => before,
        }
    }
}

/// The first three of the whole disks, in order.
pub open spec fn sampled_disks(stats: Seq<char>) -> Seq<Seq<char>> {
    let all = text_order::in_order(disks_in(scan::lines(stats)));
    if all.len() > 3 {
        all.take(3)
    } else {
        all
    }
}

/// The whole disks whose figures are sampled: the first three, in order.
pub fn nvme_disks(diskstats: &str) -> (r: Vec<String>)
    ensures
        strings(r@) == sampled_disks(diskstats@),
{
    let v = chars_of(diskstats);
    let lines = lines_of(v.as_slice());
    let ghost all = scan::texts(lines@);
    let mut names: Vec<Vec<char>> = Vec::new();
    let mut i: usize = 0;
    assert(all.take(0) =~= Seq::<Seq<char>>::empty());
    assert(scan::texts(names@) =~= disks_in(all.take(0)));
    while i < lines.len()
        invariant
            i <= lines.len(),
            all == scan::texts(lines@),
            scan::texts(names@) == disks_in(all.take(i as int)),
        decreases lines.len() - i,
    {
        let ghost before = scan::texts(names@);
        assert(all.take(i + 1).drop_last() =~= all.take(i as int));
        assert(all.take(i + 1).last() == lines@[i as int]@);
        let w = words_of(lines[i].as_slice());
        let ghost ws = scan::texts(w@);
        if w.len() > 2 {
            assert(ws[2] == w@[2]@);
            if names_nvme(&w[2]) {
                let name = part(w[2].as_slice(), 0, w[2].len());
                assert(name@ =~= ws[2]);
                names.push(name);
                assert(scan::texts(names@) =~= before.push(ws[2]));
            }
        }
        i = i + 1;
    }
    assert(all.take(all.len() as int) =~= all);
    let sorted = sort_texts(names);
    let n: usize = if sorted.len() > 3 {
        3
    } else {
        sorted.len()
    };
    let mut out: Vec<String> = Vec::new();
    let ghost want = scan::texts(sorted@);
    let mut k: usize = 0;
    while k < n
        invariant
            k <= n <= sorted.len(),
            want == scan::texts(sorted@),
            strings(out@) == want.take(k as int),
        decreases n - k,
    {
        let ghost before = strings(out@);
        let s = string_of(sorted[k].as_slice());
        assert(s@ == want[k as int]);
        out.push(s);
        assert(strings(out@) =~= before.push(want[k as int]));
        assert(strings(out@) =~= want.take(k + 1));
        k = k + 1;
    }
    assert(strings(out@) =~= sampled_disks(diskstats@));
    out
}

/// The places of a disk's figures in its line.
pub open spec fn figure_places() -> Seq<int> {
    seq![3, 5, 6, 7, 9, 10, 11, 12, 13]
}

/// The line is a disk's.
pub open spec fn is_row_of(line: Seq<char>, name: Seq<char>) -> bool {
    let w = scan::words(line);
    w.len() >= 14 && w[2] == name
}

/// The figures of a line.
pub open spec fn figures(line: Seq<char>) -> Seq<Option<Seq<char>>> {
    figure_places().map_values(|i: int| Some(scan::words(line)[i]))
}

/// Nine figures that are not there.
pub open spec fn no_figures() -> Seq<Option<Seq<char>>> {
    Seq::new(9, |i: int| None::<Seq<char>>)
}

/// The figures of the first line that is a disk's.
pub open spec fn disk_figures(lines: Seq<Seq<char>>, name: Seq<char>) -> Seq<Option<Seq<char>>>
    decreases lines.len(),
{
    if lines.len() == 0 {
        no_figures()
    } else if is_row_of(lines[0], name) {
        figures(lines[0])
    } else {
        disk_figures(lines.skip(1), name)
    }
}

/// Are the two texts the same?
fn same(a: &Vec<char>, b: &Vec<char>) -> (r: bool)
    ensures
        r == (a@ == b@),
{
    if a.len() != b.len() {
        return false;
    }
    let mut i: usize = 0;
    while i < a.len()
        invariant
            i <= a.len(),
            a.len() == b.len(),
            forall|j: int| 0 <= j < i ==> #[trigger] a@[j] == b@[j],
        decreases a.len() - i,
    {
        if a[i] != b[i] {
            return false;
        }
        i = i + 1;
    }
    assert(a@ =~= b@);
    true
}

/// Adds nine figures that are not there.
fn push_none(out: &mut Vec<Option<String>>)
    ensures
        found_all(final(out)@) == found_all(old(out)@) + no_figures(),
{
    let ghost start = found_all(out@);
    let mut i: usize = 0;
    while i < 9
        invariant
            i <= 9,
            found_all(out@) == start + Seq::new(i as nat, |j: int| None::<Seq<char>>),
        decreases 9 - i,
    {
        let ghost before = found_all(out@);
        out.push(None);
        assert(found_all(out@) =~= before.push(None));
        assert(found_all(out@) =~= start + Seq::new((i + 1) as nat, |j: int| None::<Seq<char>>));
        i = i + 1;
    }
}

/// Adds a figure.
fn push_word(out: &mut Vec<Option<String>>, word: &Vec<char>)
    ensures
        found_all(final(out)@) == found_all(old(out)@).push(Some(word@)),
{
    out.push(Some(string_of(word.as_slice())));
    assert(found_all(out@) =~= found_all(old(out)@).push(Some(word@)));
}

/// Adds the figures of a disk.
fn push_disk(out: &mut Vec<Option<String>>, lines: &Vec<Vec<char>>, disk: &str)
    ensures
        found_all(final(out)@) == found_all(old(out)@) + disk_figures(
            scan::texts(lines@),
            disk@,
        ),
{
    let name = chars_of(disk);
    let ghost all = scan::texts(lines@);
    let ghost start = found_all(out@);
    let mut i: usize = 0;
    assert(all.skip(0) =~= all);
    while i < lines.len()
        invariant
            i <= lines.len(),
            all == scan::texts(lines@),
            out@ == old(out)@,
            name@ == disk@,
            disk_figures(all.skip(i as int), name@) == disk_figures(all, name@),
        decreases lines.len() - i,
    {
        let ghost line = all[i as int];
        assert(all.skip(i as int)[0] == line);
        assert(all.skip(i as int).skip(1) =~= all.skip(i + 1));
        assert(lines@[i as int]@ == line);
        let w = words_of(lines[i].as_slice());
        let ghost ws = scan::texts(w@);
        if w.len() >= 14 {
            assert(ws[2] == w@[2]@);
            if same(&w[2], &name) {
                assert(forall|j: int| 0 <= j < w.len() ==> #[trigger] ws[j] == w@[j]@);
                push_word(out, &w[3]);
                push_word(out, &w[5]);
                push_word(out, &w[6]);
                push_word(out, &w[7]);
                push_word(out, &w[9]);
                push_word(out, &w[10]);
                push_word(out, &w[11]);
                push_word(out, &w[12]);
                push_word(out, &w[13]);
                assert(found_all(out@) =~= found_all(old(out)@) + figures(line));
                return;
            }
        }
        i = i + 1;
    }
    push_none(out);
}

/// The first word of a line that begins with `total=`, without that.
pub open spec fn total_word(words: Seq<Seq<char>>) -> Option<Seq<char>>
    decreases words.len(),
{
    if words.len() == 0 {
        None
    } else if scan::begins(words[0], "total="@) {
        Some(words[0].skip("total="@.len() as int))
    } else {
        total_word(words.skip(1))
    }
}

/// The totals of a pressure text: of its last line that begins with `some`, and of
/// its last that begins with `full`.
pub open spec fn pressure(lines: Seq<Seq<char>>) -> (Option<Seq<char>>, Option<Seq<char>>)
    decreases lines.len(),
{
    if lines.len() == 0 {
        (None, None)
    } else {
        let before = pressure(lines.drop_last());
        let line = lines.last();
        let total = total_word(scan::words(line));
        if scan::begins(line, "some"@) {
            (total, before.1)
        } else if scan::begins(line, "full"@) {
            (before.0, total)
        } else {
            before
        }
    }
}

/// The total of a line.
fn find_total(line: &Vec<char>) -> (r: Option<String>)
    ensures
        found(r) == total_word(scan::words(line@)),
{
    let w = words_of(line.as_slice());
    let ghost all = scan::texts(w@);
    let mut i: usize = 0;
    assert(all.skip(0) =~= all);
    while i < w.len()
        invariant
            i <= w.len(),
            all == scan::texts(w@),
            all == scan::words(line@),
            total_word(all.skip(i as int)) == total_word(all),
        decreases w.len() - i,
    {
        assert(all.skip(i as int)[0] == w@[i as int]@);
        assert(all.skip(i as int).skip(1) =~= all.skip(i + 1));
        if starts_with(w[i].as_slice(), "total=") {
            proof {
                reveal_strlit("total=");
            }
            let rest = part(w[i].as_slice(), 6, w[i].len());
            assert(rest@ =~= w@[i as int]@.skip(6));
            return Some(string_of(rest.as_slice()));
        }
        i = i + 1;
    }
    None
}

/// The totals of a pressure text, the part of the time that some tasks waited
/// first.
pub fn psi_totals(s: &str) -> (r: (Option<String>, Option<String>))
    ensures
        (found(r.0), found(r.1)) == pressure(scan::lines(s@)),
{
    let v = chars_of(s);
    let lines = lines_of(v.as_slice());
    let ghost all = scan::texts(lines@);
    let mut some: Option<String> = None;
    let mut full: Option<String> = None;
    let mut i: usize = 0;
    assert(all.take(0) =~= Seq::<Seq<char>>::empty());
    while i < lines.len()
        invariant
            i <= lines.len(),
            all == scan::texts(lines@),
            (found(some), found(full)) == pressure(all.take(i as int)),
        decreases lines.len() - i,
    {
        assert(all.take(i + 1).drop_last() =~= all.take(i as int));
        assert(all.take(i + 1).last() == lines@[i as int]@);
        if starts_with(lines[i].as_slice(), "some") {
            some = find_total(&lines[i]);
        } else if starts_with(lines[i].as_slice(), "full") {
            full = find_total(&lines[i]);
        }
        i = i + 1;
    }
    assert(all.take(all.len() as int) =~= all);
    (some, full)
}

/// The first word of a text.
pub open spec fn first_word(s: Seq<char>) -> Option<Seq<char>> {
    let w = scan::words(s);
    if w.len() > 0 {
        Some(w[0])
    } else {
        None
    }
}

/// The word behind `key`, in the first line that begins with it.
pub open spec fn field(lines: Seq<Seq<char>>, key: Seq<char>) -> Option<Seq<char>>
    decreases lines.len(),
{
    if lines.len() == 0 {
        None
    } else if scan::begins(lines[0], key) {
        first_word(lines[0].skip(key.len() as int))
    } else {
        field(lines.skip(1), key)
    }
}

/// The first word of a text.
fn find_first(v: &Vec<char>) -> (r: Option<String>)
    ensures
        found(r) == first_word(v@),
{
    let w = words_of(v.as_slice());
    assert(scan::texts(w@).len() == w.len());
    if w.len() > 0 {
        assert(scan::texts(w@)[0] == w@[0]@);
        Some(string_of(w[0].as_slice()))
    } else {
        None
    }
}

/// The word behind `key`, in the first line that begins with it.
fn find_field(lines: &Vec<Vec<char>>, key: &str) -> (r: Option<String>)
    ensures
        found(r) == field(scan::texts(lines@), key@),
{
    let k = chars_of(key);
    let ghost all = scan::texts(lines@);
    let mut i: usize = 0;
    assert(all.skip(0) =~= all);
    while i < lines.len()
        invariant
            i <= lines.len(),
            k@ == key@,
            all == scan::texts(lines@),
            field(all.skip(i as int), key@) == field(all, key@),
        decreases lines.len() - i,
    {
        assert(all.skip(i as int)[0] == lines@[i as int]@);
        assert(all.skip(i as int).skip(1) =~= all.skip(i + 1));
        if starts_with(lines[i].as_slice(), key) {
            let rest = part(lines[i].as_slice(), k.len(), lines[i].len());
            assert(rest@ =~= lines@[i as int]@.skip(k.len() as int));
            return find_first(&rest);
        }
        i = i + 1;
    }
    None
}

/// The word behind `key` in a text.
pub fn kv_field(s: &str, key: &str) -> (r: Option<String>)
    ensures
        found(r) == field(scan::lines(s@), key@),
{
    let v = chars_of(s);
    let lines = lines_of(v.as_slice());
    find_field(&lines, key)
}

/// The texts that a sample is made of.
pub struct SysTexts {
    pub diskstats: String,
    pub psi_io: String,
    pub psi_cpu: String,
    pub psi_mem: String,
    pub loadavg: String,
    pub stat: String,
    pub meminfo: String,
    pub self_io: String,
    pub self_status: String,
}

/// The figures of the `k`th disk.
pub open spec fn kth_disk(diskstats: Seq<char>, disks: Seq<Seq<char>>, k: int) -> Seq<
    Option<Seq<char>>,
> {
    if k < disks.len() {
        disk_figures(scan::lines(diskstats), disks[k])
    } else {
        no_figures()
    }
}

/// The figures of a sample, in the order of its fields: those between the time
/// and the time that sampling took.
pub open spec fn sample_figures(t: SysTexts, disks: Seq<Seq<char>>) -> Seq<Option<Seq<char>>> {
    let io = pressure(scan::lines(t.psi_io@));
    let cpu = pressure(scan::lines(t.psi_cpu@));
    let mem = pressure(scan::lines(t.psi_mem@));
    let stat = scan::lines(t.stat@);
    let meminfo = scan::lines(t.meminfo@);
    let self_io = scan::lines(t.self_io@);
    let status = scan::lines(t.self_status@);
    (kth_disk(t.diskstats@, disks, 0) + kth_disk(t.diskstats@, disks, 1) + kth_disk(
        t.diskstats@,
        disks,
        2,
    )).push(io.0).push(io.1).push(cpu.0).push(mem.0).push(mem.1).push(first_word(t.loadavg@)).push(field(stat, "procs_running"@)).push(field(stat, "procs_blocked"@)).push(field(meminfo, "MemAvailable:"@)).push(field(meminfo, "Cached:"@)).push(field(meminfo, "Dirty:"@)).push(field(meminfo, "Writeback:"@)).push(field(self_io, "read_bytes:"@)).push(field(self_io, "write_bytes:"@)).push(field(self_io, "rchar:"@)).push(field(status, "Threads:"@)).push(field(status, "voluntary_ctxt_switches:"@)).push(field(status, "nonvoluntary_ctxt_switches:"@)).push(field(stat, "ctxt"@))
}

/// Adds the figures of the `k`th disk.
fn push_kth(out: &mut Vec<Option<String>>, lines: &Vec<Vec<char>>, disks: &Vec<String>, k: usize, Ghost(
    stats,
): Ghost<Seq<char>>)
    requires
        scan::texts(lines@) == scan::lines(stats),
    ensures
        found_all(final(out)@) == found_all(old(out)@) + kth_disk(
            stats,
            strings(disks@),
            k as int,
        ),
{
    if k < disks.len() {
        push_disk(out, lines, disks[k].as_str());
    } else {
        push_none(out);
    }
}

/// Adds a figure, where there is one.
fn push_found(out: &mut Vec<Option<String>>, figure: Option<String>)
    ensures
        found_all(final(out)@) == found_all(old(out)@).push(found(figure)),
{
    out.push(figure);
    assert(found_all(out@) =~= found_all(old(out)@).push(found(figure)));
}

/// The figures of a sample, in the order of its fields.
pub fn sys_sample(t: &SysTexts, disks: &Vec<String>) -> (r: Vec<Option<String>>)
    ensures
        found_all(r@) == sample_figures(*t, strings(disks@)),
{
    let v = chars_of(t.diskstats.as_str());
    let rows = lines_of(v.as_slice());
    let mut out: Vec<Option<String>> = Vec::new();
    push_kth(&mut out, &rows, disks, 0, Ghost(t.diskstats@));
    push_kth(&mut out, &rows, disks, 1, Ghost(t.diskstats@));
    push_kth(&mut out, &rows, disks, 2, Ghost(t.diskstats@));
    let ghost head = found_all(out@);
    let (io_some, io_full) = psi_totals(t.psi_io.as_str());
    let (cpu_some, _cpu_full) = psi_totals(t.psi_cpu.as_str());
    let (mem_some, mem_full) = psi_totals(t.psi_mem.as_str());
    push_found(&mut out, io_some);
    push_found(&mut out, io_full);
    push_found(&mut out, cpu_some);
    push_found(&mut out, mem_some);
    push_found(&mut out, mem_full);
    let load = chars_of(t.loadavg.as_str());
    push_found(&mut out, find_first(&load));
    push_found(&mut out, kv_field(t.stat.as_str(), "procs_running"));
    push_found(&mut out, kv_field(t.stat.as_str(), "procs_blocked"));
    push_found(&mut out, kv_field(t.meminfo.as_str(), "MemAvailable:"));
    push_found(&mut out, kv_field(t.meminfo.as_str(), "Cached:"));
    push_found(&mut out, kv_field(t.meminfo.as_str(), "Dirty:"));
    push_found(&mut out, kv_field(t.meminfo.as_str(), "Writeback:"));
    push_found(&mut out, kv_field(t.self_io.as_str(), "read_bytes:"));
    push_found(&mut out, kv_field(t.self_io.as_str(), "write_bytes:"));
    push_found(&mut out, kv_field(t.self_io.as_str(), "rchar:"));
    push_found(&mut out, kv_field(t.self_status.as_str(), "Threads:"));
    push_found(&mut out, kv_field(t.self_status.as_str(), "voluntary_ctxt_switches:"));
    push_found(&mut out, kv_field(t.self_status.as_str(), "nonvoluntary_ctxt_switches:"));
    push_found(&mut out, kv_field(t.stat.as_str(), "ctxt"));
    out
}

/// A sample has a figure for each of its fields but the first and the last.
pub proof fn a_sample_fills_its_fields(t: SysTexts, disks: Seq<Seq<char>>)
    ensures
        sample_figures(t, disks).len() == 46,
{
    lemma_figures_len(scan::lines(t.diskstats@), disks[0]);
    lemma_figures_len(scan::lines(t.diskstats@), disks[1]);
    lemma_figures_len(scan::lines(t.diskstats@), disks[2]);
}

proof fn lemma_figures_len(lines: Seq<Seq<char>>, name: Seq<char>)
    ensures
        disk_figures(lines, name).len() == 9,
    decreases lines.len(),
{
    if lines.len() > 0 && !is_row_of(lines[0], name) {
        lemma_figures_len(lines.skip(1), name);
    }
}

} // verus!
