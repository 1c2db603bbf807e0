//! What samples, dumps and statistics report.

use vstd::prelude::*;
use crate::counts;
use crate::diagnostics;
use crate::dispatch;
use crate::dispatch::{GgufType, VectorInput};
use crate::evt_file;
use crate::knobs;
use crate::pick_stats;
use crate::pool::PagerCounters;
use crate::pool_setup;
use crate::pool_setup::Role;
use crate::residency;
use crate::scan;
use crate::sys_sample;
use crate::sys_sample::SysTexts;
use crate::text;
use crate::token;
use crate::utc;

verus! {

/// A field is the first word behind its key, in the first line that begins with it, and
/// there is none where no line does.
pub proof fn a_field_is_of_its_first_line(lines: Seq<Seq<char>>, key: Seq<char>, i: int)
    requires
        0 <= i <= lines.len(),
        i < lines.len() ==> scan::begins(lines[i], key),
        forall|j: int| 0 <= j < i ==> !scan::begins(#[trigger] lines[j], key),
    ensures
        sys_sample::field(lines, key) == if i < lines.len() {
            let words = scan::words(lines[i].skip(key.len() as int));
            if words.len() > 0 {
                Some(words[0])
            } else {
                None
            }
        } else {
            None
        },
    decreases lines.len(),
{
    if lines.len() > 0 && i > 0 {
        let rest = lines.skip(1);
        assert forall|j: int| 0 <= j < i - 1 implies !scan::begins(#[trigger] rest[j], key) by {
            assert(rest[j] == lines[j + 1]);
        }
        assert(i < lines.len() ==> rest[i - 1] == lines[i]);
        assert(!scan::begins(lines[0], key));
        a_field_is_of_its_first_line(rest, key, i - 1);
    }
}

/// The total of a line is what its first word of that name says.
pub proof fn a_total_is_of_its_first_word(words: Seq<Seq<char>>, i: int)
    requires
        0 <= i <= words.len(),
        i < words.len() ==> scan::begins(words[i], "total="@),
        forall|j: int| 0 <= j < i ==> !scan::begins(#[trigger] words[j], "total="@),
    ensures
        sys_sample::total_word(words) == if i < words.len() {
            Some(words[i].skip(6))
        } else {
            None
        },
    decreases words.len(),
{
    reveal_strlit("total=");
    if words.len() > 0 && i > 0 {
        let rest = words.skip(1);
        assert forall|j: int| 0 <= j < i - 1 implies !scan::begins(
            #[trigger] rest[j],
            "total="@,
        ) by {
            assert(rest[j] == words[j + 1]);
        }
        assert(i < words.len() ==> rest[i - 1] == words[i]);
        assert(!scan::begins(words[0], "total="@));
        a_total_is_of_its_first_word(rest, i - 1);
    }
}

/// The line's kind of pressure: of some tasks, or of all.
pub open spec fn pressure_of_some(line: Seq<char>) -> bool {
    scan::begins(line, "some"@)
}

pub open spec fn pressure_of_all(line: Seq<char>) -> bool {
    scan::begins(line, "full"@)
}

proof fn lemma_kinds_differ(line: Seq<char>)
    ensures
        !(pressure_of_some(line) && pressure_of_all(line)),
{
    reveal_strlit("some");
    reveal_strlit("full");
    if pressure_of_some(line) && pressure_of_all(line) {
        assert(line.take(4)[0] == 's');
        assert(line.take(4)[0] == 'f');
    }
}

/// The pressures are the totals of the last line of each kind.
pub proof fn a_pressure_is_of_its_last_line(lines: Seq<Seq<char>>, i: int, j: int)
    requires
        -1 <= i < lines.len(),
        -1 <= j < lines.len(),
        i >= 0 ==> pressure_of_some(lines[i]),
        j >= 0 ==> pressure_of_all(lines[j]),
        forall|x: int| i < x < lines.len() ==> !pressure_of_some(#[trigger] lines[x]),
        forall|x: int| j < x < lines.len() ==> !pressure_of_all(#[trigger] lines[x]),
    ensures
        sys_sample::pressure(lines).0 == if i >= 0 {
            sys_sample::total_word(scan::words(lines[i]))
        } else {
            None
        },
        sys_sample::pressure(lines).1 == if j >= 0 {
            sys_sample::total_word(scan::words(lines[j]))
        } else {
            None
        },
    decreases lines.len(),
{
    if lines.len() > 0 {
        let n = lines.len() - 1;
        let head = lines.drop_last();
        lemma_kinds_differ(lines[n]);
        let a = if i == n {
            last_of_some(head, n)
        } else {
            i
        };
        let b = if j == n {
            last_of_all(head, n)
        } else {
            j
        };
        lemma_last_of_some(head, n);
        lemma_last_of_all(head, n);
        assert forall|x: int| 0 <= x < n implies #[trigger] head[x] == lines[x] by {}
        a_pressure_is_of_its_last_line(head, a, b);
        assert(i < n ==> !pressure_of_some(lines[n]));
        assert(j < n ==> !pressure_of_all(lines[n]));
    }
}

spec fn last_of_some(lines: Seq<Seq<char>>, n: int) -> int
    decreases n,
{
    if n <= 0 {
        -1
    } else if pressure_of_some(lines[n - 1]) {
        n - 1
    } else {
        last_of_some(lines, n - 1)
    }
}

spec fn last_of_all(lines: Seq<Seq<char>>, n: int) -> int
    decreases n,
{
    if n <= 0 {
        -1
    } else if pressure_of_all(lines[n - 1]) {
        n - 1
    } else {
        last_of_all(lines, n - 1)
    }
}

proof fn lemma_last_of_some(lines: Seq<Seq<char>>, n: int)
    requires
        0 <= n <= lines.len(),
    ensures
        -1 <= last_of_some(lines, n) < n,
        last_of_some(lines, n) >= 0 ==> pressure_of_some(lines[last_of_some(lines, n)]),
        forall|x: int| last_of_some(lines, n) < x < n ==> !pressure_of_some(#[trigger] lines[x]),
    decreases n,
{
    if n > 0 {
        lemma_last_of_some(lines, n - 1);
    }
}

proof fn lemma_last_of_all(lines: Seq<Seq<char>>, n: int)
    requires
        0 <= n <= lines.len(),
    ensures
        -1 <= last_of_all(lines, n) < n,
        last_of_all(lines, n) >= 0 ==> pressure_of_all(lines[last_of_all(lines, n)]),
        forall|x: int| last_of_all(lines, n) < x < n ==> !pressure_of_all(#[trigger] lines[x]),
    decreases n,
{
    if n > 0 {
        lemma_last_of_all(lines, n - 1);
    }
}

/// A disk's figures are nine words of the first line that names it in its third word
/// and has them all; without such a line there are none.
pub proof fn a_disks_figures_are_of_its_first_line(
    lines: Seq<Seq<char>>,
    name: Seq<char>,
    i: int,
)
    requires
        0 <= i <= lines.len(),
        i < lines.len() ==> sys_sample::is_row_of(lines[i], name),
        forall|j: int| 0 <= j < i ==> !sys_sample::is_row_of(#[trigger] lines[j], name),
    ensures
        ({
            let f = sys_sample::disk_figures(lines, name);
            let w = scan::words(lines[i]);
            &&& f.len() == 9
            &&& i == lines.len() ==> forall|x: int| 0 <= x < 9 ==> (#[trigger] f[x]) is None
            &&& i < lines.len() ==> {
                &&& w.len() >= 14 && w[2] == name
                // Reads and their sectors and time, writes and theirs, and the times.
                &&& f[0] == Some(w[3]) && f[1] == Some(w[5]) && f[2] == Some(w[6])
                &&& f[3] == Some(w[7]) && f[4] == Some(w[9]) && f[5] == Some(w[10])
                &&& f[6] == Some(w[11]) && f[7] == Some(w[12]) && f[8] == Some(w[13])
            }
        }),
    decreases lines.len(),
{
    if lines.len() > 0 && i > 0 {
        let rest = lines.skip(1);
        assert forall|j: int| 0 <= j < i - 1 implies !sys_sample::is_row_of(
            #[trigger] rest[j],
            name,
        ) by {
            assert(rest[j] == lines[j + 1]);
        }
        assert(i < lines.len() ==> rest[i - 1] == lines[i]);
        assert(!sys_sample::is_row_of(lines[0], name));
        a_disks_figures_are_of_its_first_line(rest, name, i - 1);
    }
}

/// The disks that are found are those that some line names in its third word, and that
/// are whole disks.
pub proof fn every_whole_disk_is_found(lines: Seq<Seq<char>>, d: Seq<char>)
    ensures
        sys_sample::disks_in(lines).contains(d) <==> exists|i: int|
            0 <= i < lines.len() && scan::words(#[trigger] lines[i]).len() > 2 && scan::words(
                lines[i],
            )[2] == d && sys_sample::is_nvme(d),
        sys_sample::disks_in(lines).len() <= lines.len(),
    decreases lines.len(),
{
    if lines.len() > 0 {
        let head = lines.drop_last();
        let n = lines.len() - 1;
        every_whole_disk_is_found(head, d);
        let before = sys_sample::disks_in(head);
        let now = sys_sample::disks_in(lines);
        assert forall|i: int| 0 <= i < n implies #[trigger] head[i] == lines[i] by {}
        if before.contains(d) {
            let j = choose|j: int| 0 <= j < before.len() && before[j] == d;
            assert(now[j] == d);
            let i = choose|i: int|
                0 <= i < head.len() && scan::words(#[trigger] head[i]).len() > 2 && scan::words(
                    head[i],
                )[2] == d && sys_sample::is_nvme(d);
            assert(lines[i] == head[i]);
        }
        if sys_sample::disk_of(lines[n]) == Some(d) {
            assert(now[before.len() as int] == d);
            assert(scan::words(lines[n])[2] == d);
        }
        if now.contains(d) && !before.contains(d) {
            let j = choose|j: int| 0 <= j < now.len() && now[j] == d;
            if j < before.len() {
                assert(before[j] == d);
            }
        }
        if exists|i: int|
            0 <= i < lines.len() && scan::words(#[trigger] lines[i]).len() > 2 && scan::words(
                lines[i],
            )[2] == d && sys_sample::is_nvme(d) {
            let i = choose|i: int|
                0 <= i < lines.len() && scan::words(#[trigger] lines[i]).len() > 2
                    && scan::words(lines[i])[2] == d && sys_sample::is_nvme(d);
            if i < n {
                assert(head[i] == lines[i]);
            } else {
                assert(sys_sample::disk_of(lines[n]) == Some(d));
            }
        }
    }
}

/// A sample's figures behind those of the three disks, each in its place.
pub proof fn a_samples_figures_stand_in_order(t: SysTexts, disks: Seq<Seq<char>>)
    ensures
        ({
            let f = sys_sample::sample_figures(t, disks);
            let stat = scan::lines(t.stat@);
            let memory = scan::lines(t.meminfo@);
            let io = scan::lines(t.self_io@);
            let status = scan::lines(t.self_status@);
            &&& f.len() == 46
            &&& f[27] == sys_sample::pressure(scan::lines(t.psi_io@)).0
            &&& f[28] == sys_sample::pressure(scan::lines(t.psi_io@)).1
            &&& f[29] == sys_sample::pressure(scan::lines(t.psi_cpu@)).0
            &&& f[30] == sys_sample::pressure(scan::lines(t.psi_mem@)).0
            &&& f[31] == sys_sample::pressure(scan::lines(t.psi_mem@)).1
            &&& f[32] == sys_sample::first_word(t.loadavg@)
            &&& f[33] == sys_sample::field(stat, "procs_running"@)
            &&& f[34] == sys_sample::field(stat, "procs_blocked"@)
            &&& f[35] == sys_sample::field(memory, "MemAvailable:"@)
            &&& f[36] == sys_sample::field(memory, "Cached:"@)
            &&& f[37] == sys_sample::field(memory, "Dirty:"@)
            &&& f[38] == sys_sample::field(memory, "Writeback:"@)
            &&& f[39] == sys_sample::field(io, "read_bytes:"@)
            &&& f[40] == sys_sample::field(io, "write_bytes:"@)
            &&& f[41] == sys_sample::field(io, "rchar:"@)
            &&& f[42] == sys_sample::field(status, "Threads:"@)
            &&& f[43] == sys_sample::field(status, "voluntary_ctxt_switches:"@)
            &&& f[44] == sys_sample::field(status, "nonvoluntary_ctxt_switches:"@)
            &&& f[45] == sys_sample::field(stat, "ctxt"@)
        }),
{
    sys_sample::a_sample_fills_its_fields(t, disks);
}

/// What was counted since a snapshot, added to it, is what is counted now.
pub proof fn what_was_counted_since_adds_up(now: PagerCounters, before: PagerCounters)
    requires
        now.not_before(before),
    ensures
        ({
            let d = vstd::std_specs::ops::SubSpec::sub_spec(now, before);
            &&& d.prefill_requests + before.prefill_requests == now.prefill_requests
            &&& d.prefill_misses + before.prefill_misses == now.prefill_misses
            &&& d.prefill_read_ns + before.prefill_read_ns == now.prefill_read_ns
            &&& d.prefill_h2d_ns + before.prefill_h2d_ns == now.prefill_h2d_ns
            &&& d.decode_requests + before.decode_requests == now.decode_requests
            &&& d.decode_misses + before.decode_misses == now.decode_misses
            &&& d.decode_read_ns + before.decode_read_ns == now.decode_read_ns
            &&& d.decode_h2d_ns + before.decode_h2d_ns == now.decode_h2d_ns
            &&& d.decode_alloc_ns + before.decode_alloc_ns == now.decode_alloc_ns
            &&& d.decode_pread_ns + before.decode_pread_ns == now.decode_pread_ns
            &&& d.decode_repack_ns + before.decode_repack_ns == now.decode_repack_ns
            &&& d.decode_pread_bytes + before.decode_pread_bytes == now.decode_pread_bytes
        }),
{
}

/// A layer's picks count in the sum over the layers, and its most picked experts' in
/// theirs: where they change, the sums change by as much.
pub proof fn every_layer_counts_in_the_sums(
    layers: Seq<Seq<u64>>,
    k: nat,
    n: int,
    l: int,
    row: Seq<u64>,
)
    requires
        0 <= n <= layers.len(),
        0 <= l < layers.len(),
    ensures
        pick_stats::total_picks(layers.update(l, row), n) == pick_stats::total_picks(layers, n)
            + if l < n {
            counts::sum(row) - counts::sum(layers[l])
        } else {
            0
        },
        pick_stats::total_top(layers.update(l, row), k, n) == pick_stats::total_top(layers, k, n)
            + if l < n {
            counts::top_sum(row, k) - counts::top_sum(layers[l], k)
        } else {
            0
        },
        pick_stats::total_top(layers, k, n) <= pick_stats::total_picks(layers, n),
        n == 0 ==> pick_stats::total_picks(layers, n) == 0,
    decreases n,
{
    if n > 0 {
        every_layer_counts_in_the_sums(layers, k, n - 1, l, row);
        counts::the_largest_share_grows(layers[n - 1], k);
    }
}

/// A call takes the hints that there are, or as many as it may.
pub proof fn a_call_takes_as_many_hints_as_it_may(n: nat, max: usize)
    ensures
        residency::taken_count(n, max) <= n,
        residency::taken_count(n, max) <= max,
        residency::taken_count(n, max) == n || residency::taken_count(n, max) == max,
{
}

/// A number is at least one, and the configured or the default one where that is.
pub proof fn a_number_is_at_least_one(v: Option<usize>, default: usize)
    requires
        default >= 1,
    ensures
        knobs::at_least_one(v, default) >= 1,
        v matches Some(n) ==> n >= 1 ==> knobs::at_least_one(v, default) == n,
        v is None ==> knobs::at_least_one(v, default) == default,
{
}

/// What is left after a part, and the part, are the whole.
pub proof fn a_rest_and_its_part_are_the_whole(a: u64, b: u64)
    ensures
        b <= a ==> token::rest_of(a, b) + b == a,
        b > a ==> token::rest_of(a, b) == 0,
        // An input and a sum of 5120 values each, for every layer.
        token::token_peer_bytes() == 40 * (5120 * 4 + 5120 * 4),
{
}

/// A setting that is a number is that number, and the default counts where it is unset
/// or none.
pub proof fn a_setting_is_read_back(n: u64, default: u64)
    ensures
        evt_file::setting(None, default) == default,
        evt_file::setting(Some(text::decimal(n as nat)), default) == n,
        text::parsed_u64(Seq::empty()) is None,
        evt_file::setting(Some(Seq::empty()), default) == default,
{
    text::lemma_decimal_digits(n as nat);
    assert(text::is_digit(text::decimal(n as nat)[0]));
}

/// The formats that kernels read: at decode and at prefill the same pairs, dense ones
/// from the vector itself or from its 8-bit form, never both.
pub proof fn a_format_is_read_in_one_way(dt: GgufType)
    ensures
        dispatch::dense(dt) <==> dt == GgufType::Q8_0 || dt == GgufType::Q4_K || dt
            == GgufType::Q5_K || dt == GgufType::Q6_K,
        dispatch::dense(dt) ==> (dispatch::input_of(dt) == VectorInput::Quantized <==> dt
            == GgufType::Q8_0),
        dispatch::decode_pair(dt) <==> dispatch::kwide_pair(dt) || dt == GgufType::IQ2_XXS,
        dispatch::kwide_pair(GgufType::IQ2_S) && dispatch::kwide_pair(GgufType::IQ2_XS)
            && dispatch::kwide_pair(GgufType::IQ3_XXS) && dispatch::kwide_pair(GgufType::IQ3_S)
            && dispatch::kwide_pair(GgufType::MXFP4),
        dispatch::decode_pair(dt) ==> !dispatch::dense(dt),
        dispatch::decode_down(dt) <==> dt == GgufType::Q2_K || dt == GgufType::IQ3_XXS || dt
            == GgufType::MXFP4,
{
}

/// A 16-bit float's magnitude goes up by one step from one mantissa to the next, starts
/// where the smallest ones end, and doubles with each exponent.
pub proof fn a_half_floats_magnitude_doubles_with_its_exponent(bits: u16)
    requires
        diagnostics::f16_exp(bits) < 30,
    ensures
        ({
            let step = diagnostics::f16_magnitude(1);
            &&& diagnostics::f16_exp(bits) == 0 ==> diagnostics::f16_magnitude(bits)
                == diagnostics::f16_mant(bits) * step
            &&& diagnostics::f16_exp(bits) == 1 ==> diagnostics::f16_magnitude(bits) == (1024
                + diagnostics::f16_mant(bits)) * step
            &&& diagnostics::f16_exp(bits) >= 1 ==> diagnostics::f16_magnitude(
                (bits + 1024) as u16,
            ) == 2 * diagnostics::f16_magnitude(bits)
            // The step is the 32-bit float of exponent 103.
            &&& step == diagnostics::f32_magnitude(0x3380_0000)
        }),
{
    let e = diagnostics::f16_exp(bits);
    let m = diagnostics::f16_mant(bits);
    let p = vstd::arithmetic::power2::pow2((e + 124) as nat) as int;
    vstd::arithmetic::power2::lemma_pow2_unfold((e + 125) as nat);
    vstd::arithmetic::power2::lemma2_to64();
    vstd::arithmetic::power2::lemma_pow2_adds(23, 102);
    assert(1 * vstd::arithmetic::power2::pow2(125) == vstd::arithmetic::power2::pow2(125))
        by (nonlinear_arith);
    if e >= 1 {
        assert(bits + 1024 <= 0xffff);
        let up = (bits + 1024) as u16;
        assert(diagnostics::f16_exp(up) == e + 1);
        assert(diagnostics::f16_mant(up) == m);
        assert((1024 + m) * (2 * p) == 2 * ((1024 + m) * p)) by (nonlinear_arith);
    }
}

/// A 32-bit float's magnitude does the same.
pub proof fn a_floats_magnitude_doubles_with_its_exponent(bits: u32)
    requires
        diagnostics::f32_exp(bits) < 254,
    ensures
        diagnostics::f32_exp(bits) == 0 ==> diagnostics::f32_magnitude(bits)
            == diagnostics::f32_mant(bits),
        diagnostics::f32_exp(bits) == 1 ==> diagnostics::f32_magnitude(bits) == 0x80_0000
            + diagnostics::f32_mant(bits),
        diagnostics::f32_exp(bits) >= 1 ==> diagnostics::f32_magnitude((bits + 0x80_0000) as u32)
            == 2 * diagnostics::f32_magnitude(bits),
{
    let e = diagnostics::f32_exp(bits);
    let m = diagnostics::f32_mant(bits);
    vstd::arithmetic::power2::lemma2_to64();
    if e >= 1 {
        let p = vstd::arithmetic::power2::pow2((e - 1) as nat) as int;
        vstd::arithmetic::power2::lemma_pow2_unfold(e as nat);
        assert(bits + 0x80_0000 <= 0xffff_ffff);
        let up = (bits + 0x80_0000) as u32;
        assert(diagnostics::f32_exp(up) == e + 1);
        assert(diagnostics::f32_mant(up) == m);
        assert((0x80_0000 + m) * (2 * p) == 2 * ((0x80_0000 + m) * p)) by (nonlinear_arith);
        assert((0x80_0000 + m) * 1 == 0x80_0000 + m) by (nonlinear_arith);
    }
}

/// The years follow the calendar: every fourth has a day more, but for every hundredth,
/// but for every four hundredth.
pub proof fn the_years_follow_the_calendar(year: int)
    requires
        year >= 1970,
    ensures
        utc::year_start(year) == 365 * (year - 1970) + (year - 1) / 4 - (year - 1) / 100 + (year
            - 1) / 400 - 477,
    decreases year,
{
    if year > 1970 {
        the_years_follow_the_calendar(year - 1);
        lemma_leap_years(year - 1);
    }
}

proof fn lemma_leap_years(year: int)
    requires
        year >= 1970,
    ensures
        utc::year_days(year) == 365 + (year / 4 - (year - 1) / 4) - (year / 100 - (year - 1) / 100)
            + (year / 400 - (year - 1) / 400),
{
    assert(year / 4 - (year - 1) / 4 == if year % 4 == 0 {
        1int
    } else {
        0
    });
    assert(year / 100 - (year - 1) / 100 == if year % 100 == 0 {
        1int
    } else {
        0
    });
    assert(year / 400 - (year - 1) / 400 == if year % 400 == 0 {
        1int
    } else {
        0
    });
}

/// The months begin where they do.
pub proof fn the_months_follow_the_calendar(year: int)
    requires
        year >= 1970,
    ensures
        ({
            let more = utc::year_start(year + 1) - utc::year_start(year) - 365;
            &&& 0 <= more <= 1
            &&& utc::month_start(year, 1) == 0
            &&& utc::month_start(year, 2) == 31
            &&& utc::month_start(year, 3) == 59 + more
            &&& utc::month_start(year, 4) == 90 + more
            &&& utc::month_start(year, 5) == 120 + more
            &&& utc::month_start(year, 6) == 151 + more
            &&& utc::month_start(year, 7) == 181 + more
            &&& utc::month_start(year, 8) == 212 + more
            &&& utc::month_start(year, 9) == 243 + more
            &&& utc::month_start(year, 10) == 273 + more
            &&& utc::month_start(year, 11) == 304 + more
            &&& utc::month_start(year, 12) == 334 + more
        }),
{
    reveal_with_fuel(utc::month_start, 13);
}

/// The parts of an expert come in the order gate, up, down. Each holds as many weights
/// as its matrix has, in blocks of 32; the down matrix has the other shape.
pub proof fn an_experts_parts_hold_its_weights(slot: u32, bytes: Seq<u64>, i: int)
    requires
        bytes.len() == 3,
        0 <= i < 3,
        forall|k: int| 0 <= k < 3 ==> #[trigger] bytes[k] <= u32::MAX,
    ensures
        ({
            let plan = pool_setup::repack_plan(slot, bytes);
            &&& plan.len() == 3
            &&& plan[0].role == Role::Gate && plan[1].role == Role::Up && plan[2].role
                == Role::Down
            &&& plan[i].rows * plan[i].blocks * 32 == 2304 * 5120
            &&& plan[i].role == Role::Down <==> plan[i].rows == 5120
            // A part stands behind those of the slots in front of its own.
            &&& plan[i].offset == slot * bytes[i]
        }),
{
    assert(slot * bytes[i] <= u32::MAX * u32::MAX) by (nonlinear_arith)
        requires
            slot <= u32::MAX,
            bytes[i] <= u32::MAX,
    ;
    assert(slot * bytes[i] >= 0) by (nonlinear_arith);
    let plan = pool_setup::repack_plan(slot, bytes);
    if i < 2 {
        assert(plan[i].rows == 2304 && plan[i].blocks == 160);
        assert(2304int * 160 * 32 == 2304 * 5120);
    } else {
        assert(plan[i].rows == 5120 && plan[i].blocks == 72);
        assert(5120int * 72 * 32 == 2304 * 5120);
    }
}

/// A number that is padded has the width asked for where it is no longer than that, and
/// is the same number.
pub proof fn a_padded_number_is_the_same(n: nat, width: nat)
    ensures
        text::all_digits(text::padded(n, width)),
        text::digits_value(text::padded(n, width)) == n,
        text::padded(n, width).len() == if text::decimal(n).len() < width {
            width
        } else {
            text::decimal(n).len()
        },
{
    text::lemma_decimal_digits(n);
    let d = text::decimal(n);
    if d.len() < width {
        lemma_zeros((width - d.len()) as nat, d);
    }
}

proof fn lemma_zeros(k: nat, d: Seq<char>)
    ensures
        text::digits_value(text::zeros(k) + d) == text::digits_value(d),
    decreases d.len(), k,
{
    let all = text::zeros(k) + d;
    if d.len() > 0 {
        assert(all.drop_last() =~= text::zeros(k) + d.drop_last());
        lemma_zeros(k, d.drop_last());
    } else if k > 0 {
        assert(all.drop_last() =~= text::zeros((k - 1) as nat) + d);
        lemma_zeros((k - 1) as nat, d);
        assert(all.last() == '0');
    }
}

} // verus!
