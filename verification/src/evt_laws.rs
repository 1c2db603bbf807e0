//! How a trace is laid out, byte by byte, and what its records hold.

use vstd::prelude::*;
use crate::evt_file;
use crate::evt_header;
use crate::evt_header::{Json, Origin};
use crate::evtrace::{Named, RecState};
use crate::evtrace;
use crate::evtrace_kinds::{KindState, MAX_FIELDS};
use crate::scan;
use crate::text;

verus! {

/// A number's least byte comes first: byte `i` counts the 256 to the `i`s.
pub proof fn the_least_byte_comes_first(x: nat, n: nat, i: nat)
    requires
        i < n,
    ensures
        evt_file::le_bytes(x, n).len() == n,
        evt_file::le_bytes(x, n)[i as int] as int == (x as int / vstd::arithmetic::power::pow(256, i)) % 256,
    decreases n,
{
    lemma_len(x, n);
    vstd::arithmetic::power::lemma_pow0(256);
    if i > 0 {
        the_least_byte_comes_first(x / 256, (n - 1) as nat, (i - 1) as nat);
        vstd::arithmetic::power::lemma_pow_positive(256, (i - 1) as nat);
        vstd::arithmetic::power::lemma_pow_adds(256, 1, (i - 1) as nat);
        vstd::arithmetic::power::lemma_pow1(256);
        vstd::arithmetic::div_mod::lemma_div_denominator(
            x as int,
            256,
            vstd::arithmetic::power::pow(256, (i - 1) as nat),
        );
    }
}

proof fn lemma_len(x: nat, n: nat)
    ensures
        evt_file::le_bytes(x, n).len() == n,
    decreases n,
{
    if n > 0 {
        lemma_len(x / 256, (n - 1) as nat);
    }
}

proof fn lemma_values(v: Seq<u64>, j: int, i: int)
    requires
        0 <= j < v.len(),
        0 <= i < 8,
    ensures
        evt_file::value_bytes(v).len() == 8 * v.len(),
        evt_file::value_bytes(v)[8 * j + i] == evt_file::le_bytes(v[j] as nat, 8)[i],
    decreases v.len(),
{
    lemma_len(v.last() as nat, 8);
    if v.len() == 1 {
        assert(evt_file::value_bytes(v.drop_last()).len() == 0);
    } else {
        lemma_values(v.drop_last(), if j < v.len() - 1 {
            j
        } else {
            0
        }, i);
    }
}

/// A record is its kind in two bytes, the number of its values in two, and each value
/// in eight, one behind the other.
pub proof fn a_record_is_laid_out(r: RecState, j: int, i: nat)
    requires
        r.values.len() <= MAX_FIELDS,
        0 <= j < r.values.len(),
        i < 8,
    ensures
        ({
            let b = evt_file::record_bytes(r);
            &&& b.len() == 4 + 8 * r.values.len()
            &&& b[0] + 256 * b[1] == r.kind
            &&& b[2] + 256 * b[3] == r.values.len()
            &&& b[4 + 8 * j + i] as int == (r.values[j] as int / vstd::arithmetic::power::pow(256, i)) % 256
        }),
{
    lemma_len(r.kind as nat, 2);
    lemma_len(r.values.len(), 2);
    lemma_len(r.values[j] as nat, 8);
    lemma_values(r.values, j, i as int);
    the_least_byte_comes_first(r.kind as nat, 2, 0);
    the_least_byte_comes_first(r.kind as nat, 2, 1);
    the_least_byte_comes_first(r.values.len(), 2, 0);
    the_least_byte_comes_first(r.values.len(), 2, 1);
    the_least_byte_comes_first(r.values[j] as nat, 8, i);
    vstd::arithmetic::power::lemma_pow0(256);
    vstd::arithmetic::power::lemma_pow1(256);
    let b = evt_file::record_bytes(r);
    assert(b[0] == evt_file::le_bytes(r.kind as nat, 2)[0]);
    assert(b[1] == evt_file::le_bytes(r.kind as nat, 2)[1]);
    assert(b[2] == evt_file::le_bytes(r.values.len(), 2)[0]);
    assert(b[3] == evt_file::le_bytes(r.values.len(), 2)[1]);
    assert(b[4 + 8 * j + i] == evt_file::value_bytes(r.values)[8 * j + i]);
}

proof fn lemma_four_bytes(n: int)
    requires
        0 <= n <= u32::MAX,
    ensures
        n % 256 + 256 * ((n / 256) % 256) + 0x1_0000 * ((n / 0x1_0000) % 256) + 0x100_0000 * ((n
            / 0x100_0000) % 256) == n,
{
}

/// A file begins with the four letters of its format, the length of the header, and the
/// header.
pub proof fn a_file_begins_with_its_format(header: Seq<u8>)
    requires
        header.len() <= u32::MAX,
    ensures
        ({
            let b = evt_file::file_head(header);
            &&& b.len() == 8 + header.len()
            &&& b[0] == 0x45 && b[1] == 0x56 && b[2] == 0x54 && b[3] == 0x31
            &&& b[4] + 256 * b[5] + 0x1_0000 * b[6] + 0x100_0000 * b[7] == header.len()
            &&& b.skip(8) == header
        }),
{
    let b = evt_file::file_head(header);
    let n = header.len();
    lemma_len(n, 4);
    the_least_byte_comes_first(n, 4, 0);
    the_least_byte_comes_first(n, 4, 1);
    the_least_byte_comes_first(n, 4, 2);
    the_least_byte_comes_first(n, 4, 3);
    vstd::arithmetic::power::lemma_pow0(256);
    vstd::arithmetic::power::lemma_pow1(256);
    vstd::arithmetic::power::lemma_pow_adds(256, 1, 1);
    vstd::arithmetic::power::lemma_pow_adds(256, 2, 1);
    assert(256int * 256 == 0x1_0000);
    assert(0x1_0000int * 256 == 0x100_0000);
    assert(vstd::arithmetic::power::pow(256, 2) == 0x1_0000);
    assert(vstd::arithmetic::power::pow(256, 3) == 0x100_0000);
    lemma_four_bytes(n as int);
    assert(b[4] == evt_file::le_bytes(n, 4)[0]);
    assert(b[5] == evt_file::le_bytes(n, 4)[1]);
    assert(b[6] == evt_file::le_bytes(n, 4)[2]);
    assert(b[7] == evt_file::le_bytes(n, 4)[3]);
    assert(b.skip(8) =~= header);
}

/// A record has a value for each field of its kind: those that were given, in order,
/// and no number for those that were not. What was given beyond the fields is cut.
pub proof fn a_record_has_its_fields_values(k: KindState, v: Seq<u64>, i: int)
    requires
        k.fields.len() <= MAX_FIELDS,
        0 <= i < k.fields.len(),
    ensures
        ({
            let r = evtrace::record(k, v);
            &&& r.kind == k.id
            &&& r.values.len() == k.fields.len()
            &&& i < v.len() ==> r.values[i] == v[i]
            // The bits of what is no number.
            &&& i >= v.len() ==> r.values[i] == 0x7ff8_0000_0000_0000
        }),
{
}

proof fn lemma_field(fields: Seq<Seq<char>>, name: Seq<char>)
    ensures
        evtrace::field_place(fields, name) matches Some(i) ==> 0 <= i < fields.len() && fields[i]
            == name && forall|j: int| 0 <= j < i ==> #[trigger] fields[j] != name,
        evtrace::field_place(fields, name) is None ==> forall|j: int|
            0 <= j < fields.len() ==> #[trigger] fields[j] != name,
    decreases fields.len(),
{
    if fields.len() > 0 && fields[0] != name {
        lemma_field(fields.skip(1), name);
        let rest = fields.skip(1);
        assert forall|j: int| 1 <= j < fields.len() implies #[trigger] fields[j] == rest[j - 1] by {}
    }
}

/// Of the values that are given for a field by its name the last one counts. A field
/// that none is given for keeps what it has.
pub proof fn the_last_of_a_name_counts(
    fields: Seq<Seq<char>>,
    v: Seq<u64>,
    pairs: Seq<Named>,
    i: int,
    p: int,
)
    requires
        fields.no_duplicates(),
        v.len() == fields.len(),
        0 <= i < fields.len(),
        -1 <= p < pairs.len(),
        p >= 0 ==> pairs[p].name@ == fields[i],
        forall|q: int| p < q < pairs.len() ==> (#[trigger] pairs[q]).name@ != fields[i],
    ensures
        evtrace::named_values(fields, v, pairs).len() == v.len(),
        evtrace::named_values(fields, v, pairs)[i] == if p >= 0 {
            pairs[p].value
        } else {
            v[i]
        },
    decreases pairs.len(),
{
    if pairs.len() > 0 {
        let head = pairs.drop_last();
        let last = pairs.last();
        lemma_field(fields, last.name@);
        if p == pairs.len() - 1 {
            lemma_named_len(fields, v, head);
        } else {
            assert(p >= 0 ==> head[p] == pairs[p]);
            assert forall|q: int| p < q < head.len() implies (#[trigger] head[q]).name@
                != fields[i] by {
                assert(head[q] == pairs[q]);
            }
            the_last_of_a_name_counts(fields, v, head, i, p);
            assert(pairs[pairs.len() - 1].name@ != fields[i]);
        }
    }
}

proof fn lemma_named_len(fields: Seq<Seq<char>>, v: Seq<u64>, pairs: Seq<Named>)
    ensures
        evtrace::named_values(fields, v, pairs).len() == v.len(),
    decreases pairs.len(),
{
    if pairs.len() > 0 {
        lemma_named_len(fields, v, pairs.drop_last());
        lemma_field(fields, pairs.last().name@);
    }
}

/// A variable is noted whose name begins with one of three prefixes, with the value that
/// the last of its name has; no other is.
pub proof fn a_noted_variable_has_its_last_value(
    vars: Seq<(String, String)>,
    name: Seq<char>,
    p: int,
)
    requires
        -1 <= p < vars.len(),
        p >= 0 ==> vars[p].0@ == name,
        forall|q: int| p < q < vars.len() ==> (#[trigger] vars[q]).0@ != name,
    ensures
        ({
            let noted = evt_header::noted(vars);
            let wanted = scan::begins(name, "V41_"@) || scan::begins(name, "GPU_"@)
                || scan::begins(name, "HIP_"@);
            &&& noted.contains_key(name) <==> wanted && p >= 0
            &&& wanted && p >= 0 ==> noted[name] == Json::Text(vars[p].1@)
        }),
    decreases vars.len(),
{
    if vars.len() > 0 && p < vars.len() - 1 {
        let head = vars.drop_last();
        assert(p >= 0 ==> head[p] == vars[p]);
        assert forall|q: int| p < q < head.len() implies (#[trigger] head[q]).0@ != name by {
            assert(head[q] == vars[q]);
        }
        a_noted_variable_has_its_last_value(head, name, p);
        assert(vars[vars.len() - 1].0@ != name);
    } else if vars.len() > 0 {
        assert(vars.last().0@ == name);
        if !evt_header::is_noted(name) {
            lemma_unnoted(vars, name);
        }
    }
}

proof fn lemma_unnoted(vars: Seq<(String, String)>, name: Seq<char>)
    requires
        !evt_header::is_noted(name),
    ensures
        !evt_header::noted(vars).contains_key(name),
    decreases vars.len(),
{
    if vars.len() > 0 {
        lemma_unnoted(vars.drop_last(), name);
    }
}

/// The header says who wrote the trace, by what clock and since when, of which disks, and
/// what else it was given.
pub proof fn the_header_says_where_it_is_from(o: Origin, disks: Seq<Seq<char>>, extras: Json)
    ensures
        ({
            let h = evt_header::header_json(o, disks, extras)->Object_0;
            &&& h["format"@] == Json::Text("EVT1"@)
            &&& h["role"@] == Json::Text(o.role@)
            &&& h["pid"@] == Json::Number(text::decimal(o.pid as nat))
            &&& h["clock"@] == Json::Text("CLOCK_MONOTONIC_RAW ns"@)
            &&& h["t_mono_raw_at_open"@] == Json::Number(text::decimal(o.mono_raw_ns as nat))
            &&& h["t_realtime_at_open"@] == Json::Number(text::decimal(o.realtime_ns as nat))
            &&& h["sys_devices"@] matches Json::List(l) && l.len() == disks.len() && forall|i: int|
                0 <= i < disks.len() ==> #[trigger] l[i] == Json::Text(disks[i])
            &&& h["extras"@] == extras
        }),
{
    reveal_strlit("format");
    reveal_strlit("role");
    reveal_strlit("pid");
    reveal_strlit("clock");
    reveal_strlit("t_mono_raw_at_open");
    reveal_strlit("t_realtime_at_open");
    reveal_strlit("sys_devices");
    reveal_strlit("kinds");
    reveal_strlit("extras");
    assert("format"@[0] != "extras"@[0]);
    assert("clock"@[0] != "kinds"@[0]);
    assert("t_mono_raw_at_open"@[2] != "t_realtime_at_open"@[2]);
    assert("format"@.len() == 6 && "role"@.len() == 4 && "pid"@.len() == 3 && "clock"@.len() == 5
        && "t_mono_raw_at_open"@.len() == 18 && "t_realtime_at_open"@.len() == 18
        && "sys_devices"@.len() == 11 && "kinds"@.len() == 5 && "extras"@.len() == 6);
}

} // verus!
