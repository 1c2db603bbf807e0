//! The header of a trace's file: a JSON document with who wrote it, the clocks when
//! it began, the disks that are sampled, and every kind's fields, so that a reader
//! needs nothing else.

use vstd::prelude::*;
use crate::evtrace_kinds::{kinds, Kind};
use crate::evtrace_kinds;
use crate::scan::starts_with;
use crate::scan;
use crate::sys_sample;
use crate::text::chars_of;
use crate::text;

verus! {

/// A JSON document.
pub enum Json {
    Null,
    Truth(bool),
    /// A number, as it is written.
    Number(Seq<char>),
    Text(Seq<char>),
    List(Seq<Json>),
    Object(Map<Seq<char>, Json>),
}

#[verifier::external_type_specification]
#[verifier::external_body]
pub struct ExValue(serde_json::Value);

#[verifier::external_type_specification]
#[verifier::external_body]
#[verifier::reject_recursive_types(K)]
#[verifier::reject_recursive_types(V)]
pub struct ExObject<K, V>(serde_json::Map<K, V>);

/// The document that a value of `serde_json` holds.
pub uninterp spec fn document(v: serde_json::Value) -> Json;

/// The entries that an object of `serde_json` holds.
pub uninterp spec fn entries(m: serde_json::Map<String, serde_json::Value>) -> Map<
    Seq<char>,
    Json,
>;

/// What `serde_json::to_vec` writes for a document, where it writes anything.
pub uninterp spec fn written(d: Json) -> Option<Seq<u8>>;

/// No entries.
pub open spec fn nothing() -> Map<Seq<char>, Json> {
    Map::empty()
}

/// The documents that some values hold.
pub open spec fn documents(v: Seq<serde_json::Value>) -> Seq<Json> {
    v.map_values(|x: serde_json::Value| document(x))
}

/// `serde_json::Value::from`, of a text: the value holds that text.
#[verifier::external_body]
fn text_value(s: &str) -> (r: serde_json::Value)
    ensures
        document(r) == Json::Text(s@),
{
    serde_json::Value::from(s)
}

/// `serde_json::Value::from`, of a number: the value holds the number, which is
/// written in decimal.
#[verifier::external_body]
fn number_value(n: u64) -> (r: serde_json::Value)
    ensures
        document(r) == Json::Number(text::decimal(n as nat)),
{
    serde_json::Value::from(n)
}

/// `serde_json::Value::from`, of a list of values: the value holds the list of what
/// they hold.
#[verifier::external_body]
fn list_value(v: Vec<serde_json::Value>) -> (r: serde_json::Value)
    ensures
        document(r) == Json::List(documents(v@)),
{
    serde_json::Value::from(v)
}

/// `serde_json::Value::from`, of an object: the value holds an object with the same
/// entries.
#[verifier::external_body]
fn object_value(m: serde_json::Map<String, serde_json::Value>) -> (r: serde_json::Value)
    ensures
        document(r) == Json::Object(entries(m)),
{
    serde_json::Value::from(m)
}

/// `serde_json::Map::new`: an object without entries.
#[verifier::external_body]
fn new_object() -> (r: serde_json::Map<String, serde_json::Value>)
    ensures
        entries(r) == nothing(),
{
    serde_json::Map::new()
}

/// `serde_json::Map::insert`: the key has the value from now on, and the other
/// entries stay.
#[verifier::external_body]
fn put(m: &mut serde_json::Map<String, serde_json::Value>, key: &str, v: serde_json::Value)
    ensures
        entries(*final(m)) == entries(*old(m)).insert(key@, document(v)),
{
    m.insert(key.to_owned(), v);
}

/// `serde_json::to_vec`: what is written depends on the document alone.
#[verifier::external_body]
fn to_vec(v: &serde_json::Value) -> (r: Option<Vec<u8>>)
    ensures
        written(document(*v)) == match r {
            Some(b) => Some(b@),
            None => None,
        },
{
    serde_json::to_vec(v).ok()
}

/// Some texts as a list.
pub open spec fn text_list(v: Seq<Seq<char>>) -> Json {
    Json::List(v.map_values(|s: Seq<char>| Json::Text(s)))
}

/// A kind as the header has it.
pub open spec fn kind_json(k: evtrace_kinds::KindState) -> Json {
    Json::Object(
        nothing().insert(
            "id"@,
            Json::Number(text::decimal(k.id as nat)),
        ).insert("name"@, Json::Text(k.name)).insert("fields"@, text_list(k.fields)),
    )
}

/// Some kinds as the header has them.
pub open spec fn kinds_json(v: Seq<evtrace_kinds::KindState>) -> Json {
    Json::List(v.map_values(|k: evtrace_kinds::KindState| kind_json(k)))
}

/// Who wrote a trace, and the clocks when it began.
pub struct Origin {
    pub role: String,
    pub pid: u32,
    pub mono_raw_ns: u64,
    pub realtime_ns: u64,
}

/// The header of a trace's file.
pub open spec fn header_json(o: Origin, disks: Seq<Seq<char>>, extras: Json) -> Json {
    Json::Object(
        nothing().insert("format"@, Json::Text("EVT1"@)).insert(
            "role"@,
            Json::Text(o.role@),
        ).insert("pid"@, Json::Number(text::decimal(o.pid as nat))).insert(
            "clock"@,
            Json::Text("CLOCK_MONOTONIC_RAW ns"@),
        ).insert(
            "t_mono_raw_at_open"@,
            Json::Number(text::decimal(o.mono_raw_ns as nat)),
        ).insert(
            "t_realtime_at_open"@,
            Json::Number(text::decimal(o.realtime_ns as nat)),
        ).insert("sys_devices"@, text_list(disks)).insert(
            "kinds"@,
            kinds_json(evtrace_kinds::all_kinds()),
        ).insert("extras"@, extras),
    )
}

/// Some names as a list.
fn names_value(v: &Vec<&'static str>) -> (r: serde_json::Value)
    ensures
        document(r) == text_list(evtrace_kinds::names(v@)),
{
    let mut list: Vec<serde_json::Value> = Vec::new();
    let ghost want = evtrace_kinds::names(v@).map_values(|s: Seq<char>| Json::Text(s));
    let mut i: usize = 0;
    assert(documents(list@) =~= want.take(0));
    while i < v.len()
        invariant
            i <= v.len(),
            want == evtrace_kinds::names(v@).map_values(|s: Seq<char>| Json::Text(s)),
            documents(list@) == want.take(i as int),
        decreases v.len() - i,
    {
        let ghost before = documents(list@);
        let x = text_value(v[i]);
        assert(document(x) == want[i as int]);
        list.push(x);
        assert(documents(list@) =~= before.push(want[i as int]));
        assert(documents(list@) =~= want.take(i + 1));
        i = i + 1;
    }
    assert(want.take(want.len() as int) =~= want);
    list_value(list)
}

/// Some texts as a list.
fn texts_value(v: &Vec<String>) -> (r: serde_json::Value)
    ensures
        document(r) == text_list(sys_sample::strings(v@)),
{
    let mut list: Vec<serde_json::Value> = Vec::new();
    let ghost want = sys_sample::strings(v@).map_values(|s: Seq<char>| Json::Text(s));
    let mut i: usize = 0;
    assert(documents(list@) =~= want.take(0));
    while i < v.len()
        invariant
            i <= v.len(),
            want == sys_sample::strings(v@).map_values(|s: Seq<char>| Json::Text(s)),
            documents(list@) == want.take(i as int),
        decreases v.len() - i,
    {
        let ghost before = documents(list@);
        let x = text_value(v[i].as_str());
        assert(document(x) == want[i as int]);
        list.push(x);
        assert(documents(list@) =~= before.push(want[i as int]));
        assert(documents(list@) =~= want.take(i + 1));
        i = i + 1;
    }
    assert(want.take(want.len() as int) =~= want);
    list_value(list)
}

/// A kind as the header has it.
fn kind_value(k: &Kind) -> (r: serde_json::Value)
    ensures
        document(r) == kind_json(k@),
{
    let mut m = new_object();
    put(&mut m, "id", number_value(k.id as u64));
    put(&mut m, "name", text_value(k.name));
    put(&mut m, "fields", names_value(&k.fields));
    object_value(m)
}

/// The kinds as the header has them.
fn kinds_value() -> (r: serde_json::Value)
    ensures
        document(r) == kinds_json(evtrace_kinds::all_kinds()),
{
    let ks = kinds();
    let ghost all = evtrace_kinds::all_kinds();
    let ghost want = all.map_values(|k: evtrace_kinds::KindState| kind_json(k));
    let mut list: Vec<serde_json::Value> = Vec::new();
    let mut i: usize = 0;
    assert(ks.len() == all.len()) by {
        assert(evtrace_kinds::kind_states(ks@).len() == ks@.len());
    }
    assert(documents(list@) =~= want.take(0));
    while i < ks.len()
        invariant
            i <= ks.len(),
            ks.len() == want.len(),
            all == evtrace_kinds::kind_states(ks@),
            want == all.map_values(|k: evtrace_kinds::KindState| kind_json(k)),
            documents(list@) == want.take(i as int),
        decreases ks.len() - i,
    {
        let ghost before = documents(list@);
        let x = kind_value(&ks[i]);
        assert(all[i as int] == ks@[i as int]@);
        assert(document(x) == want[i as int]);
        list.push(x);
        assert(documents(list@) =~= before.push(want[i as int]));
        assert(documents(list@) =~= want.take(i + 1));
        i = i + 1;
    }
    assert(want.take(want.len() as int) =~= want);
    list_value(list)
}

/// The header of a trace's file, as a document. `extras` is what the program wants
/// to be found in it.
pub fn header_value(o: &Origin, disks: &Vec<String>, extras: serde_json::Value) -> (r:
    serde_json::Value)
    ensures
        document(r) == header_json(*o, sys_sample::strings(disks@), document(extras)),
{
    let mut m = new_object();
    put(&mut m, "format", text_value("EVT1"));
    put(&mut m, "role", text_value(o.role.as_str()));
    put(&mut m, "pid", number_value(o.pid as u64));
    put(&mut m, "clock", text_value("CLOCK_MONOTONIC_RAW ns"));
    put(&mut m, "t_mono_raw_at_open", number_value(o.mono_raw_ns));
    put(&mut m, "t_realtime_at_open", number_value(o.realtime_ns));
    put(&mut m, "sys_devices", texts_value(disks));
    put(&mut m, "kinds", kinds_value());
    put(&mut m, "extras", extras);
    object_value(m)
}

/// What was written, or nothing.
pub open spec fn or_empty(w: Option<Seq<u8>>) -> Seq<u8> {
    match w {
        Some(b) => b,
        None => Seq::empty(),
    }
}

/// The bytes that were written, or none.
pub fn bytes_or_empty(w: Option<Vec<u8>>) -> (r: Vec<u8>)
    ensures
        r@ == or_empty(
            match w {
                Some(b) => Some(b@),
                None => None,
            },
        ),
{
    match w {
        Some(b) => b,
        None => Vec::new(),
    }
}

/// The header of a trace's file, as bytes. It is empty where it cannot be written.
pub fn header_bytes(o: &Origin, disks: &Vec<String>, extras: serde_json::Value) -> (r: Vec<u8>)
    ensures
        r@ == or_empty(
            written(header_json(*o, sys_sample::strings(disks@), document(extras))),
        ),
{
    let v = header_value(o, disks, extras);
    bytes_or_empty(to_vec(&v))
}

/// A variable of the environment that goes into the header.
pub open spec fn is_noted(name: Seq<char>) -> bool {
    scan::begins(name, "V41_"@) || scan::begins(name, "GPU_"@) || scan::begins(name, "HIP_"@)
}

/// The variables of the environment that go into the header. The last of a name
/// decides.
pub open spec fn noted(vars: Seq<(String, String)>) -> Map<Seq<char>, Json>
    decreases vars.len(),
{
    if vars.len() == 0 {
        nothing()
    } else {
        let before = noted(vars.drop_last());
        let v = vars.last();
        if is_noted(v.0@) {
            before.insert(v.0@, Json::Text(v.1@))
        } else {
            before
        }
    }
}

/// The arguments of the program and the variables that are noted.
pub open spec fn env_json(argv: Seq<Seq<char>>, vars: Seq<(String, String)>) -> Json {
    Json::Object(
        nothing().insert("argv"@, text_list(argv)).insert(
            "env"@,
            Json::Object(noted(vars)),
        ),
    )
}

/// The arguments of the program, and those variables of its environment that begin
/// with `V41_`, `GPU_` or `HIP_`, for the header.
pub fn env_extras(argv: &Vec<String>, vars: &Vec<(String, String)>) -> (r: serde_json::Value)
    ensures
        document(r) == env_json(sys_sample::strings(argv@), vars@),
{
    let mut env = new_object();
    let mut i: usize = 0;
    assert(vars@.take(0) =~= Seq::<(String, String)>::empty());
    while i < vars.len()
        invariant
            i <= vars.len(),
            entries(env) == noted(vars@.take(i as int)),
        decreases vars.len() - i,
    {
        assert(vars@.take(i + 1).drop_last() =~= vars@.take(i as int));
        let name = chars_of(vars[i].0.as_str());
        if starts_with(name.as_slice(), "V41_") || starts_with(name.as_slice(), "GPU_")
            || starts_with(name.as_slice(), "HIP_") {
            put(&mut env, vars[i].0.as_str(), text_value(vars[i].1.as_str()));
        }
        i = i + 1;
    }
    assert(vars@.take(vars@.len() as int) =~= vars@);
    let mut m = new_object();
    put(&mut m, "argv", texts_value(argv));
    put(&mut m, "env", object_value(env));
    object_value(m)
}

/// The header lists every kind with its fields, whatever else stands in it.
pub proof fn the_header_describes_every_kind(
    o: Origin,
    disks: Seq<Seq<char>>,
    extras: Json,
    k: int,
)
    requires
        0 <= k < evtrace_kinds::all_kinds().len(),
    ensures
        header_json(o, disks, extras)->Object_0.contains_key("kinds"@),
        header_json(o, disks, extras)->Object_0["kinds"@]->List_0[k] == kind_json(
            evtrace_kinds::all_kinds()[k],
        ),
{
    reveal_strlit("kinds");
    reveal_strlit("extras");
    assert("kinds"@.len() == 5 && "extras"@.len() == 6);
}

} // verus!
