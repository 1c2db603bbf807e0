//! The trace of events: kinds, records, files, headers and samples.

use std::time::{SystemTime, UNIX_EPOCH};
use v4flash_het::evt_file::{
    env_u64, file_prefix, heartbeat_due, prune, trace_limits, write_rec, FileAct, Limits, Writer,
};
use v4flash_het::evt_header::{bytes_or_empty, env_extras, header_bytes, header_value, Origin};
use v4flash_het::evtrace::{
    emit, emit_named, enabled, record_of, set_named, small_id, Named, Rec, SmallIds, Trace,
    NOT_MEASURED, QUEUE_CAP,
};
use v4flash_het::evtrace_kinds::{
    b2_req, b2_write, clear_step, current_rows, current_step, hub_phase, hub_step, kinds, meta,
    set_step, sys, Step, MAX_FIELDS,
};
use v4flash_het::sys_sample::{kv_field, nvme_disks, psi_totals, sys_sample, SysTexts};
use v4flash_het::text_order::FileAge;
use v4flash_het::utc::{date_of, trace_file_name, utc_stamp};

fn now_ns() -> u64 {
    SystemTime::now().duration_since(UNIX_EPOCH).unwrap().as_nanos() as u64
}

#[test]
fn utc_stamp_shape() {
    let s = utc_stamp(now_ns());
    assert_eq!(s.len(), 15, "{s}");
    assert_eq!(&s[8..9], "-");
    assert!(s[..4].parse::<u32>().unwrap() >= 2024);
}

#[test]
fn stamps_of_known_days() {
    assert_eq!(utc_stamp(0), "19700101-000000");
    assert_eq!(utc_stamp(951_782_400_000_000_000), "20000229-000000");
    assert_eq!(utc_stamp(1_758_800_000_000_000_000), "20250925-113320");
    let d = date_of(19_782);
    assert_eq!((d.year, d.month, d.day), (2024, 2, 29));
}

fn file_of(n: u32) -> String {
    trace_file_name("t", "20250925-113320", 42, n)
}

#[test]
fn record_round_trip_bytes() {
    let header = b"{}".to_vec();
    let mut b = file_prefix(&header);
    let r = Rec { kind: 7, values: vec![1.5f64.to_bits(), f64::NAN.to_bits(), 1e15f64.to_bits()] };
    let rec = write_rec(&r);
    assert_eq!(rec.len(), 4 + 24);
    b.extend_from_slice(&rec);
    assert_eq!(&b[..4], b"EVT1");
    assert_eq!(u32::from_le_bytes(b[4..8].try_into().unwrap()), 2);
    let p = &b[10..];
    assert_eq!(u16::from_le_bytes([p[0], p[1]]), 7);
    assert_eq!(u16::from_le_bytes([p[2], p[3]]), 3);
    assert_eq!(f64::from_le_bytes(p[4..12].try_into().unwrap()), 1.5);
    assert!(f64::from_le_bytes(p[12..20].try_into().unwrap()).is_nan());
    assert_eq!(f64::from_le_bytes(p[20..28].try_into().unwrap()), 1e15);
    // With two kept, each new file leaves the newest two; the one just opened stays.
    let mut files: Vec<(u64, String)> = vec![(0, file_of(0))];
    for n in 1..4u32 {
        let current = file_of(n);
        files.push((n as u64 * 20, current.clone()));
        let ages: Vec<FileAge> = files
            .iter()
            .map(|(changed, name)| FileAge { changed: *changed, name: name.chars().collect() })
            .collect();
        let gone = prune(&ages, "t", 2, &current);
        files.retain(|(_, name)| !gone.contains(name));
    }
    let names: Vec<String> = files.iter().map(|f| f.1.clone()).collect();
    assert!(names.iter().any(|n| n.ends_with("-003.evt")), "newest pruned: {names:?}");
    let left = names.len();
    assert_eq!(left, 2);
}

#[test]
fn only_this_roles_files_are_pruned() {
    let age = |changed: u64, name: &str| FileAge { changed, name: name.chars().collect() };
    let files = vec![
        age(5, "hub-a.evt"),
        age(1, "hub-b.evt"),
        age(0, "b2-a.evt"),
        age(0, "hub-c.txt"),
        age(9, "hub-d.evt"),
        age(1, "hub-a2.evt"),
    ];
    assert_eq!(prune(&files, "hub", 2, "hub-d.evt"), vec!["hub-a2.evt", "hub-b.evt"]);
    assert!(prune(&files, "hub", 4, "hub-d.evt").is_empty());
    assert_eq!(prune(&files, "hub", 1, "hub-d.evt").len(), 3);
}

#[test]
fn kinds_fit_and_ids_unique() {
    let ks = kinds();
    let mut ids: Vec<u16> = ks.iter().map(|k| k.id).collect();
    ids.sort();
    ids.dedup();
    assert_eq!(ids.len(), ks.len(), "duplicate kind id");
    for k in ks {
        assert!(k.fields.len() <= MAX_FIELDS, "{} has {} fields", k.name, k.fields.len());
    }
}

#[test]
fn kinds_are_as_they_were() {
    let all = kinds();
    let ids: Vec<u16> = all.iter().map(|k| k.id).collect();
    assert_eq!(ids, vec![0, 1, 10, 11, 12, 20, 21, 22, 23]);
    let lens: Vec<usize> = all.iter().map(|k| k.fields.len()).collect();
    assert_eq!(lens, vec![6, 48, 35, 92, 9, 56, 34, 28, 4]);
    assert_eq!(b2_write().fields, vec!["seq", "t3", "t_written", "bytes"]);
    assert_eq!(hub_step().fields[91], "pos_max");
    assert_eq!(b2_req().name, "b2_req");
    for k in &all {
        let mut f = k.fields.clone();
        f.sort();
        f.dedup();
        assert_eq!(f.len(), k.fields.len(), "{} names a field twice", k.name);
    }
}

#[test]
fn small_ids_are_dense() {
    let mut ids = SmallIds::new();
    let a = small_id(&mut ids, 0x1000_0001);
    let b = small_id(&mut ids, 0x1000_0002);
    assert_ne!(a, b);
    assert_eq!(small_id(&mut ids, 0x1000_0001), a);
}

#[test]
fn the_last_small_id_is_shared() {
    let mut ids = SmallIds::new();
    for i in 0..16u64 {
        assert_eq!(small_id(&mut ids, 100 + i), i);
    }
    assert_eq!(small_id(&mut ids, 999), 15);
    assert_eq!(small_id(&mut ids, 998), 15);
    assert_eq!(small_id(&mut ids, 103), 3);
}

#[test]
fn a_step_is_known_while_it_runs() {
    let mut s = Step::new();
    assert_eq!((current_step(&s), current_rows(&s)), (None, None));
    set_step(&mut s, 7, 3);
    assert_eq!((current_step(&s), current_rows(&s)), (Some(7), Some(3)));
    set_step(&mut s, 8, u64::MAX);
    assert_eq!((current_step(&s), current_rows(&s)), (Some(8), None));
    clear_step(&mut s);
    assert_eq!((current_step(&s), current_rows(&s)), (None, None));
}

#[test]
fn records_are_padded_and_cut() {
    assert_eq!(NOT_MEASURED, f64::NAN.to_bits());
    let k = b2_write();
    assert_eq!(record_of(&k, &[1, 2]).values, vec![1, 2, NOT_MEASURED, NOT_MEASURED]);
    assert_eq!(record_of(&k, &[1, 2, 3, 4, 5]).values, vec![1, 2, 3, 4]);
    assert_eq!(record_of(&k, &[]).kind, 23);
}

#[test]
fn a_full_queue_drops_and_counts() {
    let k = meta();
    let mut t = Trace::new();
    emit(&mut t, &k, &[1]);
    assert!(!enabled(&t) && t.next().is_none());
    t.switch(true);
    assert!(enabled(&t));
    for i in 0..QUEUE_CAP as u64 + 2 {
        emit(&mut t, &k, &[i]);
    }
    assert_eq!(t.dropped(), 2);
    assert_eq!(t.next().unwrap().values[0], 0);
    assert_eq!(t.next().unwrap().values[0], 1);
    emit(&mut t, &k, &[77]);
    assert_eq!(t.dropped(), 2);
}

#[test]
fn fields_are_set_by_name() {
    let k = hub_phase();
    let mut v = vec![0u64; 9];
    set_named(&k, &mut v, "queued", 5);
    assert_eq!(v, vec![0, 0, 0, 0, 0, 5, 0, 0, 0]);
    set_named(&k, &mut v, "nothing", 6);
    let mut short = vec![0u64; 2];
    set_named(&k, &mut short, "queued", 5);
    assert_eq!(short, vec![0, 0]);
    let mut t = Trace::new();
    t.switch(true);
    let pairs = vec![
        Named { name: "to".to_string(), value: 1 },
        Named { name: "starved".to_string(), value: 2 },
    ];
    emit_named(&mut t, &k, &pairs);
    let r = t.next().unwrap();
    assert_eq!(r.kind, 12);
    assert_eq!(r.values[2], 1);
    assert_eq!(r.values[8], 2);
    assert_eq!(r.values[0], NOT_MEASURED);
}

#[test]
fn a_full_file_is_followed_by_the_next() {
    let limits = Limits { max_bytes: 1 << 20, keep: 2, sys_ms: 100 };
    let mut w = Writer::new(limits, 2);
    let r = Rec { kind: 1, values: vec![0; 112] };
    let mut opened = 0;
    for _ in 0..1200 {
        for a in w.take(Some(&r)) {
            assert!(matches!(a, FileAct::Append(ref b) if b.len() == 900));
        }
        for a in w.rotate() {
            if let FileAct::Open(n) = a {
                opened = n;
            }
        }
    }
    assert_eq!(opened, 1);
    let acts = w.take(None);
    assert!(matches!(acts[..], [FileAct::Flush]));
    assert!(w.take(None).is_empty());
    let m = Rec { kind: 0, values: w.meta_values(10, 20, 3, 8192) };
    assert_eq!(m.values, vec![10, 20, 1200, 3, 2, 8192]);
    let acts = w.heartbeat(&m);
    assert!(matches!(acts[..], [FileAct::Append(_), FileAct::Flush]));
    assert!(heartbeat_due(1_000_000_000) && !heartbeat_due(999_999_999));
}

#[test]
fn limits_have_defaults() {
    assert_eq!(
        trace_limits(None, None, None),
        Limits { max_bytes: 1024 << 20, keep: 16, sys_ms: 100 }
    );
    assert_eq!(
        trace_limits(Some("2"), Some("0"), Some("x")),
        Limits { max_bytes: 2 << 20, keep: 1, sys_ms: 100 }
    );
    assert_eq!((env_u64(Some("12"), 3), env_u64(Some(""), 3), env_u64(None, 3)), (12, 3, 3));
}

#[test]
fn the_header_is_a_document() {
    let o = Origin {
        role: "hub \"x\"".to_string(),
        pid: 42,
        mono_raw_ns: 5,
        realtime_ns: 1_758_800_000_000_000_000,
    };
    let disks = vec!["nvme0n1".to_string()];
    let mut extra = serde_json::Map::new();
    extra.insert("a".to_string(), serde_json::Value::from(1.5f64));
    let v = header_value(&o, &disks, serde_json::Value::from(extra));
    assert_eq!(v["format"], "EVT1");
    assert_eq!(v["role"], "hub \"x\"");
    assert_eq!(v["pid"], 42);
    assert_eq!(v["clock"], "CLOCK_MONOTONIC_RAW ns");
    assert_eq!(v["t_mono_raw_at_open"], 5);
    assert_eq!(v["t_realtime_at_open"], 1_758_800_000_000_000_000u64);
    assert_eq!(v["sys_devices"][0], "nvme0n1");
    assert_eq!(v["kinds"][8]["id"], 23);
    assert_eq!(v["kinds"][8]["name"], "b2_write");
    assert_eq!(v["kinds"][8]["fields"][3], "bytes");
    assert_eq!(v["extras"]["a"], 1.5);
    let b = header_bytes(&o, &disks, serde_json::Value::Null);
    let back: serde_json::Value = serde_json::from_slice(&b).unwrap();
    assert_eq!(back["kinds"].as_array().unwrap().len(), 9);
    assert!(back["extras"].is_null());
    assert!(b.starts_with(b"{\"clock\":\"CLOCK_MONOTONIC_RAW ns\",\"extras\":null,\"format\":\"EVT1\","));
    assert_eq!(bytes_or_empty(None), Vec::<u8>::new());
    assert_eq!(bytes_or_empty(Some(vec![1])), vec![1]);
}

#[test]
fn some_variables_are_noted() {
    let argv = vec!["prog".to_string(), "-x".to_string()];
    let vars: Vec<(String, String)> = [("V41_A", "1"), ("PATH", "/bin"), ("GPU_B", "2"), ("HIP_C", "3")]
        .iter()
        .map(|(k, v)| (k.to_string(), v.to_string()))
        .collect();
    let v = env_extras(&argv, &vars);
    assert_eq!(v["argv"][1], "-x");
    assert_eq!(v["env"].as_object().unwrap().len(), 3);
    assert_eq!(v["env"]["GPU_B"], "2");
}

const DISKSTATS: &str = "   7       0 loop0 1 2 3 4 5 6 7 8 9 10 11\n\
 259       1 nvme1n1 11 12 13 14 15 16 17 18 19 20 21 0 0\n\
 259       2 nvme1n1p1 1 1 1 1 1 1 1 1 1 1 1\n\
 259       0 nvme0n1 101 102 103 104 105 106 107 108 109 110 111\n";

#[test]
fn disks_are_found() {
    assert_eq!(nvme_disks(DISKSTATS), vec!["nvme0n1", "nvme1n1"]);
    assert_eq!(nvme_disks("1 1 nvme3n1\n1 1 nvme2n1\n1 1 nvme1n1\n1 1 nvme0n1"), vec!["nvme0n1", "nvme1n1", "nvme2n1"]);
    assert!(nvme_disks("1 1 nvmen1\n1 1 nvme1n\n1 1 nvme1n2p3\n1 1\n").is_empty());
}

#[test]
fn pressure_and_fields() {
    let psi = "some avg10=0.00 avg60=0.00 avg300=0.00 total=123\nfull avg10=0.00 total=45\n";
    assert_eq!(psi_totals(psi), (Some("123".to_string()), Some("45".to_string())));
    assert_eq!(psi_totals("some avg10=0.1\n"), (None, None));
    assert_eq!(kv_field("a 1\nMemAvailable:   77 kB\n", "MemAvailable:"), Some("77".to_string()));
    assert_eq!(kv_field("a 1\n", "b"), None);
}

#[test]
fn a_sample_has_every_field() {
    let t = SysTexts {
        diskstats: DISKSTATS.to_string(),
        psi_io: "some total=1\nfull total=2\n".to_string(),
        psi_cpu: "some total=3\n".to_string(),
        psi_mem: "some total=4\nfull total=5\n".to_string(),
        loadavg: "0.52 0.58 0.59 1/1000 77\n".to_string(),
        stat: "cpu 1\nctxt 99\nprocs_running 6\nprocs_blocked 7\n".to_string(),
        meminfo: "MemAvailable: 8 kB\nCached: 9 kB\nDirty: 10 kB\nWriteback: 11 kB\n".to_string(),
        self_io: "rchar: 14\nread_bytes: 12\nwrite_bytes: 13\n".to_string(),
        self_status: "Threads:\t15\nvoluntary_ctxt_switches:\t16\nnonvoluntary_ctxt_switches:\t17\n"
            .to_string(),
    };
    let disks = nvme_disks(DISKSTATS);
    let v = sys_sample(&t, &disks);
    assert_eq!(v.len() + 2, sys().fields.len());
    let n = |i: usize| v[i].clone().unwrap_or_default();
    assert_eq!(n(0), "101");
    assert_eq!(n(1), "103");
    assert_eq!(n(8), "111");
    assert_eq!(n(9), "11");
    assert_eq!(n(17), "21");
    assert!(v[18..27].iter().all(|x| x.is_none()));
    let rest: Vec<String> = (27..46).map(n).collect();
    assert_eq!(
        rest,
        vec![
            "1", "2", "3", "4", "5", "0.52", "6", "7", "8", "9", "10", "11", "12", "13", "14", "15",
            "16", "17", "99"
        ]
    );
}
