use axact::{build_processes, build_snapshot, DiskUsage, HostInfo, NetIface, ProcessSample, Processes, Prcs, SysInfo};

fn sample(pid: u32, name: &str, mem: u64) -> ProcessSample {
    ProcessSample {
        pid,
        name: name.to_string(),
        mem,
        cpu: 150,
        disk_read: 7,
        disk_written: 9,
        status: "Runnable".to_string(),
    }
}

fn host() -> HostInfo {
    HostInfo {
        host: "box".to_string(),
        os: "Linux 6".to_string(),
        cpu_name: "Cpu X".to_string(),
        cores: Some(4),
        mhz: 2400,
    }
}

fn snapshot_of(samples: &Vec<ProcessSample>) -> SysInfo {
    build_snapshot(host(), vec![1000, 2000], 1000, 400, samples, 42, None, Vec::new())
}

#[test]
fn zero_memory_processes_are_dropped() {
    let raw = vec![sample(1, "a", 100), sample(2, "b", 0), sample(3, "c", 5)];
    let p = build_processes(&raw, 0);
    let names: Vec<&str> = p.0.iter().map(|r| r.name.as_str()).collect();
    assert_eq!(names, vec!["a", "c"]);
}

#[test]
fn processes_are_ordered_by_memory_largest_first() {
    let raw = vec![sample(1, "small", 10), sample(2, "big", 1000), sample(3, "mid", 500)];
    let p = build_processes(&raw, 0);
    let mems: Vec<u64> = p.0.iter().map(|r| r.mem).collect();
    assert_eq!(mems, vec![1000, 500, 10]);
}

#[test]
fn equal_memory_keeps_sample_order() {
    let raw = vec![sample(1, "x", 50), sample(2, "y", 70), sample(3, "z", 50), sample(4, "w", 50)];
    let p = build_processes(&raw, 0);
    let names: Vec<&str> = p.0.iter().map(|r| r.name.as_str()).collect();
    assert_eq!(names, vec!["y", "x", "z", "w"]);
}

#[test]
fn own_process_is_marked_by_pid() {
    let raw = vec![sample(7, "axact", 10), sample(8, "axact", 20)];
    let p = build_processes(&raw, 7);
    assert_eq!(p.0.len(), 2);
    assert_eq!(p.0[0].mem, 20);
    assert!(!p.0[0].is_this_process);
    assert!(p.0[1].is_this_process);
}

#[test]
fn empty_sample_list_gives_empty_process_list() {
    let p = build_processes(&Vec::new(), 1);
    assert!(p.0.is_empty());
}

#[test]
fn snapshot_keeps_what_was_sampled() {
    let raw = vec![sample(1, "a", 100)];
    let s = snapshot_of(&raw);
    assert_eq!(s.cpu, vec![1000, 2000]);
    assert_eq!(s.mem_total, 1000);
    assert_eq!(s.mem_used, 400);
    assert_eq!(s.general.host, "box");
    assert_eq!(s.processes.0.len(), 1);
}

#[test]
fn processes_from_vec() {
    let v = vec![Prcs {
        name: "p".to_string(),
        mem: 3,
        cpu: 0,
        disk_read: 0,
        disk_written: 0,
        status: "Sleeping".to_string(),
        is_this_process: false,
    }];
    let p = Processes::from(v);
    assert_eq!(p.0.len(), 1);
    assert_eq!(p.0[0].name, "p");
}

#[test]
fn prcs_text_form() {
    let p = Prcs {
        name: "db".to_string(),
        mem: 2048,
        cpu: 1205,
        disk_read: 0,
        disk_written: 0,
        status: "Sleeping".to_string(),
        is_this_process: false,
    };
    assert_eq!(p.to_string(), "name: db, mem: 2048, cpu: 12.05");
}

#[test]
fn prcs_text_form_drops_trailing_zeros() {
    let mut p = Prcs {
        name: "a".to_string(),
        mem: 100,
        cpu: 150,
        disk_read: 0,
        disk_written: 0,
        status: "Run".to_string(),
        is_this_process: false,
    };
    assert_eq!(p.to_string(), "name: a, mem: 100, cpu: 1.5");
    p.cpu = 1200;
    assert_eq!(p.to_string(), "name: a, mem: 100, cpu: 12");
    p.cpu = 0;
    assert_eq!(p.to_string(), "name: a, mem: 100, cpu: 0");
    p.cpu = 7;
    assert_eq!(p.to_string(), "name: a, mem: 100, cpu: 0.07");
}

#[test]
fn missing_host_facts_get_placeholders() {
    assert_eq!(axact::host_or_unknown(None), "Unknown host");
    assert_eq!(axact::host_or_unknown(Some("box".to_string())), "box");
    assert_eq!(axact::os_or_unknown(None), "Unknown OS");
    assert_eq!(axact::os_or_unknown(Some("Linux".to_string())), "Linux");
}

#[test]
fn control_characters_are_escaped_in_hex() {
    let raw = vec![sample(1, "a\u{1}b\u{1f}\u{8}\u{c}\r\t", 100)];
    let m = snapshot_of(&raw).to_msg();
    assert!(m.contains("\"name\":\"a\\u0001b\\u001f\\b\\f\\r\\t\""));
}

#[test]
fn message_of_small_snapshot_is_exact() {
    let raw = vec![sample(42, "a", 100)];
    let mut s = snapshot_of(&raw);
    s.disk = Some(DiskUsage { name: "sda".to_string(), total: 500, used: 20 });
    s.net = vec![NetIface { name: "eth0".to_string(), received: 1, transmitted: 2 }];
    let expected = "{\"general\":{\"host\":\"box\",\"os\":\"Linux 6\",\"cpu\":{\"name\":\"Cpu X\",\"cores\":4,\"mhz\":2400}},\
         \"cpu\":[10.00,20.00],\"mem\":{\"total\":1000,\"used\":400},\
         \"prc\":[{\"name\":\"a\",\"mem\":100,\"cpu\":1.50,\"disk_read\":7,\"disk_written\":9,\
         \"status\":\"Runnable\",\"is_this_process\":true}],\
         \"hdd\":{\"name\":\"sda\",\"total\":500,\"used\":20},\
         \"net\":[{\"name\":\"eth0\",\"received\":1,\"transmitted\":2}]}";
    assert_eq!(s.to_msg(), expected);
}

#[test]
fn message_with_nothing_optional() {
    let mut s = snapshot_of(&Vec::new());
    s.general.cores = None;
    s.cpu = Vec::new();
    let expected = "{\"general\":{\"host\":\"box\",\"os\":\"Linux 6\",\"cpu\":{\"name\":\"Cpu X\",\"cores\":null,\"mhz\":2400}},\
         \"cpu\":[],\"mem\":{\"total\":1000,\"used\":400},\"prc\":[],\"hdd\":null,\"net\":[]}";
    assert_eq!(s.to_msg(), expected);
}

#[test]
fn names_are_escaped_in_the_message() {
    let raw = vec![sample(1, "we\"ird\\name\n", 100)];
    let s = snapshot_of(&raw);
    let m = s.to_msg();
    assert!(m.contains("\"name\":\"we\\\"ird\\\\name\\n\""));
    let v: serde_json::Value = serde_json::from_str(&m).unwrap();
    assert_eq!(v["prc"][0]["name"], "we\"ird\\name\n");
}

#[test]
fn large_numbers_are_written_in_full() {
    let raw = vec![sample(1, "a", u64::MAX)];
    let mut s = snapshot_of(&raw);
    s.mem_total = u64::MAX;
    s.mem_used = 0;
    s.cpu = vec![0, 5, 99, 10000, u32::MAX];
    let v: serde_json::Value = serde_json::from_str(&s.to_msg()).unwrap();
    assert_eq!(v["mem"]["total"].as_u64(), Some(u64::MAX));
    assert_eq!(v["mem"]["used"].as_u64(), Some(0));
    assert_eq!(v["prc"][0]["mem"].as_u64(), Some(u64::MAX));
    let m = s.to_msg();
    assert!(m.contains("\"cpu\":[0.00,0.05,0.99,100.00,42949672.95]"));
}

#[test]
fn decoded_message_matches_snapshot_fields() {
    let raw = vec![sample(3, "web", 300), sample(4, "db", 900), sample(5, "idle", 0)];
    let mut s = build_snapshot(host(), vec![1250, 0, 9999], 8000, 3000, &raw, 4, None, Vec::new());
    s.disk = Some(DiskUsage { name: "nvme0".to_string(), total: 10, used: 4 });
    s.net = vec![
        NetIface { name: "lo".to_string(), received: 5, transmitted: 6 },
        NetIface { name: "wlan0".to_string(), received: 7, transmitted: 8 },
    ];
    let v: serde_json::Value = serde_json::from_str(&s.to_msg()).unwrap();
    assert_eq!(v["general"]["host"], "box");
    assert_eq!(v["general"]["os"], "Linux 6");
    assert_eq!(v["general"]["cpu"]["name"], "Cpu X");
    assert_eq!(v["general"]["cpu"]["cores"].as_u64(), Some(4));
    assert_eq!(v["general"]["cpu"]["mhz"].as_u64(), Some(2400));
    let cpu: Vec<f64> = v["cpu"].as_array().unwrap().iter().map(|c| c.as_f64().unwrap()).collect();
    assert_eq!(cpu, vec![12.5, 0.0, 99.99]);
    assert_eq!(v["mem"]["used"].as_u64(), Some(3000));
    let prc = v["prc"].as_array().unwrap();
    assert_eq!(prc.len(), 2);
    assert_eq!(prc[0]["name"], "db");
    assert_eq!(prc[0]["mem"].as_u64(), Some(900));
    assert_eq!(prc[0]["is_this_process"], true);
    assert_eq!(prc[1]["name"], "web");
    assert_eq!(prc[1]["is_this_process"], false);
    assert_eq!(prc[1]["disk_read"].as_u64(), Some(7));
    assert_eq!(prc[1]["disk_written"].as_u64(), Some(9));
    assert_eq!(prc[1]["status"], "Runnable");
    assert_eq!(prc[1]["cpu"].as_f64(), Some(1.5));
    assert_eq!(v["hdd"]["name"], "nvme0");
    assert_eq!(v["hdd"]["total"].as_u64(), Some(10));
    assert_eq!(v["hdd"]["used"].as_u64(), Some(4));
    assert_eq!(v["net"][1]["name"], "wlan0");
    assert_eq!(v["net"][1]["received"].as_u64(), Some(7));
    assert_eq!(v["net"][1]["transmitted"].as_u64(), Some(8));
}

#[test]
fn sampling_interval_never_below_minimum() {
    assert_eq!(axact::sampling_interval_ms(50, 200), 200);
    assert_eq!(axact::sampling_interval_ms(1000, 200), 1000);
    assert_eq!(axact::sampling_interval_ms(200, 200), 200);
}

#[test]
fn disk_usage_from_free_space() {
    let d = axact::disk_usage("sda".to_string(), 100, 30);
    assert_eq!(d.used, 70);
    let odd = axact::disk_usage("sdb".to_string(), 10, 30);
    assert_eq!(odd.used, 0);
}
