use axact::{build_snapshot, HostInfo, Hub, ProcessSample};

fn text(s: &str) -> String {
    s.to_string()
}

#[test]
fn reader_sees_every_publish_in_order() {
    let mut hub = Hub::new();
    let c = hub.subscribe();
    let mut seen = Vec::new();
    for i in 0..5 {
        hub.publish(format!("tick {i}"));
        seen.push(hub.try_next(&c).unwrap());
    }
    assert_eq!(seen, vec!["tick 0", "tick 1", "tick 2", "tick 3", "tick 4"]);
    assert_eq!(hub.try_next(&c), None);
}

#[test]
fn cursor_joined_later_sees_only_later_snapshots() {
    let mut hub = Hub::new();
    hub.publish(text("one"));
    hub.publish(text("two"));
    let c = hub.subscribe();
    assert_eq!(hub.try_next(&c), None);
    hub.publish(text("three"));
    assert_eq!(hub.try_next(&c), Some(text("three")));
}

#[test]
fn two_clients_connecting_at_different_times() {
    let mut hub = Hub::new();
    let early = hub.subscribe();
    hub.publish(text("a"));
    let late = hub.subscribe();
    assert_eq!(hub.try_next(&late), None);
    hub.publish(text("b"));
    assert_eq!(hub.try_next(&late), Some(text("b")));
    assert_eq!(hub.try_next(&late), None);
    assert_eq!(hub.try_next(&early), Some(text("b")));
}

#[test]
fn publish_with_no_subscribers_is_dropped() {
    let mut hub = Hub::new();
    hub.publish(text("lost"));
    let c = hub.subscribe();
    assert_eq!(hub.try_next(&c), None);
}

#[test]
fn reader_that_never_reads_does_not_hold_back_publish() {
    let mut hub = Hub::new();
    let idle = hub.subscribe();
    let busy = hub.subscribe();
    for i in 0..1000 {
        hub.publish(format!("{i}"));
        assert_eq!(hub.try_next(&busy), Some(format!("{i}")));
    }
    assert_eq!(hub.try_next(&idle), Some(text("999")));
    assert_eq!(hub.try_next(&idle), None);
}

#[test]
fn closing_one_cursor_leaves_the_others() {
    let mut hub = Hub::new();
    let a = hub.subscribe();
    let b = hub.subscribe();
    let a_id = a.id;
    hub.publish(text("x"));
    hub.unsubscribe(a);
    hub.publish(text("y"));
    assert_eq!(hub.try_next(&b), Some(text("y")));
    assert_eq!(hub.try_next(&axact::Cursor { id: a_id }), None);
}

#[test]
fn distinct_subscribers_get_distinct_ids() {
    let mut hub = Hub::new();
    let a = hub.subscribe();
    let b = hub.subscribe();
    assert_ne!(a.id, b.id);
}

#[test]
fn connecting_client_receives_mocked_metrics() {
    let host = HostInfo {
        host: "h".to_string(),
        os: "o".to_string(),
        cpu_name: "c".to_string(),
        cores: Some(2),
        mhz: 1,
    };
    let samples = vec![
        ProcessSample {
            pid: 10,
            name: "a".to_string(),
            mem: 100,
            cpu: 0,
            disk_read: 0,
            disk_written: 0,
            status: "Run".to_string(),
        },
        ProcessSample {
            pid: 11,
            name: "b".to_string(),
            mem: 0,
            cpu: 0,
            disk_read: 0,
            disk_written: 0,
            status: "Run".to_string(),
        },
    ];
    let mut hub = Hub::new();
    let client = hub.subscribe();
    let snap = build_snapshot(host, vec![1000, 2000], 1000, 400, &samples, 1, None, Vec::new());
    hub.publish(snap.to_msg());
    let msg = hub.try_next(&client).unwrap();
    let v: serde_json::Value = serde_json::from_str(&msg).unwrap();
    let cpu: Vec<f64> = v["cpu"].as_array().unwrap().iter().map(|c| c.as_f64().unwrap()).collect();
    assert_eq!(cpu, vec![10.0, 20.0]);
    let prc = v["prc"].as_array().unwrap();
    assert_eq!(prc.len(), 1);
    assert_eq!(prc[0]["name"], "a");
    assert_eq!(v["mem"]["total"].as_u64(), Some(1000));
}
