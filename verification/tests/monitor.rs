use dnsconfigd::addr::Ipv4;
use dnsconfigd::connection::ConnectionType;
use dnsconfigd::monitor::{
    build_connection, extract_ids, path_trailing_id, reverse_u32_order, BusValue, Monitor,
    MonitorEvent, MonitorState,
};

#[test]
fn test_reverse_u32_order() {
    let input = 0xAABBCCDD;
    assert_eq!(reverse_u32_order(input), 0xDDCCBBAA);
}

#[test]
fn timeout_values() {
    assert_eq!(MonitorState::new(), MonitorState::Watching);
    assert_eq!(MonitorState::Watching.next_timeout(), 1000);
    assert_eq!(MonitorState::Debouncing.next_timeout(), 20);
}

fn path(n: u32) -> BusValue {
    BusValue::Str(format!("/org/freedesktop/NetworkManager/ActiveConnection/{}", n))
}

fn active_connections_msg(ids: Vec<u32>) -> MonitorEvent {
    let inner: Vec<BusValue> = ids.into_iter().map(path).collect();
    let payload = BusValue::List(vec![BusValue::List(inner)]);
    MonitorEvent::Message(Some(vec![("ActiveConnections".to_string(), payload)]))
}

#[test]
fn burst_commits_last_batch_once() {
    let mut m = Monitor::new();
    assert_eq!(m.step(active_connections_msg(vec![1, 2])), None);
    assert_eq!(m.state, MonitorState::Debouncing);
    assert_eq!(m.step(active_connections_msg(vec![2, 3])), None);
    assert_eq!(m.state, MonitorState::Debouncing);
    assert_eq!(m.step(active_connections_msg(vec![4, 7])), None);
    assert_eq!(m.state, MonitorState::Debouncing);
    // quiet window: the burst settles and only the last ids commit
    assert_eq!(m.step(MonitorEvent::Timeout), Some(vec![4, 7]));
    assert_eq!(m.state, MonitorState::Watching);
    // a further timeout commits nothing
    assert_eq!(m.step(MonitorEvent::Timeout), None);
    assert_eq!(m.state, MonitorState::Watching);
}

#[test]
fn unrelated_message_resets_to_watching() {
    let mut m = Monitor::new();
    assert_eq!(m.step(active_connections_msg(vec![5])), None);
    assert_eq!(m.state, MonitorState::Debouncing);
    let other = MonitorEvent::Message(Some(vec![(
        "Connectivity".to_string(),
        BusValue::Other,
    )]));
    assert_eq!(m.step(other), None);
    assert_eq!(m.state, MonitorState::Watching);
    assert_eq!(m.step(MonitorEvent::Timeout), None);
}

#[test]
fn unreadable_payload_commits_nothing() {
    let mut m = Monitor::new();
    let msg = MonitorEvent::Message(Some(vec![(
        "ActiveConnections".to_string(),
        BusValue::Other,
    )]));
    assert_eq!(m.step(msg), None);
    assert_eq!(m.state, MonitorState::Debouncing);
    assert_eq!(m.step(MonitorEvent::Timeout), None);
    assert_eq!(m.state, MonitorState::Debouncing);
}

#[test]
fn extract_drops_malformed_entries() {
    let payload = BusValue::List(vec![
        BusValue::List(vec![
            path(3),
            BusValue::Str("not-a-path".to_string()),
            BusValue::Str("/x/y/".to_string()),
            BusValue::Other,
            path(9),
        ]),
        BusValue::Str("/stray/path/5".to_string()),
        BusValue::Other,
        BusValue::List(vec![]),
    ]);
    assert_eq!(extract_ids(&payload), vec![3, 9]);
}

#[test]
fn trailing_id_parsing() {
    assert_eq!(path_trailing_id("/a/b/12"), Some(12));
    assert_eq!(path_trailing_id("12"), Some(12));
    assert_eq!(path_trailing_id("/a/b/"), None);
    assert_eq!(path_trailing_id("/a/b/x1"), None);
    assert_eq!(path_trailing_id("/a/b/4294967296"), None);
}

#[test]
fn collector_normalization() {
    // 10.10.0.99 arrives as the byte-reversed word 0x63000A0A
    let ns: Vec<u32> = vec![0x63000A0A];
    let addrs: Vec<(u32, u32)> = vec![(0x0500000A, 24)];
    let c = build_connection(
        "wifi home".to_string(),
        "802-11-wireless",
        true,
        vec!["a.example".to_string()],
        vec!["b.example".to_string()],
        &ns,
        &addrs,
    );
    assert_eq!(c.id, "wifi home");
    assert_eq!(c.con_type, ConnectionType::WiFi);
    assert!(c.is_default);
    assert_eq!(c.domains, vec!["a.example", "b.example"]);
    assert_eq!(c.nameservers, vec![Ipv4::new(10, 10, 0, 99)]);
    assert_eq!(c.addresses, vec![(Ipv4::new(10, 0, 0, 5), 24)]);
}
