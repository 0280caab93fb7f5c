use dnsconfigd::addr::Ipv4;
use dnsconfigd::connection::{Connection, ConnectionType};
use dnsconfigd::zones::{get_forward_zones, get_reverse_zones, ipv4_to_reverse_zone};

fn conn(
    id: &str,
    con_type: ConnectionType,
    addresses: Vec<(Ipv4, u8)>,
    nameservers: Vec<Ipv4>,
    domains: Vec<&str>,
) -> Connection {
    Connection {
        id: id.to_string(),
        con_type,
        is_default: false,
        addresses,
        nameservers,
        domains: domains.into_iter().map(|d| d.to_string()).collect(),
    }
}

#[test]
fn connections_reverse_zone_class_a() {
    let addr = Ipv4::new(10, 20, 30, 40);
    assert_eq!(ipv4_to_reverse_zone(&addr), Some("10.in-addr.arpa"))
}

#[test]
fn connections_reverse_zone_class_c_none() {
    let addr = Ipv4::new(192, 120, 30, 40);
    assert_eq!(ipv4_to_reverse_zone(&addr), None)
}

#[test]
fn main_reverse_zone_class_a() {
    let addr = Ipv4::new(10, 20, 30, 40);
    assert_eq!(ipv4_to_reverse_zone(&addr), Some("10.in-addr.arpa"))
}

#[test]
fn main_reverse_zone_class_c_none() {
    let addr = Ipv4::new(192, 120, 30, 40);
    assert_eq!(ipv4_to_reverse_zone(&addr), None)
}

#[test]
fn reverse_zone_class_b_scoped() {
    assert_eq!(
        ipv4_to_reverse_zone(&Ipv4::new(172, 20, 1, 2)),
        Some("20.172.in-addr.arpa")
    );
    assert_eq!(ipv4_to_reverse_zone(&Ipv4::new(172, 5, 1, 2)), None);
    assert_eq!(ipv4_to_reverse_zone(&Ipv4::new(172, 32, 1, 2)), None);
}

#[test]
fn reverse_zone_class_c() {
    assert_eq!(
        ipv4_to_reverse_zone(&Ipv4::new(192, 168, 1, 1)),
        Some("168.192.in-addr.arpa")
    );
}

#[test]
fn forward_priority_example() {
    let wifi_ns = vec![Ipv4::new(10, 1, 1, 1)];
    let eth_ns = vec![Ipv4::new(10, 2, 2, 2)];
    let cs = vec![
        conn("wifi", ConnectionType::WiFi, vec![], wifi_ns, vec!["corp.example"]),
        conn("eth", ConnectionType::Ethernet, vec![], eth_ns.clone(), vec!["corp.example"]),
    ];
    let zones = get_forward_zones(&cs);
    assert_eq!(zones.len(), 1);
    assert_eq!(zones[0].domain, "corp.example");
    assert_eq!(zones[0].nameservers, eth_ns);
    assert_eq!(zones[0].con_type, ConnectionType::Ethernet);
}

#[test]
fn forward_tie_first_wins() {
    let first_ns = vec![Ipv4::new(10, 1, 1, 1)];
    let second_ns = vec![Ipv4::new(10, 2, 2, 2)];
    let cs = vec![
        conn("a", ConnectionType::VPN, vec![], first_ns.clone(), vec!["corp.example"]),
        conn("b", ConnectionType::VPN, vec![], second_ns, vec!["corp.example"]),
    ];
    let zones = get_forward_zones(&cs);
    assert_eq!(zones.len(), 1);
    assert_eq!(zones[0].nameservers, first_ns);
}

#[test]
fn forward_first_seen_order() {
    let ns = vec![Ipv4::new(10, 1, 1, 1)];
    let cs = vec![
        conn("a", ConnectionType::WiFi, vec![], ns.clone(), vec!["b.example", "a.example"]),
        conn("b", ConnectionType::Ethernet, vec![], ns, vec!["a.example"]),
    ];
    let zones = get_forward_zones(&cs);
    assert_eq!(zones.len(), 2);
    assert_eq!(zones[0].domain, "b.example");
    assert_eq!(zones[1].domain, "a.example");
    assert_eq!(zones[0].con_type, ConnectionType::WiFi);
    assert_eq!(zones[1].con_type, ConnectionType::Ethernet);
}

#[test]
fn forward_empty_domains_no_zone() {
    let cs = vec![conn("a", ConnectionType::Ethernet, vec![], vec![Ipv4::new(10, 0, 0, 1)], vec![])];
    assert_eq!(get_forward_zones(&cs).len(), 0);
}

#[test]
fn reverse_priority_and_dedup() {
    let wifi_ns = vec![Ipv4::new(10, 1, 1, 1)];
    let eth_ns = vec![Ipv4::new(10, 2, 2, 2)];
    let cs = vec![
        conn("wifi", ConnectionType::WiFi, vec![(Ipv4::new(10, 5, 5, 5), 24)], wifi_ns, vec![]),
        conn("eth", ConnectionType::Ethernet, vec![(Ipv4::new(10, 6, 6, 6), 16)], eth_ns.clone(), vec![]),
    ];
    let zones = get_reverse_zones(&cs);
    assert_eq!(zones.len(), 1);
    assert_eq!(zones[0].zone, "10.in-addr.arpa");
    assert_eq!(zones[0].nameservers, eth_ns);
    assert_eq!(zones[0].con_type, ConnectionType::Ethernet);
}

#[test]
fn reverse_public_address_no_zone() {
    let cs = vec![conn(
        "pub",
        ConnectionType::Ethernet,
        vec![(Ipv4::new(8, 8, 8, 8), 24), (Ipv4::new(192, 120, 30, 40), 16)],
        vec![Ipv4::new(10, 0, 0, 1)],
        vec![],
    )];
    assert_eq!(get_reverse_zones(&cs).len(), 0);
}

#[test]
fn derive_twice_same_result() {
    let cs = vec![
        conn(
            "a",
            ConnectionType::WiFi,
            vec![(Ipv4::new(10, 5, 5, 5), 24), (Ipv4::new(192, 168, 0, 1), 24)],
            vec![Ipv4::new(10, 1, 1, 1)],
            vec!["x.example", "y.example"],
        ),
        conn(
            "b",
            ConnectionType::VPN,
            vec![(Ipv4::new(10, 6, 6, 6), 24)],
            vec![Ipv4::new(10, 2, 2, 2)],
            vec!["x.example"],
        ),
    ];
    let f1 = get_forward_zones(&cs);
    let f2 = get_forward_zones(&cs);
    assert_eq!(f1.len(), f2.len());
    for (a, b) in f1.iter().zip(f2.iter()) {
        assert_eq!(a.domain, b.domain);
        assert_eq!(a.nameservers, b.nameservers);
        assert_eq!(a.con_type, b.con_type);
    }
    let r1 = get_reverse_zones(&cs);
    let r2 = get_reverse_zones(&cs);
    assert_eq!(r1.len(), r2.len());
    for (a, b) in r1.iter().zip(r2.iter()) {
        assert_eq!(a.zone, b.zone);
        assert_eq!(a.nameservers, b.nameservers);
        assert_eq!(a.con_type, b.con_type);
    }
    assert_eq!(r1.len(), 2);
    assert_eq!(f1.len(), 2);
}
