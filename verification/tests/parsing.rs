use dnsconfigd::addr::{parse_address, parse_ipv4, Ipv4};
use dnsconfigd::connection::{parse_connections, ConnectionType, RawConnection};
use dnsconfigd::text::{parse_decimal, split_str, str_contains};

#[test]
fn address_with_prefix_parses() {
    assert_eq!(
        parse_address("10.10.0.10/24"),
        Some((Ipv4::new(10, 10, 0, 10), 24))
    );
}

#[test]
fn address_without_prefix_dropped() {
    assert_eq!(parse_address("10.10.0.10"), None);
}

#[test]
fn address_bad_ip_dropped() {
    assert_eq!(parse_address("not-an-ip/24"), None);
}

#[test]
fn address_edge_cases() {
    assert_eq!(parse_address("10.0.0.1/+24"), Some((Ipv4::new(10, 0, 0, 1), 24)));
    assert_eq!(parse_address("10.0.0.1/256"), None);
    assert_eq!(parse_address("10.0.0.1/"), None);
    assert_eq!(parse_address("10.0.0.1/24/7"), Some((Ipv4::new(10, 0, 0, 1), 24)));
}

#[test]
fn ipv4_canonical_only() {
    assert_eq!(parse_ipv4("10.10.0.99"), Some(Ipv4::new(10, 10, 0, 99)));
    assert_eq!(parse_ipv4("0.0.0.0"), Some(Ipv4::new(0, 0, 0, 0)));
    assert_eq!(parse_ipv4("255.255.255.255"), Some(Ipv4::new(255, 255, 255, 255)));
    assert_eq!(parse_ipv4("10.010.0.1"), None);
    assert_eq!(parse_ipv4("256.0.0.1"), None);
    assert_eq!(parse_ipv4("10.0.1"), None);
    assert_eq!(parse_ipv4("10.0.0.1.2"), None);
    assert_eq!(parse_ipv4(""), None);
}

#[test]
fn decimal_parsing() {
    assert_eq!(parse_decimal("123"), Some(123));
    assert_eq!(parse_decimal("0"), Some(0));
    assert_eq!(parse_decimal(""), None);
    assert_eq!(parse_decimal("12a"), None);
    assert_eq!(parse_decimal("18446744073709551615"), Some(u64::MAX));
    assert_eq!(parse_decimal("18446744073709551616"), None);
}

#[test]
fn splitting_and_search() {
    assert_eq!(split_str("a/b/c", '/'), vec!["a", "b", "c"]);
    assert_eq!(split_str("", '/'), vec![""]);
    assert_eq!(split_str("/x/", '/'), vec!["", "x", ""]);
    assert!(str_contains("802-3-ethernet", "ethernet"));
    assert!(!str_contains("802-11-wireless", "ethernet"));
    assert!(str_contains("anything", ""));
}

#[test]
fn splitting_multibyte_chars() {
    assert_eq!(split_str("\u{e1}/b", '/'), vec!["\u{e1}", "b"]);
    assert!(str_contains("virtual-\u{e9}thernet-ethernet", "ethernet"));
}

#[test]
fn type_classification() {
    assert_eq!(ConnectionType::from_str("802-3-ethernet"), ConnectionType::Ethernet);
    assert_eq!(ConnectionType::from_str("802-11-wireless"), ConnectionType::WiFi);
    assert_eq!(ConnectionType::from_str("vpn"), ConnectionType::VPN);
    assert_eq!(ConnectionType::from_str("tun"), ConnectionType::Other);
    // first match wins: a string holding both is classified by the
    // earlier check
    assert_eq!(
        ConnectionType::from_str("ethernet-vpn"),
        ConnectionType::Ethernet
    );
}

#[test]
fn rank_order() {
    assert!(ConnectionType::Ethernet.rank() < ConnectionType::VPN.rank());
    assert!(ConnectionType::VPN.rank() < ConnectionType::WiFi.rank());
    assert!(ConnectionType::WiFi.rank() < ConnectionType::Other.rank());
}

fn raw(
    id: &str,
    con_type: &str,
    is_default: bool,
    addresses: Vec<&str>,
    nameservers: Vec<&str>,
    domains: Vec<&str>,
) -> RawConnection {
    RawConnection {
        id: id.to_string(),
        con_type: con_type.to_string(),
        is_default,
        addresses: addresses.into_iter().map(|a| a.to_string()).collect(),
        nameservers: nameservers.into_iter().map(|a| a.to_string()).collect(),
        domains: domains.into_iter().map(|a| a.to_string()).collect(),
    }
}

#[test]
fn normalize_record() {
    let rs = vec![raw(
        "enp0s25",
        "802-3-ethernet",
        true,
        vec!["10.10.0.10/24", "10.10.0.10", "not-an-ip/24"],
        vec!["10.10.0.99", "bogus", "10.10.0.88"],
        vec!["afk.example.com", "example.com"],
    )];
    let cs = parse_connections(&rs);
    assert_eq!(cs.len(), 1);
    let c = &cs[0];
    assert_eq!(c.id, "enp0s25");
    assert_eq!(c.con_type, ConnectionType::Ethernet);
    assert!(c.is_default);
    assert_eq!(c.addresses, vec![(Ipv4::new(10, 10, 0, 10), 24)]);
    assert_eq!(
        c.nameservers,
        vec![Ipv4::new(10, 10, 0, 99), Ipv4::new(10, 10, 0, 88)]
    );
    assert_eq!(c.domains, vec!["afk.example.com", "example.com"]);
}

#[test]
fn normalize_keeps_empty_lists() {
    let rs = vec![raw("tun0", "tun", false, vec!["bad"], vec!["bad"], vec![])];
    let cs = parse_connections(&rs);
    assert_eq!(cs.len(), 1);
    assert_eq!(cs[0].con_type, ConnectionType::Other);
    assert!(cs[0].addresses.is_empty());
    assert!(cs[0].nameservers.is_empty());
    assert!(cs[0].domains.is_empty());
}

#[test]
fn default_connection_is_empty() {
    let c = dnsconfigd::connection::Connection::default();
    assert_eq!(c.id, "");
    assert_eq!(c.con_type, ConnectionType::Other);
    assert!(!c.is_default);
    assert!(c.addresses.is_empty());
    assert!(c.nameservers.is_empty());
    assert!(c.domains.is_empty());
}
