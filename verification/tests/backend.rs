use dnsconfigd::addr::Ipv4;
use dnsconfigd::backend::{
    apply_plan, delete_rule_command, fallback_rule_command, forward_rule_command, parse_rule_ids,
    removal_commands, reverse_rule_command, rules_query_command, ResponseAccumulator,
};
use dnsconfigd::connection::ConnectionType;
use dnsconfigd::probe::{do_bit_result, edns0_result, TestResult};
use dnsconfigd::zones::{ForwardZone, ReverseZone};

fn fwd(domain: &str, ns: Vec<Ipv4>) -> ForwardZone {
    ForwardZone { domain: domain.to_string(), nameservers: ns, con_type: ConnectionType::Ethernet }
}

fn rev(zone: &'static str, ns: Vec<Ipv4>) -> ReverseZone {
    ReverseZone { zone, nameservers: ns, con_type: ConnectionType::Ethernet }
}

#[test]
fn forward_command_exact() {
    let z = fwd("corp.example", vec![Ipv4::new(10, 10, 0, 99), Ipv4::new(10, 10, 0, 88)]);
    assert_eq!(
        forward_rule_command(&z),
        "policy.add(policy.suffix(policy.STUB('10.10.0.99'), {todname('corp.example')}))\n"
    );
}

#[test]
fn reverse_command_exact() {
    let z = rev("10.in-addr.arpa", vec![Ipv4::new(10, 10, 0, 99)]);
    assert_eq!(
        reverse_rule_command(&z),
        "policy.add(policy.suffix(policy.STUB('10.10.0.99'), {todname('10.in-addr.arpa')}))\n"
    );
}

#[test]
fn fixed_commands_exact() {
    assert_eq!(
        fallback_rule_command(),
        "policy.add(policy.all(policy.TLS_FORWARD({{'1.1.1.1', hostname='cloudflare-dns.com', ca_file='/etc/pki/tls/certs/ca-bundle.crt'}})))\n"
    );
    assert_eq!(rules_query_command(), "policy.rules\n");
    assert_eq!(delete_rule_command("12"), "policy.del(12)\n");
}

#[test]
fn apply_plan_order() {
    let f = vec![fwd("corp.example", vec![Ipv4::new(10, 0, 0, 1)])];
    let r = vec![rev("10.in-addr.arpa", vec![Ipv4::new(10, 0, 0, 2)])];
    let cmds = apply_plan(&f, &r);
    assert_eq!(cmds.len(), 3);
    assert_eq!(
        cmds[0],
        "policy.add(policy.suffix(policy.STUB('10.0.0.1'), {todname('corp.example')}))\n"
    );
    assert_eq!(
        cmds[1],
        "policy.add(policy.suffix(policy.STUB('10.0.0.2'), {todname('10.in-addr.arpa')}))\n"
    );
    assert!(cmds[2].starts_with("policy.add(policy.all(policy.TLS_FORWARD("));
}

#[test]
fn listing_ids_in_order() {
    let response = "[rule]\n[id] => 3\nfoo\n[id] => 7\nbar [id] => 9 baz\n> \n";
    assert_eq!(parse_rule_ids(response), vec!["3", "7", "9"]);
}

#[test]
fn listing_ignores_markers_without_digits() {
    let response = "[id] => x\n[id] => \n[id] =>5\nnothing\n";
    assert_eq!(parse_rule_ids(response), Vec::<String>::new());
}

#[test]
fn listing_takes_first_match_per_line() {
    let response = "x [id] => 4 [id] => 9\n";
    assert_eq!(parse_rule_ids(response), vec!["4"]);
}

#[test]
fn remove_order_is_reversed() {
    let ids = vec!["3".to_string(), "7".to_string(), "9".to_string()];
    let cmds = removal_commands(&ids);
    assert_eq!(
        cmds,
        vec!["policy.del(9)\n", "policy.del(7)\n", "policy.del(3)\n"]
    );
}

#[test]
fn response_framing() {
    let mut acc = ResponseAccumulator::new();
    assert!(!acc.done);
    acc.push_line("[rule]\n");
    assert!(!acc.done);
    acc.push_line("[id] => 3\n");
    assert!(!acc.done);
    acc.push_line("\n");
    assert!(acc.done);
    assert_eq!(acc.text, "[rule]\n[id] => 3\n\n");

    let mut acc2 = ResponseAccumulator::new();
    acc2.push_line("> \n");
    assert!(acc2.done);
}

#[test]
fn probe_classification() {
    assert!(matches!(edns0_result(Some(0)), TestResult::Success));
    assert!(matches!(edns0_result(Some(1)), TestResult::Fail("Wrong EDNS option")));
    assert!(matches!(edns0_result(None), TestResult::Fail("No EDNS option")));
    assert!(matches!(do_bit_result(Some(true)), TestResult::Success));
    assert!(matches!(do_bit_result(Some(false)), TestResult::Fail("DO not set")));
    assert!(matches!(do_bit_result(None), TestResult::Fail("No EDNS option")));
}
