use packetminder::addr::network_of;
use packetminder::role::{describe, forwarding_ifaces, is_forwarding, shared_subnets, Switch};

fn switch(name: &str, content: Option<&str>) -> Switch {
    Switch { name: name.into(), content: content.map(|c| c.into()) }
}

#[test]
fn masks_addresses_down_to_their_network() {
    assert_eq!(network_of("10.3.252.119/16").as_deref(), Some("10.3.0.0/16"));
    assert_eq!(network_of("10.3.153.246/16").as_deref(), Some("10.3.0.0/16"));
    assert_eq!(network_of("192.168.1.7/24").as_deref(), Some("192.168.1.0/24"));
    assert_eq!(network_of("2605:59ca:3307:c08::1/64").as_deref(), Some("2605:59ca:3307:c08::/64"));
}

#[test]
fn edge_prefixes_do_not_panic() {
    assert_eq!(network_of("10.0.0.1/0").as_deref(), Some("0.0.0.0/0"));
    assert_eq!(network_of("10.0.0.1/32").as_deref(), Some("10.0.0.1/32"));
    assert_eq!(network_of("garbage").is_none(), true);
    assert_eq!(network_of("10.0.0.1/33").is_none(), true);
}

#[test]
fn forwarding_reads_the_real_kernel_state() {
    // Whatever the host is doing, the two answers agree.
    let hosts = [
        vec![],
        vec![switch("eth0", Some("0\n"))],
        vec![switch("wlan0", Some("1\n")), switch("eth0", Some(" 1 "))],
        vec![switch("all", Some("1\n")), switch("default", Some("1\n")), switch("lo", Some("1\n"))],
        vec![switch("eth0", None), switch("eth1", Some("yes"))],
    ];
    for host in hosts {
        let ifaces = forwarding_ifaces(&host);
        assert_eq!(is_forwarding(&host), !ifaces.is_empty());
    }
}

#[test]
fn forwarding_interfaces_are_listed_in_order() {
    // `default` is a template, and an interface counts once over both families.
    let host = vec![
        switch("wlan0", Some("1\n")),
        switch("wlan0", Some("1\n")),
        switch("all", Some("1\n")),
        switch("default", Some("1\n")),
        switch("eth0", Some("1\n")),
        switch("eth1", Some("0\n")),
        switch("eth2", None),
    ];
    assert_eq!(forwarding_ifaces(&host), vec!["all", "eth0", "wlan0"]);
}

#[test]
fn interfaces_on_one_subnet_are_reported() {
    let output = "1: lo    inet 127.0.0.1/8 scope host lo\n\
                  2: wlp1s0    inet 10.3.153.246/16 brd 10.3.255.255 scope global\n\
                  3: eth0    inet 10.3.252.119/16 brd 10.3.255.255 scope global\n\
                  4: eth1    inet 192.168.1.7/24 scope global\n";
    assert_eq!(shared_subnets(Some(output)), vec!["10.3.0.0/16: wlp1s0, eth0"]);
    // Link-local prefixes are shared by definition.
    assert!(shared_subnets(Some("2: a inet6 fe80::1/64\n3: b inet6 fe80::2/64\n")).is_empty());
    assert!(shared_subnets(None).is_empty());
}

#[test]
fn the_role_is_described_in_one_line() {
    let none: Vec<String> = vec![];
    let forwarding = vec!["eth0".to_string(), "wlan0".to_string()];
    let shared = vec!["10.3.0.0/16: a, b".to_string(), "10.4.0.0/16: c, d".to_string()];
    assert_eq!(describe(&none, &none), "endpoint (not forwarding)");
    assert_eq!(describe(&forwarding, &none), "ROUTING via eth0, wlan0");
    assert_eq!(
        describe(&none, &shared),
        "endpoint (not forwarding) — dual-homed [10.3.0.0/16: a, b; 10.4.0.0/16: c, d]"
    );
}
