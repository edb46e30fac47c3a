use packetminder::addr::{
    bits_match, is_private, network_of, parse_cidr, parse_ip, shares_prefix, IpAddr,
};
use packetminder::local::{ipv6_addrs, is_nearby, read_addrs, LocalNet};

/// Wifi and wired on the same /16, a host route, and a globally routable /64.
fn net() -> LocalNet {
    LocalNet::from_parts(
        &[
            "10.3.153.246/16",
            "10.3.252.119/16",
            "100.99.85.125/32",
            "fe80::b787:4f5d:1cbb:eb39/64",
            "2605:59ca:3307:0c08:0db3:51a1:2ab9:acd1/64",
        ],
        &["10.3.255.255"],
    )
}

/// A host by its bare addresses.
fn bare() -> LocalNet {
    LocalNet::from_parts(
        &["10.3.153.246", "100.99.85.125", "fe80::b787:4f5d:1cbb:eb39"],
        &["10.3.255.255"],
    )
}

/// The same host by what `ip -o addr show` prints of it.
fn detected() -> LocalNet {
    LocalNet::detect(
        0,
        Some(
            "2: wlp1s0    inet 10.3.153.246/16 brd 10.3.255.255 scope global dynamic wlp1s0\n\
             4: tailscale0    inet 100.99.85.125/32 scope global tailscale0\n\
             2: wlp1s0    inet6 fe80::b787:4f5d:1cbb:eb39/64 scope link\n",
        ),
    )
}

#[test]
fn recognises_its_own_addresses() {
    let n = net();
    assert!(n.is_local(&parse_ip("10.3.153.246").unwrap()));
    assert!(n.is_local(&parse_ip("100.99.85.125").unwrap()));
    assert!(n.is_local(&parse_ip("127.0.0.1").unwrap()));
    assert!(!n.is_local(&parse_ip("10.3.59.7").unwrap()));
}

#[test]
fn local_recognises_its_own_addresses() {
    let n = bare();
    assert!(n.is_local(&parse_ip("10.3.153.246").unwrap()));
    assert!(n.is_local(&parse_ip("100.99.85.125").unwrap()));
    assert!(n.is_local(&parse_ip("127.0.0.1").unwrap()));
    assert!(!n.is_local(&parse_ip("10.3.59.7").unwrap()));
}

#[test]
fn matches_expanded_ipv6_from_the_kernel_log() {
    // `ip` prints the compressed form, netfilter the expanded one.
    let n = net();
    let expanded = parse_ip("fe80:0000:0000:0000:b787:4f5d:1cbb:eb39").unwrap();
    assert!(n.is_local(&expanded));
}

#[test]
fn local_matches_expanded_ipv6_from_the_kernel_log() {
    let n = bare();
    let expanded = parse_ip("fe80:0000:0000:0000:b787:4f5d:1cbb:eb39").unwrap();
    assert!(n.is_local(&expanded));
}

#[test]
fn a_global_ipv6_neighbour_is_on_link() {
    let n = net();
    let peer = parse_ip("2605:59ca:3307:0c08:8255:9b0a:8843:f2b1").unwrap();
    assert!(n.is_on_link(&peer));

    // Same allocation, different /64: routed, not on our segment.
    let elsewhere = parse_ip("2605:59ca:3307:0c09:8255:9b0a:8843:f2b1").unwrap();
    assert!(!n.is_on_link(&elsewhere));
}

#[test]
fn ipv4_neighbours_and_strangers_are_told_apart() {
    let n = net();
    // Same /16 as both wifi and wired.
    assert!(n.is_on_link(&parse_ip("10.3.59.7").unwrap()));
    // Private, but not a subnet this host is attached to.
    assert!(!n.is_on_link(&parse_ip("192.168.1.5").unwrap()));
    assert!(!n.is_on_link(&parse_ip("8.8.8.8").unwrap()));
    // A /32 brings no neighbours with it.
    assert!(!n.is_on_link(&parse_ip("100.99.85.126").unwrap()));
}

#[test]
fn families_never_share_a_prefix() {
    let n = net();
    assert!(!n.is_on_link(&parse_ip("::ffff:10.3.59.7").unwrap()));
}

#[test]
fn recognises_group_addresses() {
    let n = net();
    // LLMNR over IPv4, LLMNR over IPv6, limited broadcast, subnet broadcast.
    assert!(n.is_group(&parse_ip("224.0.0.252").unwrap()));
    assert!(n.is_group(&parse_ip("ff02:0000:0000:0000:0000:0000:0001:0003").unwrap()));
    assert!(n.is_group(&parse_ip("255.255.255.255").unwrap()));
    assert!(n.is_group(&parse_ip("10.3.255.255").unwrap()));
    // A plain unicast neighbour is not a group.
    assert!(!n.is_group(&parse_ip("10.3.59.7").unwrap()));
}

#[test]
fn local_recognises_group_addresses() {
    let n = bare();
    assert!(n.is_group(&parse_ip("224.0.0.252").unwrap()));
    assert!(n.is_group(&parse_ip("ff02:0000:0000:0000:0000:0000:0001:0003").unwrap()));
    assert!(n.is_group(&parse_ip("255.255.255.255").unwrap()));
    assert!(n.is_group(&parse_ip("10.3.255.255").unwrap()));
    assert!(!n.is_group(&parse_ip("10.3.59.7").unwrap()));
}

#[test]
fn a_view_goes_stale_and_survives_a_failed_reading() {
    let mut n = detected();
    assert!(n.is_group(&parse_ip("10.3.255.255").unwrap()));
    assert!(n.is_local(&parse_ip("fe80::b787:4f5d:1cbb:eb39").unwrap()));
    assert!(!n.is_stale(59));
    n.refresh_if_stale(59, Some("2: eth0    inet 192.168.7.2/24\n"));
    assert!(n.is_local(&parse_ip("10.3.153.246").unwrap()));
    assert_eq!(n.refreshed, 0);

    // A failed reading keeps the addresses, but starts the minute again.
    assert!(n.is_stale(60));
    n.refresh_if_stale(60, None);
    assert!(n.is_local(&parse_ip("10.3.153.246").unwrap()));
    assert_eq!(n.refreshed, 60);

    n.refresh_if_stale(120, Some("2: eth0    inet 192.168.7.2/24\n"));
    assert!(!n.is_local(&parse_ip("10.3.153.246").unwrap()));
    assert!(n.is_on_link(&parse_ip("192.168.7.9").unwrap()));
}

#[test]
fn assigned_ipv6_addresses_are_listed() {
    let have = read_addrs(Some(
        "1: lo    inet 127.0.0.1/8\n1: lo    inet6 ::1/128\n\
         2: e    inet6 fe80::1/64\n2: e    inet6 2605:59ca::7/64\n2: e    inet6 2605:59ca::7/64\n",
    ));
    let texts: Vec<String> = ipv6_addrs(&have).iter().map(|ip| ip.to_text()).collect();
    assert!(texts.contains(&"2605:59ca::7".to_string()));
    assert!(!texts.contains(&"127.0.0.1".to_string()));
    assert_eq!(texts.iter().filter(|t| *t == "2605:59ca::7").count(), 1);
    assert!(read_addrs(None).addrs.is_empty());
}

#[test]
fn what_is_near_is_attached_or_private() {
    let n = net();
    assert!(is_nearby(&n, "10.3.59.7"));
    assert!(is_nearby(&n, "192.168.1.5"));
    assert!(is_nearby(&n, "2605:59ca:3307:c08::9"));
    assert!(!is_nearby(&n, "8.8.8.8"));
    assert!(!is_nearby(&n, "garbage"));
}

#[test]
fn addresses_are_read_as_they_are_written() {
    assert_eq!(parse_ip("1.2.3.4"), Some(IpAddr::V4(0x0102_0304)));
    assert_eq!(parse_ip("::"), Some(IpAddr::V6(0)));
    assert_eq!(parse_ip("::ffff:1.2.3.4"), Some(IpAddr::V6(0xffff_0102_0304)));
    for bad in ["", "1.2.3", "1.2.3.4.5", "1.2.3.256", "01.2.3.4", "1.2.3.4 ", "::1::", ":1:2", "1:2:3:4:5:6:7", "12345::", "g::", "fe80::1%eth0"] {
        assert_eq!(parse_ip(bad), None, "{bad}");
    }
}

#[test]
fn addresses_are_written_the_canonical_way() {
    let samples: [u128; 9] = [
        0,
        1,
        0xffff_0a03_3b07,
        0x2605_59ca_3307_0c08_0000_0000_0000_0001,
        0x0001_0000_0000_0002_0000_0000_0000_0003,
        0x0001_0000_0002_0003_0004_0005_0006_0007,
        0x0001_0000_0000_0003_0000_0000_0006_0007,
        0x0001_0002_0003_0004_0005_0006_0007_0000,
        u128::MAX,
    ];
    let expected = [
        "::",
        "::1",
        "::ffff:10.3.59.7",
        "2605:59ca:3307:c08::1",
        "1:0:0:2::3",
        "1:0:2:3:4:5:6:7",
        "1::3:0:0:6:7",
        "1:2:3:4:5:6:7:0",
        "ffff:ffff:ffff:ffff:ffff:ffff:ffff:ffff",
    ];
    for (n, text) in samples.iter().zip(expected) {
        assert_eq!(IpAddr::V6(*n).to_text(), text);
        assert_eq!(parse_ip(text), Some(IpAddr::V6(*n)));
    }
    assert_eq!(IpAddr::V4(0x0a03_3b07).to_text(), "10.3.59.7");
}

#[test]
fn address_classes_are_told_apart() {
    let v6 = |s: &str| parse_ip(s).unwrap();
    assert!(v6("::1").is_loopback() && v6("127.9.9.9").is_loopback());
    assert!(v6("::").is_unspecified() && v6("0.0.0.0").is_unspecified());
    assert!(v6("ff02::1").is_multicast() && v6("239.1.1.1").is_multicast());
    assert!(!v6("fe80::1").is_multicast() && !v6("240.0.0.1").is_multicast());
    assert!(v6("::1").is_ipv6() && !v6("1.1.1.1").is_ipv6());
    for near in ["10.0.0.1", "172.16.0.1", "172.31.255.255", "192.168.0.1", "169.254.1.1", "127.0.0.1", "100.64.0.1", "fe80::1", "febf::1", "fd00::1", "FC00::1", "::1", "0000:0000:0000:0000:0000:0000:0000:0001", "fe80::1%e", "FE80::1%wlp1s0", "fd00::1%2", "::1%lo", "fe80::1%", "fe80::1%a%b", "fe80:0000:0000:0000:b787:4f5d:1cbb:eb39"] {
        assert!(is_private(near), "{near}");
    }
    for far in ["172.32.0.1", "172.15.0.1", "192.169.0.1", "8.8.8.8", "100.128.0.1", "2605:59ca::1", "fec0::1", "2605:59ca::1%e", "10.0.0.1%e", "%e", "fe80%e", "fe00::1", "::2", "fd", "fe80", "fdesk.lan", ""] {
        assert!(!is_private(far), "{far}");
    }
}

#[test]
fn prefixes_are_compared_bit_by_bit() {
    let ip = |s: &str| parse_ip(s).unwrap();
    assert!(shares_prefix(&ip("10.3.0.1"), &ip("10.2.0.1"), 15));
    assert!(!shares_prefix(&ip("10.3.0.1"), &ip("10.2.0.1"), 16));
    assert!(shares_prefix(&ip("10.3.0.1"), &ip("200.2.0.1"), 0));
    assert!(!shares_prefix(&ip("10.3.0.1"), &ip("::a03:1"), 0));
    assert_eq!(parse_cidr("10.0.0.1/33"), None);
    assert_eq!(parse_cidr("fe80::1/128").map(|c| c.1), Some(128));
    // A bare address stands for itself alone.
    assert_eq!(parse_cidr("10.0.0.1").map(|c| c.1), Some(32));
    assert_eq!(parse_cidr("::1").map(|c| c.1), Some(128));
    assert_eq!(network_of("fe80::1/129"), None);
}

#[test]
fn a_prefix_longer_than_the_address_matches_nothing() {
    let a = vec![10, 3, 59, 7];
    assert!(bits_match(&a, &a, 32));
    assert!(!bits_match(&a, &a, 33));
    assert!(!bits_match(&a, &a, 39));
    assert!(!bits_match(&a, &a, 40));
    assert!(bits_match(&a, &vec![10, 3, 59, 6], 31));
    assert!(!bits_match(&a, &vec![10, 3, 59, 6], 32));
    // A longer string is compared as far as the prefix goes, whichever it is.
    let longer = vec![10, 3, 59, 7, 1];
    assert!(bits_match(&longer, &a, 32) && bits_match(&a, &longer, 32));
    assert!(bits_match(&longer, &vec![10, 3], 16) && !bits_match(&longer, &vec![10, 4], 16));
    assert!(!bits_match(&longer, &a, 33) && !bits_match(&longer, &a, 40));
    assert!(bits_match(&vec![], &a, 0));
    let ip = parse_ip("10.3.59.7").unwrap();
    assert!(shares_prefix(&ip, &ip, 32));
    assert!(!shares_prefix(&ip, &ip, 33));
}
