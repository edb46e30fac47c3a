use packetminder::discovery::{classify, named_port, EphemeralRange, DEFAULT_EPHEMERAL_FLOOR};
use packetminder::sockets::{
    asker, port_in_use, process_holding, socket_inodes, solicited_locally, Process, SocketTables,
};

const HEADER: &str =
    "   sl  local_address rem_address   st tx_queue rx_queue tr tm->when retrnsmt   uid  timeout inode ref pointer drops\n";

fn usual() -> EphemeralRange {
    EphemeralRange::read(None)
}

fn row(local: &str, remote: &str, inode: u32) -> String {
    format!(
        "  100: {local} {remote} 07 00000000:00000000 00:00000000 00000000  1000        0 {inode} 2 0000000000000000 0\n"
    )
}

fn udp(rows: &[String]) -> SocketTables {
    let text = format!("{HEADER}{}", rows.concat());
    SocketTables::read(Some(&text), None, None, None)
}

fn process(name: &str, targets: &[&str], comm: Option<&str>) -> Process {
    Process {
        name: name.into(),
        targets: targets.iter().map(|t| t.to_string()).collect(),
        comm: comm.map(|c| c.to_string()),
    }
}

#[test]
fn recognises_an_ssdp_reply_to_an_ephemeral_port() {
    assert_eq!(classify("UDP", 1900, 43285, true, &usual()), Some("SSDP"));
    assert_eq!(classify("UDP", 5353, 39325, true, &usual()), Some("mDNS"));
}

#[test]
fn a_reply_from_the_internet_is_not_a_reply_to_our_discovery() {
    assert_eq!(classify("UDP", 1900, 43285, false, &usual()), None);
}

#[test]
fn traffic_aimed_at_a_service_port_stays_visible() {
    assert_eq!(classify("UDP", 1900, 1900, true, &usual()), None);
    assert_eq!(classify("UDP", 5353, 5353, true, &usual()), None);
    assert_eq!(classify("UDP", 1900, 500, true, &usual()), None);
}

#[test]
fn only_the_kernels_own_ephemeral_range_counts_as_a_query_source() {
    for dport in [1024, 3000, 8080, 8443, 25565] {
        assert_eq!(
            classify("UDP", 1900, dport, true, &usual()),
            None,
            "udp/{dport} is below the ephemeral range and must stay visible"
        );
    }
    assert!(
        usual().floor >= DEFAULT_EPHEMERAL_FLOOR || usual().floor >= 1024,
        "a parsed range must still be a plausible ephemeral floor"
    );
    assert_eq!(classify("UDP", 1900, 43285, true, &usual()), Some("SSDP"));
    // Above the ceiling is outside, too.
    assert_eq!(classify("UDP", 1900, 60999, true, &usual()), Some("SSDP"));
    assert_eq!(classify("UDP", 1900, 61000, true, &usual()), None);
}

#[test]
fn only_udp_and_only_listed_ports() {
    assert_eq!(classify("TCP", 1900, 43285, true, &usual()), None);
    // The flood this was written for must never match.
    assert_eq!(classify("UDP", 47998, 37366, true, &usual()), None);
}

#[test]
fn every_listed_port_has_its_protocol() {
    assert_eq!(named_port(137), Some("NetBIOS name service"));
    assert_eq!(named_port(138), Some("NetBIOS datagram"));
    assert_eq!(named_port(3702), Some("WS-Discovery"));
    assert_eq!(named_port(5355), Some("LLMNR"));
    assert_eq!(named_port(6771), Some("BitTorrent local peer discovery"));
    assert_eq!(named_port(32412), Some("Plex GDM"));
    assert_eq!(named_port(32414), Some("Plex GDM"));
    assert_eq!(named_port(57621), Some("Spotify Connect discovery"));
    assert_eq!(named_port(32413), None);
    // A discovery port inside the ephemeral range is still no place for replies.
    assert_eq!(classify("udp", 1900, 57621, true, &usual()), None);
    assert_eq!(classify("udp", 57621, 40000, true, &usual()), Some("Spotify Connect discovery"));
}

#[test]
fn the_ephemeral_range_is_read_whole_or_not_at_all() {
    let read = EphemeralRange::read(Some("20000\t30000\n"));
    assert_eq!((read.floor, read.ceiling), (20000, 30000));
    assert_eq!(EphemeralRange::read(Some("20000")), usual());
    assert_eq!(EphemeralRange::read(Some("20000 x")), usual());
    assert_eq!(EphemeralRange::read(Some("")), usual());
    assert_eq!((usual().floor, usual().ceiling), (32768, 60999));
}

#[test]
fn attribution_is_free_when_no_socket_is_bound() {
    let tables = udp(&[row("00000000:A915", "00000000:0000", 7)]);
    // Port 0 can never be bound.
    assert!(socket_inodes("UDP", 0, &tables).is_empty());
    let everybody = vec![process("1", &["socket:[7]"], Some("init"))];
    assert_eq!(asker("UDP", "10.3.193.195", 1900, "10.3.153.246", 0, &tables, &everybody), None);
    // A protocol with no table cannot produce inodes either.
    assert!(socket_inodes("ICMP", 1900, &tables).is_empty());
}

#[test]
fn finds_the_process_behind_a_socket_this_test_owns() {
    let tables = udp(&[
        row("0100007F:A915", "00000000:0000", 7),
        row("0100007F:A916", "00000000:0000", 8),
    ]);
    assert_eq!(socket_inodes("UDP", 0xA915, &tables), vec!["socket:[7]"]);
    let processes = vec![
        process("self", &["socket:[7]"], Some("not a process")),
        process("12", &["/dev/null", "socket:[8]"], Some("other")),
        process("34", &["pipe:[1]", "socket:[7]"], Some("the-test\n")),
        process("56", &["socket:[7]"], Some("forked")),
    ];
    assert_eq!(
        asker("udp", "127.0.0.1", 1900, "127.0.0.1", 0xA915, &tables, &processes).as_deref(),
        Some("the-test"),
        "should name the holding process"
    );
    let blank = vec![process("34", &["socket:[7]"], Some(" \n"))];
    assert_eq!(process_holding(&vec!["socket:[7]".to_string()], &blank), None);
    let hidden = vec![process("34", &["socket:[7]"], None)];
    assert_eq!(process_holding(&vec!["socket:[7]".to_string()], &hidden), None);
}

#[test]
fn a_socket_vouches_only_for_what_it_could_have_received() {
    let src = "10.3.193.195";
    let dst = "10.3.153.246";
    let ask = |tables: &SocketTables| solicited_locally("UDP", src, 1900, dst, 43285, tables);

    // 43285 is A915; 10.3.153.246 is F699030A; 10.3.193.195:1900 is C3C1030A:076C.
    assert!(ask(&udp(&[row("00000000:A915", "00000000:0000", 1)])));
    assert!(ask(&udp(&[row("F699030A:A915", "00000000:0000", 1)])));
    assert!(!ask(&udp(&[row("0100007F:A915", "00000000:0000", 1)])), "loopback");
    assert!(!ask(&udp(&[row("00000000:A916", "00000000:0000", 1)])), "another port");
    assert!(ask(&udp(&[row("00000000:A915", "C3C1030A:076C", 1)])), "connected to the sender");
    assert!(!ask(&udp(&[row("00000000:A915", "C3C1030A:076D", 1)])), "to another port of it");
    assert!(!ask(&udp(&[row("00000000:A915", "0100007F:076C", 1)])), "to somebody else");
    assert!(!ask(&udp(&[row("00000000:A915", "garbage", 1)])), "unreadable");
    assert!(!ask(&udp(&[])));

    // The header is no row, and TCP sockets are not UDP sockets.
    let text = row("00000000:A915", "00000000:0000", 1);
    assert!(!ask(&SocketTables::read(Some(&text), None, None, None)));
    let text = format!("{HEADER}{text}");
    assert!(!ask(&SocketTables::read(None, None, Some(&text), None)));

    // IPv6, bound to the wildcard and to the very address.
    let v6 = "2605:59ca:3307:0c08:0000:0000:0000:0001";
    let wild = format!("{HEADER}{}", row(&format!("{}:A915", "0".repeat(32)), &format!("{}:0000", "0".repeat(32)), 1));
    let tables = SocketTables::read(None, Some(&wild), None, None);
    assert!(solicited_locally("UDP", "fe80::1", 1900, v6, 43285, &tables));
    assert!(!ask(&tables), "a bare [::] claims nothing for IPv4");
    let exact = format!("{HEADER}{}", row("CA590526080C07330000000001000000:A915", &format!("{}:0000", "0".repeat(32)), 1));
    let tables = SocketTables::read(None, Some(&exact), None, None);
    assert!(solicited_locally("UDP", "fe80::1", 1900, v6, 43285, &tables));
    assert!(!solicited_locally("UDP", "fe80::1", 1900, "fe80::2", 43285, &tables));
}

#[test]
fn a_port_in_use_is_found_whatever_it_is_bound_to() {
    let tables = udp(&[row("0100007F:A915", "garbage", 1), "short\n".to_string()]);
    assert!(port_in_use("UDP", 43285, &tables));
    assert!(port_in_use("udp", 43285, &tables));
    assert!(!port_in_use("TCP", 43285, &tables));
    assert!(!port_in_use("UDP", 43286, &tables));
    assert!(!port_in_use("ICMP", 43285, &tables));
}
