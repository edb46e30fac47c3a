use packetminder::addr::{parse_ip, IpAddr};
use packetminder::config::Config;
use packetminder::drops::{parse_line, BlockEvent};
use packetminder::flows::FlowTracker;
use packetminder::local::LocalNet;
use packetminder::sockets::SocketTables;
use packetminder::order::stable_order;
use packetminder::table::Table;
use packetminder::watch::{
    check_ipv6, describe_ipv6, print_alert, replay, reports_discovery, selftest_alert, sort_events,
    Finding, Timer,
};

fn ips(texts: &[&str]) -> Vec<IpAddr> {
    texts.iter().map(|t| parse_ip(t).unwrap()).collect()
}

fn drop_at(ts: i64, sport: u16, dport: u16) -> BlockEvent {
    let mut e = parse_line(&format!(
        "2026-08-03T00:53:29-0600 host kernel: [UFW BLOCK] IN=wlp1s0 OUT= \
         MAC=e4:b3:18:5e:b8:3f:a8:b5:7c:53:b2:fe:08:00 SRC=10.3.59.7 DST=10.3.153.246 LEN=60 \
         PROTO=UDP SPT={sport} DPT={dport} LEN=40"
    ))
    .expect("parses");
    e.ts = ts;
    e
}

fn tracker() -> FlowTracker {
    FlowTracker::with_local(LocalNet::from_parts(&["10.3.153.246/16"], &["10.3.255.255"]))
}

fn no_sockets() -> SocketTables {
    SocketTables::read(None, None, None, None)
}

#[test]
fn timers_fire_once_per_term() {
    let mut t = Timer { last: 100, every: 60 };
    assert!(!t.is_due(159));
    assert!(t.is_due(160));
    assert!(!t.is_due(161));
    assert_eq!(t.last, 160);
    let mut far = Timer { last: i64::MIN, every: 1 };
    assert!(far.is_due(i64::MAX));
}

#[test]
fn assigned_addresses_are_described() {
    assert_eq!(describe_ipv6(&vec![]), "none assigned");
    assert_eq!(describe_ipv6(&ips(&["fe80::2", "2605::1"])), "2605::1, fe80::2");
}

#[test]
fn only_addresses_that_appear_are_reported() {
    let mut seen = ips(&["fe80::1"]);
    assert!(check_ipv6(&mut seen, ips(&["fe80::1"])).is_none());
    assert!(check_ipv6(&mut seen, vec![]).is_none());
    let a = check_ipv6(&mut seen, ips(&["fe80::2", "2605::1"])).expect("appeared");
    assert_eq!((a.kind, a.urgency), ("ipv6-active", "normal"));
    assert!(a.body.starts_with("New IPv6 address(es): 2605::1, fe80::2.\nSomething enabled IPv6"));
    assert_eq!(seen, ips(&["fe80::2", "2605::1"]));
    assert!(check_ipv6(&mut seen, ips(&["2605::1"])).is_none());
}

#[test]
fn history_is_replayed_in_order_at_its_own_times() {
    let cfg = Config::default();
    // Out of order, and sustained for longer than the least span.
    let events: Vec<BlockEvent> =
        [180, 0, 60, 120, 240].iter().map(|t| drop_at(1_000_000 + t, 47998, 500)).collect();
    let sorted = sort_events(&events);
    assert_eq!(sorted.iter().map(|e| e.ts - 1_000_000).collect::<Vec<_>>(), vec![0, 60, 120, 180, 240]);

    let mut t = tracker();
    let findings = replay(&mut t, &events, &cfg, &no_sockets()).expect("fits");
    assert_eq!(findings.len(), 1);
    match &findings[0] {
        Finding::Flow { at, facts } => {
            assert_eq!(*at, 1_000_180);
            assert!(facts.discovery.is_none());
        }
        Finding::Own { .. } => panic!("this is no traffic of our own"),
    }
    assert!(!reports_discovery(&findings));

    let replies: Vec<BlockEvent> =
        [0, 60, 120, 180].iter().map(|t| drop_at(1_000_000 + t, 1900, 43285)).collect();
    let found = replay(&mut tracker(), &replies, &cfg, &no_sockets()).expect("fits");
    assert_eq!(found.len(), 1);
    assert!(reports_discovery(&found));

    assert!(replay(&mut tracker(), &vec![], &cfg, &no_sockets()).expect("nothing").is_empty());
}

#[test]
fn a_replay_that_ends_beyond_time_says_so() {
    let events = vec![drop_at(i64::MAX - 10, 47998, 500)];
    assert!(replay(&mut tracker(), &events, &Config::default(), &no_sockets()).is_none());
}

#[test]
fn findings_are_printed_with_their_lines_indented() {
    let mut a = selftest_alert();
    assert_eq!(a.title, "packetminder selftest");
    a.body = "one\ntwo".into();
    assert_eq!(
        print_alert("2026-08-03T00:53:29", &a),
        "  2026-08-03T00:53:29 [selftest] packetminder selftest\n      one\n      two\n"
    );
}

#[test]
fn equal_keys_keep_their_order() {
    assert_eq!(stable_order(&vec![3, 1, 3, -5, 1]), vec![3, 1, 4, 0, 2]);
    assert!(stable_order(&vec![]).is_empty());
}

#[test]
fn a_table_holds_one_value_per_key() {
    let mut t: Table<u64> = Table::new();
    t.put("a".into(), 1);
    t.put("b".into(), 2);
    t.put("a".into(), 3);
    assert_eq!(t.entries.len(), 2);
    assert_eq!((t.get("a"), t.get("b"), t.get("c")), (Some(&3), Some(&2), None));
    t.remove("a");
    t.remove("never there");
    assert_eq!((t.get("a"), t.find("b")), (None, Some(0)));
}
