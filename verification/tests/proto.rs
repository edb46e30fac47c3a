use packetminder::config::Config;
use packetminder::proto::{
    all_counters, counter, delta, merge_counters, no_listener_alert, overflow_alert, ProtoDetector,
};
use packetminder::rate::Rate;
use packetminder::table::Table;

fn rate(value: f64) -> Rate {
    Rate { bits: value.to_bits() }
}

#[test]
fn parses_paired_header_and_value_lines() {
    let mut out: Table<u64> = Table::new();
    let text = "Udp: InDatagrams NoPorts InErrors\nUdp: 660285 155 15664\n";
    merge_counters(Some(text), &mut out);
    assert_eq!(out.get("Udp.NoPorts"), Some(&155));
    assert_eq!(out.get("Udp.InErrors"), Some(&15664));
}

#[test]
fn a_counter_reset_is_not_a_negative_rate() {
    assert_eq!(delta(100, 140), 40);
    // Reboot: the counter restarts below where it was.
    assert_eq!(delta(9_000_000, 12), 0);
}

#[test]
fn real_counters_are_readable_and_sane() {
    let snmp = "Ip: Forwarding DefaultTTL\nIp: 1 64\n\
                Udp: InDatagrams NoPorts InErrors OutDatagrams RcvbufErrors\n\
                Udp: 660285 155 15664 523423 15662\n";
    let netstat = "TcpExt: SyncookiesSent ListenOverflows ListenDrops\nTcpExt: 0 3 4\n";
    let all = all_counters(Some(snmp), Some(netstat));
    assert!(
        all.get("Udp.NoPorts").is_some(),
        "Udp.NoPorts missing from /proc/net/snmp"
    );
    assert!(all.get("Udp.InDatagrams").is_some());
    assert_eq!(counter(&all, "TcpExt.ListenDrops"), 4);
    assert_eq!(counter(&all, "TcpExt.Imaginary"), 0);
    assert_eq!(all_counters(None, None).entries.len(), 0);
}

#[test]
fn lines_that_do_not_pair_up_are_passed_over() {
    let mut out: Table<u64> = Table::new();
    merge_counters(
        Some("Udp: A B C\nTcp: 1 2 3\nUdp: A B\nUdp: 1 x 3\nno colon\nUdp: 5\nUdp: A\n"),
        &mut out,
    );
    assert_eq!(out.entries.len(), 1);
    assert_eq!(out.get("Udp.A"), Some(&1));
}

#[test]
fn a_rate_has_to_hold_before_it_alerts() {
    let cfg = Config::default();
    let mut detector = ProtoDetector::new();
    let counters = |no_ports: u64, rcvbuf: u64, listen: u64| {
        let mut t: Table<u64> = Table::new();
        t.put("Udp.NoPorts".into(), no_ports);
        t.put("Udp.RcvbufErrors".into(), rcvbuf);
        t.put("TcpExt.ListenDrops".into(), listen);
        t.put("TcpExt.ListenOverflows".into(), u64::MAX);
        t
    };
    assert!(detector.observe(&counters(0, 0, 0), 1000).is_none());
    let between = detector.observe(&counters(100, 7, 5), 1010).expect("second sample");
    assert_eq!((between.no_ports, between.overflow, between.secs), (100, 12, 10));
    let backwards = detector.observe(&counters(1, 1, 1), 1010).expect("third sample");
    assert_eq!((backwards.no_ports, backwards.overflow, backwards.secs), (0, 0, 1));

    // Five steps of ten seconds are not a minute; the sixth is.
    for _ in 0..5 {
        assert_eq!(detector.judge(&cfg, rate(5.0), rate(9.9)), (false, false));
    }
    assert_eq!(detector.judge(&cfg, rate(5.0), rate(9.9)), (true, false));
    // Then it starts again, and one quiet step starts it again, too.
    for _ in 0..5 {
        assert_eq!(detector.judge(&cfg, rate(6.0), rate(10.0)), (false, false));
    }
    assert_eq!(detector.judge(&cfg, rate(4.9), rate(10.0)), (false, true));
    assert_eq!(detector.judge(&cfg, rate(6.0), rate(0.0)), (false, false));
}

#[test]
fn protocol_alerts_are_worded_in_full() {
    let a = no_listener_alert("12", 60);
    assert_eq!((a.kind, a.urgency, a.popup), ("udp-no-listener", "normal", true));
    assert_eq!(a.title, "12 datagrams/s arriving for ports nothing is listening on");
    assert_eq!(
        a.body,
        "Sustained for 60s.\nThe kernel is discarding them — no socket is bound to those ports."
    );
    assert!(a.detail.starts_with("Counted by Udp.NoPorts in /proc/net/snmp"));
    let b = overflow_alert("7", 30);
    assert_eq!((b.kind, b.urgency), ("receive-overflow", "critical"));
    assert_eq!(b.title, "Dropping 7 packets/s that this host asked for");
    assert!(b.body.starts_with("Sustained for 30s.\nA socket's receive queue is full"));
}

#[test]
fn an_alert_comes_on_the_last_step_needed() {
    for (interval, sustain, needed) in [(10, 60, 6), (10, 61, 7), (7, 60, 9), (60, 60, 1), (90, 60, 1), (5, 0, 1)] {
        let cfg =
            Config { interval_secs: interval, proto_sustain_secs: sustain, ..Config::default() };
        let mut detector = ProtoDetector::new();
        for step in 1..=3 * needed {
            let due = detector.judge(&cfg, rate(5.0), rate(0.0)).0;
            assert_eq!(due, step % needed == 0, "{interval} {sustain} {step}");
        }
    }
}
