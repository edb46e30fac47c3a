use packetminder::alert::Alert;
use packetminder::collector::{parse, Snapshot};
use packetminder::config::Config;
use packetminder::iface::{
    blind_warning, build_alert, read_dev, withheld_line, AsymDetector, ConntrackGap,
    Conntrack, Corroboration, Judged, RateTexts, NANOS,
};
use packetminder::rate::Rate;
use packetminder::table::Table;

fn rate(value: f64) -> Rate {
    Rate { bits: value.to_bits() }
}

fn alert_with(seen: Corroboration) -> Alert {
    let accounted = if seen.accounted().is_some() { "2.0 Kbps" } else { "" };
    let rates =
        RateTexts { rx: "10.0 Mbps", tx: "30.0 Kbps", percent: "0.3", accounted };
    build_alert("wlp1s0", rates, 60, None, &vec![], &seen)
}

fn snapshot(text: &str) -> Snapshot {
    parse(text).expect("parses")
}

#[test]
fn a_blind_alert_does_not_accuse_in_the_part_the_user_sees() {
    let a = alert_with(Corroboration {
        by_socket: Some(rate(2_000.0)),
        by_conntrack: None,
        gap: Some(ConntrackGap::AccountingOff),
    });

    assert!(!a.title.contains("Unanswered"), "title: {}", a.title);
    assert!(!a.body.contains("Nothing on this host"), "body: {}", a.body);
    assert!(a.body.contains("could not be checked"), "body: {}", a.body);
    // An unsubstantiated accusation does not earn a critical interrupt.
    assert_eq!(a.urgency, "normal");
    // Only the source that actually reported may be named.
    assert!(a.detail.contains("Sockets account"), "detail: {}", a.detail);
    assert!(!a.detail.contains("and conntrack together"));
}

#[test]
fn a_corroborated_alert_still_accuses() {
    let a = alert_with(Corroboration {
        by_socket: Some(rate(2_000.0)),
        by_conntrack: Some(rate(1_000.0)),
        gap: None,
    });

    assert!(a.title.contains("Unanswered"));
    assert!(a.body.contains("Nothing on this host appears to be answering it."));
    assert_eq!(a.urgency, "critical");
    assert!(a.detail.contains("Sockets and conntrack together account"));
    assert!(a.detail.contains("arriving unread"));
}

#[test]
fn an_empty_table_is_not_reported_as_a_disabled_sysctl() {
    let a = alert_with(Corroboration {
        by_socket: None,
        by_conntrack: None,
        gap: Some(ConntrackGap::NoFlows),
    });

    assert!(a.detail.contains("no tracked flows"), "detail: {}", a.detail);
    assert!(
        !a.detail.contains("nf_conntrack_acct"),
        "must not prescribe a sysctl that is already on: {}",
        a.detail
    );
}

#[test]
fn conntrack_alone_is_named_alone() {
    let a = alert_with(Corroboration {
        by_socket: None,
        by_conntrack: Some(rate(1_500.0)),
        gap: None,
    });

    assert!(a.detail.contains("conntrack accounts"), "detail: {}", a.detail);
    assert!(!a.detail.contains("Sockets"));
    assert_eq!(a.urgency, "critical");
}

#[test]
fn an_alert_is_worded_in_full() {
    let seen = Corroboration {
        by_socket: Some(rate(2_000.0)),
        by_conntrack: Some(rate(1_000.0)),
        gap: None,
    };
    let rates =
        RateTexts { rx: "10.0 Mbps", tx: "30.0 Kbps", percent: "0.3", accounted: "2.0 Kbps" };
    let routers = vec!["eth0".to_string(), "wlan0".to_string()];
    let a = build_alert("wlp1s0", rates, 3720, Some("udp/500 from x"), &routers, &seen);
    assert_eq!(a.kind, "asymmetric-inbound");
    assert_eq!(a.key, "asym-wlp1s0");
    assert_eq!(a.title, "Unanswered inbound traffic on wlp1s0");
    assert_eq!(
        a.body,
        "Receiving 10.0 Mbps, sending only 30.0 Kbps (0.3%) for 1h2m.\n\
         This host is forwarding, and no interface is passing it on."
    );
    assert_eq!(
        a.detail,
        "Concurrent firewall drops, which may be unrelated: udp/500 from x Judged against this \
         host's total output rather than wlp1s0's alone, because forwarding is enabled \
         (eth0, wlan0) — a router answering on a different interface than it received on is \
         behaving correctly. Sockets and conntrack together account for only 2.0 Kbps of it, so \
         most of this is arriving unread."
    );
    let none = alert_with(Corroboration { by_socket: None, by_conntrack: None, gap: None });
    assert!(none.detail.starts_with("To identify it: sudo tcpdump -i wlp1s0 -nn -c 200 Corroboration did not run"));
    assert_eq!(
        withheld_line("wlp1s0", &seen, "9.0 Mbps", "10.0 Mbps"),
        "asymmetric-inbound withheld on wlp1s0 — sockets account for 9.0 Mbps of 10.0 Mbps inbound"
    );
    assert!(blind_warning().ends_with("Fix: sysctl -w net.netfilter.nf_conntrack_acct=1"));
}

#[test]
fn the_better_informed_source_is_credited() {
    let both = |s: f64, c: f64| Corroboration {
        by_socket: Some(rate(s)),
        by_conntrack: Some(rate(c)),
        gap: None,
    };
    assert_eq!(both(1.0, 2.0).accounted(), Some(rate(2.0)));
    assert_eq!(both(1.0, 2.0).via(), "conntrack accounts");
    assert_eq!(both(2.0, 1.0).accounted(), Some(rate(2.0)));
    assert_eq!(both(2.0, 2.0).via(), "sockets account");
    let silent = Corroboration { by_socket: None, by_conntrack: None, gap: None };
    assert_eq!(silent.accounted(), None);
    assert_eq!(silent.gap_explanation(), "conntrack did not report");
}

#[test]
fn interface_counters_are_read_below_the_headers() {
    let text = "Inter-|   Receive  |  Transmit\n face |bytes packets|bytes packets\n\
                  lo: 10 1 0 0 0 0 0 0 20 1 0 0 0 0 0 0\n\
                wlp1s0: 3000 1 0 0 0 0 0 0 40 1 0\n\
                short: 1 2 3\nbad: x 1 0 0 0 0 0 0 9\n";
    let read = read_dev(Some(text));
    assert_eq!(read.entries.len(), 2);
    assert_eq!(read.get("wlp1s0").map(|c| (c.rx, c.tx)), Some((3000, 40)));
    assert_eq!(read_dev(None).entries.len(), 0);
    assert_eq!(read_dev(Some("one line")).entries.len(), 0);
}

#[test]
fn samples_are_differences_and_a_reset_is_quiet() {
    let cfg = Config::default();
    let at = |wl: (u64, u64), lo: (u64, u64)| {
        read_dev(Some(&format!(
            "h\nh\nwlp1s0: {} 0 0 0 0 0 0 0 {}\nlo: {} 0 0 0 0 0 0 0 {}\n",
            wl.0, wl.1, lo.0, lo.1
        )))
    };
    let detector = AsymDetector::new(at((100, 50), (1, 1)), 1_000, None);
    assert!(detector.sample(&cfg, &at((900, 60), (9, 9)), 1_000).is_none());
    let sampled = detector.sample(&cfg, &at((900, 10), (9, 9)), 2_000).expect("time has passed");
    assert_eq!(sampled.len(), 1, "the loopback is ignored");
    assert_eq!((sampled[0].name.as_str(), sampled[0].rx, sampled[0].tx), ("wlp1s0", 800, 0));
    // An interface that has just appeared has no baseline.
    let empty = AsymDetector::new(Table::new(), 0, None);
    assert!(empty.sample(&cfg, &at((1, 1), (1, 1)), 5).expect("sampled").is_empty());
}

fn flood(tx: f64) -> Judged {
    Judged {
        name: "wlp1s0".into(),
        rx: rate(10_000_000.0),
        tx: rate(tx),
        answer_floor: rate(200_000.0),
        account_floor: rate(7_000_000.0),
    }
}

#[test]
fn suspicion_has_to_hold_and_is_not_repeated_within_the_cooldown() {
    let cfg = Config::default();
    let secs = |s: u64| s * NANOS;
    let mut detector = AsymDetector::new(Table::new(), 0, None);
    let judge = |d: &mut AsymDetector, tx: f64, at: u64| {
        d.judge(&cfg, &flood(tx), false, rate(0.0), secs(at))
    };
    assert_eq!(judge(&mut detector, 1.0, 10), None);
    assert_eq!(judge(&mut detector, 1.0, 69), None);
    // A conversation starts the count again.
    assert_eq!(judge(&mut detector, 200_000.0, 70), None);
    assert_eq!(judge(&mut detector, 1.0, 80), None);
    assert_eq!(judge(&mut detector, 1.0, 140), Some(60));

    // What is accounted for has to re-earn the window.
    let busy = Corroboration { by_socket: Some(rate(7_000_000.0)), by_conntrack: None, gap: None };
    assert!(!detector.conclude("wlp1s0", rate(7_000_000.0), &busy, secs(140)));
    assert_eq!(judge(&mut detector, 1.0, 150), None);
    assert_eq!(judge(&mut detector, 1.0, 215), Some(65));

    // What is not raises an alert, and the cooldown holds the next.
    let idle = Corroboration { by_socket: Some(rate(1.0)), by_conntrack: None, gap: None };
    assert!(detector.conclude("wlp1s0", rate(7_000_000.0), &idle, secs(215)));
    assert_eq!(judge(&mut detector, 1.0, 225), None);
    assert_eq!(judge(&mut detector, 1.0, 2014), None);
    assert_eq!(judge(&mut detector, 1.0, 2015), Some(1865));
}

#[test]
fn a_router_is_judged_by_all_it_sends() {
    let cfg = Config::default();
    let mut detector = AsymDetector::new(Table::new(), 0, None);
    for at in [0, 60, 120] {
        assert_eq!(
            detector.judge(&cfg, &flood(1.0), true, rate(9_000_000.0), at * NANOS),
            None
        );
    }
    assert!(detector.since.entries.is_empty());
    assert_eq!(detector.judge(&cfg, &flood(9e6), true, rate(1.0), 0), None);
    assert_eq!(detector.judge(&cfg, &flood(9e6), true, rate(1.0), 60 * NANOS), Some(60));
}

#[test]
fn a_gap_is_warned_about_once_and_no_rate_spans_it() {
    let good = |at: u64, bytes: u64| {
        snapshot(&format!(
            "at={at}\nconntrack_acct=1\nconntrack_flows=9\nconntrack_reply_bytes={bytes}\n"
        ))
    };
    let off = |at: u64| snapshot(&format!("at={at}\nconntrack_acct=0\n"));
    let empty = |at: u64| snapshot(&format!("at={at}\nconntrack_acct=1\nconntrack_flows=0\n"));

    let mut view = Conntrack::start(Some(good(100, 1000)));
    assert!(!view.refresh(None));
    assert!(!view.refresh(Some(good(110, 2000))));
    assert_eq!(view.rate.map(|m| (m.bytes, m.secs)), Some((1000, 10)));
    // The same snapshot again leaves the rate and the baseline alone.
    assert!(!view.refresh(Some(good(110, 2000))));
    assert!(view.rate.is_some());

    assert!(view.refresh(Some(off(120))));
    assert!(!view.refresh(Some(off(130))), "once per onset");
    assert!(view.rate.is_none());
    assert_eq!(view.gap, Some(ConntrackGap::AccountingOff));
    assert!(!view.refresh(Some(empty(140))));
    assert_eq!(view.gap, Some(ConntrackGap::NoFlows));

    // The first measurable sample after the gap becomes the baseline.
    assert!(!view.refresh(Some(good(150, 9000))));
    assert!(view.rate.is_none() && view.gap.is_none());
    assert!(!view.refresh(Some(good(160, 9500))));
    assert_eq!(view.rate.map(|m| (m.bytes, m.secs)), Some((500, 10)));
    assert!(view.refresh(Some(off(170))), "a new onset");
}

#[test]
fn a_tick_ends_with_a_new_baseline() {
    let mut detector = AsymDetector::new(Table::new(), 0, None);
    detector.finish(read_dev(Some("h\nh\ne: 1 0 0 0 0 0 0 0 2\n")), 77);
    assert_eq!(detector.last_at, 77);
    assert_eq!(detector.last.get("e").map(|c| c.tx), Some(2));
}

#[test]
fn a_tick_judges_every_interface() {
    let cfg = Config::default();
    let mut detector = AsymDetector::new(Table::new(), 0, None);
    let all = |tx: f64| {
        let mut quiet = flood(9e6);
        quiet.name = "eth0".into();
        vec![quiet, flood(tx)]
    };
    let off = || Some(snapshot("at=1\nconntrack_acct=0\n"));
    let (warn, due) = detector.tick(&cfg, &all(1.0), false, rate(0.0), off(), 0);
    assert!(warn && due.is_empty());
    let (warn, due) = detector.tick(&cfg, &all(1.0), false, rate(0.0), off(), 61 * NANOS);
    assert!(!warn);
    assert_eq!(due.len(), 1);
    assert_eq!((due[0].name.as_str(), due[0].held_secs), ("wlp1s0", 61));
    assert_eq!(due[0].account_floor, rate(7_000_000.0));
    assert_eq!(detector.conntrack.gap, Some(ConntrackGap::AccountingOff));
    assert_eq!(detector.since.entries.len(), 1);
}

#[test]
fn a_sample_holds_what_both_readings_show() {
    let cfg = Config { ignore_interfaces: vec!["lo".into()], ..Config::default() };
    let dev = |rows: &[(&str, u64, u64)]| {
        let lines: Vec<String> = rows
            .iter()
            .map(|(name, rx, tx)| format!("{name}: {rx} 0 0 0 0 0 0 0 {tx}\n"))
            .collect();
        read_dev(Some(&format!("h\nh\n{}", lines.concat())))
    };
    let before = dev(&[("lo", 1, 1), ("eth0", 10, 10), ("gone", 5, 5), ("wlan0", 100, 7)]);
    let after = dev(&[("wlan0", 90, 9), ("lo", 2, 2), ("new0", 3, 3), ("eth0", 25, 10)]);
    let sampled = AsymDetector::new(before, 1, None).sample(&cfg, &after, 2).expect("sampled");
    let rows: Vec<(&str, u64, u64)> =
        sampled.iter().map(|s| (s.name.as_str(), s.rx, s.tx)).collect();
    assert_eq!(rows, vec![("wlan0", 0, 2), ("eth0", 15, 0)]);
}

#[test]
fn only_sustained_suspicion_is_due() {
    let cfg = Config::default();
    let mut detector = AsymDetector::new(Table::new(), 0, None);
    // One-sided at every sample, for a minute to the nanosecond.
    let at = |d: &mut AsymDetector, tx: f64, nanos: u64| {
        d.judge(&cfg, &flood(tx), false, rate(0.0), nanos)
    };
    assert_eq!(at(&mut detector, 1.0, 5), None);
    assert_eq!(at(&mut detector, 1.0, 60 * NANOS), None);
    assert_eq!(at(&mut detector, 1.0, 60 * NANOS + 5), Some(60));
    // Two looks a minute apart with a conversation between them are not enough.
    let mut broken = AsymDetector::new(Table::new(), 0, None);
    assert_eq!(at(&mut broken, 1.0, 0), None);
    assert_eq!(at(&mut broken, 9e6, 30 * NANOS), None);
    assert_eq!(at(&mut broken, 1.0, 60 * NANOS), None);
    assert_eq!(at(&mut broken, 1.0, 120 * NANOS), Some(60));
}

#[test]
fn an_alert_needs_suspicion_for_the_whole_window() {
    let cfg = Config::default();
    let mut detector = AsymDetector::new(Table::new(), 0, None);
    let both = |wlan: f64, eth: f64| {
        let mut other = flood(eth);
        other.name = "eth0".into();
        vec![flood(wlan), other]
    };
    let names = |d: &mut AsymDetector, all: Vec<Judged>, at: u64| -> Vec<String> {
        let (_, due) = d.tick(&cfg, &all, false, rate(0.0), None, at * NANOS);
        due.into_iter().map(|s| s.name).collect()
    };
    assert!(names(&mut detector, both(1.0, 1.0), 0).is_empty());
    // One of the two answers once, and has to start again.
    assert!(names(&mut detector, both(1.0, 9e6), 30).is_empty());
    assert_eq!(names(&mut detector, both(1.0, 1.0), 60), vec!["wlp1s0"]);
    let busy = Corroboration { by_socket: Some(rate(9e6)), by_conntrack: None, gap: None };
    assert!(!detector.conclude("wlp1s0", rate(7e6), &busy, 60 * NANOS));
    // A tick that does not sample an interface leaves its run as it is.
    assert!(names(&mut detector, vec![flood(1.0)], 90).is_empty());
    assert_eq!(names(&mut detector, both(1.0, 1.0), 120), vec!["eth0"]);
    assert_eq!(names(&mut detector, vec![flood(1.0)], 150), vec!["wlp1s0"]);
}
