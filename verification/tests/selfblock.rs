use packetminder::config::Config;
use packetminder::drops::BlockEvent;
use packetminder::selfblock::SelfBlockTracker;

fn event(ts: i64, dst: &str, dport: u16) -> BlockEvent {
    BlockEvent {
        ts,
        iface: "wlp1s0".into(),
        src: "10.3.153.246".into(),
        dst: dst.into(),
        proto: "UDP".into(),
        sport: 5355,
        dport,
        len: 54,
    }
}

const BASE: i64 = 1_785_777_302;

#[test]
fn sparse_multicast_chatter_stays_quiet() {
    let cfg = Config::default();
    let mut tracker = SelfBlockTracker::new();
    // Three packets, then eight quiet minutes, for a full hour.
    for burst in 0..8 {
        for packet in 0..3 {
            tracker.record(&event(BASE + burst * 480 + packet, "224.0.0.252", 5355), false);
        }
    }
    assert!(tracker.tick_at(&cfg, BASE + 3600).is_empty());
}

#[test]
fn a_retry_loop_alerts() {
    let cfg = Config::default();
    let mut tracker = SelfBlockTracker::new();
    for minute in 0..60 {
        tracker.record(&event(BASE + minute * 60, "224.0.0.252", 5355), false);
    }
    let alerts = tracker.tick_at(&cfg, BASE + 3600);
    assert_eq!(alerts.len(), 1);
    assert_eq!(alerts[0].kind, "self-blocked");
    assert_eq!(alerts[0].urgency, "normal");
    assert_eq!(alerts[0].key, "self-224.0.0.252-udp-5355");
    assert_eq!(alerts[0].title, "This host's own udp/5355 traffic is blocked");
    assert_eq!(
        alerts[0].body,
        "Active in 59 of the last 60 minutes on wlp1s0.\n\
         The firewall is dropping multicast this host sends to 224.0.0.252."
    );
    assert_eq!(
        alerts[0].detail,
        "60 drops, 3.2 KiB. Nothing external is involved — allow it, or stop whatever keeps \
         sending it. Inbound replies to udp/5355 take the same path, so they are being dropped \
         too."
    );
    // Once per cooldown.
    assert!(tracker.tick_at(&cfg, BASE + 3600 + 60).is_empty());
}

#[test]
fn self_sourced_unicast_alerts_immediately_and_loudly() {
    let cfg = Config::default();
    let mut tracker = SelfBlockTracker::new();
    for i in 0..4 {
        tracker.record(&event(BASE + i, "10.3.59.7", 37366), true);
    }
    let alerts = tracker.tick_at(&cfg, BASE + 60);
    assert_eq!(alerts.len(), 1);
    assert_eq!(alerts[0].urgency, "critical");
    assert_eq!(alerts[0].title, "This host is sending blocked traffic to 10.3.59.7");
    assert_eq!(
        alerts[0].body,
        "4 drops over 1m on wlp1s0, to udp/37366.\n\
         Addressed to one host rather than to a group."
    );
}

#[test]
fn a_flow_that_stops_is_forgotten() {
    let cfg = Config::default();
    let mut tracker = SelfBlockTracker::new();
    for minute in 0..60 {
        tracker.record(&event(BASE + minute * 60, "224.0.0.252", 5355), false);
    }
    assert!(tracker.summary().is_some());
    // Well past the window with nothing new.
    assert!(tracker
        .tick_at(&cfg, BASE + 3600 + cfg.self_window_secs as i64 + 60)
        .is_empty());
    assert!(tracker.summary().is_none());
}

#[test]
fn a_minute_counts_once_and_unicast_sticks() {
    let mut tracker = SelfBlockTracker::new();
    for i in 0..5 {
        tracker.record(&event(6000 + i, "10.3.59.7", 1), i == 0);
    }
    tracker.record(&event(-1, "10.3.59.8", 2), false);
    tracker.record(&event(-61, "10.3.59.8", 2), false);
    tracker.record(&event(-119, "10.3.59.8", 2), false);
    assert!(tracker.flows[0].unicast);
    assert_eq!(tracker.flows[0].minutes, vec![100]);
    assert_eq!(tracker.flows[1].minutes, vec![-1, -2]);
    // The destination with more active minutes comes first.
    assert_eq!(
        tracker.summary().as_deref(),
        Some(
            "10.3.59.8 → udp/2 (3 drops in 2 active minute(s)); \
             10.3.59.7 → udp/1 (5 drops in 1 active minute(s))"
        )
    );
    let mut full = event(1, "10.3.59.7", 1);
    full.len = u64::MAX;
    assert!(!tracker.has_room(&full));
    assert!(tracker.has_room(&event(1, "10.3.59.7", 1)));
}

#[test]
fn a_cooldown_outlives_the_destination_it_was_earned_by() {
    let cfg = Config {
        self_window_secs: 600,
        self_min_active_minutes: 3,
        cooldown_secs: 3600,
        ..Config::default()
    };
    let mut tracker = SelfBlockTracker::new();
    let feed = |tracker: &mut SelfBlockTracker, from: i64| {
        for minute in 0..3 {
            tracker.record(&event(from + minute * 60, "224.0.0.252", 5355), false);
        }
    };
    feed(&mut tracker, 0);
    assert_eq!(tracker.tick_at(&cfg, 180).len(), 1);
    // Quiet for longer than the window: forgotten.
    assert!(tracker.tick_at(&cfg, 1200).is_empty());
    assert!(tracker.summary().is_none());
    // Back within the cooldown: held until it is over.
    feed(&mut tracker, 1260);
    assert!(tracker.tick_at(&cfg, 1440).is_empty());
    assert!(tracker.tick_at(&cfg, 2100).is_empty());
    feed(&mut tracker, 3600);
    assert!(tracker.tick_at(&cfg, 3779).is_empty());
    assert_eq!(tracker.tick_at(&cfg, 3780).len(), 1);
}

#[test]
fn group_traffic_alerts_from_enough_active_minutes() {
    let cfg = Config::default();
    let mut tracker = SelfBlockTracker::new();
    for minute in 0..29 {
        for second in [0, 20, 40] {
            tracker.record(&event(minute * 60 + second, "224.0.0.252", 5355), false);
        }
    }
    assert!(tracker.tick_at(&cfg, 29 * 60).is_empty(), "29 minutes are one too few");
    tracker.record(&event(29 * 60, "224.0.0.252", 5355), false);
    assert_eq!(tracker.tick_at(&cfg, 29 * 60).len(), 1);
    // By the time the first of them leaves the window, they are too few again.
    let mut late = SelfBlockTracker::new();
    for minute in 0..30 {
        late.record(&event(minute * 60, "224.0.0.252", 5355), false);
    }
    assert!(late.tick_at(&cfg, 3601).is_empty());
}

#[test]
fn every_drop_is_counted_once_and_moves_its_own_entry() {
    let mut tracker = SelfBlockTracker::new();
    for i in 0..12 {
        let dst = ["224.0.0.251", "224.0.0.252", "224.0.0.253"][(i % 3) as usize];
        let before: Vec<u64> = tracker.flows.iter().map(|f| f.total).collect();
        tracker.record(&event(i, dst, 5355), false);
        for (k, total) in before.iter().enumerate() {
            let moved = tracker.flows[k].key.dst == dst;
            assert_eq!(tracker.flows[k].total, total + u64::from(moved));
        }
    }
    tracker.record(&event(12, "224.0.0.251", 1900), false);
    let totals: Vec<u64> = tracker.flows.iter().map(|f| f.total).collect();
    assert_eq!(totals, vec![4, 4, 4, 1]);
}
