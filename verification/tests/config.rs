use packetminder::config::{
    line_values, set_f64_at_least, set_ratio, Config, DiscoveryReplies, Outcome, Shown,
};
use packetminder::rate::Rate;

fn bits(value: &str) -> Option<u64> {
    value.parse::<f64>().ok().map(f64::to_bits)
}

fn rate(value: f64) -> Rate {
    Rate { bits: value.to_bits() }
}

fn load(text: &str) -> (Config, Vec<String>) {
    let doubles: Vec<Option<u64>> = line_values(text).iter().map(|v| bits(v)).collect();
    Config::load("x.conf", Some(text), &doubles)
}

#[test]
fn ratios_reject_everything_outside_the_unit_interval() {
    let mut slot = rate(0.5);
    assert!(set_ratio(&mut slot, bits("0.02")));
    assert_eq!(slot, rate(0.02));

    for bad in ["-1", "1.5", "NaN", "inf", "-inf", "banana"] {
        assert!(!set_ratio(&mut slot, bits(bad)), "{bad} must be refused");
        assert_eq!(slot, rate(0.02), "{bad} must not overwrite the previous value");
    }
    assert!(set_ratio(&mut slot, bits("0")));
    assert!(set_ratio(&mut slot, bits("1")));
}

#[test]
fn magnitudes_reject_negatives_and_nan() {
    let mut slot = rate(5.0);
    assert!(set_f64_at_least(&mut slot, bits("1000000"), Rate::zero()));
    assert_eq!(slot, rate(1_000_000.0));
    for bad in ["-1", "NaN", "inf", "-inf", "x"] {
        assert!(!set_f64_at_least(&mut slot, bits(bad), Rate::zero()), "{bad} must be refused");
    }
    assert_eq!(slot, rate(1_000_000.0));
    assert!(set_f64_at_least(&mut slot, bits("-0"), Rate::zero()));
    assert!(!set_f64_at_least(&mut slot, bits("0.5"), rate(1.0)));
}

#[test]
fn the_defaults_are_what_they_are_said_to_be() {
    let cfg = Config::default();
    assert_eq!(cfg.rx_floor_bps, rate(1_000_000.0));
    assert_eq!(cfg.asym_ratio, rate(0.02));
    assert_eq!(cfg.socket_account_ratio, rate(0.7));
    assert_eq!(cfg.noports_min_rate, rate(5.0));
    assert_eq!(cfg.rcvbuf_min_rate, rate(10.0));
    assert_eq!(cfg.ignore_interfaces, vec!["lo", "tailscale0"]);
    assert_eq!(cfg.discovery_replies, DiscoveryReplies::Quiet);
    assert_eq!((cfg.interval_secs, cfg.asym_sustain_secs, cfg.cooldown_secs), (10, 60, 1800));
    assert_eq!((cfg.block_min_events, cfg.block_window_secs, cfg.block_min_span_secs), (4, 900, 120));
    assert_eq!(cfg.block_pattern, "UFW BLOCK");
    assert_eq!((cfg.self_window_secs, cfg.self_min_active_minutes), (3600, 30));
    assert_eq!((cfg.self_unicast_min_events, cfg.proto_sustain_secs), (4, 60));
    assert!(cfg.ignore_ports.is_empty() && cfg.names.entries.is_empty());
    assert!(cfg.socket_corroboration && cfg.watch_proto && cfg.watch_ipv6 && cfg.notify);
    assert_eq!(cfg.tui_command, "");
    let (unread, notes) = Config::load("x.conf", None, &vec![]);
    assert_eq!(unread.interval_secs, 10);
    assert!(notes.is_empty());
}

#[test]
fn every_key_is_taken() {
    let (cfg, notes) = load(
        "# comment only\n\
         interval_secs = 5 # trailing\n\
         rx_floor_bps=2000000\nasym_ratio = 0.05\nasym_sustain_secs = 30\n\
         socket_corroboration = off\nsocket_account_ratio = 0.5\n\
         ignore_interfaces = lo, , eth0\n\
         block_pattern = DROP ME\nblock_min_events = 9\nblock_window_secs = 10\n\
         block_min_span_secs = 11\nignore_ports = 53, 5353,\ndiscovery_replies = alert\n\
         self_window_secs = 12\nself_min_active_minutes = 13\nself_unicast_min_events = 14\n\
         watch_ipv6 = no\nwatch_proto = yes\nnoports_min_rate = 1.5\nrcvbuf_min_rate = 2\n\
         proto_sustain_secs = 15\nname A8:B5:7C:53:B2:FE = Roku\nname 10.3.59.7 = caldera\n\
         cooldown_secs = 16\nnotify = 0\ntui_command = kitty -e packetminder-tui\n",
    );
    assert!(notes.is_empty(), "{notes:?}");
    assert_eq!(cfg.interval_secs, 5);
    assert_eq!(cfg.rx_floor_bps, rate(2_000_000.0));
    assert_eq!(cfg.asym_ratio, rate(0.05));
    assert_eq!(cfg.socket_account_ratio, rate(0.5));
    assert!(!cfg.socket_corroboration && !cfg.watch_ipv6 && cfg.watch_proto && !cfg.notify);
    assert_eq!(cfg.ignore_interfaces, vec!["lo", "eth0"]);
    assert_eq!(cfg.block_pattern, "DROP ME");
    assert_eq!(cfg.ignore_ports, vec![53, 5353]);
    assert_eq!(cfg.discovery_replies, DiscoveryReplies::Alert);
    assert_eq!(cfg.noports_min_rate, rate(1.5));
    assert_eq!(cfg.names.get("a8:b5:7c:53:b2:fe").map(String::as_str), Some("Roku"));
    assert_eq!(cfg.names.get("10.3.59.7").map(String::as_str), Some("caldera"));
    assert_eq!(cfg.tui_command, "kitty -e packetminder-tui");
    assert_eq!(
        (cfg.asym_sustain_secs, cfg.block_min_events, cfg.block_window_secs),
        (30, 9, 10)
    );
    assert_eq!((cfg.block_min_span_secs, cfg.self_window_secs), (11, 12));
    assert_eq!((cfg.self_min_active_minutes, cfg.self_unicast_min_events), (13, 14));
    assert_eq!((cfg.proto_sustain_secs, cfg.cooldown_secs), (15, 16));
}

#[test]
fn what_cannot_be_taken_is_noted_and_changes_nothing() {
    let (cfg, notes) = load(
        "just words\nno_such_key = 1\ninterval_secs = soon\nignore_ports = 53,dns\n\
         asym_ratio = -1\nrx_floor_bps = NaN\nname = x\nname  = x\nname 10.0.0.1 =\n\
         discovery_replies = maybe\nblock_min_events = -3\n",
    );
    assert_eq!(
        notes,
        vec![
            "x.conf:1: expected `key = value`",
            "x.conf:2: unknown key `no_such_key`",
            "x.conf:3: `interval_secs` has an unparseable or out-of-range value `soon`, keeping the previous value",
            "x.conf:4: `ignore_ports` has an unparseable or out-of-range value `53,dns`, keeping the previous value",
            "x.conf:5: `asym_ratio` has an unparseable or out-of-range value `-1`, keeping the previous value",
            "x.conf:6: `rx_floor_bps` has an unparseable or out-of-range value `NaN`, keeping the previous value",
            "x.conf:7: unknown key `name`",
            "x.conf:8: unknown key `name`",
            "x.conf:9: `name 10.0.0.1` has an unparseable or out-of-range value ``, keeping the previous value",
            "x.conf:10: `discovery_replies` has an unparseable or out-of-range value `maybe`, keeping the previous value",
            "x.conf:11: `block_min_events` has an unparseable or out-of-range value `-3`, keeping the previous value",
        ]
    );
    assert_eq!(cfg.interval_secs, 10);
    assert!(cfg.ignore_ports.is_empty());
    assert_eq!(cfg.asym_ratio, rate(0.02));
    assert_eq!(cfg.discovery_replies, DiscoveryReplies::Quiet);
}

#[test]
fn what_is_loaded_can_be_run_with() {
    let (cfg, notes) = load("interval_secs = 0\ncooldown_secs = 18446744073709551615\n");
    assert!(notes.is_empty());
    assert_eq!(cfg.interval_secs, 1);
    assert_eq!(cfg.cooldown_secs, i64::MAX as u64);
}

#[test]
fn a_single_setting_reports_what_became_of_it() {
    let mut cfg = Config::default();
    let chars = |s: &str| s.chars().collect::<Vec<char>>();
    assert_eq!(cfg.set(&chars("notify"), &chars("nope"), None), Outcome::Taken);
    assert!(!cfg.notify);
    assert_eq!(cfg.set(&chars("asym_ratio"), &chars("0.9"), None), Outcome::Refused);
    assert_eq!(cfg.set(&chars("asymratio"), &chars("0.9"), bits("0.9")), Outcome::Unknown);
}

#[test]
fn the_summary_names_every_threshold() {
    let shown = || Shown {
        rx_floor_mbps: "1.0",
        asym_percent: "2",
        account_percent: "70",
        noports: "5",
        rcvbuf: "10",
    };
    let mut cfg = Config::default();
    assert_eq!(
        cfg.summary(shown()),
        "interval=10s rx_floor=1.0Mbps asym_ratio=2% sustain=60s socket_corroboration=true \
         (70% accounted) block_min_events=4 block_min_span=120s ignore_ports=none \
         self_window=3600s self_min_active_minutes=30 noports_min_rate=5/s rcvbuf_min_rate=10/s \
         proto_sustain=60s named_devices=0 cooldown=1800s notify=true"
    );
    cfg.ignore_ports = vec![53, 5353];
    cfg.watch_proto = false;
    cfg.names.put("a".into(), "b".into());
    let text = cfg.summary(shown());
    assert!(text.contains(" ignore_ports=53,5353 "));
    assert!(text.contains(" proto=off named_devices=1 "));
}

#[test]
fn lines_that_set_nothing_make_no_difference() {
    let plain = "interval_secs = 5\ncooldown_secs = 60\nignore_ports = 1, 2\nasym_ratio = 0.5\n";
    let noisy = "\n# interval_secs = 9\ninterval_secs = 5\nno such line\ncooldown_secs = 60\n\
                 no_such_key = 3\nignore_ports = 1, 2\nasym_ratio = 0.5\nasym_ratio = banana\n\
                 interval_secs = -1\n   \n";
    let ((a, quiet), (b, notes)) = (load(plain), load(noisy));
    assert!(quiet.is_empty());
    assert_eq!(notes.len(), 4);
    let shown = || Shown {
        rx_floor_mbps: "1",
        asym_percent: "50",
        account_percent: "70",
        noports: "5",
        rcvbuf: "10",
    };
    assert_eq!(a.summary(shown()), b.summary(shown()));
    assert_eq!(a.ignore_ports, b.ignore_ports);
    assert_eq!(a.asym_ratio, b.asym_ratio);
    assert_eq!((b.interval_secs, b.cooldown_secs), (5, 60));
    // Without a file, and with one that sets nothing, the defaults stand.
    let (missing, _) = Config::load("x.conf", None, &vec![]);
    let (blank, _) = load("# nothing\nbanana\n");
    let standard = Config::default();
    assert_eq!(missing.summary(shown()), standard.summary(shown()));
    assert_eq!(blank.summary(shown()), standard.summary(shown()));
}
