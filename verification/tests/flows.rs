use packetminder::alert::Alert;
use packetminder::config::{Config, DiscoveryReplies};
use packetminder::discovery::EphemeralRange;
use packetminder::drops::{days_from_civil, parse_iso_epoch, parse_line, parse_line_at, BlockEvent};
use packetminder::flows::{recent_summary, FlowTracker, Intake, Notice, SkipCounts, MAX_FLOW_DSTS};
use packetminder::local::LocalNet;
use packetminder::names::NameBook;
use packetminder::report::{
    compose_alert, may_enrich, names_known, names_resolved, Lookups, MAX_ENRICHERS,
};
use packetminder::sockets::SocketTables;
use packetminder::table::Table;

/// A host streaming into a port nothing is bound to. Unicast, from a neighbour,
/// addressed to this host.
const SAMPLE: &str = "2026-08-03T00:50:53-07:00 ithilien kernel: [UFW BLOCK] IN=wlp1s0 OUT= \
    MAC=3c:3b:ad:16:b7:30:18:db:f2:4d:bb:ee:08:00 SRC=10.3.59.7 DST=10.3.153.246 LEN=1436 \
    TOS=0x00 PREC=0xA0 TTL=128 ID=40959 PROTO=UDP SPT=47998 DPT=37366 LEN=1416";

/// This host's own LLMNR query, looped back into INPUT by the kernel.
const OWN_LOOPBACK: &str = "2026-08-03T10:35:02-07:00 ithilien kernel: [UFW BLOCK] \
    IN=wlp1s0 OUT= MAC= SRC=10.3.153.246 DST=224.0.0.252 LEN=54 TOS=0x00 PREC=0x00 TTL=255 \
    ID=10390 PROTO=UDP SPT=5355 DPT=5355 LEN=34";

/// A neighbour's LLMNR query, addressed to the whole segment.
const NEIGHBOUR_MULTICAST: &str = "2026-08-03T10:12:52-07:00 ithilien kernel: [UFW BLOCK] \
    IN=wlp1s0 OUT= MAC= SRC=fe80:0000:0000:0000:b787:4f5d:1cbb:eb39 \
    DST=ff02:0000:0000:0000:0000:0000:0001:0003 LEN=74 TC=0 HOPLIMIT=255 FLOWLBL=258456 \
    PROTO=UDP SPT=5355 DPT=5355 LEN=34";

const HEADER: &str =
    "   sl  local_address rem_address   st tx_queue rx_queue tr tm->when retrnsmt   uid  timeout inode ref pointer drops\n";

fn ssdp_reply(dport: u16) -> String {
    ssdp_reply_to("10.3.153.246", dport)
}

fn ssdp_reply_to(dst: &str, dport: u16) -> String {
    format!(
        "2026-08-28T00:42:04-07:00 ithilien kernel: [UFW BLOCK] IN=wlp1s0 OUT= \
         MAC=3c:3b:ad:16:b7:30:a8:b5:7c:53:b2:fe:08:00 SRC=10.3.193.195 \
         DST={dst} LEN=328 TOS=0x00 PREC=0x00 TTL=64 ID=46308 DF PROTO=UDP \
         SPT=1900 DPT={dport} LEN=308"
    )
}

fn reply_from(sport: u16, dport: u16) -> String {
    format!(
        "2026-08-28T00:42:04-07:00 ithilien kernel: [UFW BLOCK] IN=wlp1s0 OUT= \
         MAC=3c:3b:ad:16:b7:30:a8:b5:7c:53:b2:fe:08:00 SRC=10.3.193.195 \
         DST=10.3.153.246 LEN=328 TOS=0x00 PREC=0x00 TTL=64 ID=46308 DF PROTO=UDP \
         SPT={sport} DPT={dport} LEN=308"
    )
}

fn row(local: &str, port: u16) -> String {
    format!(
        "  100: {local}:{port:04X} 00000000:0000 07 00000000:00000000 00:00000000 00000000  1000        0 4711 2 0000000000000000 0\n"
    )
}

/// A socket on the wildcard address.
fn wildcard(port: u16) -> SocketTables {
    let text = format!("{HEADER}{}", row("00000000", port));
    SocketTables::read(Some(&text), None, None, None)
}

/// A socket on 127.0.0.1.
fn loopback(port: u16) -> SocketTables {
    let text = format!("{HEADER}{}", row("0100007F", port));
    SocketTables::read(Some(&text), None, None, None)
}

fn no_sockets() -> SocketTables {
    SocketTables::read(Some(HEADER), Some(HEADER), None, None)
}

fn tracker() -> FlowTracker {
    FlowTracker::with_local(LocalNet::from_parts(&["10.3.153.246/16"], &["10.3.255.255"]))
}

fn event(record: &str, ts: i64) -> BlockEvent {
    let mut event = parse_line(record).expect("should parse");
    event.ts = ts;
    event
}

fn tick(tracker: &mut FlowTracker, cfg: &Config, now: i64, tables: &SocketTables) -> Vec<Alert> {
    let book = NameBook::new(Table::new());
    let tick = tracker.tick_at(cfg, now, tables);
    let mut alerts: Vec<Alert> = Vec::new();
    for facts in &tick.due {
        let names = names_known(&book, facts, None, None, now);
        alerts.push(compose_alert(facts, &names, cfg));
    }
    alerts.extend(tick.alerts);
    alerts
}

/// Feed a record in often enough and long enough to clear both thresholds.
fn sustain(
    tracker: &mut FlowTracker,
    cfg: &Config,
    record: &str,
    base: i64,
    tables: &SocketTables,
) -> Vec<Alert> {
    for i in 0..6 {
        tracker.record(event(record, base + i * 40), cfg);
    }
    tick(tracker, cfg, base + 200, tables)
}

fn ended_as_discovery(tracker: &FlowTracker, src: &str, dport: u16) -> Option<&'static str> {
    tracker.state_of(src, "UDP", dport).and_then(|state| state.alerted_as_discovery)
}

#[test]
fn parses_a_real_drop_record() {
    let event = parse_line(SAMPLE).expect("should parse");
    assert_eq!(event.src, "10.3.59.7");
    assert_eq!(event.dst, "10.3.153.246");
    assert_eq!(event.iface, "wlp1s0");
    assert_eq!(event.proto, "UDP");
    assert_eq!(event.sport, 47998);
    assert_eq!(event.dport, 37366);
    // First LEN wins: bytes on the wire, not the UDP payload length.
    assert_eq!(event.len, 1436);
}

#[test]
fn flows_parses_a_real_drop_record() {
    let event = parse_line_at(SAMPLE, 5).expect("should parse");
    assert_eq!(event.src, "10.3.59.7");
    assert_eq!(event.dst, "10.3.153.246");
    assert_eq!(event.iface, "wlp1s0");
    assert_eq!(event.proto, "UDP");
    assert_eq!(event.sport, 47998);
    assert_eq!(event.dport, 37366);
    assert_eq!(event.len, 1436);
    assert_eq!(event.ts, 1_785_743_453);
}

#[test]
fn parses_timestamp_with_zone_offset() {
    // 2026-08-03T00:50:53-07:00 == 2026-08-03T07:50:53Z
    let epoch = parse_iso_epoch("2026-08-03T00:50:53-07:00").expect("should parse");
    assert_eq!(epoch, 1_785_743_453);
}

#[test]
fn flows_parses_timestamp_with_zone_offset() {
    let epoch = parse_iso_epoch("2026-08-03T00:50:53-07:00").expect("should parse");
    assert_eq!(epoch, 1_785_743_453);
}

#[test]
fn ignores_lines_without_addresses() {
    assert!(parse_line("2026-08-03T00:50:53-07:00 ithilien kernel: nothing here").is_none());
}

#[test]
fn flows_ignores_lines_without_addresses() {
    assert!(parse_line("2026-08-03T00:50:53-07:00 ithilien kernel: nothing here").is_none());
}

#[test]
fn sustained_flow_alerts_and_brief_flow_does_not() {
    let cfg = Config { block_min_events: 4, block_min_span_secs: 120, ..Config::default() };
    let base = 1_785_743_453;

    let mut sustained = tracker();
    for i in 0..6 {
        assert!(sustained.record(event(SAMPLE, base + i * 40), &cfg));
    }
    assert_eq!(tick(&mut sustained, &cfg, base + 200, &no_sockets()).len(), 1);

    let mut brief = tracker();
    for i in 0..3 {
        let mut e = event(SAMPLE, base + i);
        e.src = "10.3.59.8".into();
        assert!(brief.record(e, &cfg));
    }
    assert!(tick(&mut brief, &cfg, base + 3, &no_sockets()).is_empty());
}

#[test]
fn flows_sustained_flow_alerts_and_brief_flow_does_not() {
    let cfg = Config { block_min_events: 4, block_min_span_secs: 120, ..Config::default() };
    let base = 1_785_743_453;

    let mut sustained = tracker();
    for i in 0..6 {
        assert!(sustained.record(event(SAMPLE, base + i * 40), &cfg));
    }
    let found = sustained.tick_at(&cfg, base + 200, &no_sockets());
    assert_eq!(found.due.len(), 1);
    assert!(found.alerts.is_empty());

    let mut brief = tracker();
    for i in 0..3 {
        let mut e = event(SAMPLE, base + i);
        e.src = "10.3.59.8".into();
        assert!(brief.record(e, &cfg));
    }
    assert!(brief.tick_at(&cfg, base + 3, &no_sockets()).due.is_empty());
}

#[test]
fn never_alerts_on_this_hosts_own_loopback_multicast() {
    let cfg = Config::default();
    let base = 1_785_777_302;
    let mut tracker = tracker();
    // Well past both thresholds: only the filter can keep this quiet.
    for i in 0..20 {
        assert!(
            !tracker.record(event(OWN_LOOPBACK, base + i * 30), &cfg),
            "self-sourced must not record"
        );
    }
    assert!(tick(&mut tracker, &cfg, base + 600, &no_sockets()).is_empty());
    assert_eq!(tracker.skipped().self_sourced, 20);
}

#[test]
fn flows_never_alerts_on_this_hosts_own_loopback_multicast() {
    let cfg = Config::default();
    let base = 1_785_777_302;
    let mut tracker = tracker();
    for i in 0..20 {
        let e = event(OWN_LOOPBACK, base + i * 30);
        assert_eq!(tracker.should_record(&e, &cfg), Intake::SelfSourced { unicast: false });
        assert!(!tracker.record(e, &cfg), "self-sourced must not record");
    }
    assert!(tracker.tick_at(&cfg, base + 600, &no_sockets()).due.is_empty());
    assert_eq!(tracker.skipped().self_sourced, 20);
}

#[test]
fn never_alerts_on_traffic_addressed_to_a_group() {
    let cfg = Config::default();
    let base = 1_785_773_572;
    let mut tracker = tracker();
    for i in 0..20 {
        assert!(
            !tracker.record(event(NEIGHBOUR_MULTICAST, base + i * 30), &cfg),
            "multicast must not record"
        );
    }
    assert!(tick(&mut tracker, &cfg, base + 600, &no_sockets()).is_empty());
    // Source is a neighbour, so this can only have been caught by the
    // destination check, the expanded IPv6 form and all.
    assert_eq!(tracker.skipped().group_dest, 20);
}

#[test]
fn flows_never_alerts_on_traffic_addressed_to_a_group() {
    let cfg = Config::default();
    let base = 1_785_773_572;
    let mut tracker = tracker();
    for i in 0..20 {
        let e = event(NEIGHBOUR_MULTICAST, base + i * 30);
        assert!(!tracker.record(e, &cfg), "multicast must not record");
    }
    assert!(tracker.tick_at(&cfg, base + 600, &no_sockets()).due.is_empty());
    assert_eq!(tracker.skipped().group_dest, 20);
}

#[test]
fn subnet_broadcast_counts_as_a_group_address() {
    let cfg = Config::default();
    let mut tracker = tracker();
    let mut e = parse_line(SAMPLE).expect("should parse");
    e.dst = "10.3.255.255".into();
    assert!(!tracker.record(e, &cfg));
    assert_eq!(tracker.skipped().group_dest, 1);
}

#[test]
fn flows_subnet_broadcast_counts_as_a_group_address() {
    let cfg = Config::default();
    let mut tracker = tracker();
    let mut e = parse_line(SAMPLE).expect("should parse");
    e.dst = "10.3.255.255".into();
    assert!(!tracker.record(e, &cfg));
    assert_eq!(tracker.skipped().group_dest, 1);
}

#[test]
fn a_corroborated_reply_to_our_own_discovery_never_pops_up() {
    let port = 43285;
    let cfg = Config::default();
    let mut tracker = tracker();
    let alerts =
        sustain(&mut tracker, &cfg, &ssdp_reply(port), 1_787_000_000, &wildcard(port));

    assert_eq!(alerts.len(), 1, "the flow is still reported");
    let a = &alerts[0];
    assert_eq!(a.kind, "discovery-reply", "not a flood, and must not say so");
    assert!(!a.popup, "quiet is the default when corroborated: journal only");
    assert_eq!(a.urgency, "low");
    assert!(a.body.contains("SSDP"), "the protocol has to be named: {}", a.body);
    assert!(
        !a.body.contains("Nothing is listening"),
        "the blocked-flow wording must not leak into this: {}",
        a.body
    );
    // Keyed on the protocol, not the ephemeral port, so the next discovery
    // round replaces this rather than stacking beside it.
    assert_eq!(a.key, "discovery-10.3.193.195-SSDP");
}

#[test]
fn an_uncorroborated_reply_is_explained_but_still_interrupts() {
    let cfg = Config::default();
    let mut tracker = tracker();
    let alerts = sustain(&mut tracker, &cfg, &ssdp_reply(43285), 1_787_000_000, &no_sockets());

    assert_eq!(alerts.len(), 1);
    let a = &alerts[0];
    assert_eq!(a.kind, "discovery-reply");
    assert!(a.popup, "an uncorroborated dismissal does not earn silence");
    assert_eq!(a.urgency, "normal");
    assert!(
        a.title.contains("unsolicited"),
        "the title must not claim we asked: {}",
        a.title
    );
}

#[test]
fn discovery_replies_can_be_asked_for_or_filtered_outright() {
    let base = 1_787_000_000;
    let port = 43285;

    let alert_cfg =
        Config { discovery_replies: DiscoveryReplies::Alert, ..Config::default() };
    let mut asked_for = tracker();
    let alerts = sustain(&mut asked_for, &alert_cfg, &ssdp_reply(port), base, &wildcard(port));
    assert_eq!(alerts.len(), 1);
    assert!(alerts[0].popup, "`alert` opts back in to the popup");
    assert_eq!(alerts[0].urgency, "low", "explained and benign, even when shown");

    // `ignore` filters at intake, so it does not depend on corroboration.
    let ignore_cfg =
        Config { discovery_replies: DiscoveryReplies::Ignore, ..Config::default() };
    let mut filtered = tracker();
    for i in 0..6 {
        let e = event(&ssdp_reply(40001), base + i * 40);
        assert!(!filtered.record(e, &ignore_cfg), "must not reach the tracker");
    }
    assert!(tick(&mut filtered, &ignore_cfg, base + 200, &no_sockets()).is_empty());
    assert_eq!(filtered.skipped().discovery_reply, 6);
}

#[test]
fn a_new_round_on_a_new_port_is_held_by_the_cooldown() {
    let (round1, round2, round3) = (40001, 40002, 40003);
    let cfg = Config::default();
    let mut tracker = tracker();
    let base = 1_787_000_000;

    let first = sustain(&mut tracker, &cfg, &ssdp_reply(round1), base, &no_sockets());
    assert_eq!(first.len(), 1, "the first round is reported");

    let second = sustain(&mut tracker, &cfg, &ssdp_reply(round2), base + 300, &no_sockets());
    assert!(
        second.is_empty(),
        "a second round inside the cooldown must not alert again: {:?}",
        second.iter().map(|a| &a.title).collect::<Vec<_>>()
    );

    // Past the cooldown the subject is allowed to speak up again.
    let later = base + cfg.cooldown_secs as i64 + 1000;
    let third = sustain(&mut tracker, &cfg, &ssdp_reply(round3), later, &no_sockets());
    assert_eq!(third.len(), 1, "past the cooldown it reports again");
}

#[test]
fn corroboration_must_cover_every_address_the_flow_was_sent_to() {
    // A socket bound to one specific address, and a flow that lands on it and on
    // an address the socket cannot receive.
    let port = 43285;
    let cfg = Config::default();
    let mut split = tracker();
    let base = 1_787_000_000;
    for i in 0..6 {
        let dst = if i % 2 == 0 { "127.0.0.1" } else { "10.3.153.246" };
        split.record(event(&ssdp_reply_to(dst, port), base + i * 40), &cfg);
    }
    let alerts = tick(&mut split, &cfg, base + 200, &loopback(port));
    assert_eq!(alerts.len(), 1);
    assert!(
        alerts[0].popup,
        "half-covered is uncorroborated: the last packet must not vouch for the rest"
    );
    assert!(alerts[0].title.contains("unsolicited"));

    // The same split flow against a wildcard binding is fully covered.
    let mut covered = tracker();
    for i in 0..6 {
        let dst = if i % 2 == 0 { "127.0.0.1" } else { "10.3.153.246" };
        covered.record(event(&ssdp_reply_to(dst, port), base + i * 40), &cfg);
    }
    let alerts = tick(&mut covered, &cfg, base + 200, &wildcard(port));
    assert_eq!(alerts.len(), 1);
    assert!(
        !alerts[0].popup,
        "a wildcard covers every local address, so the split flow is corroborated"
    );
}

#[test]
fn a_quiet_round_cannot_silence_an_uncorroborated_one() {
    let cfg = Config::default();
    let mut tracker = tracker();
    let base = 1_787_000_000;
    let port = 43285;
    let tables = wildcard(port);

    let quiet = sustain(&mut tracker, &cfg, &ssdp_reply(port), base, &tables);
    assert_eq!(quiet.len(), 1);
    assert!(!quiet[0].popup, "the corroborated round is quiet");

    // Same source, same protocol, well inside the cooldown the quiet round
    // just started, but nothing is bound to this port.
    let loud = sustain(&mut tracker, &cfg, &ssdp_reply(40001), base + 60, &tables);
    assert_eq!(loud.len(), 1, "the uncorroborated round must still be raised");
    assert!(loud[0].popup, "and must still interrupt");
    assert!(loud[0].title.contains("unsolicited"));
}

#[test]
fn a_round_suppressed_by_the_cooldown_never_reports_stopping() {
    let (round1, round2) = (40001, 40002);
    let cfg = Config::default();
    let mut tracker = tracker();
    let base = 1_787_000_000;

    sustain(&mut tracker, &cfg, &ssdp_reply(round1), base, &no_sockets());
    let second = sustain(&mut tracker, &cfg, &ssdp_reply(round2), base + 60, &no_sockets());
    assert!(second.is_empty(), "second round inside the cooldown is suppressed");

    let suppressed = tracker
        .state_of("10.3.193.195", "UDP", round2)
        .expect("the suppressed flow is still tracked");
    assert!(suppressed.alerted_at.is_some(), "bookkeeping still happened");
    assert!(
        !suppressed.announced,
        "but nothing was said, so nothing may report having stopped"
    );
}

#[test]
fn a_flow_whose_source_port_changes_is_no_longer_discovery() {
    let cfg = Config::default();
    let mut tracker = tracker();
    let base = 1_787_000_000;
    let port = 43285;

    tracker.record(event(&ssdp_reply(port), base), &cfg);
    for i in 1..6 {
        tracker.record(event(&reply_from(40000, port), base + i * 40), &cfg);
    }

    let alerts = tick(&mut tracker, &cfg, base + 200, &wildcard(port));
    assert_eq!(alerts.len(), 1);
    assert_eq!(
        alerts[0].kind, "blocked-flow",
        "a stream that is only sometimes reply-shaped is not a reply stream"
    );
    assert!(alerts[0].popup, "and it keeps its popup even with a socket bound");
}

#[test]
fn a_revoked_flow_does_not_inherit_the_discovery_cooldown() {
    let port = 43285;
    let cfg = Config::default();
    let mut tracker = tracker();
    let base = 1_787_000_000;

    let opening = sustain(&mut tracker, &cfg, &ssdp_reply(port), base, &no_sockets());
    assert_eq!(opening.len(), 1);
    assert_eq!(opening[0].kind, "discovery-reply", "the bait round is reported");

    // The flood arrives on the same flow, well inside the cooldown the
    // discovery report started.
    let flood_start = base + 300;
    for i in 0..6 {
        tracker.record(event(&reply_from(40000, port), flood_start + i * 40), &cfg);
    }
    let alerts = tick(&mut tracker, &cfg, flood_start + 200, &no_sockets());
    assert_eq!(alerts.len(), 1, "the reclassified flood must alert immediately");
    assert_eq!(alerts[0].kind, "blocked-flow");
    assert!(alerts[0].popup, "and it interrupts — no inherited quiet");
    assert_eq!(
        ended_as_discovery(&tracker, "10.3.193.195", port),
        None,
        "and it will sign off as what it became, not what it opened as"
    );

    let notices = tracker.take_notices();
    assert_eq!(notices.len(), 1);
    assert_eq!(notices[0].source(), "10.3.193.195");
    assert_eq!(
        notices[0].line("Roku (10.3.193.195)"),
        "discovery-revoked — Roku (10.3.193.195) → udp/43285 stopped looking like SSDP replies; \
         re-judging as a blocked flow"
    );
    assert!(tracker.take_notices().is_empty());
}

#[test]
fn a_flow_signs_off_the_way_it_was_announced() {
    let cfg = Config::default();
    let base = 1_787_000_000;

    let mut discovery_flow = tracker();
    sustain(&mut discovery_flow, &cfg, &ssdp_reply(43285), base, &no_sockets());
    assert_eq!(
        ended_as_discovery(&discovery_flow, "10.3.193.195", 43285),
        Some("SSDP"),
        "a reported discovery flow must remember that is what it was"
    );

    let mut flood = tracker();
    sustain(&mut flood, &cfg, SAMPLE, base, &no_sockets());
    assert_eq!(
        ended_as_discovery(&flood, "10.3.59.7", 37366),
        None,
        "a flood must not sign off as discovery"
    );

    // Past the window both have ended, and say so in the words they used.
    let end = base + 200 + cfg.block_window_secs as i64 + 1;
    assert!(tick(&mut discovery_flow, &cfg, end, &no_sockets()).is_empty());
    assert_eq!(
        discovery_flow.take_notices()[0].line("10.3.193.195"),
        "discovery-reply-ended — 10.3.193.195 → SSDP replies stopped after 3m (6 drops logged)"
    );
    assert!(tick(&mut flood, &cfg, end, &no_sockets()).is_empty());
    let ended = flood.take_notices();
    assert_eq!(
        ended[0].line("caldera (10.3.59.7)"),
        "blocked-flow-ended — caldera (10.3.59.7) → udp/37366 stopped after 3m (6 drops logged)"
    );
    assert!(matches!(ended[0], Notice::Ended { .. }));
    assert!(flood.state_of("10.3.59.7", "UDP", 37366).is_none());
}

#[test]
fn a_real_flood_is_untouched_by_the_discovery_rule() {
    let cfg = Config::default();
    let mut tracker = tracker();
    let alerts = sustain(&mut tracker, &cfg, SAMPLE, 1_785_743_453, &no_sockets());

    assert_eq!(alerts.len(), 1);
    assert_eq!(alerts[0].kind, "blocked-flow");
    assert!(alerts[0].popup, "a real flood still interrupts");
    assert_eq!(alerts[0].urgency, "critical");
}

#[test]
fn ignore_ports_drops_records_before_anything_else() {
    let cfg = Config { ignore_ports: vec![37366], ..Config::default() };
    let mut tracker = tracker();
    let e = parse_line(SAMPLE).expect("should parse");
    assert!(!tracker.record(e, &cfg));
    assert_eq!(tracker.skipped().ignored_port, 1);
}

#[test]
fn flows_ignore_ports_drops_records_before_anything_else() {
    let cfg = Config { ignore_ports: vec![37366], ..Config::default() };
    let mut tracker = tracker();
    let e = parse_line(SAMPLE).expect("should parse");
    assert_eq!(tracker.should_record(&e, &cfg), Intake::IgnoredPort);
    assert!(!tracker.record(e, &cfg));
    assert_eq!(tracker.skipped().ignored_port, 1);
}

#[test]
fn a_blocked_flow_is_worded_in_full() {
    let cfg = Config::default();
    let mut tracker = tracker();
    let alerts = sustain(&mut tracker, &cfg, SAMPLE, 1_785_743_453, &no_sockets());
    let a = &alerts[0];
    assert_eq!(a.key, "flow-10.3.59.7-udp-37366");
    assert_eq!(a.title, "10.3.59.7 — blocked udp/37366");
    assert_eq!(a.body, "6 drops over 3m on wlp1s0, still going. Nothing is listening.");
    assert_eq!(
        a.detail,
        "8.4 KiB logged. ufw rate-limits its own logging, so the count measures persistence, \
         not volume. The sender is getting no feedback because the drop is silent. Source: LAN \
         from udp/47998"
    );

    // With something on the port, the firewall is what starves it.
    let mut starved = FlowTracker::with_local(LocalNet::from_parts(&["10.3.153.246/16"], &[]));
    let alerts = sustain(&mut starved, &cfg, SAMPLE, 1_785_743_453, &wildcard(37366));
    assert_eq!(
        alerts[0].body,
        "6 drops over 3m on wlp1s0, still going. Something IS listening — the firewall is \
         blocking it."
    );
    assert!(!alerts[0].detail.contains("no feedback"));
}

#[test]
fn a_reply_names_the_command_that_asked() {
    let cfg = Config::default();
    let port = 43285;
    let mut tracker = tracker();
    for i in 0..6 {
        tracker.record(event(&ssdp_reply(port), 1_787_000_000 + i * 40), &cfg);
    }
    let found = tracker.tick_at(&cfg, 1_787_000_200, &wildcard(port));
    let mut book = NameBook::new(Table::new());
    let lookups = Lookups {
        mac: Some("a8:b5:7c:53:b2:fe".into()),
        hostname: Some("X01000EKSRNP.local".into()),
        listed: Some("Roku, Inc".into()),
        org: None,
        asker: Some("spotify".into()),
    };
    let names = names_resolved(&mut book, &found.due[0], &lookups, 1_787_000_200);
    let a = compose_alert(&found.due[0], &names, &cfg);
    assert_eq!(a.title, "X01000EKSRNP.local (10.3.193.195) — SSDP reply dropped");
    assert_eq!(
        a.body,
        "Roku\nAnswering this host's own SSDP discovery — spotify asked, and the firewall \
         dropped the reply. 6 drops over 3m on wlp1s0. Discovery is broken here, not an \
         intrusion."
    );
    assert!(a.detail.contains("unicast from 10.3.193.195:1900, so conntrack"));
    assert!(a.detail.ends_with("Source: LAN, a8:b5:7c:53:b2:fe"));

    // What was looked up is remembered, so building it again changes only what
    // was never remembered.
    let again = names_known(&book, &found.due[0], Some("a8:b5:7c:53:b2:fe"), None, 1_787_000_300);
    let bare = compose_alert(&found.due[0], &again, &cfg);
    assert!(bare.body.contains("the asking socket is still open"));
    assert!(!bare.reads_as(&a));
    assert!(a.reads_as(&a.copy()));
    assert_eq!(bare.key, a.key);
}

#[test]
fn a_wildcard_of_the_other_family_vouches_for_nothing() {
    let port = 43285;
    let cfg = Config::default();
    let mut tracker = tracker();
    let text = format!("{HEADER}{}", row("00000000000000000000000000000000", port));
    let tables = SocketTables::read(None, Some(&text), None, None);
    let alerts = sustain(&mut tracker, &cfg, &ssdp_reply(port), 1_787_000_000, &tables);
    assert!(alerts[0].popup, "a bare [::] claims nothing for IPv4");

    // A v4-mapped binding is provably able to take it.
    let mut mapped = FlowTracker::with_local(LocalNet::from_parts(&["10.3.153.246/16"], &[]));
    let text = format!("{HEADER}{}", row("0000000000000000FFFF0000F699030A", port));
    let tables = SocketTables::read(None, Some(&text), None, None);
    let alerts = sustain(&mut mapped, &cfg, &ssdp_reply(port), 1_787_000_000, &tables);
    assert!(!alerts[0].popup);
}

#[test]
fn too_many_destinations_are_never_corroborated() {
    let port = 43285;
    let cfg = Config::default();
    let mut tracker = tracker();
    let base = 1_787_000_000;
    for i in 0..=MAX_FLOW_DSTS as i64 {
        let dst = format!("10.3.1.{i}");
        tracker.record(event(&ssdp_reply_to(&dst, port), base + i * 40), &cfg);
    }
    let state = tracker.state_of("10.3.193.195", "UDP", port).expect("tracked");
    assert!(state.dst_overflow);
    assert_eq!(state.dsts.len(), MAX_FLOW_DSTS);
    let alerts = tick(&mut tracker, &cfg, base + 400, &wildcard(port));
    assert!(alerts[0].popup);
}

#[test]
fn skipped_records_are_summed_up_in_one_sentence() {
    assert_eq!(SkipCounts::none().summary(), None);
    let counts =
        SkipCounts { self_sourced: 3, group_dest: 4, ignored_port: 1, discovery_reply: 2 };
    assert_eq!(counts.total(), 10);
    assert_eq!(
        counts.summary().as_deref(),
        Some(
            "10 record(s) ignored: 3 sent by this host, 4 addressed to a multicast or broadcast \
             group, 1 on an ignored port, 2 answering this host's own discovery"
        )
    );
}

#[test]
fn the_busiest_flows_come_first() {
    let cfg = Config::default();
    let mut tracker = tracker();
    assert!(tracker.recent(3).is_none());
    let base = 1_785_743_453;
    for (src, drops) in [("10.3.59.1", 2), ("10.3.59.2", 5), ("10.3.59.3", 2), ("10.3.59.4", 1)] {
        for i in 0..drops {
            let mut e = event(SAMPLE, base + i);
            e.src = src.into();
            tracker.record(e, &cfg);
        }
    }
    let recent = tracker.recent(3).expect("active");
    let labels: Vec<String> = recent.iter().map(|r| format!("<{}>", r.src)).collect();
    assert_eq!(
        recent_summary(&recent, &labels),
        "<10.3.59.2> → udp/37366 (5 drops); <10.3.59.1> → udp/37366 (2 drops); \
         <10.3.59.3> → udp/37366 (2 drops)"
    );
    assert_eq!(tracker.recent(0).expect("active").len(), 0);
}

#[test]
fn a_port_outside_the_kernels_range_is_no_place_for_a_reply() {
    let cfg = Config::default();
    let local = LocalNet::from_parts(&["10.3.153.246/16"], &[]);
    let mut tracker = FlowTracker::new(local, EphemeralRange { floor: 50000, ceiling: 50100 });
    let alerts = sustain(&mut tracker, &cfg, &ssdp_reply(43285), 1_787_000_000, &no_sockets());
    assert_eq!(alerts[0].kind, "blocked-flow");
}

#[test]
fn counters_that_are_full_say_so() {
    let cfg = Config::default();
    let mut tracker = tracker();
    let mut e = event(SAMPLE, 5);
    e.len = u64::MAX;
    assert!(tracker.has_room(&e, &cfg));
    tracker.record(e, &cfg);
    assert!(!tracker.has_room(&event(SAMPLE, 6), &cfg));
    let mut other = event(SAMPLE, 6);
    other.dport = 1;
    assert!(tracker.has_room(&other, &cfg));
    // A record that is filtered out moves no counter of the full flow.
    let ignoring = Config { ignore_ports: vec![37366], ..Config::default() };
    assert!(tracker.has_room(&event(SAMPLE, 6), &ignoring));
    // One that joins a flow moves no count of filtered ones.
    tracker.skipped.group_dest = u64::MAX;
    let mut third = event(SAMPLE, 6);
    third.dport = 2;
    assert!(tracker.has_room(&third, &cfg));
    assert!(tracker.record(third, &cfg));
    assert!(!tracker.has_room(&event(NEIGHBOUR_MULTICAST, 6), &cfg));
    assert!(!tracker.has_room(&event(OWN_LOOPBACK, 6), &cfg));
}

#[test]
fn addresses_are_read_again_once_a_minute() {
    let cfg = Config { ignore_ports: vec![9], ..Config::default() };
    let output = "2: wlp1s0    inet 10.3.153.246/16 brd 10.3.255.255 scope global wlp1s0\n";
    let local = LocalNet::detect(1000, Some(output));
    let mut tracker = FlowTracker::with_local(local);
    let e = event(SAMPLE, 1000);
    assert!(!tracker.wants_addresses(&e, &cfg, 1059));
    assert!(tracker.wants_addresses(&e, &cfg, 1060));
    let mut ignored = event(SAMPLE, 1000);
    ignored.dport = 9;
    assert!(!tracker.wants_addresses(&ignored, &cfg, 5000));

    // The address moved: what used to be this host is now a stranger.
    tracker.refresh_addresses(1060, Some("2: wlp1s0    inet 10.9.9.9/16 scope global wlp1s0"));
    let mut own = event(SAMPLE, 1061);
    own.src = "10.9.9.9".into();
    assert_eq!(tracker.should_record(&own, &cfg), Intake::SelfSourced { unicast: true });
    assert!(!tracker.record(own, &cfg));
    assert_eq!(
        tracker.selfblock_summary().as_deref(),
        Some("10.3.153.246 → udp/37366 (1 drops in 1 active minute(s))")
    );
}

#[test]
fn enrichment_is_bounded() {
    assert!(may_enrich(0));
    assert!(may_enrich(MAX_ENRICHERS - 1));
    assert!(!may_enrich(MAX_ENRICHERS));
}

#[test]
fn odd_timestamps_are_handled() {
    assert_eq!(parse_iso_epoch("1970-01-01T00:00:00"), Some(0));
    assert_eq!(parse_iso_epoch("1970-01-01T00:00:00Z"), Some(0));
    assert_eq!(parse_iso_epoch("1970-01-01T01:00:00+01"), Some(0));
    assert_eq!(parse_iso_epoch("1970-01-01T05:30:00+05:30"), Some(0));
    assert_eq!(parse_iso_epoch("1970-01-01T05:30:00+0530"), Some(1800));
    assert_eq!(parse_iso_epoch("2000-02-29T00:00:00"), Some(951_782_400));
    assert_eq!(parse_iso_epoch("1969-12-31T23:59:59"), Some(-1));
    assert_eq!(parse_iso_epoch("1970-01-01T00:00:00+x"), None);
    assert_eq!(parse_iso_epoch("1970-01-01T00:00"), None);
    assert_eq!(parse_iso_epoch("1970-0a-01T00:00:00"), None);
    assert_eq!(parse_iso_epoch("1970é01-01T00:00:00"), None);
    let e = parse_line_at("now SRC=a DST=b PROTO=c SPT=70000 DPT=12 LEN=x", 77).expect("parses");
    assert_eq!((e.ts, e.sport, e.dport, e.len), (77, 0, 12, 0));
    assert_eq!(e.iface, "?");
}

#[test]
fn a_cooldown_outlives_the_flow_it_was_earned_by() {
    let cfg = Config::default();
    let mut tracker = tracker();
    let first = sustain(&mut tracker, &cfg, SAMPLE, 0, &no_sockets());
    assert_eq!(first.len(), 1);
    // The flow goes quiet for longer than the window, and is forgotten.
    assert!(tick(&mut tracker, &cfg, 1101, &no_sockets()).is_empty());
    assert!(tracker.state_of("10.3.59.7", "UDP", 37366).is_none());
    // It comes back within the cooldown, and is held.
    let second = sustain(&mut tracker, &cfg, SAMPLE, 1110, &no_sockets());
    assert!(second.is_empty(), "still inside the cooldown");
    let state = tracker.state_of("10.3.59.7", "UDP", 37366).expect("tracked again");
    assert!(!state.announced && state.alerted_at.is_none());
    assert!(tick(&mut tracker, &cfg, 1999, &no_sockets()).is_empty());
    // The moment the cooldown is over, it may speak again.
    assert_eq!(tick(&mut tracker, &cfg, 2000, &no_sockets()).len(), 1);
    // Another port of the same device was never held.
    let elsewhere = SAMPLE.replace("DPT=37366", "DPT=37367");
    assert_eq!(sustain(&mut tracker, &cfg, &elsewhere, 2010, &no_sockets()).len(), 1);
}

#[test]
fn a_blocked_flow_is_reported_exactly_when_it_is_sustained() {
    let cfg = Config::default();
    // Enough drops, a second too short.
    let mut brief = tracker();
    for ts in [0, 40, 80, 119] {
        brief.record(event(SAMPLE, ts), &cfg);
    }
    assert!(tick(&mut brief, &cfg, 120, &no_sockets()).is_empty());
    brief.record(event(SAMPLE, 120), &cfg);
    let due = brief.tick_at(&cfg, 120, &no_sockets()).due;
    assert_eq!(due.len(), 1);
    assert_eq!(
        (due[0].src.as_str(), due[0].proto_lower.as_str(), due[0].dport, due[0].total),
        ("10.3.59.7", "udp", 37366, 5)
    );
    // Long enough, but one drop has left the window.
    let mut old = tracker();
    for ts in [0, 300, 600, 900] {
        old.record(event(SAMPLE, ts), &cfg);
    }
    assert!(tick(&mut old, &cfg, 901, &no_sockets()).is_empty());
    let mut just = tracker();
    for ts in [0, 300, 600, 900] {
        just.record(event(SAMPLE, ts), &cfg);
    }
    assert_eq!(tick(&mut just, &cfg, 900, &no_sockets()).len(), 1);
}

#[test]
fn a_second_round_is_reported_only_on_the_other_tier() {
    let cfg = Config::default();
    let base = 1_787_000_000;
    for (second_tables, reported) in [(wildcard(40002), 1), (no_sockets(), 0)] {
        let mut tracker = tracker();
        let first = sustain(&mut tracker, &cfg, &ssdp_reply(40001), base, &no_sockets());
        assert_eq!(first.len(), 1);
        let second = sustain(&mut tracker, &cfg, &ssdp_reply(40002), base + 300, &second_tables);
        assert_eq!(second.len(), reported);
    }
}

#[test]
fn a_revoked_flow_has_to_be_sustained_like_any_other() {
    let cfg = Config::default();
    let mut tracker = tracker();
    let base = 1_787_000_000;
    for i in 0..2 {
        tracker.record(event(&ssdp_reply(43285), base + i * 40), &cfg);
    }
    // The record that revokes it is the third, one short of enough.
    tracker.record(event(&reply_from(40000, 43285), base + 120), &cfg);
    assert!(tick(&mut tracker, &cfg, base + 120, &no_sockets()).is_empty());
    tracker.record(event(&reply_from(40000, 43285), base + 121), &cfg);
    let alerts = tick(&mut tracker, &cfg, base + 121, &no_sockets());
    assert_eq!(alerts.len(), 1);
    assert_eq!(alerts[0].kind, "blocked-flow");
}

#[test]
fn a_repeated_field_changes_nothing() {
    let plain = parse_line_at(SAMPLE, 5).expect("should parse");
    for more in ["SRC=1.2.3.4", "PROTO=TCP", "DPT=1", "SPT=x", "IN=eth9", "LEN=9", "DST="] {
        let again = parse_line_at(&format!("{SAMPLE} {more}"), 5).expect("should parse");
        assert_eq!(
            (&again.src, &again.dst, &again.proto, &again.iface),
            (&plain.src, &plain.dst, &plain.proto, &plain.iface)
        );
        assert_eq!(
            (again.sport, again.dport, again.len, again.ts),
            (plain.sport, plain.dport, plain.len, plain.ts)
        );
    }
}

#[test]
fn four_centuries_are_always_as_long() {
    for rest in ["-01-01T00:00:00+00:00", "-02-28T23:59:59+00:00", "-08-03T00:50:53-07:00"] {
        let early = parse_iso_epoch(&format!("1999{rest}")).expect("a date");
        let late = parse_iso_epoch(&format!("2399{rest}")).expect("a date");
        assert_eq!(late - early, 146_097 * 86_400);
    }
}

#[test]
fn facts_name_the_address_of_the_latest_packet() {
    let cfg = Config::default();
    let mut tracker = tracker();
    let base = 1_787_000_000;
    for (i, dst) in ["10.3.153.246", "10.3.252.119", "10.3.153.246", "10.3.153.246"]
        .iter()
        .enumerate()
    {
        tracker.record(event(&ssdp_reply_to(dst, 43285), base + i as i64 * 40), &cfg);
    }
    let due = tracker.tick_at(&cfg, base + 120, &no_sockets()).due;
    assert_eq!(due.len(), 1);
    assert_eq!(due[0].dst, "10.3.153.246");
}

#[test]
fn day_numbers_follow_the_calendar() {
    assert_eq!(days_from_civil(1970, 1, 1), 0);
    assert_eq!(days_from_civil(1969, 12, 31), -1);
    assert_eq!(days_from_civil(2026, 8, 3), 20_668);
    assert_eq!(days_from_civil(0, 3, 1), -719_468);
    let mut expected = days_from_civil(1899, 1, 1);
    for year in 1899..2002 {
        let leap = year % 4 == 0 && (year % 100 != 0 || year % 400 == 0);
        let february = if leap { 29 } else { 28 };
        let months = [31, february, 31, 30, 31, 30, 31, 31, 30, 31, 30, 31];
        for (month, days) in months.iter().enumerate() {
            for day in 1..=*days {
                assert_eq!(days_from_civil(year, month as i64 + 1, day), expected);
                expected += 1;
            }
        }
    }
    for (year, month, day) in [(0, 1, 1), (4, 2, 29), (9599, 12, 31), (-3, 7, 4)] {
        assert_eq!(
            days_from_civil(year + 400, month, day),
            days_from_civil(year, month, day) + 146_097
        );
    }
}
