use packetminder::config::{Config, DiscoveryReplies};
use packetminder::flows::FlowFacts;
use packetminder::names::NameBook;
use packetminder::report::{compose_alert, names_known, names_resolved, Lookups};
use packetminder::table::Table;

fn facts(discovery: Option<&'static str>, corroborated: bool) -> FlowFacts {
    FlowFacts {
        src: "10.3.193.195".into(),
        proto_lower: "udp".into(),
        dport: 43285,
        sport: 1900,
        total: 12,
        bytes: 2048,
        iface: "wlp1s0".into(),
        duration: "3m".into(),
        listening: false,
        dst: "10.3.153.246".into(),
        corroborated,
        nearby: true,
        discovery,
    }
}

fn found(asker: Option<&str>) -> Lookups {
    Lookups {
        mac: Some("a8:b5:7c:53:b2:fe".into()),
        hostname: Some("X01000EKSRNP.local".into()),
        listed: Some("Roku, Inc".into()),
        org: None,
        asker: asker.map(|a| a.to_string()),
    }
}

#[test]
fn looking_names_up_twice_changes_nothing() {
    let cfg = Config::default();
    let mut book = NameBook::new(Table::new());
    let facts = facts(None, false);
    let mac = Some("a8:b5:7c:53:b2:fe");
    let bare = compose_alert(&facts, &names_known(&book, &facts, mac, None, 100), &cfg);
    let first = compose_alert(&facts, &names_resolved(&mut book, &facts, &found(None), 100), &cfg);
    assert!(!first.reads_as(&bare), "a name has been learned");
    assert_eq!(first.key, bare.key);
    assert_eq!(first.title, "X01000EKSRNP.local (10.3.193.195) — blocked udp/43285");
    assert!(first.body.starts_with("Roku\n12 drops over 3m on wlp1s0, still going."));

    let again = compose_alert(&facts, &names_known(&book, &facts, mac, None, 200), &cfg);
    assert!(again.reads_as(&first), "everything was known");
    let once_more =
        compose_alert(&facts, &names_resolved(&mut book, &facts, &found(None), 200), &cfg);
    assert!(once_more.reads_as(&again));
}

#[test]
fn quiet_differs_from_loud_in_the_popup_alone() {
    let mut book = NameBook::new(Table::new());
    let facts = facts(Some("SSDP"), true);
    let names = names_resolved(&mut book, &facts, &found(Some("spotify")), 100);
    let mut cfg = Config::default();
    let quiet = compose_alert(&facts, &names, &cfg);
    cfg.discovery_replies = DiscoveryReplies::Alert;
    let loud = compose_alert(&facts, &names, &cfg);
    assert!(!quiet.popup && loud.popup);
    assert!(quiet.reads_as(&loud));
    assert_eq!((quiet.key, quiet.urgency), (loud.key, loud.urgency));
    assert!(loud.body.contains("spotify asked"));
}

#[test]
fn popups_are_two_lines() {
    let cfg = Config::default();
    for (discovery, corroborated) in [(None, false), (Some("SSDP"), true), (Some("mDNS"), false)] {
        let mut book = NameBook::new(Table::new());
        let facts = facts(discovery, corroborated);
        let names = names_resolved(&mut book, &facts, &found(None), 100);
        let alert = compose_alert(&facts, &names, &cfg);
        assert_eq!(alert.body.lines().count(), 2, "{}", alert.body);
    }
}
