use packetminder::names::{
    hwdb_oui, looks_machine_generated, neighbour_mac, oui, reverse_dns, run_whois, tidy_vendor,
    whois_answer, NameBook,
};
use packetminder::table::Table;

#[test]
fn serial_names_are_told_apart_from_chosen_ones() {
    // The whole point: a Roku's mDNS name identifies nothing.
    assert!(looks_machine_generated("X01000EKSRNP"));
    assert!(looks_machine_generated("AC233FA1B2C3"));

    // Names a person picked, in the shapes people actually pick them.
    assert!(!looks_machine_generated("caldera"));
    assert!(!looks_machine_generated("ithilien"));
    assert!(!looks_machine_generated("Living-Room-TV"));
    assert!(!looks_machine_generated("nas2"));

    // Short and shouty is ambiguous, so it is left alone.
    assert!(!looks_machine_generated("NAS"));
    assert!(!looks_machine_generated("ROUTER"));
}

#[test]
fn alert_serial_names_are_told_apart_from_chosen_ones() {
    assert!(looks_machine_generated("X01000EKSRNP"));
    assert!(looks_machine_generated("AC233FA1B2C3"));
    assert!(!looks_machine_generated("caldera"));
    assert!(!looks_machine_generated("ithilien"));
    assert!(!looks_machine_generated("Living-Room-TV"));
    assert!(!looks_machine_generated("nas2"));
    assert!(!looks_machine_generated("NAS"));
    assert!(!looks_machine_generated("ROUTER"));
    // Length is counted in bytes.
    assert!(looks_machine_generated("ÄÖÜ1X"));
    assert!(!looks_machine_generated("ABCDEFGH"));
}

#[test]
fn vendor_names_lose_their_legal_boilerplate() {
    assert_eq!(tidy_vendor("Roku, Inc"), "Roku");
    assert_eq!(tidy_vendor("Cisco Systems, Inc"), "Cisco");
    assert_eq!(tidy_vendor("Intel Corporate"), "Intel");
    assert_eq!(tidy_vendor("Amazon Technologies Inc"), "Amazon");
    assert_eq!(tidy_vendor("Nintendo Co., Ltd"), "Nintendo");

    assert_eq!(tidy_vendor("Dell Inc."), "Dell");
    assert_eq!(tidy_vendor("TIBRO Corp."), "TIBRO");
    assert_eq!(tidy_vendor("GL Technologies (Hong Kong) Limited"), "GL");
    assert_eq!(tidy_vendor("LCFC(Hefei) Electronics Technology co., ltd"), "LCFC");

    // Nothing to strip, and nothing that strips down to nothing.
    assert_eq!(tidy_vendor("Google"), "Google");
    assert_eq!(tidy_vendor("Inc"), "Inc");
}

#[test]
fn alert_vendor_names_lose_their_legal_boilerplate() {
    assert_eq!(tidy_vendor("Roku, Inc"), "Roku");
    assert_eq!(tidy_vendor("Cisco Systems, Inc"), "Cisco");
    assert_eq!(tidy_vendor("Intel Corporate"), "Intel");
    assert_eq!(tidy_vendor("Amazon Technologies Inc"), "Amazon");
    assert_eq!(tidy_vendor("Nintendo Co., Ltd"), "Nintendo");
    assert_eq!(tidy_vendor("Google"), "Google");
    assert_eq!(tidy_vendor("Inc"), "Inc");
}

#[test]
fn a_vendor_is_never_tidied_away() {
    assert_eq!(tidy_vendor("(Hong Kong)"), "(Hong Kong)");
    assert_eq!(tidy_vendor("  , Inc  "), ", Inc");
    assert_eq!(tidy_vendor("Systems"), "Systems");
    assert_eq!(tidy_vendor("A ) B"), "A B");
    assert_eq!(tidy_vendor(""), "");
    assert_eq!(tidy_vendor("Foo (Bar (Baz)) Networks Solutions Co"), "Foo");
}

#[test]
fn lookups_are_read() {
    assert_eq!(
        reverse_dns("10.3.59.7", Some("10.3.59.7       caldera.lan alias\n")).as_deref(),
        Some("caldera.lan")
    );
    assert_eq!(reverse_dns("10.3.59.7", Some("10.3.59.7 10.3.59.7")), None);
    assert_eq!(reverse_dns("10.3.59.7", Some("10.3.59.7")), None);
    assert_eq!(reverse_dns("10.3.59.7", None), None);

    assert_eq!(
        neighbour_mac(Some("10.3.193.195 dev wlp1s0 lladdr a8:b5:7c:53:b2:fe REACHABLE")).as_deref(),
        Some("a8:b5:7c:53:b2:fe")
    );
    assert_eq!(neighbour_mac(Some("10.3.193.195 dev wlp1s0 FAILED")), None);
    assert_eq!(neighbour_mac(Some("x lladdr")), None);
    assert_eq!(neighbour_mac(None), None);

    assert_eq!(
        hwdb_oui(Some("ID_A=b\nID_OUI_FROM_DATABASE= Roku, Inc \n")).as_deref(),
        Some("Roku, Inc")
    );
    assert_eq!(hwdb_oui(Some("ID_OUI_FROM_DATABASE=\nID_OUI_FROM_DATABASE=x\n")), None);
    assert_eq!(hwdb_oui(None), None);

    let whois = "# comment\ndescr:  Second best\n  OrgName:\nOrgName:   Example Org \n";
    assert_eq!(whois_answer(Some(whois)).as_deref(), Some("Example Org"));
    assert_eq!(whois_answer(Some("descr: d\nnetname: n\n")).as_deref(), Some("n"));
    assert_eq!(whois_answer(Some("nothing")), None);
    assert_eq!(run_whois(Some("nothing")), "?");
    assert_eq!(run_whois(Some("Organization: o")), "o");
    assert_eq!(run_whois(None), "?");
}

#[test]
fn a_mac_is_known_by_its_first_three_groups() {
    assert_eq!(oui(Some("a8:b5:7c:53:b2:fe")).as_deref(), Some("A8B57C"));
    assert_eq!(oui(Some("a8:b5")), None);
    assert_eq!(oui(Some("a8b57c53b2fe")), None);
    assert_eq!(oui(None), None);
}

#[test]
fn names_resolve_in_the_order_their_owner_would_want() {
    let ip = "10.3.193.195";
    let mac = Some("A8:B5:7C:53:B2:FE");
    let mut book = NameBook::new(Table::new());
    assert_eq!(book.device_label_cached(ip, mac, 1000), ip);
    assert!(book.needs_hostname(ip, 1000));
    assert!(book.needs_vendor(mac));
    assert!(!book.needs_vendor(Some("short")));

    // A serial beats nothing, a vendor beats a serial.
    assert_eq!(
        book.device_label(ip, None, Some("X01000EKSRNP.local"), None, 1000),
        "X01000EKSRNP (10.3.193.195)"
    );
    assert_eq!(book.device_label(ip, mac, None, Some("Roku, Inc"), 1000), "Roku (10.3.193.195)");
    assert_eq!(book.device_label_cached(ip, mac, 1299), "Roku (10.3.193.195)");
    assert_eq!(book.vendor_for(mac, Some("Other")).as_deref(), Some("Roku"));

    // A name a person chose beats the vendor, and the name its owner chose beats
    // everything.
    let mut named = NameBook::new(Table::new());
    assert_eq!(
        named.device_label(ip, mac, Some("caldera.lan"), Some("Roku, Inc"), 1000),
        "caldera.lan (10.3.193.195)"
    );
    named.chosen.put("a8:b5:7c:53:b2:fe".into(), "Living room".into());
    assert_eq!(named.device_label_cached(ip, mac, 1000), "Living room (10.3.193.195)");
    named.chosen.put(ip.into(), "TV".into());
    assert_eq!(named.chosen_name(ip, mac).as_deref(), Some("TV"));
}

#[test]
fn an_identity_keeps_both_halves() {
    let ip = "10.3.193.195";
    let mac = Some("a8:b5:7c:53:b2:fe");
    let mut book = NameBook::new(Table::new());
    assert_eq!(book.identity_cached(ip, mac, 1000), (ip.to_string(), None));
    let (who, derived) =
        book.identity(ip, mac, Some("X01000EKSRNP.local"), Some("Roku, Inc"), 1000);
    assert_eq!(who, "X01000EKSRNP.local (10.3.193.195)");
    assert_eq!(derived.as_deref(), Some("Roku"));
    book.chosen.put(ip.into(), "CRR".into());
    assert_eq!(book.identity_cached(ip, mac, 1000).1.as_deref(), Some("CRR · Roku"));
    // A chosen name never hides the vendor.
    book.chosen.put(ip.into(), "Roku CRR".into());
    assert_eq!(book.identity_cached(ip, mac, 1000).1.as_deref(), Some("Roku CRR · Roku"));
    // Saying the vendor under a hostname that says it already is noise.
    let mut other = NameBook::new(Table::new());
    let (_, derived) = other.identity(ip, mac, Some("roku-den.local"), Some("Roku, Inc"), 1000);
    assert_eq!(derived, None);
}

#[test]
fn sources_are_described_by_where_they_are() {
    let mut book = NameBook::new(Table::new());
    let mac = Some("a8:b5:7c:53:b2:fe");
    assert_eq!(book.describe_source("10.3.1.2", true, mac, Some("ISP"), 5), "LAN, a8:b5:7c:53:b2:fe");
    assert_eq!(book.describe_source("10.3.1.2", true, None, None, 5), "LAN");
    assert_eq!(book.describe_source_cached("8.8.8.8", false, None, 5), "internet");
    assert_eq!(book.describe_source("8.8.8.8", false, None, Some("Google"), 5), "internet, Google");
    assert_eq!(book.describe_source_cached("8.8.8.8", false, mac, 3604), "internet, Google");
    assert_eq!(book.describe_source_cached("8.8.8.8", false, mac, 3605), "internet");
    assert!(book.needs_org("8.8.8.8", 3605));
    assert_eq!(book.whois_org_cached("8.8.8.8", 5).as_deref(), Some("Google"));
}

#[test]
fn answers_are_believed_for_their_term() {
    let mut book = NameBook::new(Table::new());
    assert_eq!(book.hostname_for("10.3.59.7", None, 1000), None);
    // That there is no name is remembered too.
    assert!(!book.needs_hostname("10.3.59.7", 1299));
    assert_eq!(book.hostname_for("10.3.59.7", Some("late"), 1299), None);
    assert_eq!(book.hostname_for("10.3.59.7", Some("late"), 1300).as_deref(), Some("late"));
    assert_eq!(book.hostname_cached("10.3.59.7", 1300).as_deref(), Some("late"));
    assert_eq!(book.whois_org("8.8.8.8", Some("Google"), 0).as_deref(), Some("Google"));
    assert_eq!(book.whois_org("8.8.8.8", Some("Other"), 10).as_deref(), Some("Google"));
}

#[test]
fn tidying_again_changes_nothing() {
    for raw in [
        "Roku, Inc",
        "LCFC(Hefei) Electronics Technology co., ltd",
        "GL Technologies (Hong Kong) Limited",
        "  Foo   Bar  Networks ",
        "(Hong Kong)",
        "  , Inc  ",
        "Systems",
        "",
    ] {
        let once = tidy_vendor(raw);
        assert_eq!(tidy_vendor(&once), once, "{raw}");
    }
    // Eight rounds shed one of a kind each, and a tab is no space in front of
    // boilerplate: what is left then goes the next time.
    assert_eq!(tidy_vendor("X Inc Inc Inc Inc Inc Inc Inc Inc Inc"), "X Inc");
    assert_eq!(tidy_vendor("X Inc"), "X");
    assert_eq!(tidy_vendor("Foo\tInc"), "Foo Inc");
    assert_eq!(tidy_vendor("Foo Inc"), "Foo");
}

#[test]
fn only_boilerplate_is_shed() {
    assert_eq!(tidy_vendor("Acme Widget Networks SYSTEMS co."), "Acme Widget");
    // Boilerplate in the middle stays, and so does a first word.
    assert_eq!(tidy_vendor("Acme Systems Widget Ltd"), "Acme Systems Widget");
    assert_eq!(tidy_vendor("Networks Systems"), "Networks");
    assert_eq!(tidy_vendor("AcmeInc"), "AcmeInc");
}

#[test]
fn a_plain_name_keeps_its_first_words() {
    // Nine words, of which all but the first are boilerplate of one kind.
    let nine = "X Inc Inc Inc Inc Inc Inc Inc Inc";
    assert_eq!(tidy_vendor(nine), "X");
    assert_eq!(tidy_vendor(&format!("{nine}, Ltd (Hong Kong)")), "X");
    assert_eq!(tidy_vendor("Inc Inc Inc Inc Inc Inc Inc Inc Inc"), "Inc");
    assert_eq!(tidy_vendor("A B C D E F G H Co"), "A B C D E F G H");
    assert_eq!(tidy_vendor("Co A Ltd B Communications SOLUTIONS, Inc"), "Co A Ltd B");
    // With nothing before the comma the name stays, boilerplate and all.
    assert_eq!(tidy_vendor(", Inc"), ", Inc");
}
