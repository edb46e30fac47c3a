use packetminder::collector::{parse, read, Measured, Snapshot};

const SAMPLE: &str = "at=1785890716\nconntrack_acct=1\nconntrack_flows=68\n\
                      conntrack_reply_bytes=6077902\n\
                      input_drop_packets=1884\ninput_drop_bytes=659578\n";

fn bps(m: Measured) -> f64 {
    m.bytes as f64 * 8.0 / m.secs as f64
}

fn reply_bps_since(now: &Snapshot, prev: &Snapshot) -> Option<f64> {
    now.reply_bps_since(prev).map(bps)
}

#[test]
fn parses_a_snapshot() {
    let s = parse(SAMPLE).expect("should parse");
    assert_eq!(s.at, 1785890716);
    assert_eq!(s.conntrack_reply_bytes, 6077902);
    assert_eq!(s.input_drop_packets, 1884);
}

#[test]
fn accounting_disabled_reads_as_unmeasured_not_as_zero() {
    let prev = parse("at=100\nconntrack_acct=0\nconntrack_flows=0\nconntrack_reply_bytes=0\n")
        .expect("should parse");
    let now = parse("at=110\nconntrack_acct=0\nconntrack_flows=0\nconntrack_reply_bytes=0\n")
        .expect("should parse");
    assert!(!now.conntrack_acct);
    assert_eq!(reply_bps_since(&now, &prev), None);
}

#[test]
fn zero_flows_is_unmeasured_even_without_the_acct_field() {
    let prev = parse("at=100\nconntrack_flows=0\nconntrack_reply_bytes=0\n").expect("parses");
    let now = parse("at=110\nconntrack_flows=0\nconntrack_reply_bytes=0\n").expect("parses");
    assert!(now.conntrack_acct, "absent field assumes accounting is on");
    assert_eq!(reply_bps_since(&now, &prev), None);
}

#[test]
fn the_first_measurable_sample_after_a_gap_yields_no_rate() {
    let blind = parse("at=100\nconntrack_acct=0\nconntrack_flows=0\nconntrack_reply_bytes=0\n")
        .expect("parses");
    let first =
        parse("at=110\nconntrack_acct=1\nconntrack_flows=9\nconntrack_reply_bytes=10000\n")
            .expect("parses");
    let second =
        parse("at=120\nconntrack_acct=1\nconntrack_flows=9\nconntrack_reply_bytes=20000\n")
            .expect("parses");
    // Measurable now, but the baseline was not: no rate.
    assert_eq!(reply_bps_since(&first, &blind), None);
    // Both ends measurable: a rate, and one spanning only measured time.
    assert_eq!(reply_bps_since(&second, &first), Some(8000.0));
}

#[test]
fn a_measured_zero_is_still_a_measurement() {
    let prev = parse("at=100\nconntrack_acct=1\nconntrack_flows=12\nconntrack_reply_bytes=500\n")
        .expect("parses");
    let now = parse("at=110\nconntrack_acct=1\nconntrack_flows=12\nconntrack_reply_bytes=500\n")
        .expect("parses");
    assert_eq!(reply_bps_since(&now, &prev), Some(0.0));
}

#[test]
fn survives_junk_and_new_keys() {
    // A future collector adding fields must not break an older daemon.
    let s = parse("at=100\nnonsense\nfuture_key=5\nconntrack_reply_bytes=abc\n")
        .expect("should parse");
    assert_eq!(s.at, 100);
    assert_eq!(s.conntrack_reply_bytes, 0);
    // No timestamp is the one unusable case.
    assert!(parse("conntrack_flows=3\n").is_none());
}

#[test]
fn rates_need_two_distinct_samples() {
    let a = parse(SAMPLE).unwrap();
    let mut b = a;
    // Same file read twice: the collector has not refreshed.
    assert_eq!(reply_bps_since(&a, &a), None);

    b.at += 10;
    b.conntrack_reply_bytes += 1_250_000;
    assert_eq!(reply_bps_since(&b, &a), Some(1_000_000.0));

    // Collector restarted and lost its accumulator: unmeasured, not negative.
    let mut c = b;
    c.at += 10;
    c.conntrack_reply_bytes = 5;
    assert_eq!(reply_bps_since(&c, &b), None);
}

#[test]
fn reads_the_real_snapshot_if_the_collector_is_installed() {
    // An absent collector is a supported configuration.
    assert!(read(None).is_none());
    assert!(read(Some(SAMPLE)).is_some(), "installed collector wrote an unparseable snapshot");
}

#[test]
fn drops_are_counted_between_samples() {
    let a = parse(SAMPLE).unwrap();
    let mut b = a;
    b.input_drop_packets += 3;
    b.input_drop_bytes += 400;
    assert_eq!(b.drops_since(&a), Some((3, 400)));
    assert_eq!(a.drops_since(&b), None);
    let mut c = b;
    c.input_drop_packets += 1;
    c.input_drop_bytes = 0;
    assert_eq!(c.drops_since(&b), None);
    assert!(a.measures_bytes());
}
