use packetminder::alert::Civil;
use packetminder::conns::{
    extract_field, fmt_bytes, fmt_time, parse_ip_sort_key, row_color, App, Conn, COL_COUNT,
    COL_LABELS, DEFAULT_SORT_COL,
};
use packetminder::rate::Rate;

#[test]
fn sort_keys_order_addresses_numerically() {
    assert!(parse_ip_sort_key("10.3.59.7:443") < parse_ip_sort_key("10.3.60.1:80"));
    assert!(parse_ip_sort_key("9.255.255.255") < parse_ip_sort_key("10.0.0.0"));
    assert_eq!(parse_ip_sort_key("10.3.59.7:443"), parse_ip_sort_key("10.3.59.7"));
}

#[test]
fn malformed_addresses_sort_as_zero_rather_than_panicking() {
    assert_eq!(parse_ip_sort_key("999.999.999.999"), 0);
    assert_eq!(parse_ip_sort_key("[2605:59ca::1]:443"), 0);
    assert_eq!(parse_ip_sort_key("not an address"), 0);
    assert_eq!(parse_ip_sort_key(""), 0);
}

#[test]
fn extracts_numeric_fields_from_ss_info() {
    let info = "bbr rto:230 bytes_sent:29955 bytes_received:29619 segs_out:717";
    assert_eq!(extract_field(info, "bytes_received:"), 29619);
    assert_eq!(extract_field(info, "bytes_sent:"), 29955);
    assert_eq!(extract_field(info, "bytes_imaginary:"), 0);
}

#[test]
fn odd_keys_and_fields_are_read_as_far_as_they_go() {
    assert_eq!(parse_ip_sort_key("10.3.59.7:443"), 0x0a03_3b07);
    // What is not four octets is no address, and sorts last.
    assert_eq!(parse_ip_sort_key("10.x.3.59.7"), 0);
    assert_eq!(parse_ip_sort_key("10.999.3.59.7:443"), 0);
    assert_eq!(parse_ip_sort_key("10.3.59"), 0);
    assert_eq!(parse_ip_sort_key("10.3.59.256"), 0);
    assert_eq!(parse_ip_sort_key("10.3.59.7."), 0);
    assert_eq!(parse_ip_sort_key("+1.2.3.4"), 0x0102_0304);
    assert_eq!(extract_field("a:12x", "a:"), 12);
    assert_eq!(extract_field("a:x", "a:"), 0);
    assert_eq!(extract_field("a: 12 a:13", "a:"), 0);
    assert_eq!(extract_field("a:99999999999999999999", "a:"), 0);
}

const FIRST: &str = "ESTAB 0 0 10.3.252.119:35692 157.240.3.51:443\n\
                     \t bytes_sent:100 bytes_received:2000\n\
                     LISTEN 0 0 0.0.0.0:22 0.0.0.0:*\n\
                     TIME-WAIT 0 0 10.3.252.119:1 9.9.9.9:80\n\
                     short line\n\
                     ESTAB 0 0 10.3.252.119:2 157.240.3.51:80\n\
                     \t bytes_sent:7\n\t bytes_received:9000\n";

fn remotes(conns: &[Conn]) -> Vec<&str> {
    conns.iter().map(|c| c.remote.as_str()).collect()
}

#[test]
fn a_poll_follows_what_is_listed() {
    let mut app = App::new();
    assert_eq!(app.sort_col, DEFAULT_SORT_COL);
    let wanted = app.poll(FIRST, 5);
    // One lookup per address, however many connections share it.
    assert_eq!(wanted, vec!["157.240.3.51", "9.9.9.9"]);
    assert_eq!(app.conns.len(), 3);
    let sorted = app.sorted_conns();
    assert_eq!(remotes(&sorted), vec!["157.240.3.51:80", "157.240.3.51:443", "9.9.9.9:80"]);
    assert_eq!((sorted[0].bytes_sent, sorted[0].bytes_recv), (7, 9000));
    assert_eq!(sorted[0].isp, "...");
    assert_eq!(sorted[0].first_seen, 5);

    app.learn_isp("157.240.3.51".into(), "Meta".into());
    let second = "ESTAB 0 0 10.3.252.119:35692 157.240.3.51:443\n\
                  \t bytes_sent:100 bytes_received:5000\n";
    assert!(app.poll(second, 6).is_empty());
    assert_eq!(app.conns.len(), 1, "connections that are gone are dropped");
    let c = &app.conns[0];
    assert_eq!((c.isp.as_str(), c.first_seen, c.bytes_recv), ("Meta", 5, 5000));
    assert_eq!(f64::from_bits(c.speed_down.bits), 3000.0);
    assert_eq!(f64::from_bits(c.speed_up.bits), 0.0);

    // An idle connection fades rather than dropping to nothing at once.
    app.poll(second, 7);
    assert_eq!(f64::from_bits(app.conns[0].speed_down.bits), 1500.0);
    let reset = "ESTAB 0 0 10.3.252.119:35692 157.240.3.51:443\n\t bytes_received:3\n";
    app.poll(reset, 8);
    assert_eq!(f64::from_bits(app.conns[0].speed_down.bits), 750.0);
    assert_eq!(app.conns[0].bytes_recv, 3);

    // An address is looked up once, even when its connections come back.
    assert!(app.poll(FIRST, 9).is_empty());
}

#[test]
fn every_column_sorts_its_own_way() {
    let mut app = App::new();
    app.poll(FIRST, 5);
    app.learn_isp("157.240.3.51".into(), "meta".into());
    app.learn_isp("9.9.9.9".into(), "Äpfel".into());
    app.poll(FIRST, 6);
    let third = FIRST.replace("bytes_sent:100", "bytes_sent:101");
    app.poll(&third, 7);
    let mut order = |column: usize| {
        app.sort_col = column;
        remotes(&app.sorted_conns()).join(" ")
    };
    assert_eq!(order(0), "9.9.9.9:80 157.240.3.51:443 157.240.3.51:80");
    // Lower case is what counts, and it is not only ASCII that has it.
    assert_eq!(order(1), "157.240.3.51:443 157.240.3.51:80 9.9.9.9:80");
    assert_eq!(order(3), "157.240.3.51:443 9.9.9.9:80 157.240.3.51:80");
    assert_eq!(order(4), "157.240.3.51:443 157.240.3.51:80 9.9.9.9:80");
    assert_eq!(order(5), "157.240.3.51:80 157.240.3.51:443 9.9.9.9:80");
    assert_eq!(order(6), "157.240.3.51:443 9.9.9.9:80 157.240.3.51:80");
    assert_eq!(order(99), "157.240.3.51:443 9.9.9.9:80 157.240.3.51:80");
}

#[test]
fn the_sort_column_goes_round() {
    let mut app = App::new();
    for expected in [6, 0, 1] {
        app.next_column();
        assert_eq!(app.sort_col, expected);
    }
    assert_eq!(COL_LABELS.len(), COL_COUNT);
    assert_eq!(COL_LABELS[DEFAULT_SORT_COL], "RECV");
}

#[test]
fn sizes_are_written_as_doubles_are() {
    for n in [0u64, 1, 1023, 1024, 1075, 1280, 1331, 1_048_575, 1_048_576, 1_468_006, 1_073_741_824, 5_000_000_000, u64::MAX] {
        let expected = if n < 1024 {
            format!("{n}B")
        } else if n < 1_048_576 {
            format!("{:.1}K", n as f64 / 1024.0)
        } else if n < 1_073_741_824 {
            format!("{:.1}M", n as f64 / 1_048_576.0)
        } else {
            format!("{:.1}G", n as f64 / 1_073_741_824.0)
        };
        assert_eq!(fmt_bytes(n), expected);
    }
}

#[test]
fn times_are_written_as_a_clock_shows_them() {
    let at = Civil { year: 126, month: 7, day: 3, hour: 0, minute: 53, second: 9 };
    assert_eq!(fmt_time(Some(at)), "00:53:09");
    assert_eq!(fmt_time(None), "??:??:??");
}

#[test]
fn rows_are_coloured_by_state_and_speed() {
    let conn = |state: &str, up: f64, down: f64| Conn {
        key: "k".into(),
        remote: "r".into(),
        isp: "i".into(),
        state: state.into(),
        bytes_sent: 0,
        bytes_recv: 0,
        speed_up: Rate { bits: up.to_bits() },
        speed_down: Rate { bits: down.to_bits() },
        first_seen: 0,
    };
    assert_eq!(row_color(&conn("SYN-SENT", 9e9, 9e9)), "blue");
    assert_eq!(row_color(&conn("ESTAB", 0.0, 1_048_576.5)), "red");
    assert_eq!(row_color(&conn("ESTAB", 1_048_576.0, 0.0)), "yellow");
    assert_eq!(row_color(&conn("ESTAB", 1024.0, 1024.0)), "white");
}

#[test]
fn endpoints_sort_by_address() {
    let sorted = ["9.9.9.9:80", "10.0.0.2", "10.0.0.10:1", "100.0.0.1:443", "255.255.255.255:9"];
    for pair in sorted.windows(2) {
        assert!(parse_ip_sort_key(pair[0]) < parse_ip_sort_key(pair[1]), "{pair:?}");
    }
    assert_eq!(parse_ip_sort_key("255.255.255.255:9"), u32::MAX);
    assert_eq!(parse_ip_sort_key("10.0.0.2"), parse_ip_sort_key("10.0.0.2:65535"));
}
