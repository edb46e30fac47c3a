use packetminder::sockets::{field_value, read_received, received_between};
use packetminder::table::Table;

fn chars(s: &str) -> Vec<char> {
    s.chars().collect()
}

#[test]
fn pulls_named_fields_out_of_an_info_line() {
    let line =
        chars("\t bbr wscale:8,10 rto:230 bytes_sent:29955 bytes_received:29619 segs_out:717");
    assert_eq!(field_value(&line, "bytes_received:"), Some(29619));
    assert_eq!(field_value(&line, "bytes_sent:"), Some(29955));
    // A prefix that is not present, and one whose value is not a number.
    assert_eq!(field_value(&line, "bytes_dreamed:"), None);
    assert_eq!(field_value(&line, "wscale:"), None);
}

#[test]
fn a_socket_with_no_info_line_contributes_nothing() {
    let mut first: Table<u64> = Table::new();
    first.put("a b".to_string(), 1000);
    let mut second: Table<u64> = Table::new();
    second.put("a b".to_string(), 3000);
    second.put("c d".to_string(), 999_999); // opened mid-window
    assert_eq!(
        received_between(&first, &second),
        2000,
        "only the socket present in both samples counts"
    );
}

#[test]
fn reads_this_hosts_real_sockets() {
    let output = "State Recv-Q Send-Q Local Address:Port Peer Address:Port\n\
        ESTAB 0 0 10.3.252.119:35692 157.240.3.51:443\n\
        \t bbr wscale:8,10 rto:230 bytes_sent:29955 bytes_received:29619 segs_out:717\n\
        LISTEN 0 0 0.0.0.0:22 0.0.0.0:*\n\
        \t bytes_received:5\n\
        ESTAB 0 0 1.1.1.1:1 2.2.2.2:2\n\
        ESTAB 0 0 3.3.3.3:3 4.4.4.4:4\n\
        \t nothing here\n";
    let received = read_received(Some(output)).expect("ss -tin could not be parsed");
    assert_eq!(received.entries.len(), 1);
    assert_eq!(received.get("10.3.252.119:35692 157.240.3.51:443"), Some(&29619));
    // Not being able to look is different from no socket reading anything.
    assert!(read_received(None).is_none());
    assert_eq!(read_received(Some("")).expect("ran").entries.len(), 0);
}

#[test]
fn a_receive_counter_that_goes_backwards_counts_as_nothing() {
    let mut first: Table<u64> = Table::new();
    first.put("a b".to_string(), 3000);
    let mut second: Table<u64> = Table::new();
    second.put("a b".to_string(), 10);
    assert_eq!(received_between(&first, &second), 0);
    assert_eq!(received_between(&second, &first), 2990);
}
