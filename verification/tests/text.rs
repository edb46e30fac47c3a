use packetminder::addr::{parse_ip, IpAddr};
use packetminder::text::{
    dec_text, find_text, join_texts, read_hex, read_signed, read_unsigned, replaced, sort_texts,
    split_char, split_lines, split_words, to_chars, to_text, to_texts, trimmed,
};

fn strings(v: &[&str]) -> Vec<String> {
    v.iter().map(|s| s.to_string()).collect()
}

#[test]
fn splitting_gives_back_what_was_joined() {
    for parts in [vec![""], vec!["a"], vec!["a", "", "b"], vec!["", ""], vec!["Ä", "→"]] {
        let joined = join_texts(&strings(&parts), ":");
        assert_eq!(joined, parts.join(":"));
        assert_eq!(to_texts(&split_char(&to_chars(&joined), ':')), strings(&parts));
    }
}

#[test]
fn numbers_are_read_back() {
    for n in [0u64, 9, 10, 255, 1000, u64::MAX] {
        assert_eq!(dec_text(n), n.to_string());
        assert_eq!(read_unsigned(&to_chars(&dec_text(n)), u64::MAX), Some(n));
    }
    assert_eq!(read_unsigned(&to_chars("256"), 255), None);
    assert_eq!(read_unsigned(&to_chars("+7"), 255), Some(7));
    assert_eq!(read_unsigned(&to_chars("+"), 255), None);
    assert_eq!(read_unsigned(&to_chars(""), 255), None);
    assert_eq!(read_signed(&to_chars("-9223372036854775808")), Some(i64::MIN));
    assert_eq!(read_signed(&to_chars("9223372036854775808")), None);
    assert_eq!(read_hex(&to_chars("fFff"), 0xffff), Some(0xffff));
    assert_eq!(read_hex(&to_chars("10000"), 0xffff), None);
}

#[test]
fn text_is_taken_apart_as_usual() {
    let sample = " \u{3000}one\ttwo\u{a0} three\r\n\nlast\r";
    let words: Vec<&str> = sample.split_whitespace().collect();
    assert_eq!(to_texts(&split_words(&to_chars(sample))), strings(&words));
    let lines: Vec<&str> = sample.lines().collect();
    assert_eq!(to_texts(&split_lines(&to_chars(sample))), strings(&lines));
    assert_eq!(to_text(&trimmed(&to_chars(sample))), sample.trim());
    assert_eq!(replaced("a\nb\n", '\n', " | "), "a | b | ");
    assert_eq!(find_text(&to_chars("aab"), &to_chars("ab")), Some(1));
    assert_eq!(find_text(&to_chars("aab"), &to_chars("ba")), None);
}

#[test]
fn texts_are_sorted_as_strings_are() {
    let mixed = ["b", "", "ab", "a", "é", "z", "→", "a"];
    let mut expected = strings(&mixed);
    expected.sort();
    assert_eq!(sort_texts(strings(&mixed)), expected);
}

#[test]
fn expanded_and_compressed_addresses_are_the_same() {
    for n in [0u128, 1, 0xffff_0a03_3b07, 0x2605_59ca_3307_0c08_8255_9b0a_8843_f2b1, 1 << 112] {
        let groups: Vec<String> =
            (0..8).map(|i| format!("{:04x}", (n >> (112 - 16 * i)) & 0xffff)).collect();
        let ip = IpAddr::V6(n);
        assert_eq!(parse_ip(&groups.join(":")), Some(ip));
        assert_eq!(parse_ip(&ip.to_text()), Some(ip));
    }
}

#[test]
fn a_word_at_the_end_is_one_more() {
    let words = |s: &str| -> Vec<String> {
        packetminder::text::split_words(&s.chars().collect())
            .into_iter()
            .map(|w| w.into_iter().collect())
            .collect()
    };
    assert_eq!(words("a  b\tc"), vec!["a", "b", "c"]);
    assert_eq!(words("a  b\tc d"), vec!["a", "b", "c", "d"]);
    assert_eq!(words("a b  "), words("a b"));
    assert_eq!(words(" d"), vec!["d"]);
}
