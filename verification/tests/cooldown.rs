use packetminder::cooldown::{is_cooled, Spoken};
use packetminder::selfblock::SelfKey;

fn key(dst: &str, dport: u16) -> SelfKey {
    SelfKey { dst: dst.into(), proto: "UDP".into(), dport }
}

#[test]
fn a_cooldown_holds_until_it_is_over() {
    assert!(is_cooled(None, 0, 60));
    assert!(!is_cooled(Some(100), 159, 60));
    assert!(is_cooled(Some(100), 160, 60));
    assert!(!is_cooled(Some(100), 50, 60), "a clock that went back holds, too");
    assert!(!is_cooled(Some(i64::MIN), i64::MIN, 60));
    assert!(is_cooled(Some(i64::MIN), i64::MAX, 60));
}

#[test]
fn subjects_do_not_share_a_cooldown() {
    let mut spoken: Spoken<SelfKey> = Spoken::new();
    assert!(!spoken.holds(&key("a", 1), 10, 60));
    spoken.note(key("a", 1), 10);
    assert!(spoken.holds(&key("a", 1), 69, 60));
    assert!(!spoken.holds(&key("a", 1), 70, 60));
    assert!(!spoken.holds(&key("a", 2), 10, 60));
    assert!(!spoken.holds(&key("b", 1), 10, 60));
    spoken.note(key("b", 1), 40);
    spoken.note(key("a", 1), 50);
    assert!(spoken.holds(&key("a", 1), 109, 60));
    assert!(spoken.holds(&key("b", 1), 99, 60) && !spoken.holds(&key("b", 1), 100, 60));
    assert_eq!(spoken.entries.len(), 2);
}

#[test]
fn a_cooldown_is_kept_until_it_is_over() {
    let mut spoken: Spoken<SelfKey> = Spoken::new();
    for at in 0..5 {
        spoken.note(key("a", at), i64::from(at) * 10);
    }
    spoken.expire(70, 60);
    let left: Vec<u16> = spoken.entries.iter().map(|e| e.subject.dport).collect();
    assert_eq!(left, vec![2, 3, 4]);
    assert!(spoken.holds(&key("a", 2), 70, 60));
    spoken.expire(1000, 60);
    assert!(spoken.entries.is_empty());
}
