use packetminder::alert::{
    button_pressed, epoch_seconds, fmt_bytes, fmt_duration, fmt_iso, journal_line, launch_programs,
    notify_args, now_epoch, raises_popup, tui_command, wait_step, Alert, Civil, Polled, WaitStep,
};
use packetminder::rate::Rate;

fn alert(detail: &str) -> Alert {
    Alert {
        kind: "blocked-flow",
        key: "k-1".into(),
        title: "Title".into(),
        body: "first\nsecond".into(),
        detail: detail.into(),
        urgency: "critical",
        popup: true,
    }
}

#[test]
fn the_journal_gets_everything_on_one_line() {
    assert_eq!(journal_line(&alert("")), "blocked-flow — Title | first | second");
    assert_eq!(
        journal_line(&alert("more\nyet")),
        "blocked-flow — Title | first | second | more | yet"
    );
}

#[test]
fn the_popup_gets_the_body_alone() {
    let plain = notify_args(&alert("hidden"), false);
    assert_eq!(
        plain,
        vec![
            "-a",
            "packetminder",
            "-u",
            "critical",
            "-i",
            "network-wired",
            "-h",
            "string:x-canonical-private-synchronous:packetminder-k-1",
            "Title",
            "first\nsecond",
        ]
    );
    let offered = notify_args(&alert("other"), true);
    assert_eq!(&offered[8..10], &["-A", "tui=Open packetminder"]);
    assert!(raises_popup(true, &alert("")));
    assert!(!raises_popup(false, &alert("")));
    let mut quiet = alert("");
    quiet.popup = false;
    assert!(!raises_popup(true, &quiet));
    assert!(quiet.reads_as(&quiet.copy()));
    assert!(!quiet.reads_as(&alert("more")));
}

#[test]
fn the_button_runs_only_what_can_run() {
    let installed = |names: &[&str]| names.iter().map(|n| n.to_string()).collect::<Vec<_>>();
    assert_eq!(tui_command(" OFF ", &installed(&["packetminder-tui", "kitty"])), None);
    assert_eq!(
        tui_command("kitty  -e viewer", &installed(&[])),
        Some(installed(&["kitty", "-e", "viewer"]))
    );
    assert_eq!(tui_command("", &installed(&["kitty"])), None);
    assert_eq!(tui_command(" ", &installed(&["packetminder-tui"])), None);
    assert_eq!(
        tui_command("", &installed(&["gnome-terminal", "packetminder-tui"])),
        Some(installed(&["gnome-terminal", "--", "packetminder-tui"]))
    );
    assert_eq!(
        tui_command("", &installed(&["xterm", "packetminder-tui", "konsole"])),
        Some(installed(&["konsole", "-e", "packetminder-tui"]))
    );
    assert_eq!(launch_programs().len(), 7);
    assert!(button_pressed(" tui\n"));
    assert!(!button_pressed("tui2"));
}

#[test]
fn a_popup_is_not_waited_on_for_ever() {
    assert!(matches!(wait_step(Polled::Exited, true), WaitStep::Finish));
    assert!(matches!(wait_step(Polled::Running, true), WaitStep::Kill));
    assert!(matches!(wait_step(Polled::Running, false), WaitStep::Sleep));
    assert!(matches!(wait_step(Polled::Failed, false), WaitStep::GiveUp));
}

#[test]
fn durations_are_written_short() {
    assert_eq!(fmt_duration(0), "0s");
    assert_eq!(fmt_duration(59), "59s");
    assert_eq!(fmt_duration(60), "1m");
    assert_eq!(fmt_duration(119), "1m");
    assert_eq!(fmt_duration(3600), "1h");
    assert_eq!(fmt_duration(3660), "1h1m");
    assert_eq!(fmt_duration(u64::MAX), "5124095576030431h");
}

#[test]
fn byte_counts_are_written_as_doubles_are() {
    for n in [0u64, 1023, 1024, 1280, 1331, 1_048_575, 1_048_576, 1_075_000_000, 1_073_741_824, 9_007_199_254_740_993, u64::MAX] {
        let shown = fmt_bytes(n);
        let value: f64 = shown.split(' ').next().unwrap().parse().unwrap();
        let unit = match shown.split(' ').nth(1).unwrap() {
            "B" => 1.0,
            "KiB" => 1024.0,
            "MiB" => 1_048_576.0,
            _ => 1_073_741_824.0,
        };
        if unit > 1.0 {
            assert_eq!(format!("{:.1}", n as f64 / unit), format!("{value:.1}"), "{shown}");
        } else {
            assert_eq!(shown, format!("{n} B"));
        }
    }
    assert_eq!(fmt_bytes(1280), "1.2 KiB");
}

#[test]
fn timestamps_are_written_in_iso() {
    let at = Civil { year: 126, month: 7, day: 3, hour: 0, minute: 53, second: 29 };
    assert_eq!(fmt_iso(Some(at), 1), "2026-08-03T00:53:29");
    assert_eq!(fmt_iso(None, -12), "epoch:-12");
    assert_eq!(fmt_iso(None, i64::MIN), "epoch:-9223372036854775808");
    let early = Civil { year: -1901, month: 0, day: 1, hour: 0, minute: 0, second: 0 };
    assert_eq!(fmt_iso(Some(early), 0), "-001-01-01T00:00:00");
}

#[test]
fn the_clock_has_passed_the_epoch() {
    assert!(now_epoch() > 1_600_000_000);
    assert_eq!(epoch_seconds(None), 0);
    assert_eq!(epoch_seconds(Some(7)), 7);
}

#[test]
fn rates_are_the_doubles_they_stand_for() {
    for n in [0u64, 1, 2, 3, 1000, 1 << 53, (1 << 53) + 1, (1 << 53) + 3, u64::MAX - 1024, u64::MAX] {
        assert_eq!(Rate::of_int(n).bits, (n as f64).to_bits(), "{n}");
    }
    for x in [0.0f64, 1.0, 3.5, 1e300, f64::MIN_POSITIVE, f64::MIN_POSITIVE * 1.5, 5e-324, 1.5e-323, f64::MAX] {
        let r = Rate { bits: x.to_bits() };
        assert_eq!(r.half().bits, (x * 0.5).to_bits(), "{x}");
    }
    let rate = |x: f64| Rate { bits: x.to_bits() };
    assert!(rate(2.0).at_least(rate(1.5)) && rate(-0.0).at_least(rate(0.0)));
    assert!(!rate(1.0).at_least(rate(1.0000001)));
    assert!(rate(1.0).is_fraction() && !rate(1.1).is_fraction() && rate(-0.0).is_fraction());
    assert!(rate(f64::MAX).is_magnitude());
    for bad in [f64::NAN, f64::INFINITY, -1.0] {
        assert!(!rate(bad).is_magnitude() && !rate(bad).is_fraction());
    }
}
