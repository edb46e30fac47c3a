//! Alerts, and how they reach a human.
//!
//! Detectors produce an [`Alert`]; this module decides what is written for it
//! to the journal, whether it may raise a desktop notification, and what that
//! notification is made of. Every alert goes to the journal unconditionally;
//! the popup carries only the title and the body.

use vstd::prelude::*;

use crate::text;
use crate::text::{
    dec_text, is_listed, push_dec, replaced, split_words, text_eq, text_eq_ignoring_case, to_chars, to_text,
    to_texts, trimmed,
};

verus! {

// -- Data structures ----------------------------------------------------------

pub struct Alert {
    /// Machine-readable category, e.g. "asymmetric-inbound".
    pub kind: &'static str,
    /// Stable dedup key; repeat alerts with the same key replace the popup.
    pub key: String,
    pub title: String,
    /// Short enough for a popup. Two lines is the budget.
    pub body: String,
    /// Context worth keeping but not worth interrupting for. Journal only.
    pub detail: String,
    /// "low", "normal" or "critical".
    pub urgency: &'static str,
    /// Whether this may be shown at all. Urgency ranks alerts that all deserve
    /// the screen; some findings are true, worth recording, and still not
    /// events.
    pub popup: bool,
}

pub struct AlertView {
    pub kind: Seq<char>,
    pub key: Seq<char>,
    pub title: Seq<char>,
    pub body: Seq<char>,
    pub detail: Seq<char>,
    pub urgency: Seq<char>,
    pub popup: bool,
}

impl View for Alert {
    type V = AlertView;

    open spec fn view(&self) -> AlertView {
        AlertView {
            kind: self.kind@,
            key: self.key@,
            title: self.title@,
            body: self.body@,
            detail: self.detail@,
            urgency: self.urgency@,
            popup: self.popup,
        }
    }
}

/// The models of alerts, in order.
pub open spec fn alerts_of(v: Seq<Alert>) -> Seq<AlertView> {
    v.map_values(|a: Alert| a@)
}

impl Alert {
    pub fn copy(&self) -> (out: Alert)
        ensures
            out@ == self@,
    {
        Alert {
            kind: self.kind,
            key: self.key.clone(),
            title: self.title.clone(),
            body: self.body.clone(),
            detail: self.detail.clone(),
            urgency: self.urgency,
            popup: self.popup,
        }
    }

    /// Does this read the same as another alert about the same subject? An
    /// enriched alert that does has nothing to add to the one on screen.
    pub fn reads_as(&self, other: &Alert) -> (b: bool)
        ensures
            b == self@.says_the_same(other@),
    {
        text_eq(self.title.as_str(), other.title.as_str()) && text_eq(
            self.body.as_str(),
            other.body.as_str(),
        ) && text_eq(self.detail.as_str(), other.detail.as_str())
    }
}

// -- The journal line ---------------------------------------------------------

impl AlertView {
    /// Everything there is to say about the alert, on one line.
    pub open spec fn says_the_same(self, other: AlertView) -> bool {
        self.title == other.title && self.body == other.body && self.detail == other.detail
    }

    pub open spec fn journal_line(self) -> Seq<char> {
        let line = self.kind + " — "@ + self.title + " | "@ + text::replace_char(
            self.body,
            '\n',
            " | "@,
        );
        if self.detail.len() == 0 {
            line
        } else {
            line + " | "@ + text::replace_char(self.detail, '\n', " | "@)
        }
    }
}

/// The line an alert puts into the journal. The journal gets everything; the
/// popup gets only the body.
pub fn journal_line(alert: &Alert) -> (line: String)
    ensures
        line@ == alert@.journal_line(),
{
    let mut line: String = alert.kind.to_owned();
    line.append(" — ");
    line.append(alert.title.as_str());
    line.append(" | ");
    line.append(replaced(alert.body.as_str(), '\n', " | ").as_str());
    if to_chars(alert.detail.as_str()).len() > 0 {
        line.append(" | ");
        line.append(replaced(alert.detail.as_str(), '\n', " | ").as_str());
    }
    line
}

// -- The notification ---------------------------------------------------------

/// What `notify-send` is run with.
pub open spec fn notification(alert: AlertView, button: bool) -> Seq<Seq<char>> {
    let hint = "string:x-canonical-private-synchronous:packetminder-"@ + alert.key;
    let head = seq!["-a"@, "packetminder"@, "-u"@, alert.urgency, "-i"@, "network-wired"@, "-h"@, hint];
    let action = if button {
        seq!["-A"@, "tui=Open packetminder"@]
    } else {
        Seq::empty()
    };
    head + action + seq![alert.title, alert.body]
}

/// The arguments `notify-send` is run with for an alert. The synchronous hint
/// makes a repeat alert replace its predecessor rather than stacking another
/// popup on the pile; the action is offered only where a button can work.
pub fn notify_args(alert: &Alert, button: bool) -> (args: Vec<String>)
    ensures
        text::texts(args@) == notification(alert@, button),
{
    let mut hint: String = "string:x-canonical-private-synchronous:packetminder-".to_owned();
    hint.append(alert.key.as_str());
    let mut args: Vec<String> = Vec::new();
    args.push("-a".to_owned());
    args.push("packetminder".to_owned());
    args.push("-u".to_owned());
    args.push(alert.urgency.to_owned());
    args.push("-i".to_owned());
    args.push("network-wired".to_owned());
    args.push("-h".to_owned());
    args.push(hint);
    if button {
        args.push("-A".to_owned());
        args.push("tui=Open packetminder".to_owned());
    }
    args.push(alert.title.clone());
    args.push(alert.body.clone());
    assert(text::texts(args@) =~= notification(alert@, button));
    args
}

/// An alert raises a notification.
pub open spec fn pops_up(notify: bool, alert: AlertView) -> bool {
    notify && alert.popup
}

/// Does an alert raise a notification? Only where notifications are wanted at
/// all, and only where the alert itself may be shown.
pub fn raises_popup(notify: bool, alert: &Alert) -> (b: bool)
    ensures
        b == pops_up(notify, alert@),
{
    notify && alert.popup
}

/// The terminal emulators the button can be given, each with the flag after
/// which it takes a command.
pub open spec fn terminals() -> Seq<(Seq<char>, Seq<char>)> {
    seq![
        ("konsole"@, "-e"@),
        ("alacritty"@, "-e"@),
        ("kitty"@, "-e"@),
        ("foot"@, "-e"@),
        ("xterm"@, "-e"@),
        ("gnome-terminal"@, "--"@),
    ]
}

/// The command that opens the viewer in the first installed terminal from
/// position `i` on.
pub open spec fn terminal_command(installed: Seq<Seq<char>>, i: int) -> Option<Seq<Seq<char>>>
    decreases terminals().len() - i,
{
    if i < 0 || i >= terminals().len() {
        None
    } else if installed.contains(terminals()[i].0) {
        Some(seq![terminals()[i].0, terminals()[i].1, "packetminder-tui"@])
    } else {
        terminal_command(installed, i + 1)
    }
}

/// What the alert's button runs, where `configured` is the command the
/// configuration gives and `installed` the programs found.
pub open spec fn launch_command(configured: Seq<char>, installed: Seq<Seq<char>>) -> Option<
    Seq<Seq<char>>,
> {
    let wanted = text::trim(configured);
    if text::same_ignoring_case(wanted, "off"@) {
        None
    } else if wanted.len() > 0 {
        if text::words(wanted).len() > 0 {
            Some(text::words(wanted))
        } else {
            None
        }
    } else if !installed.contains("packetminder-tui"@) {
        None
    } else {
        terminal_command(installed, 0)
    }
}

/// The programs the button may need: the viewer and the terminals known to run
/// it. The caller finds out which of them are installed.
pub fn launch_programs() -> (out: Vec<&'static str>)
    ensures
        out@.len() == 1 + terminals().len(),
        out@[0]@ == "packetminder-tui"@,
        forall|i: int| 0 <= i < terminals().len() ==> (#[trigger] out@[i + 1])@ == terminals()[i].0,
{
    let mut out: Vec<&'static str> = Vec::new();
    out.push("packetminder-tui");
    out.push("konsole");
    out.push("alacritty");
    out.push("kitty");
    out.push("foot");
    out.push("xterm");
    out.push("gnome-terminal");
    out
}

/// The command for the first installed terminal at or after position `i`.
fn launch_in_terminal(installed: &Vec<String>, i: usize) -> (out: Option<Vec<String>>)
    requires
        i <= terminals().len(),
    ensures
        match out {
            Some(c) => terminal_command(text::texts(installed@), i as int) == Some(
                text::texts(c@),
            ),
            None => terminal_command(text::texts(installed@), i as int) is None,
        },
    decreases terminals().len() - i,
{
    if i >= 6 {
        return None;
    }
    let (terminal, flag): (&'static str, &'static str) = match i {
        0 => ("konsole", "-e"),
        1 => ("alacritty", "-e"),
        2 => ("kitty", "-e"),
        3 => ("foot", "-e"),
        4 => ("xterm", "-e"),
        _ => ("gnome-terminal", "--"),
    };
    if is_listed(installed, terminal) {
        let mut out: Vec<String> = Vec::new();
        out.push(terminal.to_owned());
        out.push(flag.to_owned());
        out.push("packetminder-tui".to_owned());
        assert(text::texts(out@) =~= seq![terminal@, flag@, "packetminder-tui"@]);
        return Some(out);
    }
    launch_in_terminal(installed, i + 1)
}

/// What the alert's button should run, or None to offer no button.
///
/// Split on whitespace rather than run through a shell, and never a button that
/// cannot work: without a configured command the viewer and a terminal to run it
/// in must both be installed.
pub fn tui_command(configured: &str, installed: &Vec<String>) -> (out: Option<Vec<String>>)
    ensures
        match out {
            Some(c) => launch_command(configured@, text::texts(installed@)) == Some(
                text::texts(c@),
            ),
            None => launch_command(configured@, text::texts(installed@)) is None,
        },
{
    let wanted = trimmed(&to_chars(configured));
    let text = to_text(&wanted);
    if text_eq_ignoring_case(text.as_str(), "off") {
        return None;
    }
    if wanted.len() > 0 {
        let parts = to_texts(&split_words(&wanted));
        assert(text::texts(parts@).len() == parts@.len());
        return if parts.len() > 0 {
            Some(parts)
        } else {
            None
        };
    }
    if !is_listed(installed, "packetminder-tui") {
        return None;
    }
    launch_in_terminal(installed, 0)
}

/// What a look at a running child process found.
pub enum Polled {
    Exited,
    Running,
    Failed,
}

/// What the one waiting on a child process does next.
pub enum WaitStep {
    /// It is gone: go on with what it left behind.
    Finish,
    /// It outlived its deadline: kill it, reap it, and give up.
    Kill,
    /// Look again later.
    Sleep,
    /// It cannot be looked at any more: give up.
    GiveUp,
}

/// How a child process is waited on. Polling rather than blocking: past the
/// deadline the child is killed and reaped, so a popup nobody dismisses or a
/// registry that never answers holds no process and no thread.
pub fn wait_step(polled: Polled, past_deadline: bool) -> (step: WaitStep)
    ensures
        (step is Finish) == (polled is Exited),
        (step is Kill) == (polled is Running && past_deadline),
        (step is Sleep) == (polled is Running && !past_deadline),
        (step is GiveUp) == (polled is Failed),
{
    match polled {
        Polled::Exited => WaitStep::Finish,
        Polled::Running => if past_deadline {
            WaitStep::Kill
        } else {
            WaitStep::Sleep
        },
        Polled::Failed => WaitStep::GiveUp,
    }
}

/// How long a popup's button is waited on, in seconds.
pub const BUTTON_WAIT_SECS: u64 = 600;

/// A popup's output says that its button was pressed.
pub open spec fn says_pressed(output: Seq<char>) -> bool {
    text::trim(output) == "tui"@
}

/// Was the button pressed? Anything else means that the popup was dismissed.
pub fn button_pressed(output: &str) -> (b: bool)
    ensures
        b == says_pressed(output@),
{
    text::spells(&trimmed(&to_chars(output)), "tui")
}

// -- Durations and sizes ------------------------------------------------------

/// A span of seconds: hours and minutes, or seconds where it is under a minute.
pub open spec fn duration_text(secs: nat) -> Seq<char> {
    let h = secs / 3600;
    let m = (secs % 3600) / 60;
    let s = secs % 60;
    let hours = if h > 0 {
        text::dec(h) + "h"@
    } else {
        Seq::empty()
    };
    let minutes = if m > 0 {
        text::dec(m) + "m"@
    } else {
        Seq::empty()
    };
    if h == 0 && m == 0 {
        text::dec(s) + "s"@
    } else {
        hours + minutes
    }
}

pub fn fmt_duration(secs: u64) -> (out: String)
    ensures
        out@ == duration_text(secs as nat),
{
    let mut out: String = String::new();
    let h: u64 = secs / 3600;
    let m: u64 = (secs % 3600) / 60;
    let s: u64 = secs % 60;
    if h > 0 {
        push_dec(&mut out, h);
        out.append("h");
    }
    if m > 0 {
        push_dec(&mut out, m);
        out.append("m");
    }
    if h == 0 && m == 0 {
        push_dec(&mut out, s);
        out.append("s");
    }
    assert(out@ =~= duration_text(secs as nat));
    out
}

/// The integer nearest to `a / b`, the even one where two are equally near.
pub open spec fn nearest(a: nat, b: nat) -> nat {
    let q = a / b;
    let r = a % b;
    if 2 * r > b || (2 * r == b && q % 2 == 1) {
        q + 1
    } else {
        q
    }
}

/// The distance between two neighbouring doubles at `n`, at least 1: a double
/// holds 53 significant bits.
pub open spec fn spacing(n: nat) -> nat
    decreases n,
{
    if n < 0x20_0000_0000_0000 {
        1
    } else {
        2 * spacing(n / 2)
    }
}

/// The double nearest to `n`, which is an integer.
pub open spec fn as_double(n: nat) -> nat {
    nearest(n, spacing(n)) * spacing(n)
}

/// `n` in units of `unit`, with one decimal place, as a double is printed.
pub open spec fn one_decimal(n: nat, unit: nat) -> Seq<char> {
    let tenths = nearest(as_double(n) * 10, unit);
    text::dec(tenths / 10) + "."@ + text::dec(tenths % 10)
}

pub fn nearest_of(a: u128, b: u128) -> (out: u128)
    requires
        0 < b <= 0xffff_ffff_ffff_ffff,
        a < 0x1000_0000_0000_0000_0000_0000_0000_0000,
    ensures
        out == nearest(a as nat, b as nat),
        out <= a / b + 1,
{
    let q: u128 = a / b;
    let r: u128 = a % b;
    assert(q <= a) by (nonlinear_arith)
        requires
            b > 0,
            q == a / b,
    ;
    if 2 * r > b || (2 * r == b && q % 2 == 1) {
        q + 1
    } else {
        q
    }
}

fn spacing_of(n: u64) -> (out: u64)
    ensures
        out == spacing(n as nat),
        1 <= out <= 4096,
        out > 1 ==> out * 0x10_0000_0000_0000 <= n,
    decreases n,
{
    if n < 0x20_0000_0000_0000 {
        1
    } else {
        2 * spacing_of(n / 2)
    }
}

pub fn push_one_decimal(out: &mut String, n: u64, unit: u64)
    requires
        1024 <= unit <= n,
    ensures
        final(out)@ == old(out)@ + text::dec(
            nearest(as_double(n as nat) * 10, unit as nat) / 10,
        ) + "."@ + text::dec(nearest(as_double(n as nat) * 10, unit as nat) % 10),
{
    let ulp: u64 = spacing_of(n);
    let k: u128 = nearest_of(n as u128, ulp as u128);
    assert(k <= 0x1_0000_0000_0000_0000) by {
        assert(n / ulp <= n) by (nonlinear_arith)
            requires
                ulp >= 1,
        ;
    }
    assert(k * ulp <= 0x1_0000_0000_0000_0000 * 4096) by (nonlinear_arith)
        requires
            k <= 0x1_0000_0000_0000_0000,
            ulp <= 4096,
    ;
    assert(k * (ulp as u128) == as_double(n as nat));
    let value: u128 = k * (ulp as u128);
    assert(k * ulp <= n + ulp) by (nonlinear_arith)
        requires
            k <= n / ulp + 1,
            ulp >= 1,
    ;
    let tenths: u128 = nearest_of(value * 10, unit as u128);
    assert((value * 10) / (unit as int) <= (value * 10) / 1024) by (nonlinear_arith)
        requires
            unit >= 1024,
            value >= 0,
    ;
    push_dec(out, (tenths / 10) as u64);
    out.append(".");
    push_dec(out, (tenths % 10) as u64);
}

/// A byte count in binary units, because this is memory of the wire.
pub open spec fn bytes_text(n: nat) -> Seq<char> {
    if n < 1024 {
        text::dec(n) + " B"@
    } else if n < 1_048_576 {
        one_decimal(n, 1024) + " KiB"@
    } else if n < 1_073_741_824 {
        one_decimal(n, 1_048_576) + " MiB"@
    } else {
        one_decimal(n, 1_073_741_824) + " GiB"@
    }
}

pub fn fmt_bytes(n: u64) -> (out: String)
    ensures
        out@ == bytes_text(n as nat),
{
    let mut out: String = String::new();
    if n < 1024 {
        push_dec(&mut out, n);
        out.append(" B");
    } else if n < 1_048_576 {
        push_one_decimal(&mut out, n, 1024);
        out.append(" KiB");
    } else if n < 1_073_741_824 {
        push_one_decimal(&mut out, n, 1_048_576);
        out.append(" MiB");
    } else {
        push_one_decimal(&mut out, n, 1_073_741_824);
        out.append(" GiB");
    }
    assert(out@ =~= bytes_text(n as nat));
    out
}

// -- The clock ----------------------------------------------------------------

/// Whole seconds since the Unix epoch as `UNIX_EPOCH.elapsed()` reports them, or
/// None where the clock stands before the epoch. Nothing is claimed of the
/// value: it is the time of the call.
#[verifier::external_body]
fn seconds_since_epoch() -> (out: Option<u64>) {
    std::time::UNIX_EPOCH.elapsed().ok().map(|d| d.as_secs())
}

/// An epoch timestamp from the seconds since the epoch, 0 where the clock stands
/// before it.
pub fn epoch_seconds(since: Option<u64>) -> (out: i64)
    ensures
        out == match since {
            Some(s) => s as i64,
            None => 0,
        },
{
    match since {
        Some(s) => s as i64,
        None => 0,
    }
}

/// The present time as an epoch timestamp. What it returns rests on the clock
/// alone; [`epoch_seconds`] is the rest of it.
pub fn now_epoch() -> (out: i64) {
    epoch_seconds(seconds_since_epoch())
}

/// A moment broken down into calendar fields, in some time zone. The month
/// counts from 0 and the year from 1900.
pub struct Civil {
    pub year: i32,
    pub month: i32,
    pub day: i32,
    pub hour: i32,
    pub minute: i32,
    pub second: i32,
}

/// So many zeros.
pub open spec fn zeros(n: int) -> Seq<char> {
    Seq::new(
        if n < 0 {
            0
        } else {
            n as nat
        },
        |i: int| '0',
    )
}

/// A number in decimal, filled up with zeros behind its sign to a width.
pub open spec fn padded(n: int, width: int) -> Seq<char> {
    if n < 0 {
        "-"@ + zeros(width - 1 - text::dec((-n) as nat).len()) + text::dec((-n) as nat)
    } else {
        zeros(width - text::dec(n as nat).len()) + text::dec(n as nat)
    }
}

fn push_zeros(out: &mut String, have: usize, width: usize)
    ensures
        final(out)@ == old(out)@ + zeros(width - have),
{
    let ghost start = out@;
    let mut i: usize = have;
    assert(out@ =~= start + zeros(0));
    while i < width
        invariant
            have <= i,
            i <= width || i == have,
            out@ == start + zeros(i - have),
        decreases width - i,
    {
        out.push('0');
        i = i + 1;
        assert(out@ =~= start + zeros(i - have));
    }
    assert(out@ =~= start + zeros(width - have));
}

pub fn push_padded(out: &mut String, n: i64, width: usize)
    requires
        1 <= width <= 4,
        -0x1_0000_0000 <= n <= 0x1_0000_0000,
    ensures
        final(out)@ == old(out)@ + padded(n as int, width as int),
{
    let ghost start = out@;
    if n < 0 {
        let digits = dec_text((-n) as u64);
        let count: usize = to_chars(digits.as_str()).len();
        out.append("-");
        push_zeros(out, count, width - 1);
        out.append(digits.as_str());
    } else {
        let digits = dec_text(n as u64);
        let count: usize = to_chars(digits.as_str()).len();
        push_zeros(out, count, width);
        out.append(digits.as_str());
    }
    assert(out@ =~= start + padded(n as int, width as int));
}

/// A timestamp in ISO 8601, e.g. 2026-08-03T00:53:29, or its number of seconds
/// where it could not be broken down.
pub open spec fn iso_text(at: Option<Civil>, epoch: int) -> Seq<char> {
    match at {
        None => "epoch:"@ + text::dec_int(epoch),
        Some(t) => padded(t.year + 1900, 4) + "-"@ + padded(t.month + 1, 2) + "-"@ + padded(
            t.day as int,
            2,
        ) + "T"@ + padded(t.hour as int, 2) + ":"@ + padded(t.minute as int, 2) + ":"@ + padded(
            t.second as int,
            2,
        ),
    }
}

fn push_int(out: &mut String, n: i64)
    ensures
        final(out)@ == old(out)@ + text::dec_int(n as int),
{
    let ghost start = out@;
    if n < 0 {
        out.append("-");
        push_dec(out, (-(n as i128)) as u64);
    } else {
        push_dec(out, n as u64);
    }
    assert(out@ =~= start + text::dec_int(n as int));
}

pub fn fmt_iso(at: Option<Civil>, epoch: i64) -> (out: String)
    ensures
        out@ == iso_text(at, epoch as int),
{
    let mut out: String = String::new();
    match at {
        None => {
            out.append("epoch:");
            push_int(&mut out, epoch);
        },
        Some(t) => {
            push_padded(&mut out, t.year as i64 + 1900, 4);
            out.append("-");
            push_padded(&mut out, t.month as i64 + 1, 2);
            out.append("-");
            push_padded(&mut out, t.day as i64, 2);
            out.append("T");
            push_padded(&mut out, t.hour as i64, 2);
            out.append(":");
            push_padded(&mut out, t.minute as i64, 2);
            out.append(":");
            push_padded(&mut out, t.second as i64, 2);
        },
    }
    assert(out@ =~= iso_text(at, epoch as int));
    out
}

// -- Laws ---------------------------------------------------------------------

proof fn lemma_replaced_has_none(s: Seq<char>, c: char, with: Seq<char>)
    requires
        !with.contains(c),
    ensures
        !text::replace_char(s, c, with).contains(c),
    decreases s.len(),
{
    let out = text::replace_char(s, c, with);
    if s.len() > 0 {
        lemma_replaced_has_none(s.drop_last(), c, with);
        let before = text::replace_char(s.drop_last(), c, with);
        if out.contains(c) {
            let k = choose|k: int| 0 <= k < out.len() && out[k] == c;
            if k < before.len() {
                assert(before[k] == c);
            } else if s.last() == c {
                assert(with[k - before.len()] == c);
            }
        }
    }
}

/// The text is one line.
#[verifier::opaque]
pub open spec fn unbroken(s: Seq<char>) -> bool {
    !s.contains('\n')
}

/// The text is two lines at most: it breaks at one place or none.
#[verifier::opaque]
pub open spec fn two_lines(s: Seq<char>) -> bool {
    forall|i: int, j: int|
        0 <= i < j < s.len() && #[trigger] s[i] == '\n' ==> #[trigger] s[j] != '\n'
}

pub broadcast proof fn lemma_unbroken_sum(a: Seq<char>, b: Seq<char>)
    requires
        unbroken(a),
        unbroken(b),
    ensures
        #[trigger] unbroken(a + b),
{
    reveal(unbroken);
    if (a + b).contains('\n') {
        let k = choose|k: int| 0 <= k < (a + b).len() && (a + b)[k] == '\n';
        if k < a.len() {
            assert(a[k] == '\n');
        } else {
            assert(b[k - a.len()] == '\n');
        }
    }
}

/// One line and then at most two, with no break between them, are at most two.
pub proof fn lemma_two_lines_after_one(a: Seq<char>, b: Seq<char>)
    requires
        unbroken(a),
        two_lines(b),
    ensures
        two_lines(a + b),
{
    reveal(unbroken);
    reveal(two_lines);
    let s = a + b;
    assert forall|i: int, j: int| 0 <= i < j < s.len() && #[trigger] s[i] == '\n' implies
        #[trigger] s[j] != '\n' by {
        if i < a.len() {
            assert(a.contains(a[i]));
        } else {
            assert(b[i - a.len()] == s[i] && b[j - a.len()] == s[j]);
        }
    }
}

pub broadcast proof fn lemma_two_lines_sum(a: Seq<char>, b: Seq<char>)
    requires
        two_lines(a),
        unbroken(b),
    ensures
        #[trigger] two_lines(a + b),
{
    reveal(unbroken);
    reveal(two_lines);
    let s = a + b;
    assert forall|i: int, j: int| 0 <= i < j < s.len() && #[trigger] s[i] == '\n' implies
        #[trigger] s[j] != '\n' by {
        if j < a.len() {
            assert(a[i] == s[i] && a[j] == s[j]);
        } else {
            assert(b.contains(b[j - a.len()]));
        }
    }
}

pub broadcast proof fn lemma_number_is_unbroken(n: nat)
    ensures
        #[trigger] unbroken(text::dec(n)),
{
    reveal(unbroken);
    text::a_number_reads_back(n);
    let s = text::dec(n);
    if s.contains('\n') {
        let k = choose|k: int| 0 <= k < s.len() && s[k] == '\n';
        assert(text::is_digit(s[k]));
    }
}

pub broadcast proof fn lemma_duration_is_unbroken(secs: nat)
    ensures
        #[trigger] unbroken(duration_text(secs)),
{
    broadcast use lemma_unbroken_sum, lemma_number_is_unbroken;

    reveal_strlit("h");
    reveal_strlit("m");
    reveal_strlit("s");
    assert(unbroken("h"@) && unbroken("m"@) && unbroken("s"@) && unbroken(Seq::empty())) by {
        reveal(unbroken);
    }
}

/// An alert is one line in the journal, however many lines its body and its
/// detail have.
pub proof fn an_alert_is_one_journal_line(alert: AlertView)
    requires
        unbroken(alert.kind),
        unbroken(alert.title),
    ensures
        unbroken(alert.journal_line()),
{
    broadcast use lemma_unbroken_sum;

    reveal_strlit(" — ");
    reveal_strlit(" | ");
    let body = text::replace_char(alert.body, '\n', " | "@);
    let detail = text::replace_char(alert.detail, '\n', " | "@);
    assert(unbroken(" — "@) && unbroken(" | "@) && unbroken(body) && unbroken(detail)) by {
        reveal(unbroken);
        lemma_replaced_has_none(alert.body, '\n', " | "@);
        lemma_replaced_has_none(alert.detail, '\n', " | "@);
    }
}

/// The popup is made of the title and the body, and the detail is no part of
/// it: alerts that differ in nothing but their detail and their kind look the
/// same on screen.
pub proof fn the_detail_never_reaches_the_popup(a: AlertView, b: AlertView, button: bool)
    requires
        a.key == b.key,
        a.title == b.title,
        a.body == b.body,
        a.urgency == b.urgency,
    ensures
        notification(a, button) == notification(b, button),
{
}

/// A journal line is the kind, the title, the body and, where there is one, the
/// detail, with bars between them and in place of line breaks.
pub proof fn a_journal_line_holds_all_of_an_alert(alert: AlertView)
    ensures
        ({
            let bar = seq![' ', '|', ' '];
            let line = alert.kind + " — "@ + alert.title + bar + text::replace_char(
                alert.body,
                '\n',
                bar,
            );
            &&& alert.detail.len() == 0 ==> alert.journal_line() == line
            &&& alert.detail.len() > 0 ==> alert.journal_line() == line + bar + text::replace_char(
                alert.detail,
                '\n',
                bar,
            )
        }),
{
    reveal_strlit(" | ");
    assert(" | "@ =~= seq![' ', '|', ' ']);
}

/// A notification hands over its sender, the urgency, an icon and the hint by
/// which a later one of the same key takes its place, then the button where there
/// is one, and ends with the title and the body.
pub proof fn a_notification_ends_with_title_and_body(alert: AlertView, button: bool)
    ensures
        ({
            let args = notification(alert, button);
            let n = args.len() as int;
            &&& n == (if button {
                12int
            } else {
                10int
            })
            &&& args[0] == "-a"@ && args[1] == "packetminder"@
            &&& args[2] == "-u"@ && args[3] == alert.urgency
            &&& args[4] == "-i"@ && args[5] == "network-wired"@
            &&& args[6] == "-h"@ && args[7]
                == "string:x-canonical-private-synchronous:packetminder-"@ + alert.key
            &&& button ==> args[8] == "-A"@ && args[9] == "tui=Open packetminder"@
            &&& args[n - 2] == alert.title
            &&& args[n - 1] == alert.body
        }),
{
}

/// The terminal is the first of these that is installed, with the option by which
/// it takes a command.
pub proof fn the_first_installed_terminal_is_taken(installed: Seq<Seq<char>>)
    ensures
        ({
            let tui = "packetminder-tui"@;
            let found = terminal_command(installed, 0);
            if installed.contains("konsole"@) {
                found == Some(seq!["konsole"@, "-e"@, tui])
            } else if installed.contains("alacritty"@) {
                found == Some(seq!["alacritty"@, "-e"@, tui])
            } else if installed.contains("kitty"@) {
                found == Some(seq!["kitty"@, "-e"@, tui])
            } else if installed.contains("foot"@) {
                found == Some(seq!["foot"@, "-e"@, tui])
            } else if installed.contains("xterm"@) {
                found == Some(seq!["xterm"@, "-e"@, tui])
            } else if installed.contains("gnome-terminal"@) {
                found == Some(seq!["gnome-terminal"@, "--"@, tui])
            } else {
                found is None
            }
        }),
{
    reveal_with_fuel(terminal_command, 7);
}

/// The button starts nothing where it is switched off, in any case; it starts what
/// was configured, word by word; and where nothing was, it starts the interface
/// in a terminal, if both are installed.
pub proof fn a_button_starts_what_was_configured(
    parts: Seq<Seq<char>>,
    configured: Seq<char>,
    installed: Seq<Seq<char>>,
)
    requires
        forall|i: int| 0 <= i < parts.len() ==> text::is_word(#[trigger] parts[i]),
        text::trim(configured) == text::join(parts, " "@),
    ensures
        parts.len() == 1 && parts[0].len() == 3 && (parts[0][0] == 'o' || parts[0][0] == 'O') && (
        parts[0][1] == 'f' || parts[0][1] == 'F') && (parts[0][2] == 'f' || parts[0][2] == 'F')
            ==> launch_command(configured, installed) is None,
        parts.len() > 0 && !text::same_ignoring_case(text::trim(configured), "off"@)
            ==> launch_command(configured, installed) == Some(parts),
        parts.len() == 0 && !installed.contains("packetminder-tui"@) ==> launch_command(
            configured,
            installed,
        ) is None,
        parts.len() == 0 && installed.contains("packetminder-tui"@) ==> launch_command(
            configured,
            installed,
        ) == terminal_command(installed, 0),
        text::same_ignoring_case(text::trim(configured), "off"@) ==> launch_command(
            configured,
            installed,
        ) is None,
{
    reveal_strlit("off");
    let wanted = text::trim(configured);
    text::splitting_words_undoes_joining(parts);
    text::case_is_ignored_letter_by_letter(wanted, "off"@);
    if parts.len() == 0 {
        assert(wanted.len() == 0);
        assert(!text::same_ignoring_case(wanted, "off"@));
    }
    if parts.len() == 1 {
        assert(wanted =~= parts[0]);
        if parts[0].len() == 3 && (parts[0][0] == 'o' || parts[0][0] == 'O') && (parts[0][1] == 'f'
            || parts[0][1] == 'F') && (parts[0][2] == 'f' || parts[0][2] == 'F') {
            assert forall|i: int| 0 <= i < wanted.len() implies text::same_letter(
                #[trigger] wanted[i],
                "off"@[i],
            ) by {
                assert(i == 0 || i == 1 || i == 2);
            }
        }
    }
    if parts.len() > 0 && wanted.len() == 0 {
        assert(text::words(wanted).len() == 0);
    }
}

/// A duration is written in hours and minutes, each left out where it is nought,
/// and in seconds only below a minute.
pub proof fn a_duration_is_written_in_hours_and_minutes(h: nat, m: nat, s: nat)
    requires
        m < 60,
        s < 60,
    ensures
        ({
            let said = duration_text(3600 * h + 60 * m + s);
            &&& h > 0 && m > 0 ==> said == text::dec(h) + seq!['h'] + text::dec(m) + seq!['m']
            &&& h > 0 && m == 0 ==> said == text::dec(h) + seq!['h']
            &&& h == 0 && m > 0 ==> said == text::dec(m) + seq!['m']
            &&& h == 0 && m == 0 ==> said == text::dec(s) + seq!['s']
        }),
{
    let secs = 3600 * h + 60 * m + s;
    assert(secs / 3600 == h && (secs % 3600) / 60 == m && secs % 60 == s);
    reveal_strlit("h");
    reveal_strlit("m");
    reveal_strlit("s");
    assert("h"@ =~= seq!['h'] && "m"@ =~= seq!['m'] && "s"@ =~= seq!['s']);
    let said = duration_text(secs);
    if h > 0 && m > 0 {
        assert(said =~= text::dec(h) + seq!['h'] + text::dec(m) + seq!['m']);
    }
    if h > 0 && m == 0 {
        assert(said =~= text::dec(h) + seq!['h']);
    }
    if h == 0 && m > 0 {
        assert(said =~= text::dec(m) + seq!['m']);
    }
}

/// The nearest quotient is off by half of the divisor at most, and where two are
/// as near it is the even one.
pub proof fn the_nearest_quotient_is_off_by_half_at_most(a: nat, b: nat)
    requires
        b > 0,
    ensures
        2 * (nearest(a, b) * b - a) <= b,
        2 * (a - nearest(a, b) * b) <= b,
        2 * (nearest(a, b) * b - a) == b || 2 * (a - nearest(a, b) * b) == b ==> nearest(a, b) % 2
            == 0,
{
    vstd::arithmetic::div_mod::lemma_fundamental_div_mod(a as int, b as int);
    let q = a as int / b as int;
    let r = a as int % b as int;
    assert(b * q == q * b) by (nonlinear_arith);
    assert((q + 1) * b == q * b + b) by (nonlinear_arith);
}

/// Numbers of fifty-three bits are doubles, and the distance between doubles
/// doubles with every bit more.
pub proof fn numbers_of_fifty_three_bits_are_doubles(n: nat)
    ensures
        n < 0x20_0000_0000_0000 ==> as_double(n) == n,
        n < 0x20_0000_0000_0000 ==> spacing(n) == 1,
        n >= 0x10_0000_0000_0000 ==> spacing(2 * n) == 2 * spacing(n),
        n >= 0x10_0000_0000_0000 ==> spacing(2 * n + 1) == 2 * spacing(n),
{
    assert((2 * n) / 2 == n);
    assert((2 * n + 1) / 2 == n);
    if n < 0x20_0000_0000_0000 {
        assert(nearest(n, 1) == n);
        assert(spacing(n) == 1);
        assert(nearest(n, spacing(n)) * spacing(n) == n) by (nonlinear_arith)
            requires
                nearest(n, spacing(n)) == n,
                spacing(n) == 1,
        ;
    }
}

/// A number of units has one decimal: the tenths nearest to it, with a point
/// before the last digit.
pub proof fn one_decimal_is_the_nearest_tenth(n: nat, unit: nat, whole: nat, tenth: nat)
    requires
        n < 0x20_0000_0000_0000,
        tenth < 10,
        nearest(10 * n, unit) == 10 * whole + tenth,
    ensures
        one_decimal(n, unit) == text::dec(whole) + seq!['.'] + text::dec(tenth),
{
    numbers_of_fifty_three_bits_are_doubles(n);
    assert(as_double(n) * 10 == 10 * n);
    assert((10 * whole + tenth) / 10 == whole && (10 * whole + tenth) % 10 == tenth);
    reveal_strlit(".");
    assert("."@ =~= seq!['.']);
}

/// A count of bytes is written in bytes below a kibibyte, and with one decimal in
/// kibibytes, mebibytes and gibibytes from there.
pub proof fn a_count_of_bytes_is_written_in_its_unit(n: nat)
    ensures
        n < 1024 ==> bytes_text(n) == text::dec(n) + " B"@,
        1024 <= n < 1024 * 1024 ==> bytes_text(n) == one_decimal(n, 1024) + " KiB"@,
        1024 * 1024 <= n < 1024 * 1024 * 1024 ==> bytes_text(n) == one_decimal(n, 1024 * 1024)
            + " MiB"@,
        n >= 1024 * 1024 * 1024 ==> bytes_text(n) == one_decimal(n, 1024 * 1024 * 1024) + " GiB"@,
{
}

/// A number is filled up with noughts in front to its width, which leaves it the
/// same number. One that is wide enough stays as it is.
pub proof fn padding_changes_no_number(n: nat, width: nat)
    ensures
        text::decimal(padded(n as int, width as int)) == n,
        text::dec(n).len() <= width ==> padded(n as int, width as int).len() == width,
        text::dec(n).len() >= width ==> padded(n as int, width as int) == text::dec(n),
        forall|i: int|
            0 <= i < width - text::dec(n).len() ==> #[trigger] padded(n as int, width as int)[i]
                == '0',
        n > 0 ==> padded(-(n as int), width as int)[0] == '-' && padded(
            -(n as int),
            width as int,
        ).skip(1) == padded(n as int, width - 1),
{
    text::a_number_reads_back(n);
    let z = width - text::dec(n).len();
    lemma_zeros_add_nothing(z, text::dec(n));
    if z <= 0 {
        assert(padded(n as int, width as int) =~= text::dec(n));
    }
    reveal_strlit("-");
    if n > 0 {
        let p = padded(-(n as int), width as int);
        assert(p.skip(1) =~= padded(n as int, width - 1));
    }
}

proof fn lemma_zeros_add_nothing(n: int, s: Seq<char>)
    ensures
        text::decimal(zeros(n) + s) == text::decimal(s),
    decreases n,
{
    if n <= 0 {
        assert(zeros(n) + s =~= s);
    } else {
        lemma_zeros_add_nothing(n - 1, s);
        assert(zeros(n) + s =~= seq!['0'] + (zeros(n - 1) + s));
        text::lemma_leading_zero(zeros(n - 1) + s);
    }
}

/// A moment is written as its date and its time of day, with a `T` between them:
/// the year counted from 1900 and the month from nought are written as usual. One
/// without a calendar is the number of its seconds.
pub proof fn a_moment_is_written_as_date_and_time(t: Civil, epoch: int)
    ensures
        iso_text(Some(t), epoch) == padded(1900 + t.year, 4) + seq!['-'] + padded(1 + t.month, 2)
            + seq!['-'] + padded(t.day as int, 2) + seq!['T'] + padded(t.hour as int, 2) + seq![':']
            + padded(t.minute as int, 2) + seq![':'] + padded(t.second as int, 2),
        iso_text(None, epoch) == seq!['e', 'p', 'o', 'c', 'h', ':'] + text::dec_int(epoch),
{
    reveal_strlit("-");
    reveal_strlit("T");
    reveal_strlit(":");
    reveal_strlit("epoch:");
    assert("-"@ =~= seq!['-'] && "T"@ =~= seq!['T'] && ":"@ =~= seq![':']);
    assert("epoch:"@ =~= seq!['e', 'p', 'o', 'c', 'h', ':']);
}

/// The button was pressed exactly where the output is `tui`, whatever white space
/// stands round it.
pub proof fn a_pressed_button_says_tui(output: Seq<char>)
    ensures
        says_pressed(output) <==> text::trim(output) == seq!['t', 'u', 'i'],
{
    reveal_strlit("tui");
    assert("tui"@ =~= seq!['t', 'u', 'i']);
}

/// Neither a host that wants no notifications nor a quiet alert raises one; the
/// two of them together raise it.
pub proof fn a_popup_takes_both_to_allow_it(alert: AlertView)
    ensures
        !pops_up(false, alert),
        alert.popup ==> pops_up(true, alert),
        !alert.popup ==> !pops_up(true, alert),
{
}

/// An alert adds nothing to another exactly where no part of what is read differs,
/// whatever its kind, its key and its urgency.
pub proof fn alerts_read_alike_by_what_is_read_of_them(
    a: AlertView,
    title: Seq<char>,
    body: Seq<char>,
    detail: Seq<char>,
    other: AlertView,
)
    ensures
        a.says_the_same(AlertView { title: a.title, body: a.body, detail: a.detail, ..other }),
        title != a.title ==> !a.says_the_same(AlertView { title, ..a }),
        body != a.body ==> !a.says_the_same(AlertView { body, ..a }),
        detail != a.detail ==> !a.says_the_same(AlertView { detail, ..a }),
{
}

} // verus!
