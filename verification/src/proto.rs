//! Protocol-level counters, as the kernel keeps them.
//!
//! The other detectors infer "nothing wanted this traffic" from the outside. The
//! kernel keeps the same judgement directly: datagrams delivered to a port with
//! no socket, and packets discarded because a receive queue was full. The second
//! is a different failure entirely: something is listening, and cannot keep up.

use vstd::prelude::*;

use crate::alert;
use crate::alert::{Alert, AlertView};
use crate::config::{Config, ConfigView};
use crate::rate::Rate;
use crate::table::Table;
use crate::text;
use crate::text::{
    cut_once, push_dec, read_unsigned, same, split_lines, split_words, to_chars, to_text,
};

verus! {

// -- Reading ------------------------------------------------------------------

/// The counters with the first `n` of a section's fields entered, each with the
/// number below it. A number that cannot be read is passed over.
pub open spec fn with_fields(
    counters: Map<Seq<char>, u64>,
    section: Seq<char>,
    fields: Seq<Seq<char>>,
    numbers: Seq<Seq<char>>,
    n: int,
) -> Map<Seq<char>, u64>
    decreases n,
{
    if n <= 0 {
        counters
    } else {
        let before = with_fields(counters, section, fields, numbers, n - 1);
        match text::unsigned(numbers[n - 1], u64::MAX as nat) {
            Some(v) => before.insert(section + "."@ + fields[n - 1], v as u64),
            None => before,
        }
    }
}

/// The smaller of two lengths.
pub open spec fn shorter(a: nat, b: nat) -> nat {
    if a <= b {
        a
    } else {
        b
    }
}

/// The counters with what a header and the line of values below it say. A header
/// must be followed by its own values; anything else is passed over.
pub open spec fn with_pair(
    counters: Map<Seq<char>, u64>,
    head: Seq<char>,
    values: Seq<char>,
) -> Map<Seq<char>, u64> {
    match (text::split_once(head, ':'), text::split_once(values, ':')) {
        (Some((section, names)), Some((vsection, nums))) => if section == vsection {
            let fields = text::words(names);
            let numbers = text::words(nums);
            with_fields(
                counters,
                section,
                fields,
                numbers,
                shorter(fields.len(), numbers.len()) as int,
            )
        } else {
            counters
        },
        _ => counters,
    }
}

/// The counters with what the first `n` pairs of lines say.
pub open spec fn with_pairs(
    counters: Map<Seq<char>, u64>,
    lines: Seq<Seq<char>>,
    n: int,
) -> Map<Seq<char>, u64>
    decreases n,
{
    if n <= 0 {
        counters
    } else {
        with_pair(with_pairs(counters, lines, n - 1), lines[2 * n - 2], lines[2 * n - 1])
    }
}

/// The counters with what a file says, which is pairs of lines: a header naming
/// the fields, then the values, each prefixed with the same section name.
pub open spec fn with_file(counters: Map<Seq<char>, u64>, content: Option<&str>) -> Map<
    Seq<char>,
    u64,
> {
    match content {
        Some(t) => with_pairs(counters, text::lines(t@), (text::lines(t@).len() / 2) as int),
        None => counters,
    }
}

/// All counters, by the content of `/proc/net/snmp` and `/proc/net/netstat`.
pub open spec fn counters_of(snmp: Option<&str>, netstat: Option<&str>) -> Map<Seq<char>, u64> {
    with_file(with_file(Map::empty(), snmp), netstat)
}

fn merge_pair(out: &mut Table<u64>, head: &Vec<char>, values: &Vec<char>)
    requires
        old(out).wf(),
    ensures
        final(out).wf(),
        final(out)@ == with_pair(old(out)@, head@, values@),
{
    match (cut_once(head, ':'), cut_once(values, ':')) {
        (Some((section, names)), Some((vsection, nums))) => {
            if !same(&section, &vsection) {
                return ;
            }
            let fields = split_words(&names);
            let numbers = split_words(&nums);
            let ghost f = text::words(names@);
            let ghost m = text::words(nums@);
            let ghost start = out@;
            let mut i: usize = 0;
            while i < fields.len() && i < numbers.len()
                invariant
                    i <= fields.len(),
                    i <= numbers.len(),
                    f == text::spelled(fields@),
                    m == text::spelled(numbers@),
                    out.wf(),
                    out@ == with_fields(start, section@, f, m, i as int),
                decreases fields.len() - i,
            {
                assert(f[i as int] == fields@[i as int]@);
                assert(m[i as int] == numbers@[i as int]@);
                match read_unsigned(&numbers[i], u64::MAX) {
                    Some(v) => {
                        let mut key = to_text(&section);
                        key.append(".");
                        key.append(to_text(&fields[i]).as_str());
                        out.put(key, v);
                    },
                    None => {},
                }
                i = i + 1;
            }
        },
        _ => {},
    }
}

/// Enter what a file says.
pub fn merge_counters(content: Option<&str>, out: &mut Table<u64>)
    requires
        old(out).wf(),
    ensures
        final(out).wf(),
        final(out)@ == with_file(old(out)@, content),
{
    match content {
        None => {},
        Some(t) => {
            let lines = split_lines(&to_chars(t));
            let ghost model = text::lines(t@);
            let ghost start = out@;
            let pairs: usize = lines.len() / 2;
            let mut k: usize = 0;
            while k < pairs
                invariant
                    k <= pairs,
                    pairs == lines@.len() / 2,
                    model == text::spelled(lines@),
                    out.wf(),
                    out@ == with_pairs(start, model, k as int),
                decreases pairs - k,
            {
                assert(2 * k + 1 < lines.len());
                assert(model[2 * k] == lines@[2 * k]@);
                assert(model[2 * k + 1] == lines@[2 * k + 1]@);
                merge_pair(out, &lines[2 * k], &lines[2 * k + 1]);
                k = k + 1;
            }
        },
    }
}

/// All counters, addressed as `Section.Field`.
pub fn all_counters(snmp: Option<&str>, netstat: Option<&str>) -> (out: Table<u64>)
    ensures
        out.wf(),
        out@ == counters_of(snmp, netstat),
{
    let mut out: Table<u64> = Table::new();
    merge_counters(snmp, &mut out);
    merge_counters(netstat, &mut out);
    out
}

/// One counter. A missing one reads as zero: kernels differ in which they
/// expose.
pub open spec fn counter_in(counters: Map<Seq<char>, u64>, key: Seq<char>) -> u64 {
    if counters.dom().contains(key) {
        counters[key]
    } else {
        0
    }
}

pub fn counter(counters: &Table<u64>, key: &str) -> (out: u64)
    ensures
        out == counter_in(counters@, key@),
{
    match counters.get(key) {
        Some(n) => *n,
        None => 0,
    }
}

/// How far a counter has moved. Counters are monotonic until they are not: going
/// backwards means that it was reset, not a negative rate.
pub open spec fn moved(prev: int, current: int) -> int {
    if current >= prev {
        current - prev
    } else {
        0
    }
}

pub fn delta(prev: u64, current: u64) -> (out: u64)
    ensures
        out == moved(prev as int, current as int),
{
    if current >= prev {
        current - prev
    } else {
        0
    }
}

// -- The detector -------------------------------------------------------------

/// The counters this detector watches, sampled at one instant.
#[derive(Clone, Copy, Debug, PartialEq, Eq, Structural)]
pub struct Sample {
    pub at: i64,
    pub no_ports: u64,
    pub rcvbuf_errors: u64,
    pub listen_drops: u128,
}

impl Sample {
    pub open spec fn of(counters: Map<Seq<char>, u64>, now: i64) -> Sample {
        Sample {
            at: now,
            no_ports: counter_in(counters, "Udp.NoPorts"@),
            rcvbuf_errors: counter_in(counters, "Udp.RcvbufErrors"@),
            listen_drops: (counter_in(counters, "TcpExt.ListenDrops"@) + counter_in(
                counters,
                "TcpExt.ListenOverflows"@,
            )) as u128,
        }
    }

    fn take(counters: &Table<u64>, now: i64) -> (out: Sample)
        ensures
            out == Sample::of(counters@, now),
            out.listen_drops <= 2 * u64::MAX,
    {
        Sample {
            at: now,
            no_ports: counter(counters, "Udp.NoPorts"),
            rcvbuf_errors: counter(counters, "Udp.RcvbufErrors"),
            listen_drops: (counter(counters, "TcpExt.ListenDrops") as u128) + (counter(
                counters,
                "TcpExt.ListenOverflows",
            ) as u128),
        }
    }
}

/// What happened between two samples.
#[derive(Clone, Copy, Debug, PartialEq, Eq, Structural)]
pub struct Between {
    /// Datagrams for ports with no socket.
    pub no_ports: u64,
    /// Packets that a full queue discarded.
    pub overflow: u128,
    /// At least one second.
    pub secs: u64,
}

impl Between {
    pub open spec fn samples(prev: Sample, current: Sample) -> Between {
        Between {
            no_ports: moved(prev.no_ports as int, current.no_ports as int) as u64,
            overflow: (moved(prev.rcvbuf_errors as int, current.rcvbuf_errors as int) + moved(
                prev.listen_drops as int,
                current.listen_drops as int,
            )) as u128,
            secs: if current.at - prev.at >= 1 {
                (current.at - prev.at) as u64
            } else {
                1
            },
        }
    }
}

pub struct ProtoDetector {
    pub last: Option<Sample>,
    /// Seconds each condition has held continuously, so that a brief spike does
    /// not raise anything.
    pub no_ports_held: u128,
    pub overflow_held: u128,
}

/// How long a condition has held after one more step, and whether that is long
/// enough. Once it is, the count starts again.
pub open spec fn held_after(held: u128, met: bool, step: u64, sustain: u64) -> (u128, bool) {
    if !met {
        (0, false)
    } else if held + step >= sustain {
        (0, true)
    } else {
        ((held + step) as u128, false)
    }
}

fn hold(held: u128, met: bool, step: u64, sustain: u64) -> (out: (u128, bool))
    requires
        held <= u64::MAX,
    ensures
        out == held_after(held, met, step, sustain),
        out.0 <= u64::MAX,
{
    if !met {
        return (0, false);
    }
    let now: u128 = held + step as u128;
    if now >= sustain as u128 {
        (0, true)
    } else {
        (now, false)
    }
}

impl ProtoDetector {
    pub open spec fn wf(self) -> bool {
        &&& self.no_ports_held <= u64::MAX
        &&& self.overflow_held <= u64::MAX
        &&& self.last is Some ==> self.last.unwrap().listen_drops <= 2 * u64::MAX
    }

    pub fn new() -> (out: ProtoDetector)
        ensures
            out.wf(),
            out == (ProtoDetector { last: None, no_ports_held: 0, overflow_held: 0 }),
    {
        ProtoDetector { last: None, no_ports_held: 0, overflow_held: 0 }
    }

    /// Sample the counters. Returns what happened since the sample before; the
    /// first one has nothing to subtract from.
    pub fn observe(&mut self, counters: &Table<u64>, now: i64) -> (out: Option<Between>)
        requires
            old(self).wf(),
        ensures
            final(self).wf(),
            *final(self) == (ProtoDetector {
                last: Some(Sample::of(counters@, now)),
                ..*old(self)
            }),
            out == match old(self).last {
                Some(prev) => Some(Between::samples(prev, Sample::of(counters@, now))),
                None => None,
            },
    {
        let current = Sample::take(counters, now);
        let before = self.last;
        self.last = Some(current);
        match before {
            None => None,
            Some(prev) => {
                let listen: u128 = if current.listen_drops >= prev.listen_drops {
                    current.listen_drops - prev.listen_drops
                } else {
                    0
                };
                let elapsed: i128 = (current.at as i128) - (prev.at as i128);
                Some(
                    Between {
                        no_ports: delta(prev.no_ports, current.no_ports),
                        overflow: (delta(prev.rcvbuf_errors, current.rcvbuf_errors) as u128)
                            + listen,
                        secs: if elapsed >= 1 {
                            elapsed as u64
                        } else {
                            1
                        },
                    },
                )
            },
        }
    }

    /// The detector once it has judged two rates, and which alerts are then due.
    pub open spec fn judged(self, config: ConfigView, no_ports: Rate, overflow: Rate) -> (
        ProtoDetector,
        (bool, bool),
    ) {
        let (no_ports_held, no_listener) = held_after(
            self.no_ports_held,
            no_ports.rank() >= config.noports_min_rate.rank(),
            config.interval_secs,
            config.proto_sustain_secs,
        );
        let (overflow_held, overflowing) = held_after(
            self.overflow_held,
            overflow.rank() >= config.rcvbuf_min_rate.rank(),
            config.interval_secs,
            config.proto_sustain_secs,
        );
        (
            ProtoDetector { last: self.last, no_ports_held, overflow_held },
            (no_listener, overflowing),
        )
    }

    /// Judge the rates. Returns whether an alert is due about datagrams nobody
    /// listens for, and whether one is about packets that a full queue discards.
    pub fn judge(&mut self, cfg: &Config, no_ports: Rate, overflow: Rate) -> (due: (bool, bool))
        requires
            old(self).wf(),
        ensures
            final(self).wf(),
            final(self).last == old(self).last,
            (*final(self), due) == old(self).judged(cfg@, no_ports, overflow),
    {
        let (no_ports_held, no_listener): (u128, bool) = hold(
            self.no_ports_held,
            no_ports.at_least(cfg.noports_min_rate),
            cfg.interval_secs,
            cfg.proto_sustain_secs,
        );
        let (overflow_held, overflowing): (u128, bool) = hold(
            self.overflow_held,
            overflow.at_least(cfg.rcvbuf_min_rate),
            cfg.interval_secs,
            cfg.proto_sustain_secs,
        );
        self.no_ports_held = no_ports_held;
        self.overflow_held = overflow_held;
        (no_listener, overflowing)
    }
}

// -- Alerts -------------------------------------------------------------------

/// The alert about datagrams nobody listens for; `rate` is the rate per second
/// without decimal places.
pub open spec fn unheard(rate: Seq<char>, held: u64) -> AlertView {
    AlertView {
        kind: "udp-no-listener"@,
        key: "udp-no-listener"@,
        title: rate + " datagrams/s arriving for ports nothing is listening on"@,
        body: "Sustained for "@ + text::dec(held as nat)
            + "s.\nThe kernel is discarding them — no socket is bound to those ports."@,
        detail:
            "Counted by Udp.NoPorts in /proc/net/snmp, which unlike the firewall log also covers traffic ufw allows through to a dead port. To see who is sending it: sudo tcpdump -nn 'udp and icmp[icmptype] != icmp-unreach'"@,
        urgency: "normal"@,
        popup: true,
    }
}

pub fn no_listener_alert(rate: &str, held: u64) -> (out: Alert)
    ensures
        out@ == unheard(rate@, held),
{
    let mut title: String = rate.to_owned();
    title.append(" datagrams/s arriving for ports nothing is listening on");
    let mut body: String = "Sustained for ".to_owned();
    push_dec(&mut body, held);
    body.append("s.\nThe kernel is discarding them — no socket is bound to those ports.");
    Alert {
        kind: "udp-no-listener",
        key: "udp-no-listener".to_owned(),
        title,
        body,
        detail:
            "Counted by Udp.NoPorts in /proc/net/snmp, which unlike the firewall log also covers traffic ufw allows through to a dead port. To see who is sending it: sudo tcpdump -nn 'udp and icmp[icmptype] != icmp-unreach'".to_owned(),
        urgency: "normal",
        popup: true,
    }
}

/// The alert about packets that a full queue discards.
pub open spec fn overrun(rate: Seq<char>, held: u64) -> AlertView {
    AlertView {
        kind: "receive-overflow"@,
        key: "receive-overflow"@,
        title: "Dropping "@ + rate + " packets/s that this host asked for"@,
        body: "Sustained for "@ + text::dec(held as nat)
            + "s.\nA socket's receive queue is full — something here cannot keep up."@,
        detail:
            "Counted by Udp.RcvbufErrors and TcpExt.ListenDrops/ListenOverflows. This is the opposite of an unwanted flood: the traffic was wanted and a local program is too slow, or its buffer too small, to take it. `ss -tuam` shows which socket is backed up."@,
        urgency: "critical"@,
        popup: true,
    }
}

pub fn overflow_alert(rate: &str, held: u64) -> (out: Alert)
    ensures
        out@ == overrun(rate@, held),
{
    let mut title: String = "Dropping ".to_owned();
    title.append(rate);
    title.append(" packets/s that this host asked for");
    let mut body: String = "Sustained for ".to_owned();
    push_dec(&mut body, held);
    body.append("s.\nA socket's receive queue is full — something here cannot keep up.");
    Alert {
        kind: "receive-overflow",
        key: "receive-overflow".to_owned(),
        title,
        body,
        detail:
            "Counted by Udp.RcvbufErrors and TcpExt.ListenDrops/ListenOverflows. This is the opposite of an unwanted flood: the traffic was wanted and a local program is too slow, or its buffer too small, to take it. `ss -tuam` shows which socket is backed up.".to_owned(),
        urgency: "critical",
        popup: true,
    }
}

// -- Laws ---------------------------------------------------------------------

/// A counter reset is not a negative rate: it reads as nothing having happened.
pub proof fn a_counter_reset_is_not_a_negative_rate(prev: Sample, current: Sample)
    requires
        current.no_ports < prev.no_ports,
        current.rcvbuf_errors < prev.rcvbuf_errors,
        current.listen_drops < prev.listen_drops,
    ensures
        Between::samples(prev, current).no_ports == 0,
        Between::samples(prev, current).overflow == 0,
{
}

/// A brief spike raises nothing: one step in which the rate is not met starts
/// the count again.
pub proof fn a_break_starts_the_count_again(held: u128, step: u64, sustain: u64)
    ensures
        held_after(held, false, step, sustain) == (0u128, false),
{
}

/// How many steps in a row have met the condition, up to the `n`-th.
pub open spec fn streak(met: Seq<bool>, n: int) -> nat
    decreases n,
{
    if n <= 0 || !met[n - 1] {
        0
    } else {
        streak(met, n - 1) + 1
    }
}

/// How many steps the condition has to hold for: as many as it takes to reach
/// the sustain time, and at least one.
pub open spec fn steps_needed(step: u64, sustain: u64) -> nat {
    if sustain == 0 {
        1
    } else {
        ((sustain + step - 1) / step as int) as nat
    }
}

/// How long a condition has held after `n` steps, and whether the `n`-th made it
/// long enough.
pub open spec fn watched(met: Seq<bool>, step: u64, sustain: u64, n: int) -> (u128, bool)
    decreases n,
{
    if n <= 0 {
        (0, false)
    } else {
        held_after(watched(met, step, sustain, n - 1).0, met[n - 1], step, sustain)
    }
}

proof fn lemma_steps_needed(step: u64, sustain: u64, r: nat)
    requires
        step > 0,
        r < steps_needed(step, sustain),
    ensures
        steps_needed(step, sustain) >= 1,
        r * step + step == (r + 1) * step,
        (r + 1) * step >= sustain <==> r + 1 == steps_needed(step, sustain),
        r + 1 < steps_needed(step, sustain) ==> (r + 1) * step <= u64::MAX,
{
    let need = steps_needed(step, sustain) as int;
    assert(r * step + step == (r + 1) * step) by (nonlinear_arith);
    if sustain > 0 {
        let top = sustain + step - 1;
        vstd::arithmetic::div_mod::lemma_fundamental_div_mod(top, step as int);
        vstd::arithmetic::div_mod::lemma_mod_bound(top, step as int);
        assert(step * need == need * step) by (nonlinear_arith);
        assert(need * step >= sustain);
        assert((need - 1) * step == need * step - step) by (nonlinear_arith);
        assert((need - 1) * step < sustain);
        if r + 1 < need {
            assert((r + 1) * step <= (need - 1) * step) by (nonlinear_arith)
                requires
                    r + 1 <= need - 1,
                    step > 0,
            ;
        }
    } else {
        assert((r + 1) * step >= 0) by (nonlinear_arith);
    }
}

/// An alert comes with the step that makes the condition hold for long enough,
/// and not before: on the N-th step in a row that meets it, N being the steps
/// that the sustain time takes, and then on every N-th after that.
pub proof fn an_alert_comes_on_the_last_step_needed(
    met: Seq<bool>,
    step: u64,
    sustain: u64,
    n: int,
)
    requires
        step > 0,
        0 < n <= met.len(),
    ensures
        watched(met, step, sustain, n).1 <==> streak(met, n) > 0 && streak(met, n) % steps_needed(
            step,
            sustain,
        ) == 0,
{
    lemma_watched(met, step, sustain, n);
}

proof fn lemma_watched(met: Seq<bool>, step: u64, sustain: u64, n: int)
    requires
        step > 0,
        0 <= n <= met.len(),
    ensures
        steps_needed(step, sustain) >= 1,
        watched(met, step, sustain, n).0 == (streak(met, n) % steps_needed(step, sustain)) * step,
        watched(met, step, sustain, n).1 <==> n > 0 && streak(met, n) > 0 && streak(met, n)
            % steps_needed(step, sustain) == 0,
    decreases n,
{
    let need = steps_needed(step, sustain);
    if sustain > 0 {
        assert((sustain + step - 1) / step as int >= 1) by (nonlinear_arith)
            requires
                sustain > 0,
                step > 0,
        ;
    }
    if n > 0 {
        lemma_watched(met, step, sustain, n - 1);
        if met[n - 1] {
            let s = streak(met, n - 1);
            let r = s % need;
            lemma_steps_needed(step, sustain, r);
            if r + 1 == need {
                assert((s + 1) % need == 0) by (nonlinear_arith)
                    requires
                        s % need == r,
                        r + 1 == need,
                        need >= 1,
                ;
            } else {
                assert((s + 1) % need == r + 1) by (nonlinear_arith)
                    requires
                        s % need == r,
                        r + 1 < need,
                ;
            }
        }
    }
    assert(0nat % need == 0) by (nonlinear_arith)
        requires
            need >= 1,
    ;
}

/// A popup about discarded packets is two lines.
pub proof fn a_popup_is_two_lines(rate: Seq<char>, held: u64)
    ensures
        alert::two_lines(unheard(rate, held).body),
        alert::two_lines(overrun(rate, held).body),
{
    broadcast use alert::lemma_unbroken_sum;
    broadcast use alert::lemma_number_is_unbroken;

    let unheard_end = "s.\nThe kernel is discarding them — no socket is bound to those ports."@;
    let overrun_end = "s.\nA socket's receive queue is full — something here cannot keep up."@;
    reveal_strlit("Sustained for ");
    reveal_strlit("s.\nThe kernel is discarding them — no socket is bound to those ports.");
    reveal_strlit("s.\nA socket's receive queue is full — something here cannot keep up.");
    assert(alert::unbroken("Sustained for "@)) by {
        reveal(alert::unbroken);
    }
    assert(alert::two_lines(unheard_end) && alert::two_lines(overrun_end)) by {
        reveal(alert::two_lines);
    }
    let first = "Sustained for "@ + text::dec(held as nat);
    alert::lemma_two_lines_after_one(first, unheard_end);
    alert::lemma_two_lines_after_one(first, overrun_end);
}

/// Between two samples overflow is what each of its two counters rose by, and a
/// counter that fell counts nothing by itself.
pub proof fn overflow_adds_what_either_counter_rose_by(prev: Sample, current: Sample)
    requires
        prev.listen_drops <= 2 * u64::MAX,
        current.listen_drops <= 2 * u64::MAX,
    ensures
        current.rcvbuf_errors >= prev.rcvbuf_errors && current.listen_drops >= prev.listen_drops
            ==> Between::samples(prev, current).overflow == (current.rcvbuf_errors
            - prev.rcvbuf_errors) + (current.listen_drops - prev.listen_drops),
        current.rcvbuf_errors <= prev.rcvbuf_errors && current.listen_drops >= prev.listen_drops
            ==> Between::samples(prev, current).overflow == current.listen_drops
            - prev.listen_drops,
        current.rcvbuf_errors >= prev.rcvbuf_errors && current.listen_drops <= prev.listen_drops
            ==> Between::samples(prev, current).overflow == current.rcvbuf_errors
            - prev.rcvbuf_errors,
        current.rcvbuf_errors <= prev.rcvbuf_errors && current.listen_drops <= prev.listen_drops
            ==> Between::samples(prev, current).overflow == 0,
{
}

/// Between two samples the datagrams for closed ports are what their counter
/// rose by, over the seconds that passed, and over one where fewer did.
pub proof fn datagrams_for_closed_ports_are_counted_over_the_time_passed(
    prev: Sample,
    current: Sample,
)
    ensures
        current.no_ports >= prev.no_ports ==> Between::samples(prev, current).no_ports
            == current.no_ports - prev.no_ports,
        current.no_ports < prev.no_ports ==> Between::samples(prev, current).no_ports == 0,
        current.at > prev.at ==> Between::samples(prev, current).secs == current.at - prev.at,
        current.at <= prev.at ==> Between::samples(prev, current).secs == 1,
{
}

/// A sample takes each number from its own counter, and nought where the counter
/// is missing. Both counters of the listening queue count.
pub proof fn a_sample_takes_each_number_from_its_counter(
    counters: Map<Seq<char>, u64>,
    now: i64,
    no_ports: u64,
    errors: u64,
    drops: u64,
    overflows: u64,
)
    ensures
        Sample::of(counters, now).at == now,
        Sample::of(Map::empty(), now) == (Sample {
            at: now,
            no_ports: 0,
            rcvbuf_errors: 0,
            listen_drops: 0,
        }),
        Sample::of(counters.insert("Udp.NoPorts"@, no_ports), now) == (Sample {
            no_ports,
            ..Sample::of(counters, now)
        }),
        Sample::of(counters.insert("Udp.RcvbufErrors"@, errors), now) == (Sample {
            rcvbuf_errors: errors,
            ..Sample::of(counters, now)
        }),
        Sample::of(
            counters.insert("TcpExt.ListenDrops"@, drops).insert(
                "TcpExt.ListenOverflows"@,
                overflows,
            ),
            now,
        ) == (Sample { listen_drops: (drops + overflows) as u128, ..Sample::of(counters, now) }),
{
    reveal_strlit("Udp.NoPorts");
    reveal_strlit("Udp.RcvbufErrors");
    reveal_strlit("TcpExt.ListenDrops");
    reveal_strlit("TcpExt.ListenOverflows");
    assert("Udp.NoPorts"@.len() == 11 && "Udp.RcvbufErrors"@.len() == 16
        && "TcpExt.ListenDrops"@.len() == 18 && "TcpExt.ListenOverflows"@.len() == 22);
}

/// A name and its number, at the same place of a header and of the line of
/// values below it, become a counter under the section and the name, with a dot
/// between them.
pub proof fn a_header_names_the_numbers_below_it(
    counters: Map<Seq<char>, u64>,
    section: Seq<char>,
    names: Seq<Seq<char>>,
    values: Seq<Seq<char>>,
    k: int,
    n: u64,
)
    requires
        !section.contains(':'),
        names.len() == values.len(),
        forall|i: int| 0 <= i < names.len() ==> text::is_word(#[trigger] names[i]),
        forall|i: int| 0 <= i < values.len() ==> text::is_word(#[trigger] values[i]),
        forall|i: int, j: int|
            0 <= i < j < names.len() ==> #[trigger] names[i] != #[trigger] names[j],
        0 <= k < names.len(),
        values[k] == text::dec(n as nat),
    ensures
        ({
            let after = with_pair(
                counters,
                section + seq![':'] + text::join(names, " "@),
                section + seq![':'] + text::join(values, " "@),
            );
            let key = section + seq!['.'] + names[k];
            after.dom().contains(key) && after[key] == n
        }),
{
    let head = text::join(names, " "@);
    let below = text::join(values, " "@);
    text::a_split_gives_both_sides(section, ':', head);
    text::a_split_gives_both_sides(section, ':', below);
    text::splitting_words_undoes_joining(names);
    text::splitting_words_undoes_joining(values);
    reveal_strlit(".");
    assert("."@ =~= seq!['.']);
    text::a_number_reads_back(n as nat);
    lemma_field(counters, section, names, values, names.len() as int, k, n);
}

proof fn lemma_field(
    counters: Map<Seq<char>, u64>,
    section: Seq<char>,
    names: Seq<Seq<char>>,
    values: Seq<Seq<char>>,
    upto: int,
    k: int,
    n: u64,
)
    requires
        0 <= k < upto <= names.len(),
        names.len() == values.len(),
        forall|i: int, j: int|
            0 <= i < j < names.len() ==> #[trigger] names[i] != #[trigger] names[j],
        text::unsigned(values[k], u64::MAX as nat) == Some(n as nat),
    ensures
        ({
            let after = with_fields(counters, section, names, values, upto);
            let key = section + "."@ + names[k];
            after.dom().contains(key) && after[key] == n
        }),
    decreases upto,
{
    let key = section + "."@ + names[k];
    if upto - 1 > k {
        lemma_field(counters, section, names, values, upto - 1, k, n);
        let other = section + "."@ + names[upto - 1];
        if other == key {
            let f = section + "."@;
            assert(names[k] =~= key.skip(f.len() as int));
            assert(names[upto - 1] =~= other.skip(f.len() as int));
        }
    }
}

/// Two lines of different sections, or one without a section, add no counter.
pub proof fn lines_of_different_sections_are_no_pair(
    counters: Map<Seq<char>, u64>,
    a: Seq<char>,
    names: Seq<char>,
    b: Seq<char>,
    values: Seq<char>,
)
    requires
        !a.contains(':'),
        !b.contains(':'),
    ensures
        a != b ==> with_pair(counters, a + seq![':'] + names, b + seq![':'] + values) == counters,
        with_pair(counters, a, values) == counters,
        with_pair(counters, names, b) == counters,
{
    text::a_split_gives_both_sides(a, ':', names);
    text::a_split_gives_both_sides(b, ':', values);
    text::a_cut_is_at_the_first_separator(a, ':');
    text::a_cut_is_at_the_first_separator(b, ':');
    if text::split_once(a, ':') is Some {
        let (h, t) = text::split_once(a, ':').unwrap();
        assert(a[h.len() as int] == ':');
    }
    if text::split_once(b, ':') is Some {
        let (h, t) = text::split_once(b, ':').unwrap();
        assert(b[h.len() as int] == ':');
    }
}

/// Lines are taken two by two, the first of two as the header; the second file
/// has the last word on a counter that both give.
pub proof fn lines_are_taken_two_by_two(
    counters: Map<Seq<char>, u64>,
    lines: Seq<Seq<char>>,
    n: int,
    snmp: &str,
    netstat: &str,
)
    requires
        0 <= n,
    ensures
        with_pairs(counters, lines, 0) == counters,
        with_pairs(counters, lines, n + 1) == with_pair(
            with_pairs(counters, lines, n),
            lines[2 * n],
            lines[2 * n + 1],
        ),
        counters_of(None, None) == Map::<Seq<char>, u64>::empty(),
        counters_of(Some(snmp), None) == with_pairs(
            Map::empty(),
            text::lines(snmp@),
            (text::lines(snmp@).len() / 2) as int,
        ),
        counters_of(None, Some(netstat)) == with_pairs(
            Map::empty(),
            text::lines(netstat@),
            (text::lines(netstat@).len() / 2) as int,
        ),
        counters_of(Some(snmp), Some(netstat)) == with_pairs(
            counters_of(Some(snmp), None),
            text::lines(netstat@),
            (text::lines(netstat@).len() / 2) as int,
        ),
{
}

/// The alert on datagrams for closed ports and the one on overflow are told apart
/// by their kinds, go by the same words as the counters they come from, and only
/// overflow is critical. Both say the rate and for how long.
pub proof fn closed_ports_and_overflow_are_told_apart(rate: Seq<char>, held: u64)
    ensures
        unheard(rate, held).kind == "udp-no-listener"@,
        unheard(rate, held).key == "udp-no-listener"@,
        unheard(rate, held).urgency == "normal"@,
        unheard(rate, held).popup,
        unheard(rate, held).title == rate
            + " datagrams/s arriving for ports nothing is listening on"@,
        unheard(rate, held).body == "Sustained for "@ + text::dec(held as nat)
            + "s.\nThe kernel is discarding them — no socket is bound to those ports."@,
        unheard(rate, held).detail
            == "Counted by Udp.NoPorts in /proc/net/snmp, which unlike the firewall log also covers traffic ufw allows through to a dead port. To see who is sending it: sudo tcpdump -nn 'udp and icmp[icmptype] != icmp-unreach'"@,
        overrun(rate, held).kind == "receive-overflow"@,
        overrun(rate, held).key == "receive-overflow"@,
        overrun(rate, held).urgency == "critical"@,
        overrun(rate, held).popup,
        overrun(rate, held).title == "Dropping "@ + rate
            + " packets/s that this host asked for"@,
        overrun(rate, held).body == "Sustained for "@ + text::dec(held as nat)
            + "s.\nA socket's receive queue is full — something here cannot keep up."@,
        overrun(rate, held).detail
            == "Counted by Udp.RcvbufErrors and TcpExt.ListenDrops/ListenOverflows. This is the opposite of an unwanted flood: the traffic was wanted and a local program is too slow, or its buffer too small, to take it. `ss -tuam` shows which socket is backed up."@,
{
}

/// Each rate is held against its own threshold, and counts for itself: below it
/// the time held starts over, and from it on an alert is due once the time held
/// and the interval make up the window.
pub proof fn each_rate_is_held_against_its_own_threshold(
    detector: ProtoDetector,
    config: ConfigView,
    no_ports: Rate,
    overflow: Rate,
)
    requires
        detector.wf(),
    ensures
        ({
            let (after, due) = detector.judged(config, no_ports, overflow);
            let window = config.proto_sustain_secs;
            let step = config.interval_secs;
            &&& after.last == detector.last
            &&& no_ports.rank() < config.noports_min_rate.rank() ==> !due.0 && after.no_ports_held
                == 0
            &&& no_ports.rank() >= config.noports_min_rate.rank() && detector.no_ports_held + step
                >= window ==> due.0 && after.no_ports_held == 0
            &&& no_ports.rank() >= config.noports_min_rate.rank() && detector.no_ports_held + step
                < window ==> !due.0 && after.no_ports_held == detector.no_ports_held + step
            &&& overflow.rank() < config.rcvbuf_min_rate.rank() ==> !due.1 && after.overflow_held
                == 0
            &&& overflow.rank() >= config.rcvbuf_min_rate.rank() && detector.overflow_held + step
                >= window ==> due.1 && after.overflow_held == 0
            &&& overflow.rank() >= config.rcvbuf_min_rate.rank() && detector.overflow_held + step
                < window ==> !due.1 && after.overflow_held == detector.overflow_held + step
        }),
{
}

} // verus!
